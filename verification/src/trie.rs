use vstd::prelude::*;
use vstd::string::StringSliceAdditionalSpecFns;

use crate::method::Method;

verus! {

// A compressed prefix tree mapping (path, method) to a handler identifier.
//
// A `Passby` node carries one owned path segment and an ordered sequence of
// child nodes; it never dispatches by itself. A `Terminal` node carries one
// method and the handler registered for the full path spelled out by the
// segments above it. Within a node's child sequence all terminals come
// first, in strictly decreasing method rank, followed by the passby
// children in strictly increasing order of their leading byte; sibling
// passby segments therefore never share a nonempty prefix.

pub enum Node {
    Passby { seg: Vec<u8>, children: Vec<Node> },
    Terminal { method: Method, handler: u64 },
}

pub open spec fn node_seg(n: Node) -> Seq<u8> {
    match n {
        Node::Passby { seg, .. } => seg@,
        Node::Terminal { .. } => Seq::empty(),
    }
}

pub open spec fn node_children(n: Node) -> Seq<Node> {
    match n {
        Node::Passby { children, .. } => children@,
        Node::Terminal { .. } => Seq::empty(),
    }
}

pub open spec fn node_method(n: Node) -> Method {
    match n {
        Node::Passby { .. } => Method::UNKNOWN,
        Node::Terminal { method, .. } => method,
    }
}

// The functional meaning of a node: the handler found for a remaining path
// and a method, or `None`. A terminal answers only once the path is fully
// consumed; a passby answers only when its segment is a prefix of the path,
// and then asks its children about the remainder. Among the children the
// first answer wins; well-formedness makes that answer unique.

pub open spec fn n_get(n: Node, p: Seq<u8>, m: Method) -> Option<u64>
    decreases n, 1int, 0int,
{
    match n {
        Node::Terminal { method, handler } => {
            if p.len() == 0 && method == m {
                Some(handler)
            } else {
                None
            }
        },
        Node::Passby { seg, children } => {
            if seg@.len() <= p.len() && p.subrange(0, seg@.len() as int) == seg@ {
                ch_get(children@, p.subrange(seg@.len() as int, p.len() as int), m)
            } else {
                None
            }
        },
    }
}

pub open spec fn ch_get(ch: Seq<Node>, p: Seq<u8>, m: Method) -> Option<u64>
    decreases ch, 0int, ch.len(),
{
    if ch.len() == 0 {
        None
    } else if n_get(ch[0], p, m) is Some {
        n_get(ch[0], p, m)
    } else {
        ch_get(ch.subrange(1, ch.len() as int), p, m)
    }
}

// Well-formedness. Every child is a terminal, or a passby with a nonempty
// segment and a well-formed subtree; terminals precede passbys; terminals
// are strictly sorted by decreasing method rank; passbys are strictly
// sorted by their leading byte, so no two siblings share a first byte.

/// The ordering conditions on one child sequence, with no recursion into
/// the subtrees.
pub open spec fn children_sorted(ch: Seq<Node>) -> bool {
    &&& (forall|i: int|
        0 <= i < ch.len() && ch[i] is Passby ==> node_seg(#[trigger] ch[i]).len() > 0)
    &&& (forall|i: int, j: int|
        0 <= i < j < ch.len() && ch[j] is Terminal ==> ch[i] is Terminal)
    &&& (forall|i: int, j: int|
        0 <= i < j < ch.len() && ch[i] is Terminal && ch[j] is Terminal
            ==> node_method(ch[i]).rank_spec() > node_method(ch[j]).rank_spec())
    &&& (forall|i: int, j: int|
        0 <= i < j < ch.len() && ch[i] is Passby && ch[j] is Passby
            ==> node_seg(ch[i])[0] < node_seg(ch[j])[0])
}

/// Each child's own subtree is well-formed, spelled out element by element
/// so that proofs can peel the sequence apart.
pub open spec fn wf_each(ch: Seq<Node>) -> bool
    decreases ch, 0int, 0int,
{
    ch.len() == 0 || (wf_node(ch[0]) && wf_each(ch.subrange(1, ch.len() as int)))
}

pub open spec fn wf_children(ch: Seq<Node>) -> bool
    decreases ch, 0int, 1int,
{
    children_sorted(ch) && wf_each(ch)
}

pub open spec fn wf_node(n: Node) -> bool
    decreases n, 1int, 0int,
{
    match n {
        Node::Terminal { .. } => true,
        Node::Passby { children, .. } => wf_children(children@),
    }
}

pub proof fn lemma_wf_each_index(ch: Seq<Node>, j: int)
    requires
        wf_each(ch),
        0 <= j < ch.len(),
    ensures
        wf_node(ch[j]),
    decreases j,
{
    if j > 0 {
        let t = ch.subrange(1, ch.len() as int);
        lemma_wf_each_index(t, j - 1);
        assert(t[j - 1] == ch[j]);
    }
}

pub proof fn lemma_wf_each_elim(ch: Seq<Node>)
    requires
        wf_each(ch),
    ensures
        forall|j: int| 0 <= j < ch.len() ==> wf_node(#[trigger] ch[j]),
{
    assert forall|j: int| 0 <= j < ch.len() implies wf_node(#[trigger] ch[j]) by {
        lemma_wf_each_index(ch, j);
    }
}

pub proof fn lemma_wf_each_intro(ch: Seq<Node>)
    requires
        forall|j: int| 0 <= j < ch.len() ==> wf_node(#[trigger] ch[j]),
    ensures
        wf_each(ch),
    decreases ch.len(),
{
    if ch.len() > 0 {
        let t = ch.subrange(1, ch.len() as int);
        assert(forall|j: int| 0 <= j < t.len() ==> t[j] == ch[j + 1]);
        lemma_wf_each_intro(t);
    }
}

// Lexicographic order on byte sequences, used by the early-exit scan.

pub open spec fn lex_lt(a: Seq<u8>, b: Seq<u8>) -> bool
    decreases a.len(),
{
    b.len() > 0 && (a.len() == 0 || a[0] < b[0] || (a[0] == b[0] && lex_lt(
        a.subrange(1, a.len() as int),
        b.subrange(1, b.len() as int),
    )))
}

// Basic lemmas about ch_get.

pub proof fn lemma_ch_get_one(x: Node, p: Seq<u8>, m: Method)
    ensures
        ch_get(seq![x], p, m) == n_get(x, p, m),
{
    let s = seq![x];
    assert(s[0] == x);
    assert(s.subrange(1, s.len() as int).len() == 0);
    assert(ch_get(s.subrange(1, s.len() as int), p, m) is None);
}

pub proof fn lemma_ch_get_append(a: Seq<Node>, b: Seq<Node>, p: Seq<u8>, m: Method)
    ensures
        ch_get(a + b, p, m) == (if ch_get(a, p, m) is Some {
            ch_get(a, p, m)
        } else {
            ch_get(b, p, m)
        }),
    decreases a.len(),
{
    if a.len() == 0 {
        assert(a + b =~= b);
    } else {
        let t = a.subrange(1, a.len() as int);
        assert((a + b)[0] == a[0]);
        assert((a + b).subrange(1, (a + b).len() as int) =~= t + b);
        lemma_ch_get_append(t, b, p, m);
    }
}

pub proof fn lemma_ch_get_none(ch: Seq<Node>, p: Seq<u8>, m: Method)
    requires
        forall|i: int| 0 <= i < ch.len() ==> n_get(#[trigger] ch[i], p, m) is None,
    ensures
        ch_get(ch, p, m) is None,
    decreases ch.len(),
{
    if ch.len() > 0 {
        let t = ch.subrange(1, ch.len() as int);
        assert(forall|i: int| 0 <= i < t.len() ==> n_get(#[trigger] t[i], p, m) is None);
        lemma_ch_get_none(t, p, m);
    }
}

// A passby with a nonempty segment cannot answer for a path that is empty
// or starts with a different byte; a terminal cannot answer for a nonempty
// path.

pub proof fn lemma_passby_first_byte(n: Node, p: Seq<u8>, m: Method)
    requires
        n is Passby,
        node_seg(n).len() > 0,
        p.len() == 0 || p[0] != node_seg(n)[0],
    ensures
        n_get(n, p, m) is None,
{
    match n {
        Node::Passby { seg, children } => {
            if seg@.len() <= p.len() && p.subrange(0, seg@.len() as int) == seg@ {
                assert(p.subrange(0, seg@.len() as int)[0] == p[0]);
                assert(false);
            }
        },
        Node::Terminal { .. } => {},
    }
}

// If a segment is lexicographically above the remaining path, it is not a
// prefix of it, and its first byte is at least the path's first byte.

pub proof fn lemma_lex_gt_no_prefix(p: Seq<u8>, w: Seq<u8>)
    requires
        lex_lt(p, w),
    ensures
        !(w.len() <= p.len() && p.subrange(0, w.len() as int) == w),
        p.len() > 0 ==> w.len() > 0 && w[0] >= p[0],
    decreases p.len(),
{
    if p.len() == 0 {
        assert(w.len() > 0);
    } else {
        if p[0] < w[0] {
            if w.len() <= p.len() && p.subrange(0, w.len() as int) == w {
                assert(p.subrange(0, w.len() as int)[0] == p[0]);
                assert(false);
            }
        } else {
            assert(p[0] == w[0]);
            let p1 = p.subrange(1, p.len() as int);
            let w1 = w.subrange(1, w.len() as int);
            lemma_lex_gt_no_prefix(p1, w1);
            if w.len() <= p.len() && p.subrange(0, w.len() as int) == w {
                assert(w1.len() <= p1.len());
                assert(p1.subrange(0, w1.len() as int) =~= w1) by {
                    assert(forall|k: int| 0 <= k < w1.len()
                        ==> #[trigger] p1.subrange(0, w1.len() as int)[k] == p[k + 1]
                            && w1[k] == w[k + 1] && p.subrange(0, w.len() as int)[k + 1] == p[k
                        + 1]);
                }
                assert(false);
            }
        }
    }
}

// Lemmas about inserting or replacing one child.

proof fn lemma_ch_get_insert_inert(ch: Seq<Node>, i: int, x: Node, p: Seq<u8>, m: Method)
    requires
        0 <= i <= ch.len(),
        n_get(x, p, m) is None,
    ensures
        ch_get(ch.insert(i, x), p, m) == ch_get(ch, p, m),
{
    let a = ch.subrange(0, i);
    let b = ch.subrange(i, ch.len() as int);
    assert(ch.insert(i, x) =~= a + (seq![x] + b));
    lemma_ch_get_append(a, seq![x] + b, p, m);
    lemma_ch_get_append(seq![x], b, p, m);
    lemma_ch_get_one(x, p, m);
    lemma_ch_get_append(a, b, p, m);
    assert(a + b =~= ch);
}

proof fn lemma_ch_get_insert_hit(ch: Seq<Node>, i: int, x: Node, p: Seq<u8>, m: Method)
    requires
        0 <= i <= ch.len(),
        n_get(x, p, m) is Some,
        forall|j: int| 0 <= j < i ==> n_get(#[trigger] ch[j], p, m) is None,
    ensures
        ch_get(ch.insert(i, x), p, m) == n_get(x, p, m),
{
    let a = ch.subrange(0, i);
    let b = ch.subrange(i, ch.len() as int);
    assert(ch.insert(i, x) =~= a + (seq![x] + b));
    assert(forall|k: int| 0 <= k < a.len() ==> n_get(#[trigger] a[k], p, m) is None);
    lemma_ch_get_none(a, p, m);
    lemma_ch_get_append(a, seq![x] + b, p, m);
    lemma_ch_get_append(seq![x], b, p, m);
    lemma_ch_get_one(x, p, m);
}

proof fn lemma_ch_get_update_inert(ch: Seq<Node>, i: int, x: Node, p: Seq<u8>, m: Method)
    requires
        0 <= i < ch.len(),
        n_get(x, p, m) == n_get(ch[i], p, m),
    ensures
        ch_get(ch.update(i, x), p, m) == ch_get(ch, p, m),
{
    let a = ch.subrange(0, i);
    let b = ch.subrange(i + 1, ch.len() as int);
    assert(ch.update(i, x) =~= a + (seq![x] + b));
    assert(ch =~= a + (seq![ch[i]] + b));
    lemma_ch_get_append(a, seq![x] + b, p, m);
    lemma_ch_get_append(seq![x], b, p, m);
    lemma_ch_get_one(x, p, m);
    lemma_ch_get_append(a, seq![ch[i]] + b, p, m);
    lemma_ch_get_append(seq![ch[i]], b, p, m);
    lemma_ch_get_one(ch[i], p, m);
}

proof fn lemma_ch_get_update_hit(ch: Seq<Node>, i: int, x: Node, p: Seq<u8>, m: Method)
    requires
        0 <= i < ch.len(),
        n_get(x, p, m) is Some,
        forall|j: int| 0 <= j < i ==> n_get(#[trigger] ch[j], p, m) is None,
    ensures
        ch_get(ch.update(i, x), p, m) == n_get(x, p, m),
{
    let a = ch.subrange(0, i);
    let b = ch.subrange(i + 1, ch.len() as int);
    assert(ch.update(i, x) =~= a + (seq![x] + b));
    assert(forall|k: int| 0 <= k < a.len() ==> n_get(#[trigger] a[k], p, m) is None);
    lemma_ch_get_none(a, p, m);
    lemma_ch_get_append(a, seq![x] + b, p, m);
    lemma_ch_get_append(seq![x], b, p, m);
    lemma_ch_get_one(x, p, m);
}

// Lemmas that carry well-formedness across one insertion or replacement.

proof fn lemma_wf_update(ch: Seq<Node>, i: int, x: Node)
    requires
        wf_children(ch),
        0 <= i < ch.len(),
        wf_node(x),
        (ch[i] is Passby && x is Passby && node_seg(x).len() > 0 && node_seg(x)[0] == node_seg(
            ch[i],
        )[0]) || (ch[i] is Terminal && x is Terminal && node_method(x) == node_method(ch[i])),
    ensures
        wf_children(ch.update(i, x)),
{
    let c2 = ch.update(i, x);
    assert(children_sorted(c2));
    lemma_wf_each_elim(ch);
    assert(forall|j: int| 0 <= j < c2.len() ==> wf_node(#[trigger] c2[j]));
    lemma_wf_each_intro(c2);
}

proof fn lemma_wf_insert(ch: Seq<Node>, i: int, x: Node)
    requires
        wf_children(ch),
        0 <= i <= ch.len(),
        wf_node(x),
        x is Terminal ==> (forall|j: int|
            0 <= j < i ==> (#[trigger] ch[j]) is Terminal && node_method(ch[j]).rank_spec()
                > node_method(x).rank_spec()) && (forall|j: int|
            i <= j < ch.len() && (#[trigger] ch[j]) is Terminal ==> node_method(
                ch[j],
            ).rank_spec() < node_method(x).rank_spec()),
        x is Passby ==> node_seg(x).len() > 0 && (forall|j: int|
            0 <= j < i ==> (#[trigger] ch[j]) is Terminal || (ch[j] is Passby && node_seg(
                ch[j],
            )[0] < node_seg(x)[0])) && (forall|j: int|
            i <= j < ch.len() ==> (#[trigger] ch[j]) is Passby && node_seg(ch[j])[0] > node_seg(
                x,
            )[0]),
    ensures
        wf_children(ch.insert(i, x)),
{
    let c2 = ch.insert(i, x);
    assert(forall|k: int| 0 <= k < i ==> #[trigger] c2[k] == ch[k]);
    assert(c2[i] == x);
    assert(forall|k: int| i < k < c2.len() ==> #[trigger] c2[k] == ch[k - 1]);
    assert(children_sorted(c2));
    lemma_wf_each_elim(ch);
    assert(forall|j: int| 0 <= j < c2.len() ==> wf_node(#[trigger] c2[j]));
    lemma_wf_each_intro(c2);
}

// Replacing a passby's children with an updated set shifts the update point
// by the node's own segment.

proof fn lemma_passby_update(c1: Node, c2: Node, sub: Seq<u8>, m: Method, h: u64)
    requires
        c1 is Passby,
        c2 is Passby,
        node_seg(c2) == node_seg(c1),
        forall|q: Seq<u8>, mm: Method| #[trigger] ch_get(node_children(c2), q, mm) == (if q == sub
            && mm == m {
            Some(h)
        } else {
            ch_get(node_children(c1), q, mm)
        }),
    ensures
        forall|q: Seq<u8>, mm: Method| #[trigger] n_get(c2, q, mm) == (if q == node_seg(c1) + sub
            && mm == m {
            Some(h)
        } else {
            n_get(c1, q, mm)
        }),
{
    let w = node_seg(c1);
    let t = w + sub;
    assert forall|q: Seq<u8>, mm: Method| #[trigger] n_get(c2, q, mm) == (if q == t && mm == m {
        Some(h)
    } else {
        n_get(c1, q, mm)
    }) by {
        assert(t.subrange(0, w.len() as int) =~= w);
        assert(t.subrange(w.len() as int, t.len() as int) =~= sub);
        if w.len() <= q.len() && q.subrange(0, w.len() as int) == w {
            let qs = q.subrange(w.len() as int, q.len() as int);
            assert(n_get(c1, q, mm) == ch_get(node_children(c1), qs, mm));
            assert(n_get(c2, q, mm) == ch_get(node_children(c2), qs, mm));
            if qs == sub && mm == m {
                assert(q =~= t);
            } else {
                if q == t && mm == m {
                    assert(qs =~= sub);
                    assert(false);
                }
            }
        } else {
            if q == t && mm == m {
                assert(q.subrange(0, w.len() as int) =~= w);
                assert(w.len() <= q.len());
                assert(false);
            }
        }
    }
}

// Splitting one passby node into a shared-prefix parent over a shrunk child
// leaves every route unchanged.

proof fn lemma_split(c1: Node, mid: Node, s: int)
    requires
        c1 is Passby,
        mid is Passby,
        0 < s < node_seg(c1).len(),
        node_seg(mid) == node_seg(c1).subrange(0, s),
        node_children(mid).len() == 1,
        node_children(mid)[0] is Passby,
        node_seg(node_children(mid)[0]) == node_seg(c1).subrange(s, node_seg(c1).len() as int),
        node_children(node_children(mid)[0]) == node_children(c1),
    ensures
        forall|q: Seq<u8>, mm: Method| #[trigger] n_get(mid, q, mm) == n_get(c1, q, mm),
{
    let w = node_seg(c1);
    let w1 = w.subrange(0, s);
    let w2 = w.subrange(s, w.len() as int);
    let shrunk = node_children(mid)[0];
    assert forall|q: Seq<u8>, mm: Method| #[trigger] n_get(mid, q, mm) == n_get(c1, q, mm) by {
        if w1.len() <= q.len() && q.subrange(0, w1.len() as int) == w1 {
            let qs = q.subrange(s, q.len() as int);
            assert(n_get(mid, q, mm) == ch_get(node_children(mid), qs, mm));
            lemma_ch_get_one(shrunk, qs, mm);
            assert(node_children(mid) =~= seq![shrunk]);
            assert(n_get(mid, q, mm) == n_get(shrunk, qs, mm));
            if w2.len() <= qs.len() && qs.subrange(0, w2.len() as int) == w2 {
                // the whole segment w is a prefix of q
                assert(q.subrange(0, w.len() as int) =~= w) by {
                    assert(forall|k: int| 0 <= k < s ==> q.subrange(0, w.len() as int)[k] == q[k]
                        && #[trigger] w[k] == w1[k] && q[k] == q.subrange(0, w1.len() as int)[k]);
                    assert(forall|k: int| s <= k < w.len() ==> q.subrange(0, w.len() as int)[k]
                        == q[k] && #[trigger] w[k] == w2[k - s] && q[k] == qs[k - s] && qs[k - s]
                        == qs.subrange(0, w2.len() as int)[k - s]);
                }
                assert(w.len() <= q.len());
                assert(n_get(c1, q, mm) == ch_get(
                    node_children(c1),
                    q.subrange(w.len() as int, q.len() as int),
                    mm,
                ));
                assert(qs.subrange(w2.len() as int, qs.len() as int) =~= q.subrange(
                    w.len() as int,
                    q.len() as int,
                ));
                assert(n_get(shrunk, qs, mm) == ch_get(
                    node_children(c1),
                    qs.subrange(w2.len() as int, qs.len() as int),
                    mm,
                ));
            } else {
                // w is not a prefix of q, so the unsplit node answers None too
                assert(n_get(shrunk, qs, mm) is None);
                if w.len() <= q.len() && q.subrange(0, w.len() as int) == w {
                    assert(w2.len() <= qs.len());
                    assert(qs.subrange(0, w2.len() as int) =~= w2) by {
                        assert(forall|k: int| 0 <= k < w2.len() ==> qs.subrange(
                            0,
                            w2.len() as int,
                        )[k] == qs[k] && qs[k] == q[k + s] && q[k + s] == q.subrange(
                            0,
                            w.len() as int,
                        )[k + s] && #[trigger] w2[k] == w[k + s]);
                    }
                    assert(false);
                }
                assert(n_get(c1, q, mm) is None);
            }
        } else {
            // not even the shared part matches
            assert(n_get(mid, q, mm) is None);
            if w.len() <= q.len() && q.subrange(0, w.len() as int) == w {
                assert(w1.len() <= q.len());
                assert(q.subrange(0, w1.len() as int) =~= w1) by {
                    assert(forall|k: int| 0 <= k < w1.len() ==> q.subrange(0, w1.len() as int)[k]
                        == q[k] && q[k] == q.subrange(0, w.len() as int)[k] && #[trigger] w1[k]
                        == w[k]);
                }
                assert(false);
            }
            assert(n_get(c1, q, mm) is None);
        }
    }
}

// Executable byte-sequence helpers.

fn starts_with(p: &[u8], w: &[u8]) -> (r: bool)
    ensures
        r == (w@.len() <= p@.len() && p@.subrange(0, w@.len() as int) == w@),
{
    if w.len() > p.len() {
        return false;
    }
    let mut i: usize = 0;
    while i < w.len()
        invariant
            i <= w@.len(),
            w@.len() <= p@.len(),
            forall|k: int| 0 <= k < i ==> p@[k] == w@[k],
        decreases w@.len() - i,
    {
        if p[i] != w[i] {
            proof {
                assert(p@.subrange(0, w@.len() as int)[i as int] == p@[i as int]);
            }
            return false;
        }
        i += 1;
    }
    proof {
        assert(p@.subrange(0, w@.len() as int) =~= w@);
    }
    true
}

fn lex_gt(a: &[u8], b: &[u8]) -> (r: bool)
    ensures
        r == lex_lt(b@, a@),
    decreases a@.len(),
{
    if a.len() == 0 {
        false
    } else if b.len() == 0 {
        true
    } else if b[0] < a[0] {
        true
    } else if b[0] > a[0] {
        false
    } else {
        lex_gt(&a[1..a.len()], &b[1..b.len()])
    }
}

fn shared_len(w: &[u8], p: &[u8], pos: usize) -> (s: usize)
    requires
        pos <= p@.len(),
    ensures
        s <= w@.len(),
        pos + s <= p@.len(),
        forall|k: int| 0 <= k < s ==> w@[k] == p@[pos + k],
        (s < w@.len() && pos + s < p@.len()) ==> w@[s as int] != p@[pos + s],
{
    let wlen = w.len();
    let plen = p.len();
    let mut s: usize = 0;
    while s < wlen && pos + s < plen && w[s] == p[pos + s]
        invariant
            wlen == w@.len(),
            plen == p@.len(),
            s <= w@.len(),
            pos + s <= p@.len(),
            forall|k: int| 0 <= k < s ==> w@[k] == p@[pos + k],
        decreases w@.len() - s,
    {
        s += 1;
    }
    s
}

/// A fresh chain for the unmatched remainder of a path: one passby holding
/// all remaining bytes, with a single terminal under it.
fn new_leaf(p: &[u8], pos: usize, m: Method, h: u64) -> (r: Node)
    requires
        pos < p@.len(),
    ensures
        r is Passby,
        node_seg(r) == p@.subrange(pos as int, p@.len() as int),
        wf_node(r),
        forall|q: Seq<u8>, mm: Method| #[trigger] n_get(r, q, mm) == (if q == p@.subrange(
            pos as int,
            p@.len() as int,
        ) && mm == m {
            Some(h)
        } else {
            None::<u64>
        }),
{
    let seg = vstd::slice::slice_to_vec(vstd::slice::slice_subrange(p, pos, p.len()));
    let mut children: Vec<Node> = Vec::new();
    children.push(Node::Terminal { method: m, handler: h });
    let r = Node::Passby { seg, children };
    proof {
        let rest = p@.subrange(pos as int, p@.len() as int);
        let kids = node_children(r);
        let term = kids[0];
        assert(children_sorted(kids));
        assert(kids.subrange(1, kids.len() as int).len() == 0);
        assert(wf_each(kids.subrange(1, kids.len() as int)));
        assert(wf_node(kids[0]));
        assert(wf_each(kids));
        assert forall|q: Seq<u8>, mm: Method| #[trigger] n_get(r, q, mm) == (if q == rest && mm
            == m {
            Some(h)
        } else {
            None::<u64>
        }) by {
            assert(kids =~= seq![term]);
            if rest.len() <= q.len() && q.subrange(0, rest.len() as int) == rest {
                let qs = q.subrange(rest.len() as int, q.len() as int);
                lemma_ch_get_one(term, qs, mm);
                assert(n_get(r, q, mm) == n_get(term, qs, mm));
                if qs.len() == 0 && mm == m {
                    assert(q =~= rest);
                } else {
                    if q == rest && mm == m {
                        assert(qs.len() == 0);
                        assert(false);
                    }
                }
            } else {
                if q == rest {
                    assert(q.subrange(0, rest.len() as int) =~= rest);
                    assert(false);
                }
            }
        }
    }
    r
}

/// Inserts a terminal for `m` among a node's children, overwriting the one
/// already present for the same method, and keeping terminals first and
/// strictly sorted by decreasing rank.
fn insert_terminal(ch: &mut Vec<Node>, m: Method, h: u64)
    requires
        wf_children(old(ch)@),
    ensures
        wf_children(final(ch)@),
        forall|q: Seq<u8>, mm: Method| #[trigger] ch_get(final(ch)@, q, mm) == (if q.len() == 0
            && mm == m {
            Some(h)
        } else {
            ch_get(old(ch)@, q, mm)
        }),
{
    let ghost v0 = ch@;
    let mut i: usize = 0;
    while i < ch.len()
        invariant
            ch@ == v0,
            v0 == old(ch)@,
            wf_children(v0),
            i <= v0.len(),
            forall|j: int|
                0 <= j < i ==> (#[trigger] v0[j]) is Terminal && node_method(v0[j]) != m
                    && node_method(v0[j]).rank_spec() > m.rank_spec(),
        decreases v0.len() - i,
    {
        let mut is_term = false;
        let mut tm = Method::UNKNOWN;
        match &ch[i] {
            Node::Terminal { method, .. } => {
                is_term = true;
                tm = *method;
            },
            Node::Passby { .. } => {},
        }
        if !is_term {
            // first passby reached: every terminal was scanned, none carries m
            let x = Node::Terminal { method: m, handler: h };
            ch.insert(i, x);
            proof {
                lemma_wf_insert(v0, i as int, x);
                assert forall|q: Seq<u8>, mm: Method| #[trigger] ch_get(ch@, q, mm) == (if q.len()
                    == 0 && mm == m {
                    Some(h)
                } else {
                    ch_get(v0, q, mm)
                }) by {
                    if q.len() == 0 && mm == m {
                        assert forall|j: int| 0 <= j < i implies n_get(#[trigger] v0[j], q, mm)
                            is None by {}
                        lemma_ch_get_insert_hit(v0, i as int, x, q, mm);
                    } else {
                        lemma_ch_get_insert_inert(v0, i as int, x, q, mm);
                    }
                }
            }
            return ;
        }
        if tm == m {
            // same method: overwrite, keeping exactly one terminal for it
            let x = Node::Terminal { method: m, handler: h };
            let _old = ch.remove(i);
            ch.insert(i, x);
            proof {
                assert(ch@ =~= v0.update(i as int, x));
                lemma_wf_update(v0, i as int, x);
                assert forall|q: Seq<u8>, mm: Method| #[trigger] ch_get(ch@, q, mm) == (if q.len()
                    == 0 && mm == m {
                    Some(h)
                } else {
                    ch_get(v0, q, mm)
                }) by {
                    if q.len() == 0 && mm == m {
                        assert forall|j: int| 0 <= j < i implies n_get(#[trigger] v0[j], q, mm)
                            is None by {}
                        lemma_ch_get_update_hit(v0, i as int, x, q, mm);
                    } else {
                        lemma_ch_get_update_inert(v0, i as int, x, q, mm);
                    }
                }
            }
            return ;
        }
        if m.rank() > tm.rank() {
            // keep strictly decreasing rank: m goes right before this one
            let x = Node::Terminal { method: m, handler: h };
            ch.insert(i, x);
            proof {
                assert forall|j: int| i <= j < v0.len() && (#[trigger] v0[j]) is Terminal
                    implies node_method(v0[j]).rank_spec() < m.rank_spec() by {
                    if j > i {
                        assert(v0[i as int] is Terminal);
                    }
                }
                lemma_wf_insert(v0, i as int, x);
                assert forall|q: Seq<u8>, mm: Method| #[trigger] ch_get(ch@, q, mm) == (if q.len()
                    == 0 && mm == m {
                    Some(h)
                } else {
                    ch_get(v0, q, mm)
                }) by {
                    if q.len() == 0 && mm == m {
                        assert forall|j: int| 0 <= j < i implies n_get(#[trigger] v0[j], q, mm)
                            is None by {}
                        lemma_ch_get_insert_hit(v0, i as int, x, q, mm);
                    } else {
                        lemma_ch_get_insert_inert(v0, i as int, x, q, mm);
                    }
                }
            }
            return ;
        }
        proof {
            if tm.rank_spec() == m.rank_spec() {
                assert(tm == m);
            }
        }
        i += 1;
    }
    // every child is a terminal ranked above m: append at the end
    let x = Node::Terminal { method: m, handler: h };
    ch.insert(i, x);
    proof {
        lemma_wf_insert(v0, i as int, x);
        assert forall|q: Seq<u8>, mm: Method| #[trigger] ch_get(ch@, q, mm) == (if q.len() == 0
            && mm == m {
            Some(h)
        } else {
            ch_get(v0, q, mm)
        }) by {
            if q.len() == 0 && mm == m {
                assert forall|j: int| 0 <= j < i implies n_get(#[trigger] v0[j], q, mm) is None
                by {}
                lemma_ch_get_insert_hit(v0, i as int, x, q, mm);
            } else {
                lemma_ch_get_insert_inert(v0, i as int, x, q, mm);
            }
        }
    }
}

/// Attaches the route `(p[pos..], m) -> h` below a node whose segment has
/// already consumed `p[..pos]`, splitting an existing child where the new
/// remainder diverges in the middle of its segment.
fn attach_children(ch: &mut Vec<Node>, p: &[u8], pos: usize, m: Method, h: u64)
    requires
        wf_children(old(ch)@),
        pos <= p@.len(),
    ensures
        wf_children(final(ch)@),
        forall|q: Seq<u8>, mm: Method| #[trigger] ch_get(final(ch)@, q, mm) == (if q
            == p@.subrange(pos as int, p@.len() as int) && mm == m {
            Some(h)
        } else {
            ch_get(old(ch)@, q, mm)
        }),
    decreases p@.len() - pos,
{
    let ghost restv = p@.subrange(pos as int, p@.len() as int);
    if pos == p.len() {
        // the path is fully consumed here: place or replace the terminal
        insert_terminal(ch, m, h);
        proof {
            assert(restv =~= Seq::<u8>::empty());
            assert forall|q: Seq<u8>, mm: Method| #[trigger] ch_get(ch@, q, mm) == (if q == restv
                && mm == m {
                Some(h)
            } else {
                ch_get(old(ch)@, q, mm)
            }) by {
                if q.len() == 0 {
                    assert(q =~= restv);
                }
            }
        }
        return ;
    }
    let ghost v0 = ch@;
    let mut i: usize = 0;
    while i < ch.len()
        invariant
            ch@ == v0,
            v0 == old(ch)@,
            wf_children(v0),
            pos < p@.len(),
            p@.len() <= usize::MAX,
            restv == p@.subrange(pos as int, p@.len() as int),
            i <= v0.len(),
            forall|j: int|
                0 <= j < i ==> (#[trigger] v0[j]) is Terminal || (v0[j] is Passby && node_seg(
                    v0[j],
                ).len() > 0 && node_seg(v0[j])[0] < p@[pos as int]),
        decreases v0.len() - i,
    {
        let mut is_pb = false;
        let mut s: usize = 0;
        let mut seg_len: usize = 0;
        let mut seg0: u8 = 0;
        match &ch[i] {
            Node::Terminal { .. } => {},
            Node::Passby { seg, .. } => {
                proof {
                    assert(node_seg(v0[i as int]).len() > 0);
                }
                is_pb = true;
                s = shared_len(seg.as_slice(), p, pos);
                seg_len = seg.len();
                seg0 = seg[0];
            },
        }
        if is_pb && s == seg_len {
            // the whole segment matches: descend into this child
            proof {
                lemma_wf_each_index(v0, i as int);
            }
            let c = ch.remove(i);
            match c {
                Node::Passby { seg: cseg, children: mut grand } => {
                    attach_children(&mut grand, p, pos + s, m, h);
                    let c2 = Node::Passby { seg: cseg, children: grand };
                    ch.insert(i, c2);
                    proof {
                        let subv = p@.subrange((pos + s) as int, p@.len() as int);
                        lemma_passby_update(c, c2, subv, m, h);
                        assert(node_seg(c) + subv =~= restv);
                        assert(ch@ =~= v0.update(i as int, c2));
                        lemma_wf_update(v0, i as int, c2);
                        assert forall|q: Seq<u8>, mm: Method| #[trigger] ch_get(ch@, q, mm) == (
                        if q == restv && mm == m {
                            Some(h)
                        } else {
                            ch_get(v0, q, mm)
                        }) by {
                            if q == restv && mm == m {
                                assert forall|j: int| 0 <= j < i implies n_get(
                                    #[trigger] v0[j],
                                    q,
                                    mm,
                                ) is None by {
                                    if v0[j] is Passby {
                                        lemma_passby_first_byte(v0[j], q, mm);
                                    }
                                }
                                lemma_ch_get_update_hit(v0, i as int, c2, q, mm);
                            } else {
                                lemma_ch_get_update_inert(v0, i as int, c2, q, mm);
                            }
                        }
                    }
                    return ;
                },
                Node::Terminal { .. } => {
                    proof {
                        assert(false);
                    }
                    return ;
                },
            }
        }
        if is_pb && s > 0 {
            // partial match: split this child at the shared prefix
            proof {
                lemma_wf_each_index(v0, i as int);
            }
            let c = ch.remove(i);
            match c {
                Node::Passby { seg: cseg, children: grand } => {
                    let shared = vstd::slice::slice_to_vec(
                        vstd::slice::slice_subrange(cseg.as_slice(), 0, s),
                    );
                    let tail = vstd::slice::slice_to_vec(
                        vstd::slice::slice_subrange(cseg.as_slice(), s, cseg.len()),
                    );
                    let shrunk = Node::Passby { seg: tail, children: grand };
                    let mut mid_children: Vec<Node> = Vec::new();
                    mid_children.push(shrunk);
                    let ghost mid0 = Node::Passby { seg: shared, children: mid_children };
                    proof {
                        assert(node_children(mid0)[0] == mid_children@[0]);
                        assert(children_sorted(mid_children@));
                        assert(mid_children@.subrange(1, mid_children@.len() as int).len() == 0);
                        assert(wf_each(mid_children@.subrange(1, mid_children@.len() as int)));
                        assert(wf_node(mid_children@[0]));
                        assert(wf_each(mid_children@));
                        lemma_split(c, mid0, s as int);
                    }
                    attach_children(&mut mid_children, p, pos + s, m, h);
                    let c2 = Node::Passby { seg: shared, children: mid_children };
                    ch.insert(i, c2);
                    proof {
                        let subv = p@.subrange((pos + s) as int, p@.len() as int);
                        lemma_passby_update(mid0, c2, subv, m, h);
                        assert(node_seg(mid0) + subv =~= restv);
                        assert(ch@ =~= v0.update(i as int, c2));
                        assert(node_seg(c2)[0] == node_seg(v0[i as int])[0]);
                        lemma_wf_update(v0, i as int, c2);
                        assert forall|q: Seq<u8>, mm: Method| #[trigger] ch_get(ch@, q, mm) == (
                        if q == restv && mm == m {
                            Some(h)
                        } else {
                            ch_get(v0, q, mm)
                        }) by {
                            if q == restv && mm == m {
                                assert forall|j: int| 0 <= j < i implies n_get(
                                    #[trigger] v0[j],
                                    q,
                                    mm,
                                ) is None by {
                                    if v0[j] is Passby {
                                        lemma_passby_first_byte(v0[j], q, mm);
                                    }
                                }
                                lemma_ch_get_update_hit(v0, i as int, c2, q, mm);
                            } else {
                                lemma_ch_get_update_inert(v0, i as int, c2, q, mm);
                            }
                        }
                    }
                    return ;
                },
                Node::Terminal { .. } => {
                    proof {
                        assert(false);
                    }
                    return ;
                },
            }
        }
        if is_pb && seg0 > p[pos] {
            // no shared prefix, and this child sorts after the remainder:
            // the new branch belongs right here
            let leaf = new_leaf(p, pos, m, h);
            ch.insert(i, leaf);
            proof {
                assert(node_seg(leaf)[0] == p@[pos as int]);
                assert forall|j: int| i <= j < v0.len() implies (#[trigger] v0[j]) is Passby
                    && node_seg(v0[j])[0] > node_seg(leaf)[0] by {
                    assert(v0[i as int] is Passby);
                    if v0[j] is Terminal {
                        assert(v0[i as int] is Terminal);
                    }
                    if j > i {
                        assert(node_seg(v0[j])[0] > node_seg(v0[i as int])[0]);
                    } else {
                        assert(node_seg(v0[j])[0] == seg0);
                        assert(s < seg_len);
                        assert(node_seg(v0[i as int])[0] != p@[pos as int]);
                    }
                }
                lemma_wf_insert(v0, i as int, leaf);
                assert forall|q: Seq<u8>, mm: Method| #[trigger] ch_get(ch@, q, mm) == (if q
                    == restv && mm == m {
                    Some(h)
                } else {
                    ch_get(v0, q, mm)
                }) by {
                    if q == restv && mm == m {
                        assert forall|j: int| 0 <= j < i implies n_get(#[trigger] v0[j], q, mm)
                            is None by {
                            if v0[j] is Passby {
                                lemma_passby_first_byte(v0[j], q, mm);
                            }
                        }
                        lemma_ch_get_insert_hit(v0, i as int, leaf, q, mm);
                    } else {
                        lemma_ch_get_insert_inert(v0, i as int, leaf, q, mm);
                    }
                }
            }
            return ;
        }
        proof {
            if v0[i as int] is Passby {
                assert(s == 0);
                assert(s < seg_len);
                assert(node_seg(v0[i as int])[0] != p@[pos as int]);
                assert(node_seg(v0[i as int])[0] < p@[pos as int]);
            }
        }
        i += 1;
    }
    // no child shares a byte with the remainder: append a new branch
    let leaf = new_leaf(p, pos, m, h);
    ch.insert(i, leaf);
    proof {
        assert(node_seg(leaf)[0] == p@[pos as int]);
        lemma_wf_insert(v0, i as int, leaf);
        assert forall|q: Seq<u8>, mm: Method| #[trigger] ch_get(ch@, q, mm) == (if q == restv
            && mm == m {
            Some(h)
        } else {
            ch_get(v0, q, mm)
        }) by {
            if q == restv && mm == m {
                assert forall|j: int| 0 <= j < i implies n_get(#[trigger] v0[j], q, mm)
                    is None by {
                    if v0[j] is Passby {
                        lemma_passby_first_byte(v0[j], q, mm);
                    }
                }
                lemma_ch_get_insert_hit(v0, i as int, leaf, q, mm);
            } else {
                lemma_ch_get_insert_inert(v0, i as int, leaf, q, mm);
            }
        }
    }
}

impl Node {
    /// Whether this node's segment sorts strictly after the remaining path,
    /// so that under the sort invariant neither it nor any later sibling can
    /// match. A terminal is never ahead of anything.
    pub fn is_ahead_of(&self, target: &[u8]) -> (r: bool)
        ensures
            r == (*self is Passby && lex_lt(target@, node_seg(*self))),
    {
        match self {
            Node::Passby { seg, .. } => lex_gt(seg.as_slice(), target),
            Node::Terminal { .. } => false,
        }
    }

    /// Looks up the handler registered for the remaining path `p` and
    /// method `m` under this node, scanning children only while they are
    /// not ahead of the remainder.
    pub fn get_bytes(&self, p: &[u8], m: Method) -> (r: Option<u64>)
        requires
            wf_node(*self),
        ensures
            r == n_get(*self, p@, m),
        decreases *self,
    {
        match self {
            Node::Terminal { method, handler } => {
                if p.len() == 0 && *method == m {
                    Some(*handler)
                } else {
                    None
                }
            },
            Node::Passby { seg, children } => {
                if !starts_with(p, seg.as_slice()) {
                    return None;
                }
                let rest = &p[seg.len()..p.len()];
                let ghost restv = p@.subrange(seg@.len() as int, p@.len() as int);
                proof {
                    assert(n_get(*self, p@, m) == ch_get(children@, restv, m));
                    assert(children@.subrange(0, children@.len() as int) =~= children@);
                }
                let mut i: usize = 0;
                while i < children.len()
                    invariant
                        *self == (Node::Passby { seg: *seg, children: *children }),
                        wf_children(children@),
                        i <= children@.len(),
                        rest@ == restv,
                        n_get(*self, p@, m) == ch_get(children@, restv, m),
                        ch_get(children@, restv, m) == ch_get(
                            children@.subrange(i as int, children@.len() as int),
                            restv,
                            m,
                        ),
                    decreases children@.len() - i,
                {
                    let c = &children[i];
                    if c.is_ahead_of(rest) {
                        proof {
                            lemma_lex_gt_no_prefix(restv, node_seg(children@[i as int]));
                            assert forall|j: int| i <= j < children@.len()
                                implies n_get(#[trigger] children@[j], restv, m) is None by {
                                assert(children@[j] is Passby);
                                assert(node_seg(children@[j]).len() > 0);
                                if restv.len() == 0 {
                                    lemma_passby_first_byte(children@[j], restv, m);
                                } else if j > i {
                                    assert(node_seg(children@[j])[0] > node_seg(
                                        children@[i as int],
                                    )[0]);
                                    lemma_passby_first_byte(children@[j], restv, m);
                                }
                            }
                            lemma_ch_get_none(
                                children@.subrange(i as int, children@.len() as int),
                                restv,
                                m,
                            );
                        }
                        return None;
                    }
                    proof {
                        lemma_wf_each_index(children@, i as int);
                        assert(decreases_to!(*children => children@));
                        assert(decreases_to!(children@ => children@[i as int]));
                        assert(decreases_to!(*self => children@[i as int]));
                    }
                    let r = c.get_bytes(rest, m);
                    let ghost tail = children@.subrange(i as int, children@.len() as int);
                    proof {
                        assert(tail[0] == children@[i as int]);
                        assert(tail.subrange(1, tail.len() as int) =~= children@.subrange(
                            i + 1,
                            children@.len() as int,
                        ));
                    }
                    if r.is_some() {
                        return r;
                    }
                    i += 1;
                }
                proof {
                    assert(children@.subrange(i as int, i as int).len() == 0);
                }
                None
            },
        }
    }

    /// Looks up a path given as a string slice.
    pub fn get(&self, p: &str, m: Method) -> (r: Option<u64>)
        requires
            wf_node(*self),
        ensures
            r == n_get(*self, p.spec_bytes(), m),
    {
        self.get_bytes(p.as_bytes(), m)
    }

    /// Attaches the route `(p[pos..], m) -> h` under this passby node, whose
    /// own segment is taken as already consumed.
    pub fn attach(self, p: &str, pos: usize, m: Method, h: u64) -> (r: Node)
        requires
            self is Passby,
            wf_node(self),
            pos <= p.spec_bytes().len(),
        ensures
            r is Passby,
            node_seg(r) == node_seg(self),
            wf_node(r),
            forall|q: Seq<u8>, mm: Method| #[trigger] ch_get(node_children(r), q, mm) == (if q
                == p.spec_bytes().subrange(pos as int, p.spec_bytes().len() as int) && mm == m {
                Some(h)
            } else {
                ch_get(node_children(self), q, mm)
            }),
    {
        let bytes = p.as_bytes();
        match self {
            Node::Passby { seg, mut children } => {
                attach_children(&mut children, bytes, pos, m, h);
                Node::Passby { seg, children }
            },
            Node::Terminal { method, handler } => {
                proof {
                    assert(false);
                }
                Node::Terminal { method, handler }
            },
        }
    }
}

/// The router: a synthetic passby root with an empty segment.
pub struct Trie {
    pub root: Node,
}

impl Trie {
    pub open spec fn wf(self) -> bool {
        &&& self.root is Passby
        &&& node_seg(self.root).len() == 0
        &&& wf_node(self.root)
    }

    /// The registered handler for a full path and a method, if any.
    pub open spec fn spec_get(self, p: Seq<u8>, m: Method) -> Option<u64> {
        n_get(self.root, p, m)
    }

    pub fn new() -> (t: Trie)
        ensures
            t.wf(),
            forall|p: Seq<u8>, m: Method| t.spec_get(p, m) is None,
    {
        let t = Trie { root: Node::Passby { seg: Vec::new(), children: Vec::new() } };
        proof {
            assert forall|p: Seq<u8>, m: Method| t.spec_get(p, m) is None by {
                assert(p.subrange(0, 0) =~= Seq::<u8>::empty());
                if p.subrange(0, 0) == node_seg(t.root) {
                    assert(ch_get(node_children(t.root), p.subrange(0, p.len() as int), m)
                        is None);
                }
            }
        }
        t
    }

    pub fn get_bytes(&self, p: &[u8], m: Method) -> (r: Option<u64>)
        requires
            self.wf(),
        ensures
            r == self.spec_get(p@, m),
    {
        self.root.get_bytes(p, m)
    }

    pub fn get(&self, p: &str, m: Method) -> (r: Option<u64>)
        requires
            self.wf(),
        ensures
            r == self.spec_get(p.spec_bytes(), m),
    {
        self.root.get_bytes(p.as_bytes(), m)
    }
}

impl Trie {
    /// Registers the route `(p, m) -> h`; a route already present for the
    /// same path and method is overwritten, and every other route is kept.
    pub fn insert_bytes(&mut self, p: &[u8], m: Method, h: u64)
        requires
            old(self).wf(),
        ensures
            final(self).wf(),
            forall|q: Seq<u8>, mm: Method| #[trigger] final(self).spec_get(q, mm) == (if q == p@
                && mm == m {
                Some(h)
            } else {
                old(self).spec_get(q, mm)
            }),
    {
        let mut tmp = Node::Passby { seg: Vec::new(), children: Vec::new() };
        core::mem::swap(&mut self.root, &mut tmp);
        let ghost r0 = tmp;
        match tmp {
            Node::Passby { seg, mut children } => {
                let ghost ch0 = children@;
                attach_children(&mut children, p, 0, m, h);
                self.root = Node::Passby { seg, children };
                proof {
                    assert(p@.subrange(0, p@.len() as int) =~= p@);
                    assert forall|q: Seq<u8>, mm: Method| #[trigger] self.spec_get(q, mm) == (
                    if q == p@ && mm == m {
                        Some(h)
                    } else {
                        n_get(r0, q, mm)
                    }) by {
                        assert(q.subrange(0, 0) =~= node_seg(self.root));
                        assert(q.subrange(0, 0) =~= node_seg(r0));
                        assert(q.subrange(0, q.len() as int) =~= q);
                        assert(n_get(self.root, q, mm) == ch_get(children@, q, mm));
                        assert(n_get(r0, q, mm) == ch_get(ch0, q, mm));
                    }
                }
            },
            Node::Terminal { .. } => {
                proof {
                    assert(false);
                }
            },
        }
    }

    /// Registers a route given as a string slice.
    pub fn insert(&mut self, p: &str, m: Method, h: u64)
        requires
            old(self).wf(),
        ensures
            final(self).wf(),
            forall|q: Seq<u8>, mm: Method| #[trigger] final(self).spec_get(q, mm) == (if q
                == p.spec_bytes() && mm == m {
                Some(h)
            } else {
                old(self).spec_get(q, mm)
            }),
    {
        self.insert_bytes(p.as_bytes(), m, h)
    }
}

/// The handler that a sequence of registrations owes to a pair: the one
/// carried by the last registration of exactly that path and method.
pub open spec fn last_registered(
    log: Seq<(Seq<u8>, Method, u64)>,
    p: Seq<u8>,
    m: Method,
) -> Option<u64>
    decreases log.len(),
{
    if log.len() == 0 {
        None
    } else {
        let lst = log[log.len() - 1];
        if lst.0 == p && lst.1 == m {
            Some(lst.2)
        } else {
            last_registered(log.drop_last(), p, m)
        }
    }
}

/// A trie whose lookups agree with the last registration of every pair in a
/// registration log keeps agreeing after one more `insert`: each inserted
/// pair answers with exactly the handler last registered for it, and every
/// other pair is untouched. Chained over a whole log, a lookup after any
/// sequence of inserts returns the handler last registered for that pair.
pub proof fn lemma_insert_tracks_registrations(
    t0: Trie,
    t1: Trie,
    log: Seq<(Seq<u8>, Method, u64)>,
    p: Seq<u8>,
    m: Method,
    h: u64,
)
    requires
        forall|q: Seq<u8>, mm: Method| #[trigger] t0.spec_get(q, mm) == last_registered(
            log,
            q,
            mm,
        ),
        forall|q: Seq<u8>, mm: Method| #[trigger] t1.spec_get(q, mm) == (if q == p && mm == m {
            Some(h)
        } else {
            t0.spec_get(q, mm)
        }),
    ensures
        forall|q: Seq<u8>, mm: Method| #[trigger] t1.spec_get(q, mm) == last_registered(
            log.push((p, m, h)),
            q,
            mm,
        ),
{
    let log2 = log.push((p, m, h));
    assert(log2.drop_last() =~= log);
    assert(log2[log2.len() - 1] == (p, m, h));
    assert forall|q: Seq<u8>, mm: Method| #[trigger] t1.spec_get(q, mm) == last_registered(
        log2,
        q,
        mm,
    ) by {
        if q == p && mm == m {
        } else {
            assert(last_registered(log2, q, mm) == last_registered(log, q, mm));
        }
    }
}

/// Within one well-formed node, no two terminals carry the same method:
/// re-registering a route replaces its terminal rather than adding one.
pub proof fn lemma_terminal_unique(ch: Seq<Node>, i: int, j: int)
    requires
        wf_children(ch),
        0 <= i < ch.len(),
        0 <= j < ch.len(),
        i != j,
        ch[i] is Terminal,
        ch[j] is Terminal,
    ensures
        node_method(ch[i]) != node_method(ch[j]),
{
    if i < j {
        assert(node_method(ch[i]).rank_spec() > node_method(ch[j]).rank_spec());
    } else {
        assert(node_method(ch[j]).rank_spec() > node_method(ch[i]).rank_spec());
    }
}

impl Default for Trie {
    fn default() -> (t: Trie)
        ensures
            t.wf(),
            forall|p: Seq<u8>, m: Method| t.spec_get(p, m) is None,
    {
        Trie::new()
    }
}

} // verus!
