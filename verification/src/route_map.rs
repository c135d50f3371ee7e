use vstd::prelude::*;
use vstd::string::StringSliceAdditionalSpecFns;

use crate::bytes::bytes_eq;
use crate::method::Method;

verus! {

// A flat route registry, separate from the trie: handlers are indexed by
// method and by path independently, and a query returns the handlers
// registered under both its method and its path. Registering under a new
// method also files the handler under `UNKNOWN`, and registering under a
// new path also files it under the empty path, so either can serve as a
// wildcard bucket.

/// The method-indexed buckets as a map.
pub open spec fn mmap_of(s: Seq<(Method, Vec<u64>)>) -> Map<Method, Seq<u64>>
    decreases s.len(),
{
    if s.len() == 0 {
        Map::empty()
    } else {
        mmap_of(s.drop_last()).insert(s.last().0, s.last().1@)
    }
}

/// The path-indexed buckets as a map.
pub open spec fn pmap_of(s: Seq<(Vec<u8>, Vec<u64>)>) -> Map<Seq<u8>, Seq<u64>>
    decreases s.len(),
{
    if s.len() == 0 {
        Map::empty()
    } else {
        pmap_of(s.drop_last()).insert(s.last().0@, s.last().1@)
    }
}

#[derive(Clone)]
pub struct RouteMap {
    pub methods: Vec<(Method, Vec<u64>)>,
    pub paths: Vec<(Vec<u8>, Vec<u64>)>,
}

impl RouteMap {
    pub open spec fn wf(self) -> bool {
        &&& forall|i: int, j: int|
            0 <= i < j < self.methods@.len() ==> (#[trigger] self.methods@[i]).0 != (
            #[trigger] self.methods@[j]).0
        &&& forall|i: int, j: int|
            0 <= i < j < self.paths@.len() ==> (#[trigger] self.paths@[i]).0@ != (
            #[trigger] self.paths@[j]).0@
    }

    pub open spec fn method_map(self) -> Map<Method, Seq<u64>> {
        mmap_of(self.methods@)
    }

    pub open spec fn path_map(self) -> Map<Seq<u8>, Seq<u64>> {
        pmap_of(self.paths@)
    }
}

// Lemmas tying an association list to its map.

proof fn lemma_mmap_index(s: Seq<(Method, Vec<u64>)>, i: int)
    requires
        forall|x: int, y: int| 0 <= x < y < s.len() ==> (#[trigger] s[x]).0 != (#[trigger] s[y]).0,
        0 <= i < s.len(),
    ensures
        mmap_of(s).dom().contains(s[i].0),
        mmap_of(s)[s[i].0] == s[i].1@,
    decreases s.len(),
{
    if i < s.len() - 1 {
        lemma_mmap_index(s.drop_last(), i);
        assert(s.last().0 != s[i].0);
    }
}

proof fn lemma_mmap_absent(s: Seq<(Method, Vec<u64>)>, k: Method)
    requires
        forall|x: int| 0 <= x < s.len() ==> (#[trigger] s[x]).0 != k,
    ensures
        !mmap_of(s).dom().contains(k),
    decreases s.len(),
{
    if s.len() > 0 {
        let t = s.drop_last();
        assert(forall|x: int| 0 <= x < t.len() ==> (#[trigger] t[x]).0 != k);
        lemma_mmap_absent(t, k);
    }
}

proof fn lemma_mmap_update(s: Seq<(Method, Vec<u64>)>, i: int, p: (Method, Vec<u64>))
    requires
        forall|x: int, y: int| 0 <= x < y < s.len() ==> (#[trigger] s[x]).0 != (#[trigger] s[y]).0,
        0 <= i < s.len(),
        p.0 == s[i].0,
    ensures
        mmap_of(s.update(i, p)) =~= mmap_of(s).insert(p.0, p.1@),
    decreases s.len(),
{
    let s2 = s.update(i, p);
    if i == s.len() - 1 {
        assert(s2.drop_last() =~= s.drop_last());
        assert(s2.last() == p);
    } else {
        let t = s.drop_last();
        assert(s2.drop_last() =~= t.update(i, p));
        lemma_mmap_update(t, i, p);
        assert(s.last().0 != p.0);
        assert(s2.last() == s.last());
        assert(mmap_of(s2) =~= mmap_of(t).insert(p.0, p.1@).insert(s.last().0, s.last().1@));
        assert(mmap_of(t).insert(p.0, p.1@).insert(s.last().0, s.last().1@) =~= mmap_of(t).insert(
            s.last().0,
            s.last().1@,
        ).insert(p.0, p.1@));
    }
}

proof fn lemma_pmap_index(s: Seq<(Vec<u8>, Vec<u64>)>, i: int)
    requires
        forall|x: int, y: int|
            0 <= x < y < s.len() ==> (#[trigger] s[x]).0@ != (#[trigger] s[y]).0@,
        0 <= i < s.len(),
    ensures
        pmap_of(s).dom().contains(s[i].0@),
        pmap_of(s)[s[i].0@] == s[i].1@,
    decreases s.len(),
{
    if i < s.len() - 1 {
        lemma_pmap_index(s.drop_last(), i);
        assert(s.last().0@ != s[i].0@);
    }
}

proof fn lemma_pmap_absent(s: Seq<(Vec<u8>, Vec<u64>)>, k: Seq<u8>)
    requires
        forall|x: int| 0 <= x < s.len() ==> (#[trigger] s[x]).0@ != k,
    ensures
        !pmap_of(s).dom().contains(k),
    decreases s.len(),
{
    if s.len() > 0 {
        let t = s.drop_last();
        assert(forall|x: int| 0 <= x < t.len() ==> (#[trigger] t[x]).0@ != k);
        lemma_pmap_absent(t, k);
    }
}

proof fn lemma_pmap_update(s: Seq<(Vec<u8>, Vec<u64>)>, i: int, p: (Vec<u8>, Vec<u64>))
    requires
        forall|x: int, y: int|
            0 <= x < y < s.len() ==> (#[trigger] s[x]).0@ != (#[trigger] s[y]).0@,
        0 <= i < s.len(),
        p.0@ == s[i].0@,
    ensures
        pmap_of(s.update(i, p)) =~= pmap_of(s).insert(p.0@, p.1@),
    decreases s.len(),
{
    let s2 = s.update(i, p);
    if i == s.len() - 1 {
        assert(s2.drop_last() =~= s.drop_last());
        assert(s2.last() == p);
    } else {
        let t = s.drop_last();
        assert(s2.drop_last() =~= t.update(i, p));
        lemma_pmap_update(t, i, p);
        assert(s.last().0@ != p.0@);
        assert(s2.last() == s.last());
        assert(pmap_of(s2) =~= pmap_of(t).insert(p.0@, p.1@).insert(s.last().0@, s.last().1@));
        assert(pmap_of(t).insert(p.0@, p.1@).insert(s.last().0@, s.last().1@) =~= pmap_of(t).insert(
            s.last().0@,
            s.last().1@,
        ).insert(p.0@, p.1@));
    }
}

// What a query returns: every pairing of a handler from the path bucket
// with an equal one from the method bucket, in path-bucket order.

/// The occurrences of `h` in `l2`, one copy per occurrence.
pub open spec fn row_matches(h: u64, l2: Seq<u64>) -> Seq<u64>
    decreases l2.len(),
{
    if l2.len() == 0 {
        Seq::empty()
    } else {
        (if l2[0] == h {
            seq![h]
        } else {
            Seq::empty()
        }) + row_matches(h, l2.subrange(1, l2.len() as int))
    }
}

/// For each handler of `l1` in order, its occurrences in `l2`.
pub open spec fn matches_of(l1: Seq<u64>, l2: Seq<u64>) -> Seq<u64>
    decreases l1.len(),
{
    if l1.len() == 0 {
        Seq::empty()
    } else {
        row_matches(l1[0], l2) + matches_of(l1.subrange(1, l1.len() as int), l2)
    }
}

proof fn lemma_row_matches_push(h: u64, l2: Seq<u64>, x: u64)
    ensures
        row_matches(h, l2.push(x)) == row_matches(h, l2) + (if x == h {
            seq![h]
        } else {
            Seq::<u64>::empty()
        }),
    decreases l2.len(),
{
    let l2p = l2.push(x);
    if l2.len() == 0 {
        assert(l2p[0] == x);
        assert(l2p.subrange(1, l2p.len() as int).len() == 0);
        assert(row_matches(h, l2p.subrange(1, l2p.len() as int)) =~= Seq::<u64>::empty());
        if x == h {
            assert(row_matches(h, l2p) =~= seq![h]);
            assert(row_matches(h, l2) + seq![h] =~= seq![h]);
        } else {
            assert(row_matches(h, l2p) =~= Seq::<u64>::empty());
            assert(row_matches(h, l2) + Seq::<u64>::empty() =~= Seq::<u64>::empty());
        }
    } else {
        let t = l2.subrange(1, l2.len() as int);
        assert(l2p[0] == l2[0]);
        assert(l2p.subrange(1, l2p.len() as int) =~= t.push(x));
        lemma_row_matches_push(h, t, x);
        let head: Seq<u64> = if l2[0] == h {
            seq![h]
        } else {
            Seq::empty()
        };
        let tailx: Seq<u64> = if x == h {
            seq![h]
        } else {
            Seq::empty()
        };
        assert(head + (row_matches(h, t) + tailx) =~= (head + row_matches(h, t)) + tailx);
    }
}

proof fn lemma_matches_of_push(l1: Seq<u64>, x: u64, l2: Seq<u64>)
    ensures
        matches_of(l1.push(x), l2) == matches_of(l1, l2) + row_matches(x, l2),
    decreases l1.len(),
{
    let l1p = l1.push(x);
    if l1.len() == 0 {
        assert(l1p[0] == x);
        assert(l1p.subrange(1, l1p.len() as int).len() == 0);
        assert(matches_of(l1p.subrange(1, l1p.len() as int), l2) =~= Seq::<u64>::empty());
        assert(row_matches(x, l2) + Seq::<u64>::empty() =~= row_matches(x, l2));
        assert(Seq::<u64>::empty() + row_matches(x, l2) =~= row_matches(x, l2));
    } else {
        let t = l1.subrange(1, l1.len() as int);
        assert(l1p[0] == l1[0]);
        assert(l1p.subrange(1, l1p.len() as int) =~= t.push(x));
        lemma_matches_of_push(t, x, l2);
        assert(row_matches(l1[0], l2) + (matches_of(t, l2) + row_matches(x, l2)) =~= (row_matches(
            l1[0],
            l2,
        ) + matches_of(t, l2)) + row_matches(x, l2));
    }
}

/// The handlers present in both buckets, path-bucket order first, one
/// entry per matching pair.
pub fn find_matches(l1: &Vec<u64>, l2: &Vec<u64>) -> (r: Vec<u64>)
    ensures
        r@ == matches_of(l1@, l2@),
{
    let mut out: Vec<u64> = Vec::new();
    proof {
        assert(matches_of(l1@.subrange(0, 0), l2@) =~= Seq::<u64>::empty());
        assert(out@ =~= matches_of(l1@.subrange(0, 0), l2@));
    }
    let mut i: usize = 0;
    while i < l1.len()
        invariant
            i <= l1@.len(),
            out@ == matches_of(l1@.subrange(0, i as int), l2@),
        decreases l1@.len() - i,
    {
        let h1 = l1[i];
        let ghost out_before_row = out@;
        proof {
            assert(row_matches(h1, l2@.subrange(0, 0)) =~= Seq::<u64>::empty());
            assert(out@ =~= out_before_row + row_matches(h1, l2@.subrange(0, 0)));
        }
        let mut j: usize = 0;
        while j < l2.len()
            invariant
                j <= l2@.len(),
                out@ == out_before_row + row_matches(h1, l2@.subrange(0, j as int)),
            decreases l2@.len() - j,
        {
            let ghost row_pre = l2@.subrange(0, j as int);
            if l2[j] == h1 {
                out.push(h1);
            }
            proof {
                lemma_row_matches_push(h1, row_pre, l2@[j as int]);
                assert(row_pre.push(l2@[j as int]) =~= l2@.subrange(0, j + 1));
                if l2@[j as int] == h1 {
                    assert(out@ =~= out_before_row + row_matches(h1, l2@.subrange(0, j + 1)));
                } else {
                    assert(row_matches(h1, l2@.subrange(0, j + 1)) =~= row_matches(h1, row_pre));
                }
            }
            j += 1;
        }
        proof {
            assert(l2@.subrange(0, l2@.len() as int) =~= l2@);
            lemma_matches_of_push(l1@.subrange(0, i as int), h1, l2@);
            assert(l1@.subrange(0, i as int).push(h1) =~= l1@.subrange(0, i + 1));
        }
        i += 1;
    }
    proof {
        assert(l1@.subrange(0, l1@.len() as int) =~= l1@);
    }
    out
}

impl RouteMap {
    pub fn new() -> (r: RouteMap)
        ensures
            r.wf(),
            r.method_map() == Map::<Method, Seq<u64>>::empty(),
            r.path_map() == Map::<Seq<u8>, Seq<u64>>::empty(),
    {
        RouteMap { methods: Vec::new(), paths: Vec::new() }
    }

    /// Files a handler under a method bucket, creating the bucket when it
    /// is new, and then also filing the handler under `UNKNOWN`.
    pub fn register_handler_ref_by_method(&mut self, m: Method, h: u64)
        requires
            old(self).wf(),
        ensures
            final(self).wf(),
            final(self).paths == old(self).paths,
            final(self).method_map() == (if old(self).method_map().dom().contains(m) {
                old(self).method_map().insert(m, old(self).method_map()[m].push(h))
            } else if m == Method::UNKNOWN {
                old(self).method_map().insert(Method::UNKNOWN, seq![h])
            } else if old(self).method_map().dom().contains(Method::UNKNOWN) {
                old(self).method_map().insert(m, seq![h]).insert(
                    Method::UNKNOWN,
                    old(self).method_map()[Method::UNKNOWN].push(h),
                )
            } else {
                old(self).method_map().insert(m, seq![h]).insert(Method::UNKNOWN, seq![h])
            }),
        decreases (if m is UNKNOWN {
            0int
        } else {
            1int
        }),
    {
        let ghost v0 = self.methods@;
        let mut i: usize = 0;
        while i < self.methods.len()
            invariant
                self.methods@ == v0,
                v0 == old(self).methods@,
                old(self).wf(),
                self.paths == old(self).paths,
                i <= v0.len(),
                forall|x: int| 0 <= x < i ==> (#[trigger] v0[x]).0 != m,
            decreases v0.len() - i,
        {
            let mut found = false;
            match &self.methods[i] {
                (k, _) => {
                    if *k == m {
                        found = true;
                    }
                },
            }
            if found {
                let (k0, mut bucket) = self.methods.remove(i);
                bucket.push(h);
                self.methods.insert(i, (k0, bucket));
                proof {
                    let p = (k0, bucket);
                    assert(self.methods@ =~= v0.update(i as int, p));
                    lemma_mmap_index(v0, i as int);
                    lemma_mmap_update(v0, i as int, p);
                    assert forall|x: int, y: int|
                        0 <= x < y < self.methods@.len() implies (
                    #[trigger] self.methods@[x]).0 != (#[trigger] self.methods@[y]).0 by {
                        assert(v0[x].0 != v0[y].0);
                    }
                }
                return ;
            }
            i += 1;
        }
        let mut bucket: Vec<u64> = Vec::new();
        bucket.push(h);
        self.methods.push((m, bucket));
        proof {
            assert(self.methods@.drop_last() =~= v0);
            assert(bucket@ =~= seq![h]);
            lemma_mmap_absent(v0, m);
            assert forall|x: int, y: int|
                0 <= x < y < self.methods@.len() implies (#[trigger] self.methods@[x]).0 != (
            #[trigger] self.methods@[y]).0 by {
                if y < v0.len() {
                    assert(v0[x].0 != v0[y].0);
                } else {
                    assert(self.methods@[y].0 == m);
                    assert(v0[x].0 != m);
                }
            }
        }
        if !matches!(m, Method::UNKNOWN) {
            self.register_handler_ref_by_method(Method::UNKNOWN, h);
        }
    }

    /// Files a handler under a path bucket, creating the bucket when it
    /// is new, and then also filing the handler under the empty path.
    pub fn register_handler_ref_by_path(&mut self, p: &[u8], h: u64)
        requires
            old(self).wf(),
        ensures
            final(self).wf(),
            final(self).methods == old(self).methods,
            final(self).path_map() == (if old(self).path_map().dom().contains(p@) {
                old(self).path_map().insert(p@, old(self).path_map()[p@].push(h))
            } else if p@.len() == 0 {
                old(self).path_map().insert(Seq::empty(), seq![h])
            } else if old(self).path_map().dom().contains(Seq::empty()) {
                old(self).path_map().insert(p@, seq![h]).insert(
                    Seq::empty(),
                    old(self).path_map()[Seq::empty()].push(h),
                )
            } else {
                old(self).path_map().insert(p@, seq![h]).insert(Seq::empty(), seq![h])
            }),
        decreases p@.len(),
    {
        let ghost v0 = self.paths@;
        let mut i: usize = 0;
        while i < self.paths.len()
            invariant
                self.paths@ == v0,
                v0 == old(self).paths@,
                old(self).wf(),
                self.methods == old(self).methods,
                i <= v0.len(),
                forall|x: int| 0 <= x < i ==> (#[trigger] v0[x]).0@ != p@,
            decreases v0.len() - i,
        {
            if bytes_eq(self.paths[i].0.as_slice(), p) {
                let (k0, mut bucket) = self.paths.remove(i);
                bucket.push(h);
                self.paths.insert(i, (k0, bucket));
                proof {
                    let pr = (k0, bucket);
                    assert(self.paths@ =~= v0.update(i as int, pr));
                    lemma_pmap_index(v0, i as int);
                    lemma_pmap_update(v0, i as int, pr);
                    assert forall|x: int, y: int|
                        0 <= x < y < self.paths@.len() implies (#[trigger] self.paths@[x]).0@ != (
                    #[trigger] self.paths@[y]).0@ by {
                        assert(v0[x].0@ != v0[y].0@);
                    }
                }
                return ;
            }
            i += 1;
        }
        let key = vstd::slice::slice_to_vec(p);
        let mut bucket: Vec<u64> = Vec::new();
        bucket.push(h);
        self.paths.push((key, bucket));
        proof {
            assert(self.paths@.drop_last() =~= v0);
            assert(bucket@ =~= seq![h]);
            lemma_pmap_absent(v0, p@);
            assert forall|x: int, y: int|
                0 <= x < y < self.paths@.len() implies (#[trigger] self.paths@[x]).0@ != (
            #[trigger] self.paths@[y]).0@ by {
                if y < v0.len() {
                    assert(v0[x].0@ != v0[y].0@);
                } else {
                    assert(self.paths@[y].0@ == p@);
                    assert(v0[x].0@ != p@);
                }
            }
        }
        if p.len() != 0 {
            let empty: Vec<u8> = Vec::new();
            proof {
                assert(empty@ =~= Seq::<u8>::empty());
            }
            self.register_handler_ref_by_path(empty.as_slice(), h);
            proof {
                let before = old(self).path_map();
                let e = Seq::<u8>::empty();
                if before.dom().contains(e) {
                    assert(self.path_map() =~= before.insert(p@, seq![h]).insert(
                        e,
                        before[e].push(h),
                    ));
                } else {
                    assert(self.path_map() =~= before.insert(p@, seq![h]).insert(e, seq![h]));
                }
            }
        } else {
            proof {
                assert(p@ =~= Seq::<u8>::empty());
            }
        }
    }

    /// Registers a handler under both its method and its path.
    pub fn register(&mut self, m: Method, p: &str, h: u64)
        requires
            old(self).wf(),
        ensures
            final(self).wf(),
            final(self).method_map() == (if old(self).method_map().dom().contains(m) {
                old(self).method_map().insert(m, old(self).method_map()[m].push(h))
            } else if m == Method::UNKNOWN {
                old(self).method_map().insert(Method::UNKNOWN, seq![h])
            } else if old(self).method_map().dom().contains(Method::UNKNOWN) {
                old(self).method_map().insert(m, seq![h]).insert(
                    Method::UNKNOWN,
                    old(self).method_map()[Method::UNKNOWN].push(h),
                )
            } else {
                old(self).method_map().insert(m, seq![h]).insert(Method::UNKNOWN, seq![h])
            }),
            final(self).path_map() == (if old(self).path_map().dom().contains(p.spec_bytes()) {
                old(self).path_map().insert(
                    p.spec_bytes(),
                    old(self).path_map()[p.spec_bytes()].push(h),
                )
            } else if p.spec_bytes().len() == 0 {
                old(self).path_map().insert(Seq::empty(), seq![h])
            } else if old(self).path_map().dom().contains(Seq::empty()) {
                old(self).path_map().insert(p.spec_bytes(), seq![h]).insert(
                    Seq::empty(),
                    old(self).path_map()[Seq::empty()].push(h),
                )
            } else {
                old(self).path_map().insert(p.spec_bytes(), seq![h]).insert(
                    Seq::empty(),
                    seq![h],
                )
            }),
    {
        self.register_handler_ref_by_method(m, h);
        self.register_handler_ref_by_path(p.as_bytes(), h);
    }

    /// The handlers registered under both this method and this path:
    /// each handler of the path bucket, once per equal entry in the
    /// method bucket; empty when either bucket is missing.
    pub fn get_handlers(&self, m: Method, p: &str) -> (r: Vec<u64>)
        requires
            self.wf(),
        ensures
            r@ == (if self.path_map().dom().contains(p.spec_bytes())
                && self.method_map().dom().contains(m) {
                matches_of(self.path_map()[p.spec_bytes()], self.method_map()[m])
            } else {
                Seq::<u64>::empty()
            }),
    {
        let pb = p.as_bytes();
        let mut pi: usize = 0;
        let mut path_found = false;
        while pi < self.paths.len() && !path_found
            invariant
                self.wf(),
                pi <= self.paths@.len(),
                pb@ == p.spec_bytes(),
                path_found ==> pi < self.paths@.len() && self.paths@[pi as int].0@ == pb@,
                !path_found ==> forall|x: int|
                    0 <= x < pi ==> (#[trigger] self.paths@[x]).0@ != pb@,
            decreases
                    self.paths@.len() - pi,
                    (if path_found {
                        0int
                    } else {
                        1int
                    }),
        {
            if bytes_eq(self.paths[pi].0.as_slice(), pb) {
                path_found = true;
            } else {
                pi += 1;
            }
        }
        if !path_found {
            proof {
                lemma_pmap_absent(self.paths@, pb@);
            }
            return Vec::new();
        }
        let mut mi: usize = 0;
        let mut method_found = false;
        while mi < self.methods.len() && !method_found
            invariant
                self.wf(),
                mi <= self.methods@.len(),
                method_found ==> mi < self.methods@.len() && self.methods@[mi as int].0 == m,
                !method_found ==> forall|x: int|
                    0 <= x < mi ==> (#[trigger] self.methods@[x]).0 != m,
            decreases
                    self.methods@.len() - mi,
                    (if method_found {
                        0int
                    } else {
                        1int
                    }),
        {
            let mut eq = false;
            match &self.methods[mi] {
                (k, _) => {
                    if *k == m {
                        eq = true;
                    }
                },
            }
            if eq {
                method_found = true;
            } else {
                mi += 1;
            }
        }
        if !method_found {
            proof {
                lemma_mmap_absent(self.methods@, m);
            }
            return Vec::new();
        }
        proof {
            lemma_pmap_index(self.paths@, pi as int);
            lemma_mmap_index(self.methods@, mi as int);
        }
        find_matches(&self.paths[pi].1, &self.methods[mi].1)
    }
}

impl Default for RouteMap {
    fn default() -> (r: RouteMap)
        ensures
            r.wf(),
            r.method_map() == Map::<Method, Seq<u64>>::empty(),
            r.path_map() == Map::<Seq<u8>, Seq<u64>>::empty(),
    {
        RouteMap::new()
    }
}

} // verus!
