use vstd::prelude::*;

use crate::bytes::bytes_eq;

verus! {

// Common header names.
pub const HTTP_HEADER_CONTENT_LENGTH: &'static str = "Content-Length";

pub const HTTP_HEADER_CONTENT_TYPE: &'static str = "Content-Type";

pub const HTTP_HEADER_COOKIE: &'static str = "Cookie";

pub const HTTP_HEADER_HOST: &'static str = "Host";

pub const HTTP_HEADER_CONNECTION: &'static str = "Connection";

pub const HTTP_HEADER_AUTHORIZATION: &'static str = "Authorization";

pub const HTTP_HEADER_ORIGIN: &'static str = "Origin";

pub const HTTP_HEADER_USER_AGENT: &'static str = "User-Agent";

/// A header mapping with unique keys and last-write-wins insertion, stored
/// as a sequence of (name, value) byte pairs and viewed as a map.
#[derive(Debug)]
pub struct Headers {
    pub entries: Vec<(Vec<u8>, Vec<u8>)>,
}

/// The map described by an entry sequence, later entries overriding
/// earlier ones.
pub open spec fn map_of(s: Seq<(Vec<u8>, Vec<u8>)>) -> Map<Seq<u8>, Seq<u8>>
    decreases s.len(),
{
    if s.len() == 0 {
        Map::empty()
    } else {
        map_of(s.drop_last()).insert(s.last().0@, s.last().1@)
    }
}

impl View for Headers {
    type V = Map<Seq<u8>, Seq<u8>>;

    open spec fn view(&self) -> Map<Seq<u8>, Seq<u8>> {
        map_of(self.entries@)
    }
}

impl Headers {
    /// No two entries carry the same name.
    pub open spec fn wf(self) -> bool {
        forall|i: int, j: int|
            0 <= i < j < self.entries@.len() ==> (#[trigger] self.entries@[i]).0@ != (
            #[trigger] self.entries@[j]).0@
    }
}

proof fn lemma_map_of_index(s: Seq<(Vec<u8>, Vec<u8>)>, i: int)
    requires
        forall|x: int, y: int|
            0 <= x < y < s.len() ==> (#[trigger] s[x]).0@ != (#[trigger] s[y]).0@,
        0 <= i < s.len(),
    ensures
        map_of(s).dom().contains(s[i].0@),
        map_of(s)[s[i].0@] == s[i].1@,
    decreases s.len(),
{
    if i < s.len() - 1 {
        let t = s.drop_last();
        lemma_map_of_index(t, i);
        assert(s.last().0@ != s[i].0@);
    }
}

proof fn lemma_map_of_absent(s: Seq<(Vec<u8>, Vec<u8>)>, k: Seq<u8>)
    requires
        forall|x: int| 0 <= x < s.len() ==> (#[trigger] s[x]).0@ != k,
    ensures
        !map_of(s).dom().contains(k),
    decreases s.len(),
{
    if s.len() > 0 {
        let t = s.drop_last();
        assert(forall|x: int| 0 <= x < t.len() ==> (#[trigger] t[x]).0@ != k);
        lemma_map_of_absent(t, k);
    }
}

proof fn lemma_map_of_update(s: Seq<(Vec<u8>, Vec<u8>)>, i: int, p: (Vec<u8>, Vec<u8>))
    requires
        forall|x: int, y: int|
            0 <= x < y < s.len() ==> (#[trigger] s[x]).0@ != (#[trigger] s[y]).0@,
        0 <= i < s.len(),
        p.0@ == s[i].0@,
    ensures
        map_of(s.update(i, p)) =~= map_of(s).insert(p.0@, p.1@),
    decreases s.len(),
{
    let s2 = s.update(i, p);
    if i == s.len() - 1 {
        assert(s2.drop_last() =~= s.drop_last());
        assert(s2.last() == p);
    } else {
        let t = s.drop_last();
        assert(s2.drop_last() =~= t.update(i, p));
        lemma_map_of_update(t, i, p);
        assert(s.last().0@ != p.0@);
        assert(s2.last() == s.last());
        assert(map_of(s2) =~= map_of(t).insert(p.0@, p.1@).insert(s.last().0@, s.last().1@));
        assert(map_of(t).insert(p.0@, p.1@).insert(s.last().0@, s.last().1@) =~= map_of(t).insert(
            s.last().0@,
            s.last().1@,
        ).insert(p.0@, p.1@));
    }
}

proof fn lemma_map_of_len(s: Seq<(Vec<u8>, Vec<u8>)>)
    requires
        forall|x: int, y: int|
            0 <= x < y < s.len() ==> (#[trigger] s[x]).0@ != (#[trigger] s[y]).0@,
    ensures
        map_of(s).dom().finite(),
        map_of(s).dom().len() == s.len(),
    decreases s.len(),
{
    if s.len() > 0 {
        let t = s.drop_last();
        lemma_map_of_len(t);
        assert(forall|x: int| 0 <= x < t.len() ==> (#[trigger] t[x]).0@ != s.last().0@);
        lemma_map_of_absent(t, s.last().0@);
        vstd::set::axiom_set_insert_len(map_of(t).dom(), s.last().0@);
        assert(map_of(s).dom() =~= map_of(t).dom().insert(s.last().0@));
    }
}

impl Headers {
    pub fn new() -> (h: Headers)
        ensures
            h.wf(),
            h@ == Map::<Seq<u8>, Seq<u8>>::empty(),
            h.entries@.len() == 0,
    {
        Headers { entries: Vec::new() }
    }

    /// The number of distinct header names present.
    pub fn len(&self) -> (n: usize)
        requires
            self.wf(),
        ensures
            n == self@.dom().len(),
    {
        proof {
            lemma_map_of_len(self.entries@);
        }
        self.entries.len()
    }

    /// Whether a header of this name is present.
    pub fn contains_key(&self, k: &[u8]) -> (r: bool)
        requires
            self.wf(),
        ensures
            r == self@.dom().contains(k@),
    {
        let mut i: usize = 0;
        while i < self.entries.len()
            invariant
                self.wf(),
                i <= self.entries@.len(),
                forall|x: int| 0 <= x < i ==> (#[trigger] self.entries@[x]).0@ != k@,
            decreases self.entries@.len() - i,
        {
            if bytes_eq(self.entries[i].0.as_slice(), k) {
                proof {
                    lemma_map_of_index(self.entries@, i as int);
                }
                return true;
            }
            i += 1;
        }
        proof {
            lemma_map_of_absent(self.entries@, k@);
        }
        false
    }

    /// The value stored under this name, if any.
    pub fn get(&self, k: &[u8]) -> (r: Option<&Vec<u8>>)
        requires
            self.wf(),
        ensures
            match r {
                Some(v) => self@.dom().contains(k@) && v@ == self@[k@],
                None => !self@.dom().contains(k@),
            },
    {
        let mut i: usize = 0;
        while i < self.entries.len()
            invariant
                self.wf(),
                i <= self.entries@.len(),
                forall|x: int| 0 <= x < i ==> (#[trigger] self.entries@[x]).0@ != k@,
            decreases self.entries@.len() - i,
        {
            if bytes_eq(self.entries[i].0.as_slice(), k) {
                proof {
                    lemma_map_of_index(self.entries@, i as int);
                }
                return Some(&self.entries[i].1);
            }
            i += 1;
        }
        proof {
            lemma_map_of_absent(self.entries@, k@);
        }
        None
    }

    /// Stores a value under a name; a later write for the same name wins.
    /// Returns the value previously stored there, as a map insertion does.
    pub fn insert(&mut self, k: &[u8], v: Vec<u8>) -> (r: Option<Vec<u8>>)
        requires
            old(self).wf(),
        ensures
            final(self).wf(),
            final(self)@ == old(self)@.insert(k@, v@),
            match r {
                Some(prev) => old(self)@.dom().contains(k@) && prev@ == old(self)@[k@],
                None => !old(self)@.dom().contains(k@),
            },
    {
        let ghost v0 = self.entries@;
        let mut i: usize = 0;
        while i < self.entries.len()
            invariant
                self.entries@ == v0,
                v0 == old(self).entries@,
                old(self).wf(),
                i <= v0.len(),
                forall|x: int| 0 <= x < i ==> (#[trigger] v0[x]).0@ != k@,
            decreases v0.len() - i,
        {
            if bytes_eq(self.entries[i].0.as_slice(), k) {
                let prev = self.entries.remove(i);
                let (k0, v_old) = prev;
                self.entries.insert(i, (k0, v));
                proof {
                    let p = (k0, v);
                    assert(self.entries@ =~= v0.update(i as int, p));
                    lemma_map_of_index(v0, i as int);
                    lemma_map_of_update(v0, i as int, p);
                    assert forall|x: int, y: int|
                        0 <= x < y < self.entries@.len() implies (
                    #[trigger] self.entries@[x]).0@ != (#[trigger] self.entries@[y]).0@ by {
                        assert(v0[x].0@ != v0[y].0@);
                    }
                }
                return Some(v_old);
            }
            i += 1;
        }
        let kv = vstd::slice::slice_to_vec(k);
        self.entries.push((kv, v));
        proof {
            assert(self.entries@.drop_last() =~= v0);
            lemma_map_of_absent(v0, k@);
            assert forall|x: int, y: int|
                0 <= x < y < self.entries@.len() implies (#[trigger] self.entries@[x]).0@ != (
            #[trigger] self.entries@[y]).0@ by {
                if y < v0.len() {
                    assert(v0[x].0@ != v0[y].0@);
                } else {
                    assert(self.entries@[y].0@ == k@);
                    assert(v0[x].0@ != k@);
                }
            }
        }
        None
    }
}

} // verus!
