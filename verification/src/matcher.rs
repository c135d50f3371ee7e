use vstd::prelude::*;
use vstd::string::StringSliceAdditionalSpecFns;

use crate::method::Method;
use crate::req::Req;
use crate::trie::Trie;

verus! {

// The dispatch layer. An exact trie match always wins; otherwise the
// filter entries are scanned in registration order and the first whose
// predicates all hold fires. Predicates themselves are opaque callables
// held by the embedding process: the muxer assigns each one an identifier
// at registration, and resolution receives the evaluated truth value of
// every predicate as data.

/// One filter registration: the identifiers of its chained predicates,
/// all of which must hold, and the handler that then fires.
pub struct MatchEntry {
    pub matchers: Vec<usize>,
    pub handler: u64,
}

/// A filter chain under construction: the predicate identifiers collected
/// so far.
pub struct MatchChain {
    pub matchers: Vec<usize>,
}

pub struct Muxer {
    pub filters: Vec<MatchEntry>,
    pub trie: Trie,
    pub n_matchers: usize,
}

/// An entry fires when every one of its chained predicates evaluated true.
pub open spec fn entry_matches(e: MatchEntry, truth: Seq<bool>) -> bool {
    forall|k: int| 0 <= k < e.matchers@.len() ==> truth[(#[trigger] e.matchers@[k]) as int]
}

/// The handler of the first entry that fires, in registration order.
pub open spec fn first_filter(filters: Seq<MatchEntry>, truth: Seq<bool>) -> Option<u64>
    decreases filters.len(),
{
    if filters.len() == 0 {
        None
    } else if entry_matches(filters[0], truth) {
        Some(filters[0].handler)
    } else {
        first_filter(filters.subrange(1, filters.len() as int), truth)
    }
}

/// What resolution returns: the exact route if the trie has one, else the
/// first matching filter's handler, else nothing.
pub open spec fn spec_resolve(m: Muxer, method: Method, path: Seq<u8>, truth: Seq<bool>) -> Option<
    u64,
> {
    if m.trie.spec_get(path, method) is Some {
        m.trie.spec_get(path, method)
    } else {
        first_filter(m.filters@, truth)
    }
}

/// `rel` appended to `prefix` with exactly one path separator between
/// them, as static-file registration builds route paths.
pub open spec fn spec_join(a: Seq<u8>, b: Seq<u8>) -> Seq<u8> {
    if a.len() == 0 {
        b
    } else if a.last() == 47 {
        a + b
    } else {
        a + seq![47u8] + b
    }
}

/// The handler owed to `(q, mm)` by a static-file list: the last file
/// whose joined path is `q`, under the GET method.
pub open spec fn static_lookup(
    files: Seq<(Vec<u8>, u64)>,
    prefix: Seq<u8>,
    q: Seq<u8>,
    mm: Method,
) -> Option<u64>
    decreases files.len(),
{
    if files.len() == 0 {
        None
    } else if q == spec_join(prefix, files.last().0@) && mm == Method::GET {
        Some(files.last().1)
    } else {
        static_lookup(files.drop_last(), prefix, q, mm)
    }
}

fn join_path(prefix: &[u8], rel: &[u8]) -> (r: Vec<u8>)
    ensures
        r@ == spec_join(prefix@, rel@),
{
    let mut out: Vec<u8> = Vec::new();
    crate::bytes::push_bytes(&mut out, prefix);
    if prefix.len() > 0 && prefix[prefix.len() - 1] != 47 {
        out.push(47);
    }
    crate::bytes::push_bytes(&mut out, rel);
    proof {
        if prefix@.len() == 0 {
            assert(out@ =~= rel@);
        } else if prefix@.last() == 47 {
            assert(out@ =~= prefix@ + rel@);
        } else {
            assert(out@ =~= prefix@ + seq![47u8] + rel@);
        }
    }
    out
}

fn entry_fires(e: &MatchEntry, truth: &[bool]) -> (r: bool)
    requires
        forall|k: int| 0 <= k < e.matchers@.len() ==> (#[trigger] e.matchers@[k]) < truth@.len(),
    ensures
        r == entry_matches(*e, truth@),
{
    let mut k: usize = 0;
    while k < e.matchers.len()
        invariant
            k <= e.matchers@.len(),
            forall|x: int|
                0 <= x < e.matchers@.len() ==> (#[trigger] e.matchers@[x]) < truth@.len(),
            forall|x: int| 0 <= x < k ==> truth@[(#[trigger] e.matchers@[x]) as int],
        decreases e.matchers@.len() - k,
    {
        if !truth[e.matchers[k]] {
            return false;
        }
        k += 1;
    }
    true
}

impl Muxer {
    /// All predicate identifiers stored in filter entries were assigned
    /// by this muxer, and the route table is well formed.
    pub open spec fn wf(self) -> bool {
        &&& self.trie.wf()
        &&& forall|i: int, k: int|
            0 <= i < self.filters@.len() && 0 <= k < self.filters@[i].matchers@.len() ==> (
            #[trigger] self.filters@[i].matchers@[k]) < self.n_matchers
    }

    pub fn new() -> (m: Muxer)
        ensures
            m.wf(),
            m.filters@.len() == 0,
            m.n_matchers == 0,
            forall|q: Seq<u8>, mm: Method| m.trie.spec_get(q, mm) is None,
    {
        Muxer { filters: Vec::new(), trie: Trie::new(), n_matchers: 0 }
    }

    /// Starts a filter chain: assigns the next predicate identifier and
    /// opens a chain holding it. The caller keeps the predicate itself,
    /// indexed by that identifier.
    pub fn filter(&mut self) -> (c: MatchChain)
        requires
            old(self).wf(),
            old(self).n_matchers < usize::MAX,
        ensures
            final(self).wf(),
            final(self).n_matchers == old(self).n_matchers + 1,
            final(self).filters == old(self).filters,
            final(self).trie == old(self).trie,
            c.matchers@ == seq![old(self).n_matchers],
    {
        let id = self.n_matchers;
        self.n_matchers = self.n_matchers + 1;
        let mut v: Vec<usize> = Vec::new();
        v.push(id);
        proof {
            assert(v@ =~= seq![id]);
        }
        MatchChain { matchers: v }
    }

    /// Registers an exact route.
    pub fn add_handler(&mut self, m: Method, p: &str, h: u64)
        requires
            old(self).wf(),
        ensures
            final(self).wf(),
            final(self).filters == old(self).filters,
            final(self).n_matchers == old(self).n_matchers,
            forall|q: Seq<u8>, mm: Method| #[trigger] final(self).trie.spec_get(q, mm) == (if q
                == p.spec_bytes() && mm == m {
                Some(h)
            } else {
                old(self).trie.spec_get(q, mm)
            }),
    {
        self.trie.insert(p, m, h);
    }

    /// Appends one filter entry built from a finished chain.
    pub fn add_handler_from_matchers(&mut self, matchers: Vec<usize>, handler: u64)
        requires
            old(self).wf(),
            forall|k: int| 0 <= k < matchers@.len() ==> (#[trigger] matchers@[k]) < old(
                self,
            ).n_matchers,
        ensures
            final(self).wf(),
            final(self).trie == old(self).trie,
            final(self).n_matchers == old(self).n_matchers,
            final(self).filters@.len() == old(self).filters@.len() + 1,
            final(self).filters@ == old(self).filters@.push(
                MatchEntry { matchers: matchers, handler: handler },
            ),
    {
        self.filters.push(MatchEntry { matchers, handler });
    }

    /// Resolves a request: the exact route for its path and method wins;
    /// otherwise the first filter entry whose predicates all evaluated
    /// true fires; otherwise there is no route. `matcher_truth[i]` is the
    /// caller-evaluated truth of predicate `i` over this request.
    pub fn get_handler(&self, req: &Req, matcher_truth: &[bool]) -> (r: Option<u64>)
        requires
            self.wf(),
            matcher_truth@.len() == self.n_matchers,
        ensures
            r == spec_resolve(*self, req.method, req.path@, matcher_truth@),
    {
        match self.trie.get_bytes(req.path.as_slice(), req.method) {
            Some(h) => Some(h),
            None => {
                let ghost fs = self.filters@;
                proof {
                    assert(fs.subrange(0, fs.len() as int) =~= fs);
                }
                let mut i: usize = 0;
                while i < self.filters.len()
                    invariant
                        self.wf(),
                        matcher_truth@.len() == self.n_matchers,
                        self.trie.spec_get(req.path@, req.method) is None,
                        fs == self.filters@,
                        i <= fs.len(),
                        first_filter(fs, matcher_truth@) == first_filter(
                            fs.subrange(i as int, fs.len() as int),
                            matcher_truth@,
                        ),
                    decreases fs.len() - i,
                {
                    let ghost tail = fs.subrange(i as int, fs.len() as int);
                    proof {
                        assert(tail[0] == fs[i as int]);
                        assert(tail.subrange(1, tail.len() as int) =~= fs.subrange(
                            i + 1,
                            fs.len() as int,
                        ));
                    }
                    let e = &self.filters[i];
                    if entry_fires(e, matcher_truth) {
                        return Some(e.handler);
                    }
                    i += 1;
                }
                proof {
                    assert(fs.subrange(i as int, i as int).len() == 0);
                }
                None
            },
        }
    }

    /// Registers one GET route per listed file, each under the prefix
    /// joined with the file's relative path; a later entry for the same
    /// joined path overwrites an earlier one.
    pub fn serve_static(&mut self, prefix: &str, files: &Vec<(Vec<u8>, u64)>)
        requires
            old(self).wf(),
        ensures
            final(self).wf(),
            final(self).filters == old(self).filters,
            final(self).n_matchers == old(self).n_matchers,
            forall|q: Seq<u8>, mm: Method| #[trigger] final(self).trie.spec_get(q, mm) == (
            match static_lookup(files@, prefix.spec_bytes(), q, mm) {
                Some(h) => Some(h),
                None => old(self).trie.spec_get(q, mm),
            }),
    {
        let pbytes = prefix.as_bytes();
        let mut i: usize = 0;
        while i < files.len()
            invariant
                self.trie.wf(),
                self.filters == old(self).filters,
                self.n_matchers == old(self).n_matchers,
                old(self).wf(),
                pbytes@ == prefix.spec_bytes(),
                i <= files@.len(),
                forall|q: Seq<u8>, mm: Method| #[trigger] self.trie.spec_get(q, mm) == (
                match static_lookup(
                    files@.subrange(0, i as int),
                    prefix.spec_bytes(),
                    q,
                    mm,
                ) {
                    Some(h) => Some(h),
                    None => old(self).trie.spec_get(q, mm),
                }),
            decreases files@.len() - i,
        {
            let p = join_path(pbytes, files[i].0.as_slice());
            let h = files[i].1;
            self.trie.insert_bytes(p.as_slice(), Method::GET, h);
            proof {
                let pre = files@.subrange(0, i as int);
                let cur = files@.subrange(0, i + 1);
                assert(cur.drop_last() =~= pre);
                assert(cur.last() == files@[i as int]);
            }
            i += 1;
        }
        proof {
            assert(files@.subrange(0, files@.len() as int) =~= files@);
        }
    }
}

impl Default for Muxer {
    fn default() -> (m: Muxer)
        ensures
            m.wf(),
            m.filters@.len() == 0,
            m.n_matchers == 0,
            forall|q: Seq<u8>, mm: Method| m.trie.spec_get(q, mm) is None,
    {
        Muxer::new()
    }
}

impl MatchChain {
    /// Chains one more predicate: all predicates of a chain must hold for
    /// its handler to fire.
    pub fn filter(self, muxer: &mut Muxer) -> (c: MatchChain)
        requires
            old(muxer).wf(),
            old(muxer).n_matchers < usize::MAX,
        ensures
            final(muxer).wf(),
            final(muxer).n_matchers == old(muxer).n_matchers + 1,
            final(muxer).filters == old(muxer).filters,
            final(muxer).trie == old(muxer).trie,
            c.matchers@ == self.matchers@.push(old(muxer).n_matchers),
    {
        let id = muxer.n_matchers;
        muxer.n_matchers = muxer.n_matchers + 1;
        let mut v = self.matchers;
        v.push(id);
        MatchChain { matchers: v }
    }

    /// Finishes the chain: registers its predicates, combined by logical
    /// AND, with the handler that fires when they all hold.
    pub fn handle(self, muxer: &mut Muxer, h: u64)
        requires
            old(muxer).wf(),
            forall|k: int| 0 <= k < self.matchers@.len() ==> (#[trigger] self.matchers@[k]) < old(
                muxer,
            ).n_matchers,
        ensures
            final(muxer).wf(),
            final(muxer).trie == old(muxer).trie,
            final(muxer).n_matchers == old(muxer).n_matchers,
            final(muxer).filters@ == old(muxer).filters@.push(
                MatchEntry { matchers: self.matchers, handler: h },
            ),
    {
        muxer.add_handler_from_matchers(self.matchers, h);
    }
}

// The chain rule that filter composition obeys: an entry fires only when
// every predicate in it holds, so a chain with any failing predicate is
// passed over, and resolution falls through to later entries.

/// With the exact route absent, a filter entry whose predicate list
/// contains one that evaluated false never decides the result: resolution
/// is as if the entry were not there.
pub proof fn lemma_failed_chain_falls_through(
    m: Muxer,
    method: Method,
    path: Seq<u8>,
    truth: Seq<bool>,
    i: int,
    k: int,
)
    requires
        m.trie.spec_get(path, method) is None,
        0 <= i < m.filters@.len(),
        0 <= k < m.filters@[i].matchers@.len(),
        !truth[m.filters@[i].matchers@[k] as int],
    ensures
        spec_resolve(m, method, path, truth) == first_filter(
            m.filters@.remove(i),
            truth,
        ),
{
    lemma_first_filter_skip(m.filters@, truth, i);
}

proof fn lemma_first_filter_skip(fs: Seq<MatchEntry>, truth: Seq<bool>, i: int)
    requires
        0 <= i < fs.len(),
        !entry_matches(fs[i], truth),
    ensures
        first_filter(fs, truth) == first_filter(fs.remove(i), truth),
    decreases fs.len(),
{
    if i == 0 {
        assert(fs.remove(0) =~= fs.subrange(1, fs.len() as int));
    } else {
        let t = fs.subrange(1, fs.len() as int);
        lemma_first_filter_skip(t, truth, i - 1);
        assert(fs.remove(i)[0] == fs[0]);
        assert(fs.remove(i).subrange(1, fs.remove(i).len() as int) =~= t.remove(i - 1));
    }
}

} // verus!
