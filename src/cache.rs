use vstd::prelude::*;

use crate::node::{node_model, FileNode, NodeModel};
use crate::scan::ScanError;

verus! {

/// Seconds for which a cached summary is served without a new scan.
pub const CACHE_TTL: u64 = 3600;

/// A summary captured at `timestamp` (seconds since the epoch).
pub struct CacheEntry {
    pub path: String,
    pub node: FileNode,
    pub timestamp: u64,
}

/// Summaries of recent scans, keyed by the path string exactly as given.
pub struct ScanCache {
    entries: Vec<CacheEntry>,
}

/// A capture at `timestamp` is still served at `now`; a capture time in
/// the future (the clock went back) is not.
pub open spec fn is_fresh(timestamp: u64, now: u64) -> bool {
    timestamp <= now && now - timestamp < CACHE_TTL
}

/// What a lookup in the cache `m` serves for `path` at `now`.
pub open spec fn served(m: Map<Seq<char>, (NodeModel, u64)>, path: Seq<char>, force_refresh: bool, now: u64) -> Option<NodeModel> {
    if !force_refresh && m.contains_key(path) && is_fresh(m[path].1, now) {
        Some(m[path].0)
    } else {
        None
    }
}

/// The cache after a scan of `path` at `now` that gave `fresh`.
pub open spec fn recorded(m: Map<Seq<char>, (NodeModel, u64)>, path: Seq<char>, fresh: Option<NodeModel>, now: u64) -> Map<Seq<char>, (NodeModel, u64)> {
    match fresh {
        Some(n) => m.insert(path, (n, now)),
        None => m,
    }
}

impl ScanCache {
    pub closed spec fn has_path(self, k: Seq<char>) -> bool {
        exists|i: int| 0 <= i < self.entries@.len() && #[trigger] self.entries@[i].path@ == k
    }

    pub closed spec fn index_of(self, k: Seq<char>) -> int {
        choose|i: int| 0 <= i < self.entries@.len() && #[trigger] self.entries@[i].path@ == k
    }

    /// Each path appears at most once.
    pub closed spec fn wf(self) -> bool {
        forall|i: int, j: int|
            0 <= i < j < self.entries@.len() ==> #[trigger] self.entries@[i].path@ != #[trigger] self.entries@[j].path@
    }

    /// The cache as a map from path to the summary and its capture time.
    pub closed spec fn view(self) -> Map<Seq<char>, (NodeModel, u64)> {
        Map::new(
            |k: Seq<char>| self.has_path(k),
            |k: Seq<char>|
                (node_model(self.entries@[self.index_of(k)].node), self.entries@[self.index_of(k)].timestamp),
        )
    }

    proof fn lemma_index(self, i: int)
        requires
            self.wf(),
            0 <= i < self.entries@.len(),
        ensures
            self.view().contains_key(self.entries@[i].path@),
            self.index_of(self.entries@[i].path@) == i,
            self.view()[self.entries@[i].path@] == (node_model(self.entries@[i].node), self.entries@[i].timestamp),
    {
        let k = self.entries@[i].path@;
        assert(self.has_path(k));
        let j = self.index_of(k);
        if i != j {
            if i < j {
                assert(self.entries@[i].path@ != self.entries@[j].path@);
            } else {
                assert(self.entries@[j].path@ != self.entries@[i].path@);
            }
        }
    }

    pub fn new() -> (r: ScanCache)
        ensures
            r.wf(),
            r.view() == Map::<Seq<char>, (NodeModel, u64)>::empty(),
    {
        let r = ScanCache { entries: Vec::new() };
        assert(r.view() =~= Map::<Seq<char>, (NodeModel, u64)>::empty());
        r
    }

    /// Number of cached paths.
    pub fn len(&self) -> (r: usize)
        requires
            self.wf(),
        ensures
            r == self.view().len(),
    {
        proof {
            self.lemma_len();
        }
        self.entries.len()
    }

    proof fn lemma_len(self)
        requires
            self.wf(),
        ensures
            self.view().len() == self.entries@.len(),
    {
        let paths = Seq::new(self.entries@.len(), |i: int| self.entries@[i].path@);
        assert forall|i: int, j: int| 0 <= i < j < paths.len() implies paths[i] != paths[j] by {
            assert(self.entries@[i].path@ != self.entries@[j].path@);
        }
        assert(paths.no_duplicates());
        paths.unique_seq_to_set();
        assert(self.view().dom() =~= paths.to_set()) by {
            assert forall|k: Seq<char>| self.view().dom().contains(k) implies paths.to_set().contains(k) by {
                let i = self.index_of(k);
                assert(paths[i] == k);
            }
            assert forall|k: Seq<char>| paths.to_set().contains(k) implies self.view().dom().contains(k) by {
                let i = choose|i: int| 0 <= i < paths.len() && paths[i] == k;
                assert(self.entries@[i].path@ == k);
            }
        }
    }

    /// A copy of the summary cached for `path`, when it is still fresh at
    /// `now` and no refresh is forced.
    pub fn cached(&self, path: &String, force_refresh: bool, now: u64) -> (r: Option<FileNode>)
        requires
            self.wf(),
        ensures
            r is Some <==> served(self.view(), path@, force_refresh, now) is Some,
            r is Some ==> r->Some_0.model() == served(self.view(), path@, force_refresh, now)->Some_0,
    {
        if force_refresh {
            return None;
        }
        let mut i: usize = 0;
        while i < self.entries.len()
            invariant
                !force_refresh,
                self.wf(),
                i <= self.entries@.len(),
                forall|j: int| 0 <= j < i ==> #[trigger] self.entries@[j].path@ != path@,
            decreases self.entries@.len() - i,
        {
            if self.entries[i].path == *path {
                proof {
                    self.lemma_index(i as int);
                    assert(self.entries@[i as int].path@ == path@);
                }
                let e = &self.entries[i];
                if e.timestamp <= now && now - e.timestamp < CACHE_TTL {
                    return Some(e.node.duplicate());
                } else {
                    return None;
                }
            }
            i = i + 1;
        }
        None
    }

    /// Caches `node` for `path`, captured at `now`, in place of any
    /// earlier entry for the same path.
    pub fn store(&mut self, path: &String, node: FileNode, now: u64)
        requires
            old(self).wf(),
        ensures
            final(self).wf(),
            final(self).view() == old(self).view().insert(path@, (node.model(), now)),
    {
        let ghost before = *self;
        let entry = CacheEntry { path: path.clone(), node, timestamp: now };
        let mut i: usize = 0;
        while i < self.entries.len()
            invariant
                *self == before,
                before == *old(self),
                entry.path@ == path@,
                entry.node == node,
                entry.timestamp == now,
                self.wf(),
                i <= self.entries@.len(),
                forall|j: int| 0 <= j < i ==> #[trigger] self.entries@[j].path@ != path@,
            decreases self.entries@.len() - i,
        {
            if self.entries[i].path == *path {
                assert(before.entries@[i as int].path@ == path@);
                self.entries.set(i, entry);
                proof {
                    assert(self.entries@ == before.entries@.update(i as int, entry));
                    assert(self.wf()) by {
                        assert forall|a: int, b: int| 0 <= a < b < self.entries@.len() implies
                            #[trigger] self.entries@[a].path@ != #[trigger] self.entries@[b].path@ by {
                            assert(before.entries@[a].path@ != before.entries@[b].path@);
                            if a == i as int {
                                assert(self.entries@[a].path@ == before.entries@[a].path@);
                            }
                            if b == i as int {
                                assert(self.entries@[b].path@ == before.entries@[b].path@);
                            }
                        }
                    }
                    before.lemma_index(i as int);
                    assert(self.view() =~= before.view().insert(path@, (node_model(node), now))) by {
                        assert forall|k: Seq<char>| #[trigger] self.view().contains_key(k) == before.view().insert(path@, (node_model(node), now)).contains_key(k) by {
                            if self.has_path(k) {
                                let j = self.index_of(k);
                                if j != i {
                                    assert(before.entries@[j].path@ == k);
                                }
                            }
                            if before.has_path(k) {
                                let j = before.index_of(k);
                                if j != i {
                                    assert(self.entries@[j].path@ == k);
                                }
                            }
                        }
                        assert forall|k: Seq<char>| #[trigger] self.view().contains_key(k) implies self.view()[k] == before.view().insert(path@, (node_model(node), now))[k] by {
                            let j = self.index_of(k);
                            self.lemma_index(j);
                            if j != i {
                                before.lemma_index(j);
                            }
                        }
                    }
                }
                return;
            }
            i = i + 1;
        }
        self.entries.push(entry);
        proof {
            let n = self.entries@.len() - 1;
            assert(self.wf()) by {
                assert forall|a: int, b: int| 0 <= a < b < self.entries@.len() implies
                    #[trigger] self.entries@[a].path@ != #[trigger] self.entries@[b].path@ by {
                    if b < n {
                        assert(before.entries@[a].path@ != before.entries@[b].path@);
                    }
                }
            }
            assert(self.view() =~= before.view().insert(path@, (node_model(node), now))) by {
                assert forall|k: Seq<char>| #[trigger] self.view().contains_key(k) == before.view().insert(path@, (node_model(node), now)).contains_key(k) by {
                    if self.has_path(k) {
                        let j = self.index_of(k);
                        if j != n {
                            assert(before.entries@[j].path@ == k);
                        }
                    }
                    if before.has_path(k) {
                        let j = before.index_of(k);
                        assert(self.entries@[j].path@ == k);
                    }
                    if k == path@ {
                        assert(self.entries@[n].path@ == k);
                    }
                }
                assert forall|k: Seq<char>| #[trigger] self.view().contains_key(k) implies self.view()[k] == before.view().insert(path@, (node_model(node), now))[k] by {
                    let j = self.index_of(k);
                    self.lemma_index(j);
                    if j != n {
                        before.lemma_index(j);
                    }
                }
            }
        }
    }

    /// Ends a scan of `path` at `now`: a summary is cached and handed
    /// back; an error leaves the cache as it was.
    pub fn record(&mut self, path: &String, result: Result<FileNode, ScanError>, now: u64) -> (r: Result<FileNode, ScanError>)
        requires
            old(self).wf(),
        ensures
            final(self).wf(),
            r == result,
            final(self).view() == recorded(
                old(self).view(),
                path@,
                match result {
                    Ok(n) => Some(n.model()),
                    Err(_) => None,
                },
                now,
            ),
    {
        match result {
            Ok(node) => {
                let copy = node.duplicate();
                self.store(path, copy, now);
                Ok(node)
            },
            Err(e) => Err(e),
        }
    }

    /// Forgets every cached summary.
    pub fn clear(&mut self)
        ensures
            final(self).wf(),
            final(self).view() == Map::<Seq<char>, (NodeModel, u64)>::empty(),
    {
        self.entries.clear();
        assert(self.view() =~= Map::<Seq<char>, (NodeModel, u64)>::empty());
    }
}

/// Invalidates every entry of `cache`; it never fails.
pub fn clear_cache(cache: &mut ScanCache)
    ensures
        final(cache).wf(),
        final(cache).view() == Map::<Seq<char>, (NodeModel, u64)>::empty(),
{
    cache.clear();
}

} // verus!
