use vstd::prelude::*;

use crate::cache::{recorded, served, CACHE_TTL};
use crate::node::NodeModel;
use crate::order::ranked_before;
use crate::scan::{dir_model, entry_bytes, entry_files, is_summary, sizes_of, subdirs, tree_bytes, tree_files, DirectEntry};
use crate::stats::{lemma_walk_without_readable_files, WalkEntry};

verus! {

/// One cached scan of `path` at `now`, as `ScanCache::cached` and
/// `ScanCache::record` make it: a fresh entry is served as it is; otherwise
/// `fresh`, the outcome of reading the filesystem (`None` on failure), is
/// recorded and returned. Gives the new cache and the result.
pub open spec fn cached_scan(
    m: Map<Seq<char>, (NodeModel, u64)>,
    path: Seq<char>,
    force_refresh: bool,
    now: u64,
    fresh: Option<NodeModel>,
) -> (Map<Seq<char>, (NodeModel, u64)>, Option<NodeModel>) {
    match served(m, path, force_refresh, now) {
        Some(n) => (m, Some(n)),
        None => (recorded(m, path, fresh, now), fresh),
    }
}

proof fn lemma_subdirs_are_leaf_dirs(s: Seq<DirectEntry>)
    ensures
        forall|k: int| 0 <= k < subdirs(s).len() ==> (#[trigger] subdirs(s)[k]).is_dir && subdirs(s)[k].children is None,
    decreases s.len(),
{
    if s.len() > 0 {
        lemma_subdirs_are_leaf_dirs(s.drop_last());
        if s.last() is Dir {
            assert(dir_model(s.last()).is_dir);
        }
    }
}

/// The children of a summary come largest first, and each is a directory
/// summary without children of its own; children of equal size keep their
/// listing order (that is what `stable_sorted_desc` states).
pub proof fn lemma_children_sorted(r: NodeModel, path: Seq<char>, entries: Seq<DirectEntry>)
    requires
        is_summary(r, path, entries),
    ensures
        forall|k: int, l: int|
            0 <= k < l < r.children.unwrap().len() ==> (#[trigger] r.children.unwrap()[k]).size >= (#[trigger] r.children.unwrap()[l]).size,
        forall|k: int|
            0 <= k < r.children.unwrap().len() ==> (#[trigger] r.children.unwrap()[k]).is_dir && r.children.unwrap()[k].children is None,
{
    let cs = r.children.unwrap();
    let input = subdirs(entries);
    lemma_subdirs_are_leaf_dirs(entries);
    let o = choose|o: Seq<usize>|
        crate::order::is_desc_order(sizes_of(input), o) && cs.len() == o.len() && forall|k: int|
            0 <= k < o.len() ==> #[trigger] cs[k] == input[o[k] as int];
    assert forall|k: int, l: int| 0 <= k < l < cs.len() implies (#[trigger] cs[k]).size >= (#[trigger] cs[l]).size by {
        assert(ranked_before(sizes_of(input), o[k] as int, o[l] as int));
        assert(cs[k] == input[o[k] as int]);
        assert(cs[l] == input[o[l] as int]);
    }
    assert forall|k: int| 0 <= k < cs.len() implies (#[trigger] cs[k]).is_dir && cs[k].children is None by {
        assert(cs[k] == input[o[k] as int]);
    }
}

/// A second scan without refresh, within the lifetime of the entry the
/// first one left, returns the same summary and changes nothing, whatever
/// the filesystem holds by then.
pub proof fn lemma_repeat_scan_is_served(
    m: Map<Seq<char>, (NodeModel, u64)>,
    path: Seq<char>,
    t1: u64,
    t2: u64,
    fresh1: Option<NodeModel>,
    fresh2: Option<NodeModel>,
)
    requires
        cached_scan(m, path, false, t1, fresh1).1 is Some,
        t1 <= t2,
        t2 < cached_scan(m, path, false, t1, fresh1).0[path].1 + CACHE_TTL,
    ensures
        cached_scan(m, path, false, t1, fresh1).0.contains_key(path),
        cached_scan(cached_scan(m, path, false, t1, fresh1).0, path, false, t2, fresh2) == cached_scan(
            m,
            path,
            false,
            t1,
            fresh1,
        ),
{
}

/// A scan that read the filesystem at `t1`, forced or not, caches what it
/// read; until `CACHE_TTL` seconds have passed, a scan without refresh
/// returns that same summary and changes nothing, whatever the filesystem
/// holds by then.
pub proof fn lemma_fresh_capture_is_served(
    m: Map<Seq<char>, (NodeModel, u64)>,
    path: Seq<char>,
    force_refresh: bool,
    t1: u64,
    n: NodeModel,
    t2: u64,
    fresh2: Option<NodeModel>,
)
    requires
        served(m, path, force_refresh, t1) is None,
        t1 <= t2,
        t2 < t1 + CACHE_TTL,
    ensures
        cached_scan(m, path, force_refresh, t1, Some(n)) == (m.insert(path, (n, t1)), Some(n)),
        cached_scan(m.insert(path, (n, t1)), path, false, t2, fresh2) == (m.insert(path, (n, t1)), Some(n)),
{
}

/// A forced refresh never serves the cache: it records what the filesystem
/// gave, at the time of the call.
pub proof fn lemma_refresh_rescans(m: Map<Seq<char>, (NodeModel, u64)>, path: Seq<char>, now: u64, fresh: Option<NodeModel>)
    ensures
        served(m, path, true, now) is None,
        cached_scan(m, path, true, now, fresh).1 == fresh,
        fresh is Some ==> cached_scan(m, path, true, now, fresh).0 == m.insert(path, (fresh->Some_0, now)),
{
}

/// After the cache is cleared, a scan always reads the filesystem.
pub proof fn lemma_cleared_cache_rescans(path: Seq<char>, force_refresh: bool, now: u64, fresh: Option<NodeModel>)
    ensures
        served(Map::empty(), path, force_refresh, now) is None,
        cached_scan(Map::empty(), path, force_refresh, now, fresh).1 == fresh,
{
}

/// A subdirectory whose walk met no readable regular file (its contents
/// became unreadable) is listed with size 0 and no files, and the totals
/// of the listing are those of the other entries alone.
pub proof fn lemma_unreadable_subdir_contributes_nothing(entries: Seq<DirectEntry>, k: int)
    requires
        0 <= k < entries.len(),
        entries[k] is Dir,
        forall|i: int|
            0 <= i < entries[k]->Dir_contents@.len() ==> !(#[trigger] entries[k]->Dir_contents@[i] matches WalkEntry::File { len: Some(_) }),
    ensures
        dir_model(entries[k]).size == 0,
        dir_model(entries[k]).file_count == 0,
        tree_bytes(entries) == tree_bytes(entries.remove(k)),
        tree_files(entries) == tree_files(entries.remove(k)),
    decreases entries.len(),
{
    lemma_walk_without_readable_files(entries[k]->Dir_contents@);
    assert(entry_bytes(entries[k]) == 0);
    assert(entry_files(entries[k]) == 0);
    if k == entries.len() - 1 {
        assert(entries.remove(k) =~= entries.drop_last());
    } else {
        let d = entries.drop_last();
        assert(d[k] == entries[k]);
        lemma_unreadable_subdir_contributes_nothing(d, k);
        assert(entries.remove(k).drop_last() =~= d.remove(k));
        assert(entries.remove(k).last() == entries.last());
    }
}

/// A scan whose filesystem read fails leaves every cache entry as it was.
pub proof fn lemma_failed_scan_keeps_cache(m: Map<Seq<char>, (NodeModel, u64)>, path: Seq<char>, force_refresh: bool, now: u64)
    ensures
        cached_scan(m, path, force_refresh, now, None).0 == m,
{
}

} // verus!
