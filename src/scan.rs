use vstd::prelude::*;

use crate::node::{node_model, FileNode, NodeModel};
use crate::order::{is_desc_order, size_order};
use crate::stats::{capped, get_dir_stats, lemma_walk_sums_nonneg, walk_bytes, walk_files, WalkEntry};

verus! {

/// One immediate entry of a scanned directory, as its listing found it.
#[derive(Debug, PartialEq, Eq)]
pub enum DirectEntry {
    /// An entry whose metadata could not be read; it is skipped.
    Unreadable,
    /// An entry that is neither a directory nor a regular file (a symlink,
    /// a socket); it is not a file and contributes nothing.
    Other,
    /// A plain file directly inside the root, of `len` bytes.
    File { len: u64 },
    /// A subdirectory, with what a recursive walk below it met.
    Dir { name: String, path: String, modified: u64, contents: Vec<WalkEntry> },
}

/// Why a scan produced no summary.
#[derive(Debug, PartialEq, Eq)]
pub enum ScanError {
    /// The root path does not exist.
    NotFound,
    /// The root exists but could not be read as a directory.
    IoError(String),
    /// The worker running the scan, or the cache lock, failed.
    ConcurrencyFailure(String),
}

pub open spec fn not_found_message() -> Seq<char> {
    "Directory does not exist"@
}

impl ScanError {
    /// The text handed to callers for this error.
    pub fn message(&self) -> (r: String)
        ensures
            r@ == match self {
                ScanError::NotFound => not_found_message(),
                ScanError::IoError(s) => s@,
                ScanError::ConcurrencyFailure(s) => s@,
            },
    {
        match self {
            ScanError::NotFound => {
                let s: &str = "Directory does not exist";
                proof {
                    reveal_strlit("Directory does not exist");
                }
                s.to_owned()
            },
            ScanError::IoError(s) => s.clone(),
            ScanError::ConcurrencyFailure(s) => s.clone(),
        }
    }
}

/// The final component of a path, or empty where it has none.
pub uninterp spec fn final_component_of(path: Seq<char>) -> Seq<char>;

/// Relies on std::path::Path::file_name: the last component of the path,
/// read lossily as text; `None` (a root, or a path ending in `..`) gives "".
#[verifier::external_body]
fn final_component(path: &str) -> (r: String)
    ensures
        r@ == final_component_of(path@),
{
    std::path::Path::new(path).file_name().unwrap_or_default().to_string_lossy().to_string()
}

pub open spec fn entry_bytes(e: DirectEntry) -> int {
    match e {
        DirectEntry::File { len } => len as int,
        DirectEntry::Dir { contents, .. } => walk_bytes(contents@),
        _ => 0,
    }
}

pub open spec fn entry_files(e: DirectEntry) -> int {
    match e {
        DirectEntry::File { .. } => 1,
        DirectEntry::Dir { contents, .. } => walk_files(contents@),
        _ => 0,
    }
}

/// Total length of every readable regular file in the scanned subtree.
pub open spec fn tree_bytes(s: Seq<DirectEntry>) -> int
    decreases s.len(),
{
    if s.len() == 0 {
        0
    } else {
        tree_bytes(s.drop_last()) + entry_bytes(s.last())
    }
}

/// Number of readable regular files in the scanned subtree.
pub open spec fn tree_files(s: Seq<DirectEntry>) -> int
    decreases s.len(),
{
    if s.len() == 0 {
        0
    } else {
        tree_files(s.drop_last()) + entry_files(s.last())
    }
}

/// The summary of one subdirectory entry: no children, deep totals.
pub open spec fn dir_model(e: DirectEntry) -> NodeModel {
    match e {
        DirectEntry::Dir { name, path, modified, contents } => NodeModel {
            name: name@,
            path: path@,
            size: capped(walk_bytes(contents@)) as u64,
            is_dir: true,
            children: None,
            last_modified: modified,
            file_count: walk_files(contents@) as u64,
        },
        _ => arbitrary(),
    }
}

/// Summaries of the subdirectory entries of `s`, in listing order.
pub open spec fn subdirs(s: Seq<DirectEntry>) -> Seq<NodeModel>
    decreases s.len(),
{
    if s.len() == 0 {
        Seq::empty()
    } else if s.last() is Dir {
        subdirs(s.drop_last()).push(dir_model(s.last()))
    } else {
        subdirs(s.drop_last())
    }
}

pub open spec fn sizes_of(s: Seq<NodeModel>) -> Seq<u64> {
    Seq::new(s.len(), |i: int| s[i].size)
}

/// `out` is `input` put in the order of a stable sort by size, largest first.
pub open spec fn stable_sorted_desc(out: Seq<NodeModel>, input: Seq<NodeModel>) -> bool {
    exists|o: Seq<usize>|
        is_desc_order(sizes_of(input), o) && out.len() == o.len() && forall|k: int|
            0 <= k < o.len() ==> #[trigger] out[k] == input[o[k] as int]
}

/// What a scan of `path` whose listing is `entries` returns.
pub open spec fn is_summary(r: NodeModel, path: Seq<char>, entries: Seq<DirectEntry>) -> bool {
    &&& r.name == final_component_of(path)
    &&& r.path == path
    &&& r.size == capped(tree_bytes(entries))
    &&& r.is_dir
    &&& r.last_modified == 0
    &&& r.file_count == capped(tree_files(entries))
    &&& r.children is Some
    &&& stable_sorted_desc(r.children.unwrap(), subdirs(entries))
}

proof fn lemma_tree_sums_nonneg(s: Seq<DirectEntry>)
    ensures
        tree_bytes(s) >= 0,
        tree_files(s) >= 0,
    decreases s.len(),
{
    if s.len() > 0 {
        lemma_tree_sums_nonneg(s.drop_last());
        match s.last() {
            DirectEntry::Dir { contents, .. } => lemma_walk_sums_nonneg(contents@),
            _ => {},
        }
    }
}

/// The summary node of a root directory from its listing: files folded
/// into the totals, one child per subdirectory, largest first.
pub fn summarize_listing(path: &str, entries: &Vec<DirectEntry>) -> (r: FileNode)
    ensures
        is_summary(r.model(), path@, entries@),
{
    let mut total: u64 = 0;
    let mut count: u64 = 0;
    let mut summaries: Vec<FileNode> = Vec::new();
    let mut keys: Vec<u64> = Vec::new();
    let mut i: usize = 0;
    while i < entries.len()
        invariant
            i <= entries.len(),
            total == capped(tree_bytes(entries@.take(i as int))),
            count == capped(tree_files(entries@.take(i as int))),
            summaries@.len() == subdirs(entries@.take(i as int)).len(),
            keys@.len() == summaries@.len(),
            forall|k: int|
                0 <= k < summaries@.len() ==> #[trigger] node_model(summaries@[k])
                    == subdirs(entries@.take(i as int))[k],
            forall|k: int| 0 <= k < keys@.len() ==> #[trigger] keys@[k] == summaries@[k].size,
        decreases entries.len() - i,
    {
        let ghost pre = entries@.take(i as int);
        proof {
            assert(entries@.take(i as int + 1).drop_last() =~= pre);
            lemma_tree_sums_nonneg(pre);
        }
        match &entries[i] {
            DirectEntry::Unreadable => {},
            DirectEntry::Other => {},
            DirectEntry::File { len } => {
                total = total.saturating_add(*len);
                count = count.saturating_add(1);
            },
            DirectEntry::Dir { name, path, modified, contents } => {
                let (size, files) = get_dir_stats(contents);
                proof {
                    lemma_walk_sums_nonneg(contents@);
                }
                total = total.saturating_add(size);
                count = count.saturating_add(files);
                let node = FileNode {
                    name: name.clone(),
                    path: path.clone(),
                    size,
                    is_dir: true,
                    children: None,
                    last_modified: *modified,
                    file_count: files,
                };
                summaries.push(node);
                keys.push(size);
            },
        }
        i = i + 1;
    }
    assert(entries@.take(entries.len() as int) =~= entries@);
    let ghost subs = subdirs(entries@);
    assert(keys@ =~= sizes_of(subs)) by {
        assert forall|j: int| 0 <= j < keys@.len() implies keys@[j] == sizes_of(subs)[j] by {
            assert(node_model(summaries@[j]) == subs[j]);
        }
    }
    let order = size_order(&keys);
    let mut children: Vec<FileNode> = Vec::new();
    let mut k: usize = 0;
    while k < order.len()
        invariant
            k <= order@.len(),
            is_desc_order(keys@, order@),
            summaries@.len() == keys@.len(),
            subs.len() == keys@.len(),
            children@.len() == k,
            forall|j: int| 0 <= j < summaries@.len() ==> #[trigger] node_model(summaries@[j]) == subs[j],
            forall|j: int| 0 <= j < k ==> #[trigger] node_model(children@[j]) == subs[order@[j] as int],
        decreases order@.len() - k,
    {
        let c = summaries[order[k]].duplicate();
        children.push(c);
        k = k + 1;
    }
    let r = FileNode {
        name: final_component(path),
        path: path.to_owned(),
        size: total,
        is_dir: true,
        children: Some(children),
        last_modified: 0,
        file_count: count,
    };
    proof {
        let cs = node_model(r).children.unwrap();
        assert(cs.len() == order@.len());
        assert forall|j: int| 0 <= j < order@.len() implies #[trigger] cs[j] == subs[order@[j] as int] by {
            assert(cs[j] == node_model(children@[j]));
        }
        assert(stable_sorted_desc(cs, subs));
    }
    r
}

/// A scan of `path`: `exists` says whether the path exists, `listing` is
/// the outcome of reading it as a directory.
pub fn scan_directory(path: &str, exists: bool, listing: Result<Vec<DirectEntry>, String>) -> (r: Result<FileNode, ScanError>)
    ensures
        !exists ==> r is Err && r->Err_0 is NotFound,
        exists && listing is Err ==> r is Err && r->Err_0 == ScanError::IoError(listing->Err_0),
        exists && listing is Ok ==> r is Ok && is_summary(r->Ok_0.model(), path@, listing->Ok_0@),
{
    if !exists {
        return Err(ScanError::NotFound);
    }
    match listing {
        Err(e) => Err(ScanError::IoError(e)),
        Ok(entries) => Ok(summarize_listing(path, &entries)),
    }
}

} // verus!
