use vstd::prelude::*;

verus! {

/// One item met by a recursive walk below a directory.
#[derive(Debug, PartialEq, Eq)]
pub enum WalkEntry {
    /// An entry the walk could not read; it contributes nothing.
    Unreadable,
    /// A directory, symlink or other non-regular entry; not a file.
    Other,
    /// A regular file; `len` is `None` when its metadata could not be
    /// read, and then the file is skipped like any unreadable entry.
    File { len: Option<u64> },
}

/// `x` held to the range of `u64`: totals saturate rather than wrap.
pub open spec fn capped(x: int) -> int {
    if x > u64::MAX {
        u64::MAX as int
    } else {
        x
    }
}

pub open spec fn walk_entry_bytes(e: WalkEntry) -> int {
    match e {
        WalkEntry::File { len: Some(n) } => n as int,
        _ => 0,
    }
}

pub open spec fn walk_entry_files(e: WalkEntry) -> int {
    match e {
        WalkEntry::File { len: Some(_) } => 1,
        _ => 0,
    }
}

/// Total length of the readable regular files among `s`.
pub open spec fn walk_bytes(s: Seq<WalkEntry>) -> int
    decreases s.len(),
{
    if s.len() == 0 {
        0
    } else {
        walk_bytes(s.drop_last()) + walk_entry_bytes(s.last())
    }
}

/// Number of readable regular files among `s`.
pub open spec fn walk_files(s: Seq<WalkEntry>) -> int
    decreases s.len(),
{
    if s.len() == 0 {
        0
    } else {
        walk_files(s.drop_last()) + walk_entry_files(s.last())
    }
}

pub proof fn lemma_walk_sums_nonneg(s: Seq<WalkEntry>)
    ensures
        walk_bytes(s) >= 0,
        0 <= walk_files(s) <= s.len(),
    decreases s.len(),
{
    if s.len() > 0 {
        lemma_walk_sums_nonneg(s.drop_last());
    }
}

/// Deep statistics of one directory from the entries of a walk below it:
/// the summed length and the number of its readable regular files,
/// unreadable entries skipped.
pub fn get_dir_stats(entries: &Vec<WalkEntry>) -> (r: (u64, u64))
    ensures
        r.0 == capped(walk_bytes(entries@)),
        r.1 == walk_files(entries@),
{
    let mut size: u64 = 0;
    let mut count: u64 = 0;
    let mut i: usize = 0;
    while i < entries.len()
        invariant
            i <= entries.len(),
            size == capped(walk_bytes(entries@.take(i as int))),
            count == walk_files(entries@.take(i as int)),
            count <= i,
        decreases entries.len() - i,
    {
        proof {
            let t = entries@.take(i as int + 1);
            assert(t.drop_last() =~= entries@.take(i as int));
            lemma_walk_sums_nonneg(entries@.take(i as int));
        }
        match &entries[i] {
            WalkEntry::File { len: Some(n) } => {
                size = size.saturating_add(*n);
                count = count + 1;
            },
            _ => {},
        }
        i = i + 1;
    }
    assert(entries@.take(entries.len() as int) =~= entries@);
    (size, count)
}

/// A walk that met no readable regular file contributes nothing: no bytes
/// and no files, whatever unreadable or non-file entries it holds.
pub proof fn lemma_walk_without_readable_files(s: Seq<WalkEntry>)
    requires
        forall|i: int| 0 <= i < s.len() ==> !(#[trigger] s[i] matches WalkEntry::File { len: Some(_) }),
    ensures
        walk_bytes(s) == 0,
        walk_files(s) == 0,
    decreases s.len(),
{
    if s.len() > 0 {
        assert forall|i: int| 0 <= i < s.drop_last().len() implies !(#[trigger] s.drop_last()[i] matches WalkEntry::File { len: Some(_) }) by {
            assert(s.drop_last()[i] == s[i]);
        }
        lemma_walk_without_readable_files(s.drop_last());
        assert(!(s[s.len() - 1] matches WalkEntry::File { len: Some(_) }));
    }
}

} // verus!
