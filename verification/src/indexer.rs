//! The indexer's pure parts: page names from paths, and the decisions of a
//! reindex pass (which files to read, what to do with each, how a file's
//! blocks hang together).

pub mod page_name;
pub mod write;

use vstd::prelude::*;

use crate::indexer::write::{skip_unread, stale_spec};

verus! {

/// `Incremental` trusts a file's cached `(mtime_ns, size)` and skips it
/// when they match; `Full` reads every file.
#[derive(Debug, Clone, Copy, PartialEq, Eq, Structural)]
pub enum ReindexMode {
    Incremental,
    Full,
}

/// Counts of a reindex pass.
#[derive(Debug, Clone, PartialEq, Eq)]
pub struct ReindexStats {
    /// Entries the scanner visited.
    pub scanned: usize,
    /// New files inserted.
    pub added: usize,
    /// Files whose content hash changed, reparsed.
    pub modified: usize,
    /// Files whose cached `(mtime_ns, size)` matched: nothing read.
    pub unchanged: usize,
    /// Files whose mtime moved but whose content hash did not.
    pub mtime_touched: usize,
    /// Files gone from disk, removed from the index.
    pub deleted: usize,
}

impl Default for ReindexStats {
    fn default() -> (r: Self)
        ensures
            r.scanned == 0 && r.added == 0 && r.modified == 0 && r.unchanged == 0
                && r.mtime_touched == 0 && r.deleted == 0,
    {
        ReindexStats { scanned: 0, added: 0, modified: 0, unchanged: 0, mtime_touched: 0, deleted: 0 }
    }
}

/// What a reindex pass did with one file.
#[derive(Debug, Clone, Copy, PartialEq, Eq, Structural)]
pub enum FileOutcome {
    /// Cached `(mtime_ns, size)` matched; nothing read.
    Unchanged,
    /// Same content hash, new mtime: only the file row touched.
    MtimeTouched,
    /// Content changed: reparsed.
    Modified,
    /// New file: inserted.
    Added,
    /// Gone from disk: removed from the index.
    Deleted,
}

/// The counts after one more file with outcome `o`.
pub open spec fn recorded(s: ReindexStats, o: FileOutcome) -> ReindexStats {
    match o {
        FileOutcome::Unchanged => ReindexStats { unchanged: (s.unchanged + 1) as usize, ..s },
        FileOutcome::MtimeTouched => ReindexStats { mtime_touched: (s.mtime_touched + 1) as usize, ..s },
        FileOutcome::Modified => ReindexStats { modified: (s.modified + 1) as usize, ..s },
        FileOutcome::Added => ReindexStats { added: (s.added + 1) as usize, ..s },
        FileOutcome::Deleted => ReindexStats { deleted: (s.deleted + 1) as usize, ..s },
    }
}

/// The counter that outcome `o` adds to.
pub open spec fn counter(s: ReindexStats, o: FileOutcome) -> usize {
    match o {
        FileOutcome::Unchanged => s.unchanged,
        FileOutcome::MtimeTouched => s.mtime_touched,
        FileOutcome::Modified => s.modified,
        FileOutcome::Added => s.added,
        FileOutcome::Deleted => s.deleted,
    }
}

impl ReindexStats {
    /// Count one file's outcome: its counter goes up by one and nothing
    /// else changes. `false`, with nothing changed, when that counter is
    /// already at its maximum.
    pub fn record(&mut self, o: FileOutcome) -> (ok: bool)
        ensures
            ok == (counter(*old(self), o) < usize::MAX),
            ok ==> *final(self) == recorded(*old(self), o),
            !ok ==> *final(self) == *old(self),
    {
        match o {
            FileOutcome::Unchanged => {
                if self.unchanged == usize::MAX {
                    return false;
                }
                self.unchanged = self.unchanged + 1;
            },
            FileOutcome::MtimeTouched => {
                if self.mtime_touched == usize::MAX {
                    return false;
                }
                self.mtime_touched = self.mtime_touched + 1;
            },
            FileOutcome::Modified => {
                if self.modified == usize::MAX {
                    return false;
                }
                self.modified = self.modified + 1;
            },
            FileOutcome::Added => {
                if self.added == usize::MAX {
                    return false;
                }
                self.added = self.added + 1;
            },
            FileOutcome::Deleted => {
                if self.deleted == usize::MAX {
                    return false;
                }
                self.deleted = self.deleted + 1;
            },
        }
        true
    }
}

/// The counts after recording the outcomes `os` in turn, from `s`.
pub open spec fn recorded_all(s: ReindexStats, os: Seq<FileOutcome>) -> ReindexStats
    decreases os.len(),
{
    if os.len() == 0 {
        s
    } else {
        recorded(recorded_all(s, os.drop_last()), os.last())
    }
}

/// How many of `os` are `o`.
pub open spec fn count_of(os: Seq<FileOutcome>, o: FileOutcome) -> nat
    decreases os.len(),
{
    if os.len() == 0 {
        0
    } else {
        count_of(os.drop_last(), o) + if os.last() == o {
            1nat
        } else {
            0nat
        }
    }
}

/// Zero counts.
pub open spec fn no_counts() -> ReindexStats {
    ReindexStats { scanned: 0, added: 0, modified: 0, unchanged: 0, mtime_touched: 0, deleted: 0 }
}

/// Over a whole pass, each counter counts exactly the files with its
/// outcome, so together they count every file recorded once.
pub proof fn law_pass_counts(os: Seq<FileOutcome>)
    requires
        os.len() <= usize::MAX,
    ensures
        ({
            let r = recorded_all(no_counts(), os);
            &&& r.added == count_of(os, FileOutcome::Added)
            &&& r.modified == count_of(os, FileOutcome::Modified)
            &&& r.unchanged == count_of(os, FileOutcome::Unchanged)
            &&& r.mtime_touched == count_of(os, FileOutcome::MtimeTouched)
            &&& r.deleted == count_of(os, FileOutcome::Deleted)
            &&& r.scanned == 0
            &&& r.added + r.modified + r.unchanged + r.mtime_touched + r.deleted == os.len()
        }),
    decreases os.len(),
{
    if os.len() > 0 {
        law_pass_counts(os.drop_last());
    }
}

/// A second incremental pass over files whose `(mtime_ns, size)` did not
/// change since the first skips each of them unread, and deletes nothing
/// when every indexed path is seen again; a full pass reads every file.
pub proof fn law_unchanged_rerun(
    mtime_ns: i64,
    size: u64,
    known: Seq<Seq<char>>,
    seen: Seq<Seq<char>>,
)
    requires
        size <= i64::MAX,
        forall|k: int| 0 <= k < known.len() ==> seen.contains(#[trigger] known[k]),
    ensures
        skip_unread(ReindexMode::Incremental, Some((mtime_ns, size as i64)), mtime_ns, size),
        !skip_unread(ReindexMode::Full, Some((mtime_ns, size as i64)), mtime_ns, size),
        stale_spec(known, seen).len() == 0,
{
    let pred = |p: Seq<char>| !seen.contains(p);
    known.filter_lemma(pred);
    if known.filter(pred).len() > 0 {
        let x = known.filter(pred)[0];
        assert(known.filter(pred).contains(x));
        known.lemma_filter_contains_rev(pred, x);
        let k = choose|k: int| 0 <= k < known.len() && known[k] == x;
        assert(seen.contains(known[k]));
    }
}

} // verus!
