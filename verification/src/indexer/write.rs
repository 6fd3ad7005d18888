//! What a reindex writes, decided before any row is touched.
//!
//! - Each block of a file is stored with its parent: the nearest block
//!   before it with a smaller depth (the prelude's depth is `-1`), and with
//!   the BLAKE3 hash of its text.
//! - A block's references are stored once per kind and target.
//! - A file's own page row is claimed when unresolved, refreshed when it
//!   already points at the file, reused on a case collision, and inserted
//!   otherwise.
//! - In incremental mode a file whose cached `(mtime_ns, size)` match is
//!   left alone; a read file with the cached hash only has its metadata
//!   touched, one with another hash is reparsed, an unknown one inserted.
//! - Files known to the index but not seen on disk are deleted.

use vstd::prelude::*;
use vstd::utf8::*;

use crate::indexer::page_name::PageKind;
use crate::indexer::ReindexMode;
use crate::parser::ast::{refs_view, ExtractedRef, RefKind};
use crate::parser::segment::{RawBlock, PRELUDE_DEPTH};
use crate::scanner::ignore::names_view;
use crate::text::{bytes_eq, str_eq};

verus! {

// ----------------------------------------------------------------------------
// Hashing
// ----------------------------------------------------------------------------

/// The BLAKE3 hash of a byte string.
pub uninterp spec fn blake3_of(bytes: Seq<u8>) -> Seq<u8>;

/// Hash bytes with BLAKE3.
///
/// Calls `blake3::hash`, a function of its input alone whose result is a
/// 32-byte array; returns those bytes.
#[verifier::external_body]
pub(crate) fn blake3_hash(bytes: &[u8]) -> (r: Vec<u8>)
    ensures
        r@ == blake3_of(bytes@),
        r@.len() == 32,
{
    blake3::hash(bytes).as_bytes().to_vec()
}

// ----------------------------------------------------------------------------
// Blocks
// ----------------------------------------------------------------------------

/// The depth stored for a block: `-1` for the prelude.
pub open spec fn stored_depth(d: u8) -> int {
    if d == PRELUDE_DEPTH {
        -1
    } else {
        d as int
    }
}

/// The stored depths of `bs`.
pub open spec fn stored_depths(bs: Seq<RawBlock>) -> Seq<int> {
    bs.map_values(|b: RawBlock| stored_depth(b.depth))
}

/// The last index before `j` whose depth is below `d`.
pub open spec fn nearest_shallower(ds: Seq<int>, d: int, j: int) -> Option<int>
    decreases j,
{
    if j <= 0 {
        None
    } else if ds[j - 1] < d {
        Some(j - 1)
    } else {
        nearest_shallower(ds, d, j - 1)
    }
}

/// The parent of block `i`: the nearest block before it with a smaller
/// depth.
pub open spec fn parent_index(ds: Seq<int>, i: int) -> Option<int> {
    nearest_shallower(ds, ds[i], i)
}

/// How one block is stored.
#[derive(Debug, Clone)]
pub struct BlockRowPlan {
    /// Index of the parent block among the file's blocks.
    pub parent: Option<usize>,
    /// Stored depth.
    pub depth: i64,
    /// BLAKE3 hash of the block's text.
    pub hash: Vec<u8>,
}

pub fn stored_depth_exec(d: u8) -> (r: i64)
    ensures
        r == stored_depth(d),
{
    if d == PRELUDE_DEPTH {
        -1
    } else {
        d as i64
    }
}

/// The rows to store for a file's blocks, in order: parent, depth and
/// hash of each.
pub fn plan_block_rows(blocks: &Vec<RawBlock>) -> (r: Vec<BlockRowPlan>)
    ensures
        r@.len() == blocks@.len(),
        forall|i: int|
            0 <= i < r@.len() ==> {
                &&& (#[trigger] r@[i]).depth == stored_depth(blocks@[i].depth)
                &&& match r@[i].parent {
                    Some(p) => parent_index(stored_depths(blocks@), i) == Some(p as int),
                    None => parent_index(stored_depths(blocks@), i) is None,
                }
                &&& r@[i].hash@ == blake3_of(encode_utf8(blocks@[i].raw@))
            },
{
    let ghost ds = stored_depths(blocks@);
    let mut out: Vec<BlockRowPlan> = Vec::new();
    let mut i: usize = 0;
    while i < blocks.len()
        invariant
            i <= blocks@.len(),
            ds == stored_depths(blocks@),
            out@.len() == i,
            forall|k: int|
                0 <= k < i ==> {
                    &&& (#[trigger] out@[k]).depth == stored_depth(blocks@[k].depth)
                    &&& match out@[k].parent {
                        Some(p) => parent_index(ds, k) == Some(p as int),
                        None => parent_index(ds, k) is None,
                    }
                    &&& out@[k].hash@ == blake3_of(encode_utf8(blocks@[k].raw@))
                },
        decreases blocks@.len() - i,
    {
        let d = stored_depth_exec(blocks[i].depth);
        assert(ds[i as int] == d);
        let mut j: usize = i;
        while j > 0 && stored_depth_exec(blocks[j - 1].depth) >= d
            invariant
                j <= i < blocks@.len(),
                ds == stored_depths(blocks@),
                ds[i as int] == d,
                parent_index(ds, i as int) == nearest_shallower(ds, d as int, j as int),
            decreases j,
        {
            assert(ds[j - 1] == stored_depth(blocks@[j - 1].depth));
            j = j - 1;
        }
        let parent = if j == 0 {
            None
        } else {
            assert(ds[j - 1] == stored_depth(blocks@[j - 1].depth));
            Some(j - 1)
        };
        let hash = blake3_hash(blocks[i].raw.as_str().as_bytes());
        out.push(BlockRowPlan { parent, depth: d, hash });
        i = i + 1;
    }
    out
}

// ----------------------------------------------------------------------------
// References
// ----------------------------------------------------------------------------

/// The references with each `(kind, target)` kept once, at its first place.
pub open spec fn dedup_refs_spec(s: Seq<(RefKind, Seq<char>)>) -> Seq<(RefKind, Seq<char>)>
    decreases s.len(),
{
    if s.len() == 0 {
        s
    } else {
        let d = dedup_refs_spec(s.drop_last());
        if d.contains(s.last()) {
            d
        } else {
            d.push(s.last())
        }
    }
}

/// The references to store for a block: each kind and target once, in
/// order of first appearance.
pub fn dedup_refs(refs: Vec<ExtractedRef>) -> (r: Vec<ExtractedRef>)
    ensures
        refs_view(r@) == dedup_refs_spec(refs_view(refs@)),
{
    let mut out: Vec<ExtractedRef> = Vec::new();
    let mut i: usize = 0;
    while i < refs.len()
        invariant
            i <= refs@.len(),
            refs_view(out@) == dedup_refs_spec(refs_view(refs@.take(i as int))),
        decreases refs@.len() - i,
    {
        let r = &refs[i];
        let ghost pre = refs@.take(i as int);
        assert(refs_view(refs@.take(i + 1)).drop_last() =~= refs_view(pre));
        assert(refs_view(refs@.take(i + 1)).last() == (r.kind, r.target@));
        let mut found = false;
        let mut j: usize = 0;
        while j < out.len()
            invariant
                j <= out@.len(),
                found == exists|k: int|
                    0 <= k < j && (#[trigger] refs_view(out@)[k]) == (r.kind, r.target@),
            decreases out@.len() - j,
        {
            if out[j].kind == r.kind && str_eq(out[j].target.as_str(), r.target.as_str()) {
                assert(refs_view(out@)[j as int] == (r.kind, r.target@));
                found = true;
            } else {
                assert(refs_view(out@)[j as int] != (r.kind, r.target@));
            }
            j = j + 1;
        }
        let ghost d = refs_view(out@);
        if !found {
            out.push(ExtractedRef { kind: r.kind, target: r.target.clone() });
            assert(refs_view(out@) =~= d.push((r.kind, r.target@)));
            assert(!d.contains((r.kind, r.target@)));
        } else {
            assert(d.contains((r.kind, r.target@)));
        }
        i = i + 1;
    }
    assert(refs@.take(refs@.len() as int) =~= refs@);
    out
}

/// The `type` stored for a reference.
pub fn ref_type_name(kind: RefKind) -> (r: &'static str)
    ensures
        r@ == (match kind {
            RefKind::Tag => "tag"@,
            RefKind::PageLink => "page-link"@,
        }),
{
    match kind {
        RefKind::Tag => "tag",
        RefKind::PageLink => "page-link",
    }
}

/// The `kind` stored for a page.
pub fn page_kind_name(kind: PageKind) -> (r: &'static str)
    ensures
        r@ == (match kind {
            PageKind::Page => "page"@,
            PageKind::Journal => "journal"@,
        }),
{
    match kind {
        PageKind::Page => "page",
        PageKind::Journal => "journal",
    }
}

// ----------------------------------------------------------------------------
// Page rows
// ----------------------------------------------------------------------------

/// What to do with the page row named after a file.
#[derive(Debug, Clone, Copy, PartialEq, Eq, Structural)]
pub enum SelfPageAction {
    /// An unresolved page of that name: point it at the file.
    Claim(i64),
    /// The page already points at the file: refresh its kind and date.
    Refresh(i64),
    /// Another file backs a page of that name: reuse the row as it is.
    Collision(i64),
    /// No page of that name: insert one.
    Insert,
}

/// Decide from the existing `(page id, backing file id)` row, if any.
pub fn self_page_action(existing: Option<(i64, Option<i64>)>, file_id: i64) -> (r: SelfPageAction)
    ensures
        r == (match existing {
            None => SelfPageAction::Insert,
            Some((page_id, None)) => SelfPageAction::Claim(page_id),
            Some((page_id, Some(f))) => if f == file_id {
                SelfPageAction::Refresh(page_id)
            } else {
                SelfPageAction::Collision(page_id)
            },
        }),
{
    match existing {
        None => SelfPageAction::Insert,
        Some((page_id, None)) => SelfPageAction::Claim(page_id),
        Some((page_id, Some(f))) => if f == file_id {
            SelfPageAction::Refresh(page_id)
        } else {
            SelfPageAction::Collision(page_id)
        },
    }
}

// ----------------------------------------------------------------------------
// Reindex decisions
// ----------------------------------------------------------------------------

/// A file is skipped unread: incremental mode, and its cached
/// `(mtime_ns, size)` equal the ones on disk.
pub open spec fn skip_unread(
    mode: ReindexMode,
    cached: Option<(i64, i64)>,
    mtime_ns: i64,
    size: u64,
) -> bool {
    mode == ReindexMode::Incremental && match cached {
        Some((m, s)) => m == mtime_ns && s as u64 == size,
        None => false,
    }
}

/// Whether a file can be counted unchanged without reading it.
pub fn unchanged_by_metadata(
    mode: ReindexMode,
    cached: Option<(i64, i64)>,
    mtime_ns: i64,
    size: u64,
) -> (r: bool)
    ensures
        r == skip_unread(mode, cached, mtime_ns, size),
{
    match mode {
        ReindexMode::Full => false,
        ReindexMode::Incremental => match cached {
            Some((m, s)) => m == mtime_ns && s as u64 == size,
            None => false,
        },
    }
}

/// What to do with a file that was read.
#[derive(Debug, Clone, Copy, PartialEq, Eq, Structural)]
pub enum ContentAction {
    /// Same hash as cached: only its metadata changes.
    TouchMtime(i64),
    /// Another hash: reparse it.
    Reparse(i64),
    /// Not in the index: insert it.
    Insert,
}

/// Decide from the cached `(file id, hash)` and the file's bytes; also
/// gives the bytes' BLAKE3 hash, to be stored.
pub fn content_action(cached: Option<(i64, Vec<u8>)>, bytes: &[u8]) -> (r: (ContentAction, Vec<u8>))
    ensures
        r.1@ == blake3_of(bytes@),
        r.0 == (match cached {
            None => ContentAction::Insert,
            Some((id, h)) => if h@ == blake3_of(bytes@) {
                ContentAction::TouchMtime(id)
            } else {
                ContentAction::Reparse(id)
            },
        }),
{
    let hash = blake3_hash(bytes);
    match cached {
        None => (ContentAction::Insert, hash),
        Some((id, h)) => {
            if bytes_eq(h.as_slice(), hash.as_slice()) {
                (ContentAction::TouchMtime(id), hash)
            } else {
                (ContentAction::Reparse(id), hash)
            }
        },
    }
}

/// The known paths that were not seen on disk, in the order known.
pub open spec fn stale_spec(known: Seq<Seq<char>>, seen: Seq<Seq<char>>) -> Seq<Seq<char>> {
    known.filter(|p: Seq<char>| !seen.contains(p))
}

/// The indexed paths to delete: known to the index, not seen on disk.
pub fn stale_paths(known: &Vec<String>, seen: &Vec<String>) -> (r: Vec<String>)
    ensures
        names_view(r@) == stale_spec(names_view(known@), names_view(seen@)),
{
    let ghost pred = |p: Seq<char>| !names_view(seen@).contains(p);
    let mut out: Vec<String> = Vec::new();
    let mut i: usize = 0;
    while i < known.len()
        invariant
            i <= known@.len(),
            pred == (|p: Seq<char>| !names_view(seen@).contains(p)),
            names_view(out@) == names_view(known@).take(i as int).filter(pred),
        decreases known@.len() - i,
    {
        let mut found = false;
        let mut j: usize = 0;
        while j < seen.len()
            invariant
                j <= seen@.len(),
                i < known@.len(),
                found == exists|k: int| 0 <= k < j && (#[trigger] seen@[k])@ == known@[i as int]@,
            decreases seen@.len() - j,
        {
            if str_eq(seen[j].as_str(), known[i].as_str()) {
                found = true;
            }
            j = j + 1;
        }
        let ghost kv = names_view(known@);
        let ghost before = names_view(out@);
        proof {
            assert(kv.take(i + 1).drop_last() =~= kv.take(i as int));
            assert(kv.take(i + 1).last() == known@[i as int]@);
            if found {
                let k = choose|k: int| 0 <= k < seen@.len() && (#[trigger] seen@[k])@ == known@[i as int]@;
                assert(names_view(seen@)[k] == known@[i as int]@);
            } else {
                assert forall|k: int| 0 <= k < names_view(seen@).len() implies names_view(seen@)[k]
                    != known@[i as int]@ by {
                    assert(names_view(seen@)[k] == seen@[k]@);
                }
            }
            assert(kv.take(i + 1).filter(pred) == if pred(kv.take(i + 1).last()) {
                kv.take(i as int).filter(pred).push(kv.take(i + 1).last())
            } else {
                kv.take(i as int).filter(pred)
            }) by {
                kv.take(i as int).lemma_filter_push(known@[i as int]@, pred);
                assert(kv.take(i as int).push(known@[i as int]@) =~= kv.take(i + 1));
            }
        }
        if !found {
            out.push(known[i].clone());
            assert(names_view(out@) =~= before.push(known@[i as int]@));
        }
        i = i + 1;
    }
    assert(names_view(known@).take(known@.len() as int) =~= names_view(known@));
    out
}

} // verus!
