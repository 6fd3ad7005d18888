//! Counts of the Logseq patterns of a notes corpus.
//!
//! Each file's raw blocks are summarised by [`file_patterns`]; an
//! [`InventoryTally`] sums those summaries over the corpus and keeps, per
//! pattern, the distinct files that hold it; [`InventoryTally::finish`]
//! turns the totals into an [`InventoryReport`].
//!
//! The patterns, in report order:
//!
//! * `alias::`, `id::`, `template::`, `SCHEDULED:`, `DEADLINE:`: substring
//!   occurrences in a block's text, counted without overlap;
//! * `LOGBOOK`: drawers of that name;
//! * `#[[...]]`: occurrences of `#[[` in a block's text;
//! * `code-fence-in-bullet`: blocks other than the prelude whose text holds
//!   three backticks, once per block;
//! * `%2F-in-filename`: files whose relative path holds `%2F`, in either
//!   case.

use vstd::prelude::*;
use vstd::utf8::*;

use crate::parser::segment::{RawBlock, RawDrawer, PRELUDE_DEPTH};
use crate::scanner::ignore::names_view;
use crate::text::{chars_of, first_occ, find_bytes, lemma_first_occ, str_eq};

verus! {

/// The report over a whole corpus.
#[derive(Debug, Clone, PartialEq, Eq)]
pub struct InventoryReport {
    /// Notes root, with forward slashes.
    pub root: String,
    /// Markdown files visited.
    pub scanned_files: u32,
    /// Files under `journals/`.
    pub journal_files: u32,
    /// All other files.
    pub page_files: u32,
    /// Sum of file sizes in bytes.
    pub total_size_bytes: u64,
    /// One row per pattern, in report order.
    pub patterns: Vec<PatternCount>,
    /// Distinct files holding at least one block property.
    pub block_property_files: u32,
    /// Distinct files holding at least one drawer.
    pub drawer_files: u32,
}

/// One row of [`InventoryReport::patterns`].
#[derive(Debug, Clone, PartialEq, Eq)]
pub struct PatternCount {
    /// Pattern name.
    pub name: String,
    /// Distinct files with at least one match.
    pub files_with: u32,
    /// Total matches over the corpus.
    pub occurrences: u32,
}

/// Number of patterns.
pub const PATTERN_COUNT: usize = 9;

/// Name of pattern `k`, in report order.
pub open spec fn pattern_key(k: int) -> Seq<char> {
    if k == 0 {
        "alias::"@
    } else if k == 1 {
        "id::"@
    } else if k == 2 {
        "template::"@
    } else if k == 3 {
        "LOGBOOK"@
    } else if k == 4 {
        "#[[...]]"@
    } else if k == 5 {
        "SCHEDULED:"@
    } else if k == 6 {
        "DEADLINE:"@
    } else if k == 7 {
        "code-fence-in-bullet"@
    } else {
        "%2F-in-filename"@
    }
}

/// The name of pattern `k`.
pub fn pattern_key_str(k: usize) -> (r: &'static str)
    requires
        k < PATTERN_COUNT,
    ensures
        r@ == pattern_key(k as int),
{
    if k == 0 {
        "alias::"
    } else if k == 1 {
        "id::"
    } else if k == 2 {
        "template::"
    } else if k == 3 {
        "LOGBOOK"
    } else if k == 4 {
        "#[[...]]"
    } else if k == 5 {
        "SCHEDULED:"
    } else if k == 6 {
        "DEADLINE:"
    } else if k == 7 {
        "code-fence-in-bullet"
    } else {
        "%2F-in-filename"
    }
}

/// The position of pattern `key` in report order.
pub fn pattern_index(key: &str) -> (r: usize)
    requires
        exists|k: int| 0 <= k < PATTERN_COUNT && pattern_key(k) == key@,
    ensures
        r < PATTERN_COUNT,
        pattern_key(r as int) == key@,
        forall|j: int| 0 <= j < r ==> pattern_key(j) != key@,
{
    let mut k: usize = 0;
    while k < PATTERN_COUNT
        invariant
            k <= PATTERN_COUNT,
            forall|j: int| 0 <= j < k ==> pattern_key(j) != key@,
            exists|k: int| 0 <= k < PATTERN_COUNT && pattern_key(k) == key@,
        decreases PATTERN_COUNT - k,
    {
        if str_eq(pattern_key_str(k), key) {
            return k;
        }
        k = k + 1;
    }
    assert(false);
    0
}

// ----------------------------------------------------------------------------
// Substring counts
// ----------------------------------------------------------------------------

/// Occurrences of `n` in `h` from `start` on, each search resuming after
/// the previous match (so matches do not overlap).
pub open spec fn count_from(h: Seq<u8>, n: Seq<u8>, start: int) -> nat
    decreases h.len() - start,
{
    if n.len() == 0 || start < 0 {
        0
    } else {
        let p = first_occ(h, n, start);
        if p < start || p + n.len() > h.len() {
            0
        } else {
            1 + count_from(h, n, p + n.len())
        }
    }
}

/// Non-overlapping occurrences of `needle` in `haystack`, as bytes.
pub open spec fn count_spec(haystack: Seq<char>, needle: Seq<char>) -> nat {
    count_from(encode_utf8(haystack), encode_utf8(needle), 0)
}

pub proof fn lemma_count_bound(h: Seq<u8>, n: Seq<u8>, s: int)
    requires
        0 <= s <= h.len(),
    ensures
        count_from(h, n, s) <= h.len() - s,
    decreases h.len() - s,
{
    if n.len() > 0 {
        lemma_first_occ(h, n, s);
        let p = first_occ(h, n, s);
        if p >= s {
            lemma_count_bound(h, n, p + n.len());
        }
    }
}

/// Non-overlapping occurrences of `n` in `h`, as a `u64`.
fn count_matches(h: &[u8], n: &[u8]) -> (r: u64)
    ensures
        r == count_from(h@, n@, 0),
{
    if n.len() == 0 {
        return 0;
    }
    let hl = h.len();
    proof {
        lemma_count_bound(h@, n@, 0);
    }
    let mut count: u64 = 0;
    let mut start: usize = 0;
    while start <= hl
        invariant
            hl == h@.len(),
            n@.len() > 0,
            start <= hl,
            count + count_from(h@, n@, start as int) == count_from(h@, n@, 0),
            count_from(h@, n@, 0) <= hl,
        decreases hl + 1 - start,
    {
        match find_bytes(h, n, start) {
            None => {
                assert(count_from(h@, n@, start as int) == 0);
                return count;
            },
            Some(p) => {
                proof {
                    lemma_first_occ(h@, n@, start as int);
                    lemma_count_bound(h@, n@, p + n@.len());
                }
                count = count + 1;
                start = p + n.len();
            },
        }
    }
    count
}

/// Count the non-overlapping occurrences of `needle` in `haystack`; an
/// empty needle counts `0`.
pub fn count_occurrences(haystack: &str, needle: &str) -> (r: u32)
    requires
        count_spec(haystack@, needle@) <= u32::MAX,
    ensures
        r == count_spec(haystack@, needle@),
{
    let c = count_matches(haystack.as_bytes(), needle.as_bytes());
    c as u32
}

// ----------------------------------------------------------------------------
// One file
// ----------------------------------------------------------------------------

/// The bytes of the needle of a substring pattern.
pub open spec fn needle_of(k: int) -> Seq<char> {
    if k == 0 {
        "alias::"@
    } else if k == 1 {
        "id::"@
    } else if k == 2 {
        "template::"@
    } else if k == 4 {
        "#[["@
    } else if k == 5 {
        "SCHEDULED:"@
    } else {
        "DEADLINE:"@
    }
}

pub open spec fn logbook_count(d: Seq<RawDrawer>) -> nat
    decreases d.len(),
{
    if d.len() == 0 {
        0
    } else {
        logbook_count(d.drop_last()) + if d.last().name@ == "LOGBOOK"@ {
            1nat
        } else {
            0nat
        }
    }
}

/// The bytes of three backticks.
pub open spec fn fence_bytes() -> Seq<u8> {
    seq![96u8, 96u8, 96u8]
}

/// Whether the text holds a fence opener.
pub open spec fn has_fence(raw: Seq<char>) -> bool {
    first_occ(encode_utf8(raw), fence_bytes(), 0) >= 0
}

/// Matches of pattern `k` in one block (the file-name pattern has none).
pub open spec fn block_pattern_count(b: RawBlock, k: int) -> nat {
    if k == 3 {
        logbook_count(b.drawers@)
    } else if k == 7 {
        if b.depth != PRELUDE_DEPTH && has_fence(b.raw@) {
            1
        } else {
            0
        }
    } else if k == 8 {
        0
    } else {
        count_spec(b.raw@, needle_of(k))
    }
}

/// Matches of pattern `k` in the blocks `bs`.
pub open spec fn blocks_pattern_count(bs: Seq<RawBlock>, k: int) -> nat
    decreases bs.len(),
{
    if bs.len() == 0 {
        0
    } else {
        blocks_pattern_count(bs.drop_last(), k) + block_pattern_count(bs.last(), k)
    }
}

/// The relative path holds `%2F` in either case.
pub open spec fn has_encoded_slash(rel: Seq<char>) -> bool {
    exists|p: int|
        0 <= p && p + 2 < rel.len() && #[trigger] rel[p] == '%' && rel[p + 1] == '2' && (rel[p + 2]
            == 'f' || rel[p + 2] == 'F')
}

/// Matches of pattern `k` in a file at `rel` cut into `bs`.
pub open spec fn file_pattern_count(rel: Seq<char>, bs: Seq<RawBlock>, k: int) -> nat {
    if k == 8 {
        if has_encoded_slash(rel) {
            1
        } else {
            0
        }
    } else {
        blocks_pattern_count(bs, k)
    }
}

pub open spec fn some_block_has_property(bs: Seq<RawBlock>) -> bool {
    exists|i: int| 0 <= i < bs.len() && (#[trigger] bs[i]).properties@.len() > 0
}

pub open spec fn some_block_has_drawer(bs: Seq<RawBlock>) -> bool {
    exists|i: int| 0 <= i < bs.len() && (#[trigger] bs[i]).drawers@.len() > 0
}

/// What one file contributes to the inventory.
#[derive(Debug, Clone)]
pub struct FilePatterns {
    /// Matches per pattern, in report order.
    pub counts: Vec<u32>,
    /// Some block holds a property.
    pub has_property: bool,
    /// Some block holds a drawer.
    pub has_drawer: bool,
}

/// `fp` summarises the file at `rel` cut into `bs`.
pub open spec fn summarises(fp: FilePatterns, rel: Seq<char>, bs: Seq<RawBlock>) -> bool {
    &&& fp.counts@.len() == PATTERN_COUNT
    &&& forall|k: int| 0 <= k < PATTERN_COUNT ==> fp.counts@[k] == file_pattern_count(rel, bs, k)
    &&& fp.has_property == some_block_has_property(bs)
    &&& fp.has_drawer == some_block_has_drawer(bs)
}

fn logbook_count_exec(d: &Vec<RawDrawer>) -> (r: u64)
    ensures
        r == logbook_count(d@),
{
    let mut r: u64 = 0;
    let mut i: usize = 0;
    while i < d.len()
        invariant
            i <= d@.len(),
            r == logbook_count(d@.take(i as int)),
            r <= i,
        decreases d@.len() - i,
    {
        assert(d@.take(i + 1).drop_last() =~= d@.take(i as int));
        if str_eq(d[i].name.as_str(), "LOGBOOK") {
            r = r + 1;
        }
        i = i + 1;
    }
    assert(d@.take(i as int) =~= d@);
    r
}

fn has_encoded_slash_exec(rel: &str) -> (r: bool)
    ensures
        r == has_encoded_slash(rel@),
{
    let cs = chars_of(rel);
    let n = cs.len();
    let mut p: usize = 0;
    while p < n && n - p > 2
        invariant
            n == cs@.len(),
            cs@ == rel@,
            forall|q: int|
                0 <= q < p ==> !(#[trigger] cs@[q] == '%' && cs@[q + 1] == '2' && (cs@[q + 2] == 'f'
                    || cs@[q + 2] == 'F')) || q + 2 >= n,
        decreases n - p,
    {
        if cs[p] == '%' && cs[p + 1] == '2' && (cs[p + 2] == 'f' || cs[p + 2] == 'F') {
            return true;
        }
        p = p + 1;
    }
    false
}

fn has_fence_exec(raw: &str) -> (r: bool)
    ensures
        r == has_fence(raw@),
{
    let fence = vec![96u8, 96u8, 96u8];
    assert(fence@ =~= fence_bytes());
    let r = find_bytes(raw.as_bytes(), fence.as_slice(), 0);
    proof {
        lemma_first_occ(encode_utf8(raw@), fence_bytes(), 0);
    }
    r.is_some()
}

/// Matches of the first eight patterns in one block.
fn block_counts(b: &RawBlock) -> (r: Vec<u64>)
    ensures
        r@.len() == 8,
        forall|k: int| 0 <= k < 8 ==> r@[k] == block_pattern_count(*b, k),
{
    let h = b.raw.as_str().as_bytes();
    let mut r: Vec<u64> = Vec::new();
    r.push(count_matches(h, "alias::".as_bytes()));
    r.push(count_matches(h, "id::".as_bytes()));
    r.push(count_matches(h, "template::".as_bytes()));
    r.push(logbook_count_exec(&b.drawers));
    r.push(count_matches(h, "#[[".as_bytes()));
    r.push(count_matches(h, "SCHEDULED:".as_bytes()));
    r.push(count_matches(h, "DEADLINE:".as_bytes()));
    r.push(
        if b.depth != PRELUDE_DEPTH && has_fence_exec(b.raw.as_str()) {
            1
        } else {
            0
        },
    );
    r
}

pub proof fn lemma_blocks_count_prefix(bs: Seq<RawBlock>, i: int, k: int)
    requires
        0 <= i <= bs.len(),
    ensures
        blocks_pattern_count(bs.take(i), k) <= blocks_pattern_count(bs, k),
    decreases bs.len(),
{
    if i < bs.len() {
        assert(bs.drop_last().take(i) =~= bs.take(i));
        lemma_blocks_count_prefix(bs.drop_last(), i, k);
    } else {
        assert(bs.take(i) =~= bs);
    }
}

/// Summarise one file: its relative path `rel` and its raw blocks.
///
/// `None` when a count would not fit in `u32`.
pub fn file_patterns(rel: &str, blocks: &Vec<RawBlock>) -> (r: Option<FilePatterns>)
    ensures
        r is Some <==> forall|k: int|
            0 <= k < PATTERN_COUNT ==> file_pattern_count(rel@, blocks@, k) <= u32::MAX,
        r matches Some(fp) ==> summarises(fp, rel@, blocks@),
{
    let mut totals: Vec<u64> = vec![0u64, 0u64, 0u64, 0u64, 0u64, 0u64, 0u64, 0u64];
    let mut has_property = false;
    let mut has_drawer = false;
    let mut i: usize = 0;
    while i < blocks.len()
        invariant
            i <= blocks@.len(),
            totals@.len() == 8,
            forall|k: int|
                0 <= k < 8 ==> totals@[k] == blocks_pattern_count(blocks@.take(i as int), k),
            forall|k: int| 0 <= k < 8 ==> totals@[k] <= u32::MAX,
            has_property == some_block_has_property(blocks@.take(i as int)),
            has_drawer == some_block_has_drawer(blocks@.take(i as int)),
        decreases blocks@.len() - i,
    {
        let b = &blocks[i];
        let ghost pre = blocks@.take(i as int);
        let ghost cur = blocks@.take(i + 1);
        assert(cur.drop_last() =~= pre);
        assert(cur.last() == *b);
        let per = block_counts(b);
        let mut k: usize = 0;
        while k < 8
            invariant
                k <= 8,
                i < blocks@.len(),
                cur == blocks@.take(i + 1),
                cur.drop_last() == pre,
                cur.last() == *b,
                per@.len() == 8,
                forall|j: int| 0 <= j < 8 ==> per@[j] == block_pattern_count(*b, j),
                totals@.len() == 8,
                forall|j: int| 0 <= j < k ==> totals@[j] == blocks_pattern_count(cur, j),
                forall|j: int| k <= j < 8 ==> totals@[j] == blocks_pattern_count(pre, j),
                forall|j: int| 0 <= j < 8 ==> totals@[j] <= u32::MAX,
            decreases 8 - k,
        {
            assert(blocks_pattern_count(cur, k as int) == blocks_pattern_count(pre, k as int)
                + block_pattern_count(*b, k as int));
            if per[k] > 4294967295u64 - totals[k] {
                proof {
                    lemma_blocks_count_prefix(blocks@, i + 1, k as int);
                    assert(file_pattern_count(rel@, blocks@, k as int) > u32::MAX);
                }
                return None;
            }
            let t = totals[k] + per[k];
            totals.set(k, t);
            k = k + 1;
        }
        proof {
            assert forall|j: int| 0 <= j < cur.len() && (#[trigger] cur[j]).properties@.len() > 0
                implies j == i || (0 <= j < pre.len() && pre[j].properties@.len() > 0) by {
                if j < i {
                    assert(cur[j] == pre[j]);
                }
            }
            assert forall|j: int| 0 <= j < cur.len() && (#[trigger] cur[j]).drawers@.len() > 0
                implies j == i || (0 <= j < pre.len() && pre[j].drawers@.len() > 0) by {
                if j < i {
                    assert(cur[j] == pre[j]);
                }
            }
            assert forall|j: int| 0 <= j < pre.len() implies #[trigger] pre[j] == cur[j] by {}
        }
        if b.properties.len() > 0 {
            has_property = true;
        }
        if b.drawers.len() > 0 {
            has_drawer = true;
        }
        i = i + 1;
    }
    proof {
        assert(blocks@.take(blocks@.len() as int) =~= blocks@);
        assert forall|k: int| 0 <= k < PATTERN_COUNT implies file_pattern_count(
            rel@,
            blocks@,
            k,
        ) <= u32::MAX by {
            if k < 8 {
                assert(totals@[k] <= u32::MAX);
            }
        }
    }
    let mut counts: Vec<u32> = Vec::new();
    let mut k: usize = 0;
    while k < 8
        invariant
            k <= 8,
            totals@.len() == 8,
            forall|j: int| 0 <= j < 8 ==> totals@[j] <= u32::MAX,
            counts@.len() == k,
            forall|j: int| 0 <= j < k ==> counts@[j] == totals@[j],
        decreases 8 - k,
    {
        counts.push(totals[k] as u32);
        k = k + 1;
    }
    counts.push(
        if has_encoded_slash_exec(rel) {
            1
        } else {
            0
        },
    );
    Some(FilePatterns { counts, has_property, has_drawer })
}

// ----------------------------------------------------------------------------
// The corpus
// ----------------------------------------------------------------------------

/// No two strings of `v` are equal.
pub open spec fn distinct_names(v: Seq<String>) -> bool {
    forall|i: int, j: int| 0 <= i < j < v.len() ==> (#[trigger] v[i])@ != (#[trigger] v[j])@
}

fn contains_name(v: &Vec<String>, s: &str) -> (r: bool)
    ensures
        r == names_view(v@).contains(s@),
{
    let mut i: usize = 0;
    while i < v.len()
        invariant
            i <= v@.len(),
            forall|j: int| 0 <= j < i ==> (#[trigger] v@[j])@ != s@,
        decreases v@.len() - i,
    {
        if str_eq(v[i].as_str(), s) {
            assert(names_view(v@)[i as int] == s@);
            return true;
        }
        i = i + 1;
    }
    assert forall|j: int| 0 <= j < names_view(v@).len() implies names_view(v@)[j] != s@ by {
        assert(names_view(v@)[j] == v@[j]@);
    }
    false
}

fn insert_name(v: &mut Vec<String>, s: &str)
    requires
        distinct_names(old(v)@),
    ensures
        distinct_names(final(v)@),
        names_view(final(v)@).to_set() == names_view(old(v)@).to_set().insert(s@),
        final(v)@.len() <= old(v)@.len() + 1,
{
    let ghost old_names = names_view(v@);
    if contains_name(v, s) {
        assert(old_names.to_set().contains(s@));
        assert(old_names.to_set() =~= old_names.to_set().insert(s@));
        return;
    }
    v.push(s.to_owned());
    assert(names_view(v@) =~= old_names.push(s@));
    assert forall|i: int, j: int| 0 <= i < j < v@.len() implies (#[trigger] v@[i])@ != (
    #[trigger] v@[j])@ by {
        if j == v@.len() - 1 {
            assert(old_names[i] == v@[i]@);
        }
    }
    proof {
        old_names.lemma_push_to_set_commute(s@);
    }
}

/// The inventory totals while the corpus is walked.
#[derive(Debug)]
pub struct InventoryTally {
    scanned_files: u32,
    journal_files: u32,
    total_size_bytes: u64,
    occurrences: Vec<u32>,
    files_with: Vec<Vec<String>>,
    block_property_files: Vec<String>,
    drawer_files: Vec<String>,
}

/// The totals as mathematical values.
pub struct TallyModel {
    pub scanned_files: nat,
    pub journal_files: nat,
    pub total_size_bytes: nat,
    pub occurrences: Seq<nat>,
    pub files_with: Seq<Set<Seq<char>>>,
    pub block_property_files: Set<Seq<char>>,
    pub drawer_files: Set<Seq<char>>,
}

impl View for InventoryTally {
    type V = TallyModel;

    closed spec fn view(&self) -> TallyModel {
        TallyModel {
            scanned_files: self.scanned_files as nat,
            journal_files: self.journal_files as nat,
            total_size_bytes: self.total_size_bytes as nat,
            occurrences: self.occurrences@.map_values(|c: u32| c as nat),
            files_with: self.files_with@.map_values(|v: Vec<String>| names_view(v@).to_set()),
            block_property_files: names_view(self.block_property_files@).to_set(),
            drawer_files: names_view(self.drawer_files@).to_set(),
        }
    }
}

/// The path is under `journals/`.
pub open spec fn is_journal_path(rel: Seq<char>) -> bool {
    rel.len() >= 9 && rel.take(9) == "journals/"@
}

/// Saturating addition of file sizes.
pub open spec fn add_size(total: nat, size: nat) -> nat {
    if total + size > u64::MAX {
        u64::MAX as nat
    } else {
        total + size
    }
}

/// The set `s` with `name` added when `yes`.
pub open spec fn insert_if(s: Set<Seq<char>>, yes: bool, name: Seq<char>) -> Set<Seq<char>> {
    if yes {
        s.insert(name)
    } else {
        s
    }
}

/// Whether adding a file with these counts would overflow a counter.
pub open spec fn add_overflows(t: TallyModel, counts: Seq<u32>) -> bool {
    ||| t.scanned_files + 1 > u32::MAX
    ||| exists|k: int| 0 <= k < PATTERN_COUNT && t.occurrences[k] + counts[k] > u32::MAX
}

impl InventoryTally {
    /// Counters and sets hold together: one row per pattern, no name twice,
    /// no set larger than the number of files seen, and no pattern found in
    /// more files than it has occurrences.
    pub closed spec fn wf(&self) -> bool {
        &&& self.occurrences@.len() == PATTERN_COUNT
        &&& self.files_with@.len() == PATTERN_COUNT
        &&& forall|k: int|
            0 <= k < PATTERN_COUNT ==> distinct_names(#[trigger] self.files_with@[k]@)
                && self.files_with@[k]@.len() <= self.scanned_files
                && self.files_with@[k]@.len() <= self.occurrences@[k]
        &&& distinct_names(self.block_property_files@)
        &&& self.block_property_files@.len() <= self.scanned_files
        &&& distinct_names(self.drawer_files@)
        &&& self.drawer_files@.len() <= self.scanned_files
        &&& self.journal_files <= self.scanned_files
    }

    /// Nothing counted yet.
    pub fn new() -> (r: Self)
        ensures
            r.wf(),
            r@.scanned_files == 0,
            r@.journal_files == 0,
            r@.total_size_bytes == 0,
            r@.occurrences == Seq::new(PATTERN_COUNT as nat, |k: int| 0nat),
            r@.files_with == Seq::new(PATTERN_COUNT as nat, |k: int| Set::<Seq<char>>::empty()),
            r@.block_property_files == Set::<Seq<char>>::empty(),
            r@.drawer_files == Set::<Seq<char>>::empty(),
    {
        let mut files_with: Vec<Vec<String>> = Vec::new();
        let mut k: usize = 0;
        while k < PATTERN_COUNT
            invariant
                k <= PATTERN_COUNT,
                files_with@.len() == k,
                forall|j: int| 0 <= j < k ==> (#[trigger] files_with@[j])@.len() == 0,
            decreases PATTERN_COUNT - k,
        {
            files_with.push(Vec::new());
            k = k + 1;
        }
        let r = InventoryTally {
            scanned_files: 0,
            journal_files: 0,
            total_size_bytes: 0,
            occurrences: vec![0u32, 0u32, 0u32, 0u32, 0u32, 0u32, 0u32, 0u32, 0u32],
            files_with,
            block_property_files: Vec::new(),
            drawer_files: Vec::new(),
        };
        assert(r@.occurrences =~= Seq::new(PATTERN_COUNT as nat, |k: int| 0nat));
        assert forall|k: int| 0 <= k < PATTERN_COUNT implies names_view(
            #[trigger] r.files_with@[k]@,
        ).to_set() =~= Set::<Seq<char>>::empty() by {
            assert(names_view(r.files_with@[k]@) =~= Seq::<Seq<char>>::empty());
        }
        assert(r@.files_with =~= Seq::new(PATTERN_COUNT as nat, |k: int| Set::<Seq<char>>::empty()));
        assert(names_view(r.block_property_files@) =~= Seq::<Seq<char>>::empty());
        assert(names_view(r.drawer_files@) =~= Seq::<Seq<char>>::empty());
        assert(r@.block_property_files =~= Set::<Seq<char>>::empty());
        assert(r@.drawer_files =~= Set::<Seq<char>>::empty());
        r
    }

    /// Count a file whose path could not be made relative: it is scanned
    /// and sized, and nothing else.
    ///
    /// `false`, with nothing changed, when the file count would overflow.
    pub fn skip_file(&mut self, size: u64) -> (ok: bool)
        requires
            old(self).wf(),
        ensures
            final(self).wf(),
            ok == (old(self)@.scanned_files + 1 <= u32::MAX),
            ok ==> final(self)@ == (TallyModel {
                scanned_files: old(self)@.scanned_files + 1,
                total_size_bytes: add_size(old(self)@.total_size_bytes, size as nat),
                ..old(self)@
            }),
            !ok ==> final(self)@ == old(self)@,
    {
        if self.scanned_files == u32::MAX {
            return false;
        }
        self.scanned_files = self.scanned_files + 1;
        self.total_size_bytes = self.total_size_bytes.saturating_add(size);
        true
    }

    /// Count a file at `rel` of `size` bytes, summarised by `fp`.
    ///
    /// `false`, with nothing changed, when a counter would overflow.
    pub fn add_file(&mut self, rel: &str, size: u64, fp: &FilePatterns) -> (ok: bool)
        requires
            old(self).wf(),
            fp.counts@.len() == PATTERN_COUNT,
        ensures
            final(self).wf(),
            ok == !add_overflows(old(self)@, fp.counts@),
            ok ==> final(self)@ == (TallyModel {
                scanned_files: old(self)@.scanned_files + 1,
                journal_files: old(self)@.journal_files + if is_journal_path(rel@) {
                    1nat
                } else {
                    0nat
                },
                total_size_bytes: add_size(old(self)@.total_size_bytes, size as nat),
                occurrences: Seq::new(
                    PATTERN_COUNT as nat,
                    |k: int| old(self)@.occurrences[k] + fp.counts@[k] as nat,
                ),
                files_with: Seq::new(
                    PATTERN_COUNT as nat,
                    |k: int| insert_if(old(self)@.files_with[k], fp.counts@[k] > 0, rel@),
                ),
                block_property_files: insert_if(
                    old(self)@.block_property_files,
                    fp.has_property,
                    rel@,
                ),
                drawer_files: insert_if(old(self)@.drawer_files, fp.has_drawer, rel@),
            }),
            !ok ==> final(self)@ == old(self)@,
    {
        if self.scanned_files == u32::MAX {
            return false;
        }
        let mut k: usize = 0;
        while k < PATTERN_COUNT
            invariant
                k <= PATTERN_COUNT,
                self.wf(),
                fp.counts@.len() == PATTERN_COUNT,
                forall|j: int| 0 <= j < k ==> self.occurrences@[j] + fp.counts@[j] <= u32::MAX,
            decreases PATTERN_COUNT - k,
        {
            if fp.counts[k] > u32::MAX - self.occurrences[k] {
                assert(self@.occurrences[k as int] == self.occurrences@[k as int]);
                return false;
            }
            k = k + 1;
        }
        assert(!add_overflows(old(self)@, fp.counts@)) by {
            assert forall|k: int| 0 <= k < PATTERN_COUNT implies old(self)@.occurrences[k]
                + fp.counts@[k] <= u32::MAX by {
                assert(old(self)@.occurrences[k] == old(self).occurrences@[k]);
            }
        }
        self.scanned_files = self.scanned_files + 1;
        self.total_size_bytes = self.total_size_bytes.saturating_add(size);
        let rc = chars_of(rel);
        let is_journal = rc.len() >= 9 && rc[0] == 'j' && rc[1] == 'o' && rc[2] == 'u' && rc[3]
            == 'r' && rc[4] == 'n' && rc[5] == 'a' && rc[6] == 'l' && rc[7] == 's' && rc[8] == '/';
        proof {
            reveal_strlit("journals/");
            if rc@.len() >= 9 {
                if is_journal {
                    assert(rel@.take(9) =~= "journals/"@);
                } else {
                    assert(rel@.take(9) != "journals/"@) by {
                        if rel@.take(9) == "journals/"@ {
                            assert(rel@.take(9)[0] == 'j');
                            assert(rel@.take(9)[1] == 'o');
                            assert(rel@.take(9)[2] == 'u');
                            assert(rel@.take(9)[3] == 'r');
                            assert(rel@.take(9)[4] == 'n');
                            assert(rel@.take(9)[5] == 'a');
                            assert(rel@.take(9)[6] == 'l');
                            assert(rel@.take(9)[7] == 's');
                            assert(rel@.take(9)[8] == '/');
                        }
                    }
                }
            }
        }
        if is_journal {
            self.journal_files = self.journal_files + 1;
        }
        let ghost occ0 = self.occurrences@;
        let ghost fw0 = self.files_with@;
        let ghost jf = self.journal_files;
        let ghost ts = self.total_size_bytes;
        let mut k: usize = 0;
        while k < PATTERN_COUNT
            invariant
                k <= PATTERN_COUNT,
                old(self).wf(),
                self.journal_files == jf,
                self.total_size_bytes == ts,
                self.block_property_files == old(self).block_property_files,
                self.drawer_files == old(self).drawer_files,
                jf <= self.scanned_files,
                fp.counts@.len() == PATTERN_COUNT,
                occ0.len() == PATTERN_COUNT,
                fw0.len() == PATTERN_COUNT,
                old(self).occurrences@ == occ0,
                old(self).files_with@ == fw0,
                self.occurrences@.len() == PATTERN_COUNT,
                self.files_with@.len() == PATTERN_COUNT,
                self.scanned_files == old(self).scanned_files + 1,
                forall|j: int| 0 <= j < PATTERN_COUNT ==> occ0[j] + fp.counts@[j] <= u32::MAX,
                forall|j: int| 0 <= j < k ==> self.occurrences@[j] == occ0[j] + fp.counts@[j],
                forall|j: int| k <= j < PATTERN_COUNT ==> self.occurrences@[j] == occ0[j],
                forall|j: int|
                    0 <= j < k ==> names_view((#[trigger] self.files_with@[j])@).to_set()
                        == insert_if(names_view(fw0[j]@).to_set(), fp.counts@[j] > 0, rel@),
                forall|j: int| k <= j < PATTERN_COUNT ==> self.files_with@[j] == fw0[j],
                forall|j: int|
                    0 <= j < PATTERN_COUNT ==> distinct_names((#[trigger] self.files_with@[j])@)
                        && self.files_with@[j]@.len() <= self.scanned_files
                        && self.files_with@[j]@.len() <= self.occurrences@[j],
            decreases PATTERN_COUNT - k,
        {
            assert(occ0[k as int] + fp.counts@[k as int] <= u32::MAX);
            assert(self.occurrences@[k as int] == occ0[k as int]);
            let c = self.occurrences[k] + fp.counts[k];
            self.occurrences.set(k, c);
            assert(fw0[k as int] == old(self).files_with@[k as int]);
            if fp.counts[k] > 0 {
                let mut set_k: Vec<String> = Vec::new();
                std::mem::swap(&mut set_k, &mut self.files_with[k]);
                insert_name(&mut set_k, rel);
                self.files_with.set(k, set_k);
            }
            k = k + 1;
        }
        if fp.has_property {
            insert_name(&mut self.block_property_files, rel);
        }
        if fp.has_drawer {
            insert_name(&mut self.drawer_files, rel);
        }
        proof {
            assert(self@.occurrences =~= Seq::new(
                PATTERN_COUNT as nat,
                |k: int| old(self)@.occurrences[k] + fp.counts@[k] as nat,
            ));
            assert(self@.files_with =~= Seq::new(
                PATTERN_COUNT as nat,
                |k: int| insert_if(old(self)@.files_with[k], fp.counts@[k] > 0, rel@),
            ));
        }
        true
    }

    /// The report, for the notes root `root` (with `\` turned into `/`).
    pub fn finish(&self, root: &str) -> (r: InventoryReport)
        requires
            self.wf(),
        ensures
            r.root@ == root@.map_values(|c: char| if c == '\\' { '/' } else { c }),
            r.scanned_files == self@.scanned_files,
            r.journal_files == self@.journal_files,
            r.page_files == self@.scanned_files - self@.journal_files,
            r.total_size_bytes == self@.total_size_bytes,
            r.block_property_files == self@.block_property_files.len(),
            r.drawer_files == self@.drawer_files.len(),
            r.patterns@.len() == PATTERN_COUNT,
            forall|k: int|
                0 <= k < PATTERN_COUNT ==> (#[trigger] r.patterns@[k]).name@ == pattern_key(k)
                    && r.patterns@[k].occurrences == self@.occurrences[k]
                    && r.patterns@[k].files_with == self@.files_with[k].len()
                    && r.patterns@[k].files_with <= r.patterns@[k].occurrences
                    && r.patterns@[k].files_with <= r.scanned_files,
    {
        let rc = chars_of(root);
        let mut out: Vec<char> = Vec::new();
        let mut i: usize = 0;
        while i < rc.len()
            invariant
                i <= rc@.len(),
                out@ == rc@.take(i as int).map_values(|c: char| if c == '\\' { '/' } else { c }),
            decreases rc@.len() - i,
        {
            let c = if rc[i] == '\\' {
                '/'
            } else {
                rc[i]
            };
            out.push(c);
            i = i + 1;
            assert(out@ =~= rc@.take(i as int).map_values(
                |c: char| if c == '\\' { '/' } else { c },
            ));
        }
        assert(rc@.take(rc@.len() as int) =~= rc@);
        let mut patterns: Vec<PatternCount> = Vec::new();
        let mut k: usize = 0;
        while k < PATTERN_COUNT
            invariant
                k <= PATTERN_COUNT,
                self.wf(),
                patterns@.len() == k,
                forall|j: int|
                    0 <= j < k ==> (#[trigger] patterns@[j]).name@ == pattern_key(j)
                        && patterns@[j].occurrences == self@.occurrences[j]
                        && patterns@[j].files_with == self@.files_with[j].len()
                        && patterns@[j].files_with <= patterns@[j].occurrences
                        && patterns@[j].files_with <= self.scanned_files,
            decreases PATTERN_COUNT - k,
        {
            let v = &self.files_with[k];
            proof {
                lemma_distinct_len(v@);
            }
            patterns.push(
                PatternCount {
                    name: pattern_key_str(k).to_owned(),
                    files_with: v.len() as u32,
                    occurrences: self.occurrences[k],
                },
            );
            k = k + 1;
        }
        proof {
            lemma_distinct_len(self.block_property_files@);
            lemma_distinct_len(self.drawer_files@);
        }
        InventoryReport {
            root: crate::text::string_of(out.as_slice()),
            scanned_files: self.scanned_files,
            journal_files: self.journal_files,
            page_files: self.scanned_files - self.journal_files,
            total_size_bytes: self.total_size_bytes,
            patterns,
            block_property_files: self.block_property_files.len() as u32,
            drawer_files: self.drawer_files.len() as u32,
        }
    }
}

/// Distinct names make a set as large as the list.
pub proof fn lemma_distinct_len(v: Seq<String>)
    requires
        distinct_names(v),
    ensures
        names_view(v).to_set().len() == v.len(),
{
    let nv = names_view(v);
    assert(nv.no_duplicates()) by {
        assert forall|i: int, j: int| 0 <= i < nv.len() && 0 <= j < nv.len() && i != j implies nv[i]
            != nv[j] by {
            if i < j {
                assert(v[i]@ != v[j]@);
            } else {
                assert(v[j]@ != v[i]@);
            }
        }
    }
    nv.unique_seq_to_set();
}

} // verus!
