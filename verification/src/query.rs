//! Read-only queries: the parameters of a block search, and the block tree
//! of a page built from its stored rows.

use vstd::prelude::*;

use crate::text::{chars_of, string_of, sub_chars};

verus! {

/// One hit of a block search.
#[derive(Debug, Clone, PartialEq, Eq)]
pub struct SearchHit {
    /// Forward-slash relative path of the page file holding the hit.
    pub page_path: String,
    /// Row id of the matching block.
    pub block_id: i64,
    /// Snippet with `[`…`]` around the match.
    pub snippet: String,
}

/// One node of a page's block tree.
#[derive(Debug, PartialEq, Eq)]
pub struct BlockNode {
    /// TAB-indent depth as stored; `-1` is the page prelude.
    pub depth: i32,
    /// Raw block text.
    pub raw: String,
    /// Children, in source order.
    pub children: Vec<BlockNode>,
}

// ----------------------------------------------------------------------------
// Search parameters
// ----------------------------------------------------------------------------

/// A character with Unicode's `White_Space` property (what `str::trim`
/// removes).
pub open spec fn is_white_space(c: char) -> bool {
    ||| '\u{9}' <= c <= '\u{d}'
    ||| c == ' '
    ||| c == '\u{85}'
    ||| c == '\u{a0}'
    ||| c == '\u{1680}'
    ||| '\u{2000}' <= c <= '\u{200a}'
    ||| c == '\u{2028}'
    ||| c == '\u{2029}'
    ||| c == '\u{202f}'
    ||| c == '\u{205f}'
    ||| c == '\u{3000}'
}

fn is_white_space_exec(c: char) -> (r: bool)
    ensures
        r == is_white_space(c),
{
    ('\u{9}' <= c && c <= '\u{d}') || c == ' ' || c == '\u{85}' || c == '\u{a0}' || c == '\u{1680}'
        || ('\u{2000}' <= c && c <= '\u{200a}') || c == '\u{2028}' || c == '\u{2029}' || c
        == '\u{202f}' || c == '\u{205f}' || c == '\u{3000}'
}

/// The first position at or after `i` that does not hold white space.
pub open spec fn ws_lead(s: Seq<char>, i: int) -> int
    decreases s.len() - i,
{
    if 0 <= i < s.len() && is_white_space(s[i]) {
        ws_lead(s, i + 1)
    } else {
        i
    }
}

/// The end of `s[lo..e]` once its trailing white space is dropped.
pub open spec fn ws_trail(s: Seq<char>, lo: int, e: int) -> int
    decreases e,
{
    if 0 <= lo < e <= s.len() && is_white_space(s[e - 1]) {
        ws_trail(s, lo, e - 1)
    } else {
        e
    }
}

/// The string with leading and trailing white space removed.
pub open spec fn trimmed(s: Seq<char>) -> Seq<char> {
    let a = ws_lead(s, 0);
    s.subrange(a, ws_trail(s, a, s.len() as int))
}

/// Trim a string of its leading and trailing white space.
fn trim_str(s: &str) -> (r: String)
    ensures
        r@ == trimmed(s@),
{
    let cs = chars_of(s);
    let mut a: usize = 0;
    while a < cs.len() && is_white_space_exec(cs[a])
        invariant
            a <= cs@.len(),
            cs@ == s@,
            ws_lead(cs@, 0) == ws_lead(cs@, a as int),
        decreases cs@.len() - a,
    {
        a = a + 1;
    }
    let mut e: usize = cs.len();
    while e > a && is_white_space_exec(cs[e - 1])
        invariant
            a <= e <= cs@.len(),
            cs@ == s@,
            a == ws_lead(cs@, 0),
            ws_trail(cs@, a as int, cs@.len() as int) == ws_trail(cs@, a as int, e as int),
        decreases e,
    {
        e = e - 1;
    }
    let piece = sub_chars(cs.as_slice(), a, e);
    string_of(piece.as_slice())
}

/// The row limit handed to SQL: `0` means no limit.
pub open spec fn sql_limit(limit: usize) -> i64 {
    if limit == 0 || limit > i64::MAX {
        i64::MAX
    } else {
        limit as i64
    }
}

/// What a block search asks the database: the trimmed query and the row
/// limit; `None` when the trimmed query is empty (nothing is searched and
/// nothing is found).
pub fn search_params(query: &str, limit: usize) -> (r: Option<(String, i64)>)
    ensures
        match r {
            None => trimmed(query@).len() == 0,
            Some((q, l)) => trimmed(query@).len() > 0 && q@ == trimmed(query@) && l == sql_limit(
                limit,
            ),
        },
{
    let q = trim_str(query);
    if chars_of(q.as_str()).len() == 0 {
        return None;
    }
    let l: i64 = if limit == 0 || limit as u64 > 9223372036854775807u64 {
        9223372036854775807i64
    } else {
        limit as i64
    };
    Some((q, l))
}

// ----------------------------------------------------------------------------
// Block tree
// ----------------------------------------------------------------------------

/// A stored block: id, parent id, depth, raw text.
pub type BlockRow = (i64, Option<i64>, i32, String);

/// The rows whose parent is `parent`, in row order.
pub open spec fn child_rows(rows: Seq<BlockRow>, parent: Option<i64>) -> Seq<BlockRow>
    decreases rows.len(),
{
    if rows.len() == 0 {
        seq![]
    } else {
        child_rows(rows.drop_last(), parent) + if rows.last().1 == parent {
            seq![rows.last()]
        } else {
            seq![]
        }
    }
}

/// `ns` is the forest under `parent`, built down to `levels` levels: one
/// node per child row, in row order, with the row's depth and text.
pub open spec fn forest_of(ns: Seq<BlockNode>, rows: Seq<BlockRow>, parent: Option<i64>, levels: nat) -> bool
    decreases levels,
{
    if levels == 0 {
        ns.len() == 0
    } else {
        let kids = child_rows(rows, parent);
        &&& ns.len() == kids.len()
        &&& forall|i: int|
            0 <= i < ns.len() ==> (#[trigger] ns[i]).depth == kids[i].2 && ns[i].raw@ == kids[i].3@
                && forest_of(ns[i].children@, rows, Some(kids[i].0), (levels - 1) as nat)
    }
}

fn build_forest(rows: &Vec<BlockRow>, parent: Option<i64>, levels: usize) -> (r: Vec<BlockNode>)
    ensures
        forest_of(r@, rows@, parent, levels as nat),
    decreases levels,
{
    let mut out: Vec<BlockNode> = Vec::new();
    if levels == 0 {
        return out;
    }
    let mut i: usize = 0;
    while i < rows.len()
        invariant
            levels > 0,
            i <= rows@.len(),
            out@.len() == child_rows(rows@.take(i as int), parent).len(),
            forall|j: int|
                0 <= j < out@.len() ==> (#[trigger] out@[j]).depth == child_rows(
                    rows@.take(i as int),
                    parent,
                )[j].2 && out@[j].raw@ == child_rows(rows@.take(i as int), parent)[j].3@
                    && forest_of(
                    out@[j].children@,
                    rows@,
                    Some(child_rows(rows@.take(i as int), parent)[j].0),
                    (levels - 1) as nat,
                ),
        decreases rows@.len() - i,
    {
        let row = &rows[i];
        let ghost pre = rows@.take(i as int);
        let ghost cur = rows@.take(i + 1);
        assert(cur.drop_last() =~= pre);
        assert(cur.last() == *row);
        let is_child = match (row.1, parent) {
            (None, None) => true,
            (Some(a), Some(b)) => a == b,
            _ => false,
        };
        if is_child {
            let children = build_forest(rows, Some(row.0), levels - 1);
            let node = BlockNode { depth: row.2, raw: row.3.clone(), children };
            out.push(node);
            assert(child_rows(cur, parent) == child_rows(pre, parent).push(*row));
        } else {
            assert(child_rows(cur, parent) =~= child_rows(pre, parent));
        }
        i = i + 1;
    }
    assert(rows@.take(rows@.len() as int) =~= rows@);
    out
}

/// The block tree of a page from its stored rows, given in source order:
/// the roots are the rows without a parent, and each node's children are
/// the rows whose parent is its id, in row order. The tree is built at most
/// as many levels deep as there are rows.
pub fn build_block_tree(rows: &Vec<BlockRow>) -> (r: Vec<BlockNode>)
    ensures
        forest_of(r@, rows@, None, rows@.len()),
{
    build_forest(rows, None, rows.len())
}

} // verus!
