//! Rewriting the backlinks of one file during a rename.
//!
//! The ops of a file are applied from the last byte offset to the first
//! (equal offsets in their given order), so that a splice never moves the
//! bytes of an op still to come. Each op checks the bytes of its range:
//! the old text is spliced over with the new text and the op is applied;
//! the new text means it was applied before; other bytes are noted and the
//! op is marked applied so as not to block; a range past the end of the
//! file is noted and the op is left as it was.

use vstd::prelude::*;
use vstd::multiset::Multiset;
use vstd::utf8::encode_utf8;

use crate::mutation::splice::{law_splice_keeps_other_blocks, spliced};
use crate::rename::journal::{replay_op, window, JournalOp, OpReplay};

verus! {

// ----------------------------------------------------------------------------
// Order
// ----------------------------------------------------------------------------

/// Position in `idx[0..n]` of the first op with the largest byte offset.
pub open spec fn first_max_upto(ops: Seq<JournalOp>, idx: Seq<usize>, n: int) -> int
    decreases n,
{
    if n <= 1 {
        0
    } else {
        let m = first_max_upto(ops, idx, n - 1);
        if ops[idx[n - 1] as int].byte_offset > ops[idx[m] as int].byte_offset {
            n - 1
        } else {
            m
        }
    }
}

/// The op indices `idx` by byte offset, largest first, ties kept in the
/// given order.
pub open spec fn desc_order(ops: Seq<JournalOp>, idx: Seq<usize>) -> Seq<usize>
    decreases idx.len(),
{
    if idx.len() == 0 {
        seq![]
    } else {
        let m = first_max_upto(ops, idx, idx.len() as int);
        if 0 <= m < idx.len() {
            seq![idx[m]] + desc_order(ops, idx.remove(m))
        } else {
            seq![]
        }
    }
}

proof fn lemma_first_max_bounds(ops: Seq<JournalOp>, idx: Seq<usize>, n: int)
    requires
        1 <= n,
    ensures
        0 <= first_max_upto(ops, idx, n) < n,
    decreases n,
{
    if n > 1 {
        lemma_first_max_bounds(ops, idx, n - 1);
    }
}

proof fn lemma_desc_order_elems(ops: Seq<JournalOp>, idx: Seq<usize>, bound: int)
    requires
        forall|k: int| 0 <= k < idx.len() ==> idx[k] < bound,
    ensures
        forall|k: int| 0 <= k < desc_order(ops, idx).len() ==> desc_order(ops, idx)[k] < bound,
    decreases idx.len(),
{
    if idx.len() > 0 {
        let m = first_max_upto(ops, idx, idx.len() as int);
        lemma_first_max_bounds(ops, idx, idx.len() as int);
        let rest = idx.remove(m);
        assert forall|k: int| 0 <= k < rest.len() implies rest[k] < bound by {
            assert(rest[k] == idx[if k < m { k } else { k + 1 }]);
        }
        lemma_desc_order_elems(ops, rest, bound);
        let d = desc_order(ops, idx);
        assert(d == seq![idx[m]] + desc_order(ops, rest));
        assert forall|k: int| 0 <= k < d.len() implies d[k] < bound by {
            if k > 0 {
                assert(d[k] == desc_order(ops, rest)[k - 1]);
            }
        }
    }
}

proof fn lemma_first_max_is_max(ops: Seq<JournalOp>, idx: Seq<usize>, n: int)
    requires
        1 <= n <= idx.len(),
    ensures
        forall|k: int|
            0 <= k < n ==> ops[#[trigger] idx[k] as int].byte_offset <= ops[idx[first_max_upto(
                ops,
                idx,
                n,
            )] as int].byte_offset,
    decreases n,
{
    if n > 1 {
        lemma_first_max_is_max(ops, idx, n - 1);
        lemma_first_max_bounds(ops, idx, n - 1);
    }
}

/// The application order is a reordering of the given indices, from the
/// largest byte offset to the smallest.
pub proof fn law_apply_order_descending(ops: Seq<JournalOp>, idx: Seq<usize>)
    ensures
        desc_order(ops, idx).to_multiset() == idx.to_multiset(),
        forall|a: int, b: int|
            0 <= a < b < desc_order(ops, idx).len() ==> ops[desc_order(ops, idx)[a] as int].byte_offset
                >= ops[desc_order(ops, idx)[b] as int].byte_offset,
    decreases idx.len(),
{
    broadcast use vstd::multiset::group_multiset_axioms;
    broadcast use vstd::seq_lib::group_to_multiset_ensures;

    let d = desc_order(ops, idx);
    if idx.len() == 0 {
        assert(idx.to_multiset() =~= Multiset::<usize>::empty());
        assert(d.to_multiset() =~= Multiset::<usize>::empty());
    } else {
        let m = first_max_upto(ops, idx, idx.len() as int);
        lemma_first_max_bounds(ops, idx, idx.len() as int);
        lemma_first_max_is_max(ops, idx, idx.len() as int);
        let rest = idx.remove(m);
        let dr = desc_order(ops, rest);
        law_apply_order_descending(ops, rest);
        assert(d == seq![idx[m]] + dr);
        assert(d.drop_first() =~= dr);
        assert(d =~= dr.insert(0, idx[m]));
        vstd::seq_lib::to_multiset_insert(dr, 0, idx[m]);
        vstd::seq_lib::to_multiset_remove(idx, m);
        assert(rest.to_multiset() == idx.to_multiset().remove(idx[m]));
        assert(idx.to_multiset().count(idx[m]) > 0) by {
            assert(idx.contains(idx[m]));
        }
        assert(d.to_multiset() =~= idx.to_multiset());
        assert forall|a: int, b: int|
            0 <= a < b < d.len() implies ops[d[a] as int].byte_offset >= ops[d[b] as int].byte_offset by {
            if a == 0 {
                let x = d[b];
                assert(x == dr[b - 1]);
                assert(dr.contains(x));
                assert(dr.to_multiset().count(x) > 0);
                assert(rest.contains(x));
                let k = choose|k: int| 0 <= k < rest.len() && rest[k] == x;
                assert(rest[k] == idx[if k < m { k } else { k + 1 }]);
            } else {
                assert(d[a] == dr[a - 1]);
                assert(d[b] == dr[b - 1]);
            }
        }
    }
}

proof fn lemma_first_max_is_first(ops: Seq<JournalOp>, idx: Seq<usize>, n: int)
    requires
        1 <= n <= idx.len(),
    ensures
        forall|k: int|
            0 <= k < first_max_upto(ops, idx, n) ==> ops[#[trigger] idx[k] as int].byte_offset
                < ops[idx[first_max_upto(ops, idx, n)] as int].byte_offset,
    decreases n,
{
    if n > 1 {
        lemma_first_max_is_first(ops, idx, n - 1);
        lemma_first_max_is_max(ops, idx, n - 1);
        lemma_first_max_bounds(ops, idx, n - 1);
    }
}

/// Ops at the same byte offset are applied in the order they were given.
pub proof fn law_apply_order_stable(ops: Seq<JournalOp>, idx: Seq<usize>)
    requires
        idx.no_duplicates(),
    ensures
        forall|a: int, b: int, i: int, j: int|
            #![trigger desc_order(ops, idx)[a], desc_order(ops, idx)[b], idx[i], idx[j]]
            0 <= a < b < desc_order(ops, idx).len() && 0 <= i < idx.len() && 0 <= j < idx.len()
                && idx[i] == desc_order(ops, idx)[a] && idx[j] == desc_order(ops, idx)[b]
                && ops[idx[i] as int].byte_offset == ops[idx[j] as int].byte_offset ==> i < j,
    decreases idx.len(),
{
    broadcast use vstd::seq_lib::group_to_multiset_ensures;

    let d = desc_order(ops, idx);
    if idx.len() > 0 {
        let m = first_max_upto(ops, idx, idx.len() as int);
        lemma_first_max_bounds(ops, idx, idx.len() as int);
        lemma_first_max_is_first(ops, idx, idx.len() as int);
        lemma_first_max_is_max(ops, idx, idx.len() as int);
        let rest = idx.remove(m);
        let dr = desc_order(ops, rest);
        assert(rest.no_duplicates()) by {
            assert forall|p: int, q: int| 0 <= p < rest.len() && 0 <= q < rest.len() && p != q implies rest[p]
                != rest[q] by {
                assert(rest[p] == idx[if p < m { p } else { p + 1 }]);
                assert(rest[q] == idx[if q < m { q } else { q + 1 }]);
            }
        }
        law_apply_order_stable(ops, rest);
        law_apply_order_descending(ops, idx);
        idx.lemma_multiset_has_no_duplicates();
        d.lemma_multiset_has_no_duplicates_conv();
        assert(d == seq![idx[m]] + dr);
        assert forall|a: int, b: int, i: int, j: int|
            #![trigger d[a], d[b], idx[i], idx[j]]
            0 <= a < b < d.len() && 0 <= i < idx.len() && 0 <= j < idx.len() && idx[i] == d[a] && idx[j]
                == d[b] && ops[idx[i] as int].byte_offset == ops[idx[j] as int].byte_offset implies i < j by {
            assert(d[a] != d[b]);
            if a == 0 {
                assert(i == m);
                assert(j != m);
            } else {
                assert(d[a] == dr[a - 1]);
                assert(d[b] == dr[b - 1]);
                assert(i != m) by {
                    assert(d[0] == idx[m]);
                }
                assert(j != m) by {
                    assert(d[0] == idx[m]);
                }
                let i2 = if i < m { i } else { i - 1 };
                let j2 = if j < m { j } else { j - 1 };
                assert(rest[i2] == idx[i]);
                assert(rest[j2] == idx[j]);
                assert(dr[a - 1] == rest[i2] && dr[b - 1] == rest[j2]);
            }
        }
    }
}

fn first_max(ops: &Vec<JournalOp>, idx: &Vec<usize>) -> (m: usize)
    requires
        idx@.len() > 0,
        forall|k: int| 0 <= k < idx@.len() ==> idx@[k] < ops@.len(),
    ensures
        m == first_max_upto(ops@, idx@, idx@.len() as int),
        m < idx@.len(),
{
    let mut m: usize = 0;
    let mut n: usize = 1;
    while n < idx.len()
        invariant
            1 <= n <= idx@.len(),
            forall|k: int| 0 <= k < idx@.len() ==> idx@[k] < ops@.len(),
            m == first_max_upto(ops@, idx@, n as int),
            m < n,
        decreases idx@.len() - n,
    {
        if ops[idx[n]].byte_offset > ops[idx[m]].byte_offset {
            m = n;
        }
        n = n + 1;
    }
    m
}

/// The op indices in the order they are applied.
pub fn apply_order(ops: &Vec<JournalOp>, indices: &Vec<usize>) -> (r: Vec<usize>)
    requires
        forall|k: int| 0 <= k < indices@.len() ==> indices@[k] < ops@.len(),
    ensures
        r@ == desc_order(ops@, indices@),
{
    let mut rest: Vec<usize> = Vec::new();
    let mut i: usize = 0;
    while i < indices.len()
        invariant
            i <= indices@.len(),
            rest@ == indices@.take(i as int),
        decreases indices@.len() - i,
    {
        rest.push(indices[i]);
        i = i + 1;
        assert(rest@ =~= indices@.take(i as int));
    }
    assert(indices@.take(indices@.len() as int) =~= indices@);
    let mut out: Vec<usize> = Vec::new();
    assert(out@ + desc_order(ops@, rest@) =~= desc_order(ops@, indices@));
    while rest.len() > 0
        invariant
            forall|k: int| 0 <= k < rest@.len() ==> rest@[k] < ops@.len(),
            out@ + desc_order(ops@, rest@) == desc_order(ops@, indices@),
        decreases rest@.len(),
    {
        let ghost before = rest@;
        let m = first_max(ops, &rest);
        let x = rest.remove(m);
        out.push(x);
        proof {
            assert(desc_order(ops@, before) == seq![x] + desc_order(ops@, rest@));
            assert(forall|k: int| 0 <= k < rest@.len() ==> rest@[k] == before[if k < m { k } else { k + 1 }]);
        }
        assert(out@ + desc_order(ops@, rest@) =~= (out@.drop_last() + (seq![x] + desc_order(
            ops@,
            rest@,
        ))));
    }
    assert(out@ + desc_order(ops@, rest@) =~= out@);
    out
}

// ----------------------------------------------------------------------------
// Applying the ops
// ----------------------------------------------------------------------------

/// Why an op was noted.
#[derive(Debug, Clone, Copy, PartialEq, Eq, Structural)]
pub enum RewriteNoteKind {
    /// The range runs past the end of the file.
    OutOfRange,
    /// The range holds neither the old nor the new text.
    Mismatch,
}

/// An op that did not go as expected: its index and why.
#[derive(Debug, Clone, Copy, PartialEq, Eq, Structural)]
pub struct RewriteNote {
    pub op: usize,
    pub kind: RewriteNoteKind,
}

/// Where a file's rewrite stands.
pub struct RewriteModel {
    pub bytes: Seq<u8>,
    pub changed: bool,
    pub applied: Set<usize>,
    pub notes: Seq<RewriteNote>,
}

/// The rewrite after the ops `order`, one after the other.
pub open spec fn rewrite_all(bytes: Seq<u8>, ops: Seq<JournalOp>, order: Seq<usize>) -> RewriteModel
    decreases order.len(),
{
    if order.len() == 0 {
        RewriteModel { bytes, changed: false, applied: Set::empty(), notes: seq![] }
    } else {
        let r = rewrite_all(bytes, ops, order.drop_last());
        let i = order.last();
        let op = ops[i as int];
        let off = op.byte_offset as int;
        let len = op.byte_length as int;
        if off + len > r.bytes.len() {
            RewriteModel {
                notes: r.notes.push(RewriteNote { op: i, kind: RewriteNoteKind::OutOfRange }),
                ..r
            }
        } else if window(r.bytes, off, len) == encode_utf8(op.old_text@) {
            RewriteModel {
                bytes: spliced(r.bytes, off, len, encode_utf8(op.new_text@)),
                changed: true,
                applied: r.applied.insert(i),
                notes: r.notes,
            }
        } else if window(r.bytes, off, len) == encode_utf8(op.new_text@) {
            RewriteModel { applied: r.applied.insert(i), ..r }
        } else {
            RewriteModel {
                applied: r.applied.insert(i),
                notes: r.notes.push(RewriteNote { op: i, kind: RewriteNoteKind::Mismatch }),
                ..r
            }
        }
    }
}

/// The outcome of rewriting one file.
#[derive(Debug, Clone)]
pub struct FileRewrite {
    /// The file's bytes after the splices.
    pub bytes: Vec<u8>,
    /// Some splice was made: the file must be written.
    pub changed: bool,
    /// Ops that did not go as expected, in the order they were met.
    pub notes: Vec<RewriteNote>,
}

/// Apply the ops `indices` of `ops` (those of one file) to the file's
/// `bytes`, last byte offset first, and mark the ops that are done.
pub fn rewrite_file_ops(bytes: Vec<u8>, ops: &mut Vec<JournalOp>, indices: &Vec<usize>) -> (r:
    FileRewrite)
    requires
        forall|k: int| 0 <= k < indices@.len() ==> indices@[k] < old(ops)@.len(),
    ensures
        ({
            let m = rewrite_all(bytes@, old(ops)@, desc_order(old(ops)@, indices@));
            &&& r.bytes@ == m.bytes
            &&& r.changed == m.changed
            &&& r.notes@ == m.notes
            &&& final(ops)@.len() == old(ops)@.len()
            &&& forall|j: int|
                0 <= j < old(ops)@.len() ==> (#[trigger] final(ops)@[j]) == (JournalOp {
                    applied: old(ops)@[j].applied || m.applied.contains(j as usize),
                    ..old(ops)@[j]
                })
        }),
{
    let order = apply_order(ops, indices);
    let ghost ops0 = ops@;
    proof {
        lemma_desc_order_elems(ops0, indices@, ops0.len() as int);
    }
    let ol = ops.len();
    let mut cur = bytes;
    let mut changed = false;
    let mut notes: Vec<RewriteNote> = Vec::new();
    let mut i: usize = 0;
    while i < order.len()
        invariant
            i <= order@.len(),
            order@ == desc_order(ops0, indices@),
            forall|k: int| 0 <= k < order@.len() ==> order@[k] < ops0.len(),
            ops@.len() == ops0.len(),
            ol == ops0.len(),
            ({
                let m = rewrite_all(bytes@, ops0, order@.take(i as int));
                &&& cur@ == m.bytes
                &&& changed == m.changed
                &&& notes@ == m.notes
                &&& forall|j: int|
                    0 <= j < ops0.len() ==> (#[trigger] ops@[j]) == (JournalOp {
                        applied: ops0[j].applied || m.applied.contains(j as usize),
                        ..ops0[j]
                    })
            }),
        decreases order@.len() - i,
    {
        let k = order[i];
        let ghost pre = order@.take(i as int);
        let ghost now = order@.take(i + 1);
        assert(now.drop_last() =~= pre);
        assert(now.last() == k);
        let ghost m0 = rewrite_all(bytes@, ops0, pre);
        assert(ops@[k as int] == (JournalOp { applied: ops0[k as int].applied || m0.applied.contains(k), ..ops0[k as int] }));
        match replay_op(cur.as_slice(), &ops[k]) {
            OpReplay::OutOfRange => {
                notes.push(RewriteNote { op: k, kind: RewriteNoteKind::OutOfRange });
            },
            OpReplay::Spliced(out) => {
                cur = out;
                changed = true;
                ops[k].applied = true;
            },
            OpReplay::AlreadyApplied => {
                ops[k].applied = true;
            },
            OpReplay::Mismatch => {
                notes.push(RewriteNote { op: k, kind: RewriteNoteKind::Mismatch });
                ops[k].applied = true;
            },
        }
        proof {
            let m1 = rewrite_all(bytes@, ops0, now);
            assert(m1.applied == m0.applied || m1.applied == m0.applied.insert(k));
            assert forall|j: int| 0 <= j < ops0.len() implies (#[trigger] ops@[j]) == (JournalOp {
                applied: ops0[j].applied || m1.applied.contains(j as usize),
                ..ops0[j]
            }) by {
                if j != k as int {
                    assert(j as usize != k);
                    assert(m1.applied.contains(j as usize) == m0.applied.contains(j as usize));
                }
            }
        }
        i = i + 1;
    }
    assert(order@.take(order@.len() as int) =~= order@);
    FileRewrite { bytes: cur, changed, notes }
}


// ----------------------------------------------------------------------------
// Every op applied
// ----------------------------------------------------------------------------

/// The op's range is not empty, lies in `bytes` and holds the op's old text.
pub open spec fn op_matches(bytes: Seq<u8>, op: JournalOp) -> bool {
    let off = op.byte_offset as int;
    let len = op.byte_length as int;
    &&& len > 0
    &&& off + len <= bytes.len()
    &&& window(bytes, off, len) == encode_utf8(op.old_text@)
}

/// The ranges of two ops do not overlap.
pub open spec fn apart(a: JournalOp, b: JournalOp) -> bool {
    a.byte_offset + a.byte_length <= b.byte_offset || b.byte_offset + b.byte_length <= a.byte_offset
}

proof fn lemma_rewrite_prefix(bytes: Seq<u8>, ops: Seq<JournalOp>, o: Seq<usize>, n: int)
    requires
        0 <= n <= o.len(),
        forall|k: int| 0 <= k < o.len() ==> op_matches(bytes, #[trigger] ops[o[k] as int]),
        forall|a: int, b: int|
            0 <= a < b < o.len() ==> ops[#[trigger] o[a] as int].byte_offset >= ops[#[trigger] o[b] as int].byte_offset
                && apart(ops[o[a] as int], ops[o[b] as int]),
    ensures
        ({
            let m = rewrite_all(bytes, ops, o.take(n));
            &&& m.notes.len() == 0
            &&& m.changed == (n > 0)
            &&& forall|k: int| 0 <= k < n ==> m.applied.contains(#[trigger] o[k])
            &&& forall|k: int| n <= k < o.len() ==> op_matches(m.bytes, #[trigger] ops[o[k] as int])
        }),
    decreases n,
{
    if n == 0 {
        assert(o.take(0) =~= Seq::<usize>::empty());
    } else {
        lemma_rewrite_prefix(bytes, ops, o, n - 1);
        let t = o.take(n);
        assert(t.drop_last() =~= o.take(n - 1));
        assert(t.last() == o[n - 1]);
        let m0 = rewrite_all(bytes, ops, o.take(n - 1));
        let op = ops[o[n - 1] as int];
        let off = op.byte_offset as int;
        let len = op.byte_length as int;
        let new_b = encode_utf8(op.new_text@);
        assert(op_matches(m0.bytes, op));
        let m = rewrite_all(bytes, ops, t);
        assert(m.bytes == spliced(m0.bytes, off, len, new_b));
        assert(m.applied == m0.applied.insert(o[n - 1]));
        assert forall|k: int| n <= k < o.len() implies op_matches(m.bytes, #[trigger] ops[o[k] as int]) by {
            let q = ops[o[k] as int];
            assert(op_matches(m0.bytes, q));
            assert(q.byte_offset <= op.byte_offset && apart(op, q));
            law_splice_keeps_other_blocks(m0.bytes, off, len, new_b, q.byte_offset as int, q.byte_length as int);
        }
    }
}

/// Rewriting a file whose ops each find their old text in a non-empty
/// range of their own, no two ranges overlapping, applies every op in
/// turn: nothing is noted, every op is marked applied, and the file changes
/// when there is any op. (Applying the last offset first is what keeps the
/// ranges of the ops still to come in place.)
pub proof fn law_rewrite_applies_every_op(bytes: Seq<u8>, ops: Seq<JournalOp>, idx: Seq<usize>)
    requires
        forall|k: int| 0 <= k < idx.len() ==> idx[k] < ops.len() && op_matches(bytes, #[trigger] ops[idx[k] as int]),
        forall|k: int, l: int|
            0 <= k < l < idx.len() ==> apart(ops[#[trigger] idx[k] as int], ops[#[trigger] idx[l] as int]),
    ensures
        ({
            let m = rewrite_all(bytes, ops, desc_order(ops, idx));
            &&& m.notes.len() == 0
            &&& m.changed == (idx.len() > 0)
            &&& forall|k: int| 0 <= k < idx.len() ==> m.applied.contains(#[trigger] idx[k])
        }),
{
    broadcast use vstd::seq_lib::group_to_multiset_ensures;

    let d = desc_order(ops, idx);
    law_apply_order_descending(ops, idx);
    assert(idx.no_duplicates()) by {
        assert forall|i: int, j: int| 0 <= i < idx.len() && 0 <= j < idx.len() && i != j implies idx[i] != idx[j] by {
            if i < j {
                assert(apart(ops[idx[i] as int], ops[idx[j] as int]));
            } else {
                assert(apart(ops[idx[j] as int], ops[idx[i] as int]));
            }
        }
    }
    idx.lemma_multiset_has_no_duplicates();
    d.lemma_multiset_has_no_duplicates_conv();
    assert(d.len() == idx.len()) by {
        vstd::seq_lib::to_multiset_len(d);
        vstd::seq_lib::to_multiset_len(idx);
    }
    assert forall|a: int| 0 <= a < d.len() implies exists|k: int| 0 <= k < idx.len() && idx[k] == #[trigger] d[a] by {
        assert(d.contains(d[a]));
        assert(d.to_multiset().count(d[a]) > 0);
        assert(idx.contains(d[a]));
    }
    assert forall|k: int| 0 <= k < d.len() implies op_matches(bytes, #[trigger] ops[d[k] as int]) by {
        let i = choose|i: int| 0 <= i < idx.len() && idx[i] == d[k];
    }
    assert forall|a: int, b: int| 0 <= a < b < d.len() implies ops[#[trigger] d[a] as int].byte_offset
        >= ops[#[trigger] d[b] as int].byte_offset && apart(ops[d[a] as int], ops[d[b] as int]) by {
        let i = choose|i: int| 0 <= i < idx.len() && idx[i] == d[a];
        let j = choose|j: int| 0 <= j < idx.len() && idx[j] == d[b];
        assert(d[a] != d[b]);
        if i < j {
            assert(apart(ops[idx[i] as int], ops[idx[j] as int]));
        } else {
            assert(apart(ops[idx[j] as int], ops[idx[i] as int]));
        }
    }
    lemma_rewrite_prefix(bytes, ops, d, d.len() as int);
    assert(d.take(d.len() as int) =~= d);
    let m = rewrite_all(bytes, ops, d);
    assert forall|k: int| 0 <= k < idx.len() implies m.applied.contains(#[trigger] idx[k]) by {
        assert(idx.contains(idx[k]));
        assert(idx.to_multiset().count(idx[k]) > 0);
        assert(d.contains(idx[k]));
        let a = choose|a: int| 0 <= a < d.len() && d[a] == idx[k];
    }
}

} // verus!
