//! Invertible tree operations over a [`MutableTree`].
//!
//! Each [`TreeOp`] variant is one keyboard-driven editor operation
//! (indent, outdent, merge, split, move, delete). [`TreeOp::apply`] performs
//! it and returns the inverse operation, so an undo stack needs no server
//! state: applying the inverse restores the tree (see the laws at the end of
//! this module for the trees on which that holds).

use vstd::prelude::*;
use vstd::utf8::*;

verus! {

/// Depth of the page-prelude block.
pub const PRELUDE_DEPTH: u8 = 255;

/// Everything needed to rebuild a deleted block.
#[derive(Debug, Clone, PartialEq, Eq)]
pub struct BlockSnapshot {
    pub raw: String,
    pub depth: u8,
    pub parent_id: Option<i64>,
    pub ord: i32,
    /// Child ids that were re-parented to `parent_id` on delete, in the
    /// order they were re-numbered.
    pub reparented_children: Vec<i64>,
}

/// The six block-tree operations. `apply` returns the inverse operation.
#[derive(Debug, Clone, PartialEq, Eq)]
pub enum TreeOp {
    /// Make `block_id` the last child of its preceding sibling.
    Indent { block_id: i64, prev_depth: u8 },
    /// Make `block_id` the sibling just after its parent. Its inverse is an
    /// `Indent` when the block was its parent's last child, and otherwise
    /// the `Move` back under the old parent at the old `ord`.
    Outdent { block_id: i64, prev_depth: u8 },
    /// Append `block_id`'s text to `merged_into_id` and remove `block_id`.
    Merge { block_id: i64, merged_into_id: i64, original_raw: String },
    /// Split `block_id`'s text at byte `at_offset`; the right half becomes
    /// block `new_block_id`, the next sibling.
    Split { block_id: i64, at_offset: usize, new_block_id: i64 },
    /// Reposition `block_id` under `new_parent_id` at `new_ord`.
    Move {
        block_id: i64,
        prev_parent_id: Option<i64>,
        prev_ord: i32,
        new_parent_id: Option<i64>,
        new_ord: i32,
    },
    /// Delete `block_id` (its children move up into its place), or, when
    /// the block is absent, re-insert it from `snapshot`.
    Delete { block_id: i64, snapshot: BlockSnapshot },
}

#[derive(Debug, Clone, Copy, PartialEq, Eq, Structural)]
pub enum TreeOpError {
    BlockNotFound(i64),
    FirstChildCannotIndent,
    AlreadyAtRoot,
    CannotMergeIntoPrelude,
    InvalidSplitOffset,
}

/// One block in the in-memory tree.
#[derive(Debug, Clone, PartialEq, Eq)]
pub struct MutableBlock {
    pub id: i64,
    pub parent_id: Option<i64>,
    pub ord: i32,
    pub depth: u8,
    pub raw: String,
}

/// Flat container with parent/ord-based traversal.
#[derive(Debug, Clone, PartialEq, Eq)]
pub struct MutableTree {
    pub blocks: Vec<MutableBlock>,
}

// ----------------------------------------------------------------------------
// Mathematical model
// ----------------------------------------------------------------------------

pub struct BlockV {
    pub id: i64,
    pub parent_id: Option<i64>,
    pub ord: i32,
    pub depth: u8,
    pub raw: Seq<char>,
}

impl View for MutableBlock {
    type V = BlockV;

    open spec fn view(&self) -> BlockV {
        BlockV {
            id: self.id,
            parent_id: self.parent_id,
            ord: self.ord,
            depth: self.depth,
            raw: self.raw@,
        }
    }
}

pub open spec fn blocks_view(v: Seq<MutableBlock>) -> Seq<BlockV> {
    v.map_values(|b: MutableBlock| b@)
}

impl View for MutableTree {
    type V = Seq<BlockV>;

    open spec fn view(&self) -> Seq<BlockV> {
        blocks_view(self.blocks@)
    }
}

pub struct SnapshotV {
    pub raw: Seq<char>,
    pub depth: u8,
    pub parent_id: Option<i64>,
    pub ord: i32,
    pub reparented_children: Seq<i64>,
}

impl View for BlockSnapshot {
    type V = SnapshotV;

    open spec fn view(&self) -> SnapshotV {
        SnapshotV {
            raw: self.raw@,
            depth: self.depth,
            parent_id: self.parent_id,
            ord: self.ord,
            reparented_children: self.reparented_children@,
        }
    }
}

pub enum TreeOpV {
    Indent { block_id: i64, prev_depth: u8 },
    Outdent { block_id: i64, prev_depth: u8 },
    Merge { block_id: i64, merged_into_id: i64, original_raw: Seq<char> },
    Split { block_id: i64, at_offset: usize, new_block_id: i64 },
    Move {
        block_id: i64,
        prev_parent_id: Option<i64>,
        prev_ord: i32,
        new_parent_id: Option<i64>,
        new_ord: i32,
    },
    Delete { block_id: i64, snapshot: SnapshotV },
}

impl View for TreeOp {
    type V = TreeOpV;

    open spec fn view(&self) -> TreeOpV {
        match self {
            TreeOp::Indent { block_id, prev_depth } => TreeOpV::Indent {
                block_id: *block_id,
                prev_depth: *prev_depth,
            },
            TreeOp::Outdent { block_id, prev_depth } => TreeOpV::Outdent {
                block_id: *block_id,
                prev_depth: *prev_depth,
            },
            TreeOp::Merge { block_id, merged_into_id, original_raw } => TreeOpV::Merge {
                block_id: *block_id,
                merged_into_id: *merged_into_id,
                original_raw: original_raw@,
            },
            TreeOp::Split { block_id, at_offset, new_block_id } => TreeOpV::Split {
                block_id: *block_id,
                at_offset: *at_offset,
                new_block_id: *new_block_id,
            },
            TreeOp::Move { block_id, prev_parent_id, prev_ord, new_parent_id, new_ord } =>
                TreeOpV::Move {
                block_id: *block_id,
                prev_parent_id: *prev_parent_id,
                prev_ord: *prev_ord,
                new_parent_id: *new_parent_id,
                new_ord: *new_ord,
            },
            TreeOp::Delete { block_id, snapshot } => TreeOpV::Delete {
                block_id: *block_id,
                snapshot: snapshot@,
            },
        }
    }
}

/// Index of the first block with id `id`, or `-1`.
pub open spec fn index_of(t: Seq<BlockV>, id: i64) -> int
    decreases t.len(),
{
    if t.len() == 0 {
        -1
    } else if t[0].id == id {
        0
    } else {
        let r = index_of(t.drop_first(), id);
        if r < 0 {
            -1
        } else {
            r + 1
        }
    }
}

pub proof fn lemma_index_of(t: Seq<BlockV>, id: i64)
    ensures
        -1 <= index_of(t, id) < t.len(),
        index_of(t, id) >= 0 ==> t[index_of(t, id)].id == id,
        index_of(t, id) >= 0 ==> forall|j: int| 0 <= j < index_of(t, id) ==> (#[trigger] t[j]).id != id,
        index_of(t, id) < 0 ==> forall|j: int| 0 <= j < t.len() ==> (#[trigger] t[j]).id != id,
    decreases t.len(),
{
    if t.len() > 0 && t[0].id != id {
        lemma_index_of(t.drop_first(), id);
        assert forall|j: int| 1 <= j < t.len() implies t[j] == t.drop_first()[j - 1] by {}
    }
}

/// `index_of` is determined by the ids alone.
pub proof fn lemma_index_of_char(t: Seq<BlockV>, id: i64, k: int)
    requires
        -1 <= k < t.len(),
        k >= 0 ==> t[k].id == id,
        k >= 0 ==> forall|j: int| 0 <= j < k ==> (#[trigger] t[j]).id != id,
        k < 0 ==> forall|j: int| 0 <= j < t.len() ==> (#[trigger] t[j]).id != id,
    ensures
        index_of(t, id) == k,
{
    lemma_index_of(t, id);
    let r = index_of(t, id);
    if r >= 0 && k >= 0 {
        if r < k {
            assert(t[r].id != id);
        } else if k < r {
            assert(t[k].id != id);
        }
    } else if r >= 0 {
        assert(t[r].id != id);
    } else if k >= 0 {
        assert(t[k].id != id);
    }
}

/// Two trees with the same ids at every position find the same index.
pub proof fn lemma_index_of_same_ids(t: Seq<BlockV>, u: Seq<BlockV>, id: i64)
    requires
        t.len() == u.len(),
        forall|j: int| 0 <= j < t.len() ==> (#[trigger] t[j]).id == u[j].id,
    ensures
        index_of(t, id) == index_of(u, id),
{
    lemma_index_of(t, id);
    let k = index_of(t, id);
    if k >= 0 {
        assert(u[k].id == id);
        assert forall|j: int| 0 <= j < k implies (#[trigger] u[j]).id != id by {
            assert(t[j].id != id);
        }
    } else {
        assert forall|j: int| 0 <= j < u.len() implies (#[trigger] u[j]).id != id by {
            assert(t[j].id != id);
        }
    }
    lemma_index_of_char(u, id, k);
}

pub open spec fn with_ord(b: BlockV, ord: int) -> BlockV {
    BlockV { id: b.id, parent_id: b.parent_id, ord: ord as i32, depth: b.depth, raw: b.raw }
}

pub open spec fn relocated(b: BlockV, parent_id: Option<i64>, ord: int, depth: int) -> BlockV {
    BlockV { id: b.id, parent_id, ord: ord as i32, depth: depth as u8, raw: b.raw }
}

pub open spec fn with_raw(b: BlockV, raw: Seq<char>) -> BlockV {
    BlockV { id: b.id, parent_id: b.parent_id, ord: b.ord, depth: b.depth, raw }
}

/// A block that a sibling shift touches: under `parent`, with `ord >= lo`,
/// and (when `skip` is given) not carrying the id `skip`.
pub open spec fn affected(b: BlockV, skip: Option<i64>, parent: Option<i64>, lo: int) -> bool {
    &&& (skip matches Some(s) ==> b.id != s)
    &&& b.parent_id == parent
    &&& b.ord >= lo
}

/// Every affected block's `ord` moved by `delta`.
pub open spec fn shift1(b: BlockV, skip: Option<i64>, parent: Option<i64>, lo: int, delta: int) -> BlockV {
    if affected(b, skip, parent, lo) {
        with_ord(b, b.ord + delta)
    } else {
        b
    }
}

pub open spec fn shifted(t: Seq<BlockV>, skip: Option<i64>, parent: Option<i64>, lo: int, delta: int) -> Seq<BlockV> {
    Seq::new(t.len(), |i: int| shift1(t[i], skip, parent, lo, delta))
}

/// The shift keeps every affected `ord` inside `i32`.
pub open spec fn shift_fits(t: Seq<BlockV>, skip: Option<i64>, parent: Option<i64>, lo: int, delta: int) -> bool {
    forall|i: int|
        0 <= i < t.len() && affected(#[trigger] t[i], skip, parent, lo) ==> i32::MIN <= t[i].ord
            + delta <= i32::MAX
}

/// The tree without any block of id `id`, order kept.
pub open spec fn without_id(t: Seq<BlockV>, id: i64) -> Seq<BlockV>
    decreases t.len(),
{
    if t.len() == 0 {
        t
    } else if t.last().id == id {
        without_id(t.drop_last(), id)
    } else {
        without_id(t.drop_last(), id).push(t.last())
    }
}

/// Non-prelude children of `parent`, in storage order.
pub open spec fn is_child(b: BlockV, parent: Option<i64>) -> bool {
    b.parent_id == parent && b.depth != PRELUDE_DEPTH
}

pub open spec fn children_in(t: Seq<BlockV>, parent: Option<i64>) -> Seq<BlockV>
    decreases t.len(),
{
    if t.len() == 0 {
        t
    } else if is_child(t.last(), parent) {
        children_in(t.drop_last(), parent).push(t.last())
    } else {
        children_in(t.drop_last(), parent)
    }
}

/// All blocks whose parent is `parent` (the prelude included), in storage
/// order.
pub open spec fn with_parent(t: Seq<BlockV>, parent: Option<i64>) -> Seq<BlockV>
    decreases t.len(),
{
    if t.len() == 0 {
        t
    } else if t.last().parent_id == parent {
        with_parent(t.drop_last(), parent).push(t.last())
    } else {
        with_parent(t.drop_last(), parent)
    }
}

/// Where a stable sort by `ord` puts `x` in the sorted `s`: after every
/// element with an `ord` no greater than its own.
pub open spec fn insert_pos(s: Seq<BlockV>, x: BlockV) -> int
    decreases s.len(),
{
    if s.len() == 0 {
        0
    } else if s[0].ord > x.ord {
        0
    } else {
        1 + insert_pos(s.drop_first(), x)
    }
}

/// Stable sort by `ord` (insertion sort).
pub open spec fn sort_by_ord(s: Seq<BlockV>) -> Seq<BlockV>
    decreases s.len(),
{
    if s.len() == 0 {
        s
    } else {
        let r = sort_by_ord(s.drop_last());
        r.insert(insert_pos(r, s.last()), s.last())
    }
}

/// The largest `ord` among the non-prelude children of `parent`.
pub open spec fn max_child_ord(t: Seq<BlockV>, parent: Option<i64>) -> Option<i32>
    decreases t.len(),
{
    if t.len() == 0 {
        None
    } else {
        let r = max_child_ord(t.drop_last(), parent);
        if is_child(t.last(), parent) {
            match r {
                Some(m) => if t.last().ord > m {
                    Some(t.last().ord)
                } else {
                    Some(m)
                },
                None => Some(t.last().ord),
            }
        } else {
            r
        }
    }
}

/// A candidate predecessor: a non-prelude block under `parent` with an
/// `ord` below `ord`.
pub open spec fn is_pred_candidate(b: BlockV, parent: Option<i64>, ord: i32) -> bool {
    b.parent_id == parent && b.ord < ord && b.depth != PRELUDE_DEPTH
}

/// Index of the last candidate with the largest `ord`, or `-1`.
pub open spec fn best_pred(t: Seq<BlockV>, parent: Option<i64>, ord: i32) -> int
    decreases t.len(),
{
    if t.len() == 0 {
        -1
    } else {
        let r = best_pred(t.drop_last(), parent, ord);
        if is_pred_candidate(t.last(), parent, ord) && (r < 0 || t.last().ord >= t[r].ord) {
            t.len() - 1
        } else {
            r
        }
    }
}

/// Index of the predecessor of block `id` at the same depth, or `-1`.
pub open spec fn pred_index(t: Seq<BlockV>, id: i64) -> int {
    let x = index_of(t, id);
    if x < 0 {
        -1
    } else {
        best_pred(t, t[x].parent_id, t[x].ord)
    }
}

pub proof fn lemma_best_pred(t: Seq<BlockV>, parent: Option<i64>, ord: i32)
    ensures
        -1 <= best_pred(t, parent, ord) < t.len(),
        best_pred(t, parent, ord) >= 0 ==> is_pred_candidate(t[best_pred(t, parent, ord)], parent, ord),
        best_pred(t, parent, ord) < 0 ==> forall|j: int|
            0 <= j < t.len() ==> !is_pred_candidate(#[trigger] t[j], parent, ord),
        best_pred(t, parent, ord) >= 0 ==> forall|j: int|
            0 <= j < t.len() && is_pred_candidate(#[trigger] t[j], parent, ord) ==> t[j].ord
                <= t[best_pred(t, parent, ord)].ord,
    decreases t.len(),
{
    if t.len() > 0 {
        lemma_best_pred(t.drop_last(), parent, ord);
        assert forall|j: int| 0 <= j < t.len() - 1 implies t[j] == t.drop_last()[j] by {}
    }
}


pub proof fn lemma_insert_pos(s: Seq<BlockV>, x: BlockV, j: int)
    requires
        0 <= j <= s.len(),
        forall|k: int| 0 <= k < j ==> (#[trigger] s[k]).ord <= x.ord,
        j == s.len() || s[j].ord > x.ord,
    ensures
        insert_pos(s, x) == j,
    decreases j,
{
    if j > 0 {
        assert forall|k: int| 0 <= k < j - 1 implies (#[trigger] s.drop_first()[k]).ord <= x.ord by {
            assert(s.drop_first()[k] == s[k + 1]);
        }
        lemma_insert_pos(s.drop_first(), x, j - 1);
    }
}

pub open spec fn refs_view(s: Seq<&MutableBlock>) -> Seq<BlockV> {
    s.map_values(|b: &MutableBlock| b@)
}

fn opt_eq(a: Option<i64>, b: Option<i64>) -> (r: bool)
    ensures
        r == (a == b),
{
    match (a, b) {
        (Some(x), Some(y)) => x == y,
        (None, None) => true,
        _ => false,
    }
}

/// Move every affected block's `ord` by `delta` (see [`shifted`]).
fn shift_siblings(tree: &mut MutableTree, skip: Option<i64>, parent: Option<i64>, lo: i64, delta: i32)
    requires
        shift_fits(old(tree)@, skip, parent, lo as int, delta as int),
    ensures
        final(tree)@ == shifted(old(tree)@, skip, parent, lo as int, delta as int),
        final(tree).blocks@.len() == old(tree).blocks@.len(),
{
    let ghost t = tree@;
    let n = tree.blocks.len();
    let mut i: usize = 0;
    while i < n
        invariant
            n == tree.blocks@.len(),
            t.len() == n,
            i <= n,
            shift_fits(t, skip, parent, lo as int, delta as int),
            forall|j: int| 0 <= j < i ==> (#[trigger] tree.blocks@[j])@ == shifted(t, skip, parent, lo as int, delta as int)[j],
            forall|j: int| i <= j < n ==> (#[trigger] tree.blocks@[j])@ == t[j],
        decreases n - i,
    {
        let hit = match skip {
            Some(s) => tree.blocks[i].id != s,
            None => true,
        } && opt_eq(tree.blocks[i].parent_id, parent) && tree.blocks[i].ord as i64 >= lo;
        assert(tree.blocks@[i as int]@ == t[i as int]);
        if hit {
            assert(affected(t[i as int], skip, parent, lo as int));
            let o = tree.blocks[i].ord;
            tree.blocks[i].ord = o + delta;
        }
        i = i + 1;
    }
    assert(tree@ =~= shifted(t, skip, parent, lo as int, delta as int));
}

pub proof fn lemma_without_id_step(t: Seq<BlockV>, id: i64, k: int)
    requires
        0 <= k < t.len(),
    ensures
        without_id(t.take(k + 1), id) == if t[k].id == id {
            without_id(t.take(k), id)
        } else {
            without_id(t.take(k), id).push(t[k])
        },
{
    assert(t.take(k + 1).drop_last() =~= t.take(k));
}

/// Remove every block of id `id`, keeping the order of the others.
fn remove_with_id(tree: &mut MutableTree, id: i64)
    ensures
        final(tree)@ == without_id(old(tree)@, id),
{
    let ghost t = tree@;
    let n = tree.blocks.len();
    let mut k: usize = 0;
    let mut i: usize = 0;
    while k < n
        invariant
            t.len() == n,
            k <= n,
            i <= k,
            i == without_id(t.take(k as int), id).len(),
            tree@ == without_id(t.take(k as int), id) + t.skip(k as int),
        decreases n - k,
    {
        proof {
            lemma_without_id_step(t, id, k as int);
        }
        assert(t.skip(k as int).len() == n - k);
        assert(tree@.len() == i + n - k);
        assert(tree@[i as int] == t[k as int]);
        assert(tree.blocks@[i as int]@ == tree@[i as int]);
        if tree.blocks[i].id == id {
            let ghost before = tree.blocks@;
            let ghost bv = tree@;
            tree.blocks.remove(i);
            assert(tree@ =~= blocks_view(before).remove(i as int));
            assert(bv.remove(i as int) =~= without_id(t.take(k + 1), id) + t.skip(k + 1));
        } else {
            assert(tree@ =~= without_id(t.take(k + 1), id) + t.skip(k + 1));
            i = i + 1;
        }
        k = k + 1;
    }
    assert(t.take(n as int) =~= t);
    assert(tree@ =~= without_id(t, id));
}

impl MutableTree {
    pub fn new(blocks: Vec<MutableBlock>) -> (t: Self)
        ensures
            t.blocks@ == blocks@,
    {
        Self { blocks }
    }

    /// Position of the first block with id `id`.
    pub fn position(&self, id: i64) -> (r: Option<usize>)
        ensures
            match r {
                Some(i) => index_of(self@, id) == i && i < self.blocks@.len(),
                None => index_of(self@, id) < 0,
            },
            self@.len() == self.blocks@.len(),
    {
        let mut i: usize = 0;
        while i < self.blocks.len()
            invariant
                i <= self.blocks@.len(),
                forall|j: int| 0 <= j < i ==> (#[trigger] self@[j]).id != id,
            decreases self.blocks@.len() - i,
        {
            assert(self@[i as int] == self.blocks@[i as int]@);
            if self.blocks[i].id == id {
                proof {
                    lemma_index_of_char(self@, id, i as int);
                }
                return Some(i);
            }
            i = i + 1;
        }
        proof {
            lemma_index_of_char(self@, id, -1);
        }
        None
    }

    /// The first block with id `id`.
    pub fn get(&self, id: i64) -> (r: Option<&MutableBlock>)
        ensures
            match r {
                Some(b) => index_of(self@, id) >= 0 && *b == self.blocks@[index_of(self@, id)],
                None => index_of(self@, id) < 0,
            },
    {
        match self.position(id) {
            Some(i) => Some(&self.blocks[i]),
            None => None,
        }
    }

    /// The first block with id `id`, mutably.
    pub fn get_mut(&mut self, id: i64) -> (r: Option<&mut MutableBlock>)
        ensures
            r is Some <==> index_of(old(self)@, id) >= 0,
            r is Some ==> *r.unwrap() == old(self).blocks@[index_of(old(self)@, id)]
                && final(self).blocks@ == old(self).blocks@.update(
                index_of(old(self)@, id),
                *final(r.unwrap()),
            ),
            r is None ==> *final(self) == *old(self),
    {
        match self.position(id) {
            Some(i) => Some(&mut self.blocks[i]),
            None => None,
        }
    }

    /// Non-prelude children of `parent_id`, stably sorted by `ord`.
    pub fn children_of(&self, parent_id: Option<i64>) -> (r: Vec<&MutableBlock>)
        ensures
            refs_view(r@) == sort_by_ord(children_in(self@, parent_id)),
    {
        let mut v: Vec<&MutableBlock> = Vec::new();
        let mut i: usize = 0;
        while i < self.blocks.len()
            invariant
                i <= self.blocks@.len(),
                refs_view(v@) == sort_by_ord(children_in(self@.take(i as int), parent_id)),
            decreases self.blocks@.len() - i,
        {
            let b = &self.blocks[i];
            let ghost t = self@;
            assert(t.take(i + 1).drop_last() =~= t.take(i as int));
            assert(t.take(i + 1).last() == b@);
            if opt_eq(b.parent_id, parent_id) && b.depth != PRELUDE_DEPTH {
                let mut j: usize = 0;
                while j < v.len() && v[j].ord <= b.ord
                    invariant
                        j <= v@.len(),
                        forall|k: int| 0 <= k < j ==> (#[trigger] refs_view(v@)[k]).ord <= b.ord,
                    decreases v@.len() - j,
                {
                    assert(refs_view(v@)[j as int] == v@[j as int]@);
                    j = j + 1;
                }
                proof {
                    if j < v@.len() {
                        assert(refs_view(v@)[j as int] == v@[j as int]@);
                    }
                    lemma_insert_pos(refs_view(v@), b@, j as int);
                }
                let ghost before = v@;
                v.insert(j, b);
                assert(refs_view(v@) =~= refs_view(before).insert(j as int, b@));
                let ghost c = children_in(t.take(i as int), parent_id);
                assert(children_in(t.take(i + 1), parent_id) == c.push(b@));
                assert(c.push(b@).drop_last() =~= c);
            }
            i = i + 1;
        }
        assert(self@.take(self.blocks@.len() as int) =~= self@);
        v
    }

    /// The block just before `id` among its siblings: same parent, lower
    /// `ord`, not the prelude, the largest such `ord` (the last one on a
    /// tie).
    pub fn predecessor_at_same_depth(&self, id: i64) -> (r: Option<i64>)
        ensures
            r == (if pred_index(self@, id) >= 0 {
                Some(self@[pred_index(self@, id)].id)
            } else {
                None
            }),
    {
        let x = match self.position(id) {
            Some(x) => x,
            None => return None,
        };
        let parent = self.blocks[x].parent_id;
        let ord = self.blocks[x].ord;
        assert(self@[x as int] == self.blocks@[x as int]@);
        let mut best: Option<usize> = None;
        let mut i: usize = 0;
        while i < self.blocks.len()
            invariant
                i <= self.blocks@.len(),
                match best {
                    Some(b) => b < i && best_pred(self@.take(i as int), parent, ord) == b,
                    None => best_pred(self@.take(i as int), parent, ord) == -1,
                },
            decreases self.blocks@.len() - i,
        {
            let ghost t = self@;
            assert(t.take(i + 1).drop_last() =~= t.take(i as int));
            assert(t.take(i + 1).last() == self.blocks@[i as int]@);
            let b = &self.blocks[i];
            if opt_eq(b.parent_id, parent) && b.ord < ord && b.depth != PRELUDE_DEPTH {
                match best {
                    Some(k) => {
                        assert(t.take(i + 1)[k as int] == self.blocks@[k as int]@);
                        if b.ord >= self.blocks[k].ord {
                            best = Some(i);
                        }
                    },
                    None => {
                        best = Some(i);
                    },
                }
            }
            i = i + 1;
        }
        assert(self@.take(self.blocks@.len() as int) =~= self@);
        match best {
            Some(k) => {
                assert(self@[k as int] == self.blocks@[k as int]@);
                Some(self.blocks[k].id)
            },
            None => None,
        }
    }
}


// ----------------------------------------------------------------------------
// What each operation does
// ----------------------------------------------------------------------------

/// The tree after an operation, and what the operation returned.
pub struct Outcome {
    pub tree: Seq<BlockV>,
    pub result: Result<TreeOpV, TreeOpError>,
}

pub open spec fn failed(t: Seq<BlockV>, e: TreeOpError) -> Outcome {
    Outcome { tree: t, result: Err(e) }
}

pub open spec fn inc_depth(d: u8) -> int {
    if d < 255 {
        d + 1
    } else {
        255
    }
}

pub open spec fn dec_depth(d: u8) -> int {
    if d > 0 {
        d - 1
    } else {
        0
    }
}

pub open spec fn indent_new_ord(t: Seq<BlockV>, pred: i64) -> int {
    match max_child_ord(t, Some(pred)) {
        Some(m) => m + 1,
        None => 0,
    }
}

pub open spec fn indent_outcome(t: Seq<BlockV>, x: i64) -> Outcome {
    let p = pred_index(t, x);
    if p < 0 {
        failed(t, TreeOpError::FirstChildCannotIndent)
    } else {
        let xi = index_of(t, x);
        let b = t[xi];
        let pred = t[p].id;
        let t1 = t.update(xi, relocated(b, Some(pred), indent_new_ord(t, pred), inc_depth(b.depth)));
        Outcome {
            tree: shifted(t1, Some(x), b.parent_id, b.ord + 1, -1),
            result: Ok(TreeOpV::Outdent { block_id: x, prev_depth: b.depth }),
        }
    }
}

pub open spec fn indent_fits(t: Seq<BlockV>, x: i64) -> bool {
    pred_index(t, x) >= 0 ==> (max_child_ord(t, Some(t[pred_index(t, x)].id)) matches Some(m)
        ==> m < i32::MAX)
}

/// The block at `xi` has the largest `ord` among its parent's children.
pub open spec fn last_child(t: Seq<BlockV>, xi: int) -> bool {
    forall|j: int|
        0 <= j < t.len() && j != xi && (#[trigger] t[j]).parent_id == t[xi].parent_id ==> t[j].ord
            < t[xi].ord
}

/// Outdent: the block becomes the sibling just after its parent. The
/// inverse is an `Indent` when the block was its parent's last child (the
/// indent puts it back as the last child), and otherwise a `Move` back under
/// the old parent at the old `ord`.
pub open spec fn outdent_outcome(t: Seq<BlockV>, x: i64) -> Outcome {
    let xi = index_of(t, x);
    if xi < 0 {
        failed(t, TreeOpError::BlockNotFound(x))
    } else if t[xi].depth == 0 || t[xi].parent_id is None {
        failed(t, TreeOpError::AlreadyAtRoot)
    } else {
        let b = t[xi];
        let p = b.parent_id.unwrap();
        let pi = index_of(t, p);
        if pi < 0 {
            failed(t, TreeOpError::BlockNotFound(p))
        } else {
            let g = t[pi].parent_id;
            let no = t[pi].ord + 1;
            let t1 = shifted(t, Some(x), g, no, 1);
            let t2 = shifted(t1, Some(x), Some(p), b.ord + 1, -1);
            Outcome {
                tree: t2.update(xi, relocated(b, g, no, b.depth - 1)),
                result: Ok(
                    if last_child(t, xi) {
                        TreeOpV::Indent { block_id: x, prev_depth: b.depth }
                    } else {
                        TreeOpV::Move {
                            block_id: x,
                            prev_parent_id: g,
                            prev_ord: no as i32,
                            new_parent_id: Some(p),
                            new_ord: b.ord,
                        }
                    },
                ),
            }
        }
    }
}

pub open spec fn outdent_fits(t: Seq<BlockV>, x: i64) -> bool {
    let xi = index_of(t, x);
    xi >= 0 && t[xi].depth != 0 && t[xi].parent_id is Some && index_of(t, t[xi].parent_id.unwrap())
        >= 0 ==> {
        let pb = t[index_of(t, t[xi].parent_id.unwrap())];
        pb.ord < i32::MAX && shift_fits(t, Some(x), pb.parent_id, pb.ord + 1, 1)
    }
}

pub open spec fn merge_outcome(t: Seq<BlockV>, x: i64, y: i64) -> Outcome {
    let yi = index_of(t, y);
    if yi < 0 {
        failed(t, TreeOpError::BlockNotFound(y))
    } else if t[yi].depth == PRELUDE_DEPTH {
        failed(t, TreeOpError::CannotMergeIntoPrelude)
    } else {
        let xi = index_of(t, x);
        if xi < 0 {
            failed(t, TreeOpError::BlockNotFound(x))
        } else {
            let b = t[xi];
            let t1 = t.update(yi, with_raw(t[yi], t[yi].raw + b.raw));
            let t2 = without_id(t1, x);
            Outcome {
                tree: shifted(t2, None, b.parent_id, b.ord + 1, -1),
                result: Ok(
                    TreeOpV::Split {
                        block_id: y,
                        at_offset: encode_utf8(t[yi].raw).len() as usize,
                        new_block_id: x,
                    },
                ),
            }
        }
    }
}

pub open spec fn split_offset_ok(raw: Seq<char>, at: usize) -> bool {
    at <= encode_utf8(raw).len() && is_char_boundary(encode_utf8(raw), at as int)
}

pub open spec fn left_of(raw: Seq<char>, at: usize) -> Seq<char> {
    decode_utf8(encode_utf8(raw).subrange(0, at as int))
}

pub open spec fn right_of(raw: Seq<char>, at: usize) -> Seq<char> {
    decode_utf8(encode_utf8(raw).subrange(at as int, encode_utf8(raw).len() as int))
}

pub open spec fn split_outcome(t: Seq<BlockV>, y: i64, at: usize, nid: i64) -> Outcome {
    let yi = index_of(t, y);
    if yi < 0 {
        failed(t, TreeOpError::BlockNotFound(y))
    } else if !split_offset_ok(t[yi].raw, at) {
        failed(t, TreeOpError::InvalidSplitOffset)
    } else {
        let b = t[yi];
        let t1 = shifted(t, Some(y), b.parent_id, b.ord + 1, 1);
        let t2 = t1.update(yi, with_raw(b, left_of(b.raw, at)));
        Outcome {
            tree: t2.push(
                BlockV {
                    id: nid,
                    parent_id: b.parent_id,
                    ord: (b.ord + 1) as i32,
                    depth: b.depth,
                    raw: right_of(b.raw, at),
                },
            ),
            result: Ok(
                TreeOpV::Merge {
                    block_id: nid,
                    merged_into_id: y,
                    original_raw: right_of(b.raw, at),
                },
            ),
        }
    }
}

pub open spec fn split_fits(t: Seq<BlockV>, y: i64, at: usize) -> bool {
    let yi = index_of(t, y);
    yi >= 0 && split_offset_ok(t[yi].raw, at) ==> t[yi].ord < i32::MAX && shift_fits(
        t,
        Some(y),
        t[yi].parent_id,
        t[yi].ord + 1,
        1,
    )
}

pub open spec fn move_outcome(t: Seq<BlockV>, x: i64, np: Option<i64>, no: i32) -> Outcome {
    let xi = index_of(t, x);
    if xi < 0 {
        failed(t, TreeOpError::BlockNotFound(x))
    } else if np is Some && index_of(t, np.unwrap()) < 0 {
        failed(t, TreeOpError::BlockNotFound(np.unwrap()))
    } else {
        let b = t[xi];
        let nd = match np {
            Some(p) => t[index_of(t, p)].depth + 1,
            None => 0,
        };
        let t1 = shifted(t, Some(x), b.parent_id, b.ord + 1, -1);
        let t2 = shifted(t1, Some(x), np, no as int, 1);
        Outcome {
            tree: t2.update(xi, relocated(b, np, no as int, nd)),
            result: Ok(
                TreeOpV::Move {
                    block_id: x,
                    prev_parent_id: np,
                    prev_ord: no,
                    new_parent_id: b.parent_id,
                    new_ord: b.ord,
                },
            ),
        }
    }
}

pub open spec fn move_fits(t: Seq<BlockV>, x: i64, np: Option<i64>, no: i32) -> bool {
    let xi = index_of(t, x);
    xi >= 0 && (np is None || index_of(t, np.unwrap()) >= 0) ==> {
        &&& (np matches Some(p) ==> t[index_of(t, p)].depth < 255)
        &&& shift_fits(
            shifted(t, Some(x), t[xi].parent_id, t[xi].ord + 1, -1),
            Some(x),
            np,
            no as int,
            1,
        )
    }
}

/// Ids of the blocks whose parent is `x`, stably sorted by `ord`.
pub open spec fn child_ids(t: Seq<BlockV>, x: i64) -> Seq<i64> {
    sort_by_ord(with_parent(t, Some(x))).map_values(|b: BlockV| b.id)
}

/// The first `k` of `ids` moved under `parent` at `ord + i`, one depth up.
pub open spec fn reparented(t: Seq<BlockV>, ids: Seq<i64>, parent: Option<i64>, ord: int, k: int) -> Seq<BlockV>
    decreases k,
{
    if k <= 0 {
        t
    } else {
        let t0 = reparented(t, ids, parent, ord, k - 1);
        let j = index_of(t0, ids[k - 1]);
        if j < 0 {
            t0
        } else {
            t0.update(j, relocated(t0[j], parent, ord + (k - 1), dec_depth(t0[j].depth)))
        }
    }
}

pub open spec fn delete_outcome(t: Seq<BlockV>, x: i64) -> Outcome {
    let b = t[index_of(t, x)];
    let ids = child_ids(t, x);
    let n = ids.len() as int;
    let t1 = shifted(t, Some(x), b.parent_id, b.ord + 1, n - 1);
    let t2 = reparented(t1, ids, b.parent_id, b.ord as int, n);
    Outcome {
        tree: without_id(t2, x),
        result: Ok(
            TreeOpV::Delete {
                block_id: x,
                snapshot: SnapshotV {
                    raw: b.raw,
                    depth: b.depth,
                    parent_id: b.parent_id,
                    ord: b.ord,
                    reparented_children: ids,
                },
            },
        ),
    }
}

pub open spec fn delete_fits(t: Seq<BlockV>, x: i64) -> bool {
    let b = t[index_of(t, x)];
    let n = child_ids(t, x).len() as int;
    &&& n <= i32::MAX
    &&& shift_fits(t, Some(x), b.parent_id, b.ord + 1, n - 1)
    &&& (n > 0 ==> b.ord + n - 1 <= i32::MAX)
}

/// The first `k` of `ids` adopted by `x` as children `0..k`.
pub open spec fn adopted(t: Seq<BlockV>, ids: Seq<i64>, x: i64, depth: int, k: int) -> Seq<BlockV>
    decreases k,
{
    if k <= 0 {
        t
    } else {
        let t0 = adopted(t, ids, x, depth, k - 1);
        let j = index_of(t0, ids[k - 1]);
        if j < 0 {
            t0
        } else {
            t0.update(j, relocated(t0[j], Some(x), k - 1, depth))
        }
    }
}

/// The first child id, from position `k` on, that is missing when its turn
/// comes; `ids.len()` when none is.
pub open spec fn first_missing(t: Seq<BlockV>, ids: Seq<i64>, x: i64, depth: int, k: int) -> int
    decreases ids.len() - k,
{
    if k < 0 || k >= ids.len() {
        ids.len() as int
    } else if index_of(adopted(t, ids, x, depth, k), ids[k]) < 0 {
        k
    } else {
        first_missing(t, ids, x, depth, k + 1)
    }
}

pub open spec fn empty_snapshot() -> SnapshotV {
    SnapshotV {
        raw: Seq::empty(),
        depth: 0,
        parent_id: None,
        ord: 0,
        reparented_children: Seq::empty(),
    }
}

pub open spec fn restore_outcome(t: Seq<BlockV>, x: i64, s: SnapshotV) -> Outcome {
    let ids = s.reparented_children;
    let n = ids.len() as int;
    let m = first_missing(t, ids, x, s.depth + 1, 0);
    if m < n {
        failed(adopted(t, ids, x, s.depth + 1, m), TreeOpError::BlockNotFound(ids[m]))
    } else {
        let t1 = adopted(t, ids, x, s.depth + 1, n);
        let t2 = shifted(t1, None, s.parent_id, s.ord + n, 1 - n);
        Outcome {
            tree: t2.push(
                BlockV { id: x, parent_id: s.parent_id, ord: s.ord, depth: s.depth, raw: s.raw },
            ),
            result: Ok(TreeOpV::Delete { block_id: x, snapshot: empty_snapshot() }),
        }
    }
}

pub open spec fn restore_fits(t: Seq<BlockV>, x: i64, s: SnapshotV) -> bool {
    let ids = s.reparented_children;
    let n = ids.len() as int;
    &&& n <= i32::MAX
    &&& (first_missing(t, ids, x, s.depth + 1, 0) > 0 ==> s.depth < 255)
    &&& (first_missing(t, ids, x, s.depth + 1, 0) == n ==> s.ord + n <= i32::MAX && shift_fits(
        adopted(t, ids, x, s.depth + 1, n),
        None,
        s.parent_id,
        s.ord + n,
        1 - n,
    ))
}

/// What applying `op` to `t` gives.
pub open spec fn apply_outcome(t: Seq<BlockV>, op: TreeOpV) -> Outcome {
    match op {
        TreeOpV::Indent { block_id, .. } => indent_outcome(t, block_id),
        TreeOpV::Outdent { block_id, .. } => outdent_outcome(t, block_id),
        TreeOpV::Merge { block_id, merged_into_id, .. } => merge_outcome(t, block_id, merged_into_id),
        TreeOpV::Split { block_id, at_offset, new_block_id } => split_outcome(
            t,
            block_id,
            at_offset,
            new_block_id,
        ),
        TreeOpV::Move { block_id, new_parent_id, new_ord, .. } => move_outcome(
            t,
            block_id,
            new_parent_id,
            new_ord,
        ),
        TreeOpV::Delete { block_id, snapshot } => if index_of(t, block_id) >= 0 {
            delete_outcome(t, block_id)
        } else {
            restore_outcome(t, block_id, snapshot)
        },
    }
}

/// `apply` stays inside the integer ranges on `t` (where it would
/// overflow, it panics).
pub open spec fn apply_fits(t: Seq<BlockV>, op: TreeOpV) -> bool {
    match op {
        TreeOpV::Indent { block_id, .. } => indent_fits(t, block_id),
        TreeOpV::Outdent { block_id, .. } => outdent_fits(t, block_id),
        TreeOpV::Merge { .. } => true,
        TreeOpV::Split { block_id, at_offset, .. } => split_fits(t, block_id, at_offset),
        TreeOpV::Move { block_id, new_parent_id, new_ord, .. } => move_fits(
            t,
            block_id,
            new_parent_id,
            new_ord,
        ),
        TreeOpV::Delete { block_id, snapshot } => if index_of(t, block_id) >= 0 {
            delete_fits(t, block_id)
        } else {
            restore_fits(t, block_id, snapshot)
        },
    }
}

pub open spec fn result_view(r: Result<TreeOp, TreeOpError>) -> Result<TreeOpV, TreeOpError> {
    match r {
        Ok(op) => Ok(op@),
        Err(e) => Err(e),
    }
}


// ----------------------------------------------------------------------------
// Executable operations
// ----------------------------------------------------------------------------

/// The largest `ord` among the non-prelude children of `parent`.
fn max_child_ord_exec(tree: &MutableTree, parent: Option<i64>) -> (r: Option<i32>)
    ensures
        r == max_child_ord(tree@, parent),
{
    let mut m: Option<i32> = None;
    let mut i: usize = 0;
    while i < tree.blocks.len()
        invariant
            i <= tree.blocks@.len(),
            m == max_child_ord(tree@.take(i as int), parent),
        decreases tree.blocks@.len() - i,
    {
        let ghost t = tree@;
        assert(t.take(i + 1).drop_last() =~= t.take(i as int));
        assert(t.take(i + 1).last() == tree.blocks@[i as int]@);
        let b = &tree.blocks[i];
        if opt_eq(b.parent_id, parent) && b.depth != PRELUDE_DEPTH {
            m = match m {
                Some(x) => if b.ord > x {
                    Some(b.ord)
                } else {
                    Some(x)
                },
                None => Some(b.ord),
            };
        }
        i = i + 1;
    }
    assert(tree@.take(tree.blocks@.len() as int) =~= tree@);
    m
}

fn apply_indent(tree: &mut MutableTree, block_id: i64) -> (r: Result<TreeOp, TreeOpError>)
    requires
        indent_fits(old(tree)@, block_id),
    ensures
        final(tree)@ == indent_outcome(old(tree)@, block_id).tree,
        result_view(r) == indent_outcome(old(tree)@, block_id).result,
{
    let ghost t = tree@;
    let predecessor_id = match tree.predecessor_at_same_depth(block_id) {
        Some(p) => p,
        None => return Err(TreeOpError::FirstChildCannotIndent),
    };
    proof {
        lemma_best_pred(t, t[index_of(t, block_id)].parent_id, t[index_of(t, block_id)].ord);
    }
    let xi = match tree.position(block_id) {
        Some(i) => i,
        None => return Err(TreeOpError::BlockNotFound(block_id)),
    };
    let prev_depth = tree.blocks[xi].depth;
    let new_ord: i32 = match max_child_ord_exec(tree, Some(predecessor_id)) {
        Some(m) => m + 1,
        None => 0,
    };
    let old_parent = tree.blocks[xi].parent_id;
    let old_ord = tree.blocks[xi].ord;
    assert(t[xi as int] == tree.blocks@[xi as int]@);
    tree.blocks[xi].parent_id = Some(predecessor_id);
    tree.blocks[xi].depth = if prev_depth < 255 {
        prev_depth + 1
    } else {
        255
    };
    tree.blocks[xi].ord = new_ord;
    let ghost b = t[xi as int];
    assert(tree@ =~= t.update(
        xi as int,
        relocated(b, Some(predecessor_id), indent_new_ord(t, predecessor_id), inc_depth(b.depth)),
    ));
    shift_siblings(tree, Some(block_id), old_parent, old_ord as i64 + 1, -1);
    Ok(TreeOp::Outdent { block_id, prev_depth })
}

fn apply_outdent(tree: &mut MutableTree, block_id: i64) -> (r: Result<TreeOp, TreeOpError>)
    requires
        outdent_fits(old(tree)@, block_id),
    ensures
        final(tree)@ == outdent_outcome(old(tree)@, block_id).tree,
        result_view(r) == outdent_outcome(old(tree)@, block_id).result,
{
    let ghost t = tree@;
    let xi = match tree.position(block_id) {
        Some(i) => i,
        None => return Err(TreeOpError::BlockNotFound(block_id)),
    };
    proof {
        lemma_index_of(t, block_id);
    }
    assert(t[xi as int] == tree.blocks@[xi as int]@);
    let old_parent = tree.blocks[xi].parent_id;
    let prev_depth = tree.blocks[xi].depth;
    let old_ord = tree.blocks[xi].ord;
    if prev_depth == 0 || old_parent.is_none() {
        return Err(TreeOpError::AlreadyAtRoot);
    }
    let old_parent_id = old_parent.unwrap();
    let pi = match tree.position(old_parent_id) {
        Some(i) => i,
        None => return Err(TreeOpError::BlockNotFound(old_parent_id)),
    };
    assert(t[pi as int] == tree.blocks@[pi as int]@);
    let grandparent_id = tree.blocks[pi].parent_id;
    let parent_ord = tree.blocks[pi].ord;
    let new_ord = parent_ord + 1;
    let mut is_last = true;
    let mut j: usize = 0;
    while j < tree.blocks.len()
        invariant
            tree@ == t,
            tree.blocks@.len() == t.len(),
            0 <= xi < t.len(),
            t[xi as int].parent_id == old_parent,
            t[xi as int].ord == old_ord,
            j <= t.len(),
            is_last == (forall|k: int|
                0 <= k < j && k != xi && (#[trigger] t[k]).parent_id == old_parent ==> t[k].ord < old_ord),
        decreases t.len() - j,
    {
        assert(t[j as int] == tree.blocks@[j as int]@);
        if j != xi && opt_eq(tree.blocks[j].parent_id, old_parent) && tree.blocks[j].ord >= old_ord {
            is_last = false;
        }
        j = j + 1;
    }
    assert(is_last == last_child(t, xi as int));
    shift_siblings(tree, Some(block_id), grandparent_id, new_ord as i64, 1);
    let ghost t1 = tree@;
    shift_siblings(tree, Some(block_id), Some(old_parent_id), old_ord as i64 + 1, -1);
    let ghost t2 = tree@;
    assert(t2[xi as int] == t[xi as int]);
    assert(t2[xi as int] == tree.blocks@[xi as int]@);
    tree.blocks[xi].parent_id = grandparent_id;
    tree.blocks[xi].depth = prev_depth - 1;
    tree.blocks[xi].ord = new_ord;
    assert(tree@ =~= t2.update(xi as int, relocated(t[xi as int], grandparent_id, new_ord as int, prev_depth - 1)));
    if is_last {
        Ok(TreeOp::Indent { block_id, prev_depth })
    } else {
        Ok(
            TreeOp::Move {
                block_id,
                prev_parent_id: grandparent_id,
                prev_ord: new_ord,
                new_parent_id: Some(old_parent_id),
                new_ord: old_ord,
            },
        )
    }
}

fn apply_move(
    tree: &mut MutableTree,
    block_id: i64,
    new_parent_id: Option<i64>,
    new_ord: i32,
) -> (r: Result<TreeOp, TreeOpError>)
    requires
        move_fits(old(tree)@, block_id, new_parent_id, new_ord),
    ensures
        final(tree)@ == move_outcome(old(tree)@, block_id, new_parent_id, new_ord).tree,
        result_view(r) == move_outcome(old(tree)@, block_id, new_parent_id, new_ord).result,
{
    let ghost t = tree@;
    let xi = match tree.position(block_id) {
        Some(i) => i,
        None => return Err(TreeOpError::BlockNotFound(block_id)),
    };
    proof {
        lemma_index_of(t, block_id);
    }
    assert(t[xi as int] == tree.blocks@[xi as int]@);
    let old_parent_id = tree.blocks[xi].parent_id;
    let old_ord = tree.blocks[xi].ord;
    let new_depth: u8 = match new_parent_id {
        Some(pid) => {
            match tree.position(pid) {
                Some(pi) => {
                    assert(t[pi as int] == tree.blocks@[pi as int]@);
                    tree.blocks[pi].depth + 1
                },
                None => return Err(TreeOpError::BlockNotFound(pid)),
            }
        },
        None => 0,
    };
    shift_siblings(tree, Some(block_id), old_parent_id, old_ord as i64 + 1, -1);
    shift_siblings(tree, Some(block_id), new_parent_id, new_ord as i64, 1);
    let ghost t2 = tree@;
    assert(t2[xi as int] == t[xi as int]);
    assert(t2[xi as int] == tree.blocks@[xi as int]@);
    tree.blocks[xi].parent_id = new_parent_id;
    tree.blocks[xi].ord = new_ord;
    tree.blocks[xi].depth = new_depth;
    assert(tree@ =~= t2.update(xi as int, relocated(t[xi as int], new_parent_id, new_ord as int, new_depth as int)));
    Ok(
        TreeOp::Move {
            block_id,
            prev_parent_id: new_parent_id,
            prev_ord: new_ord,
            new_parent_id: old_parent_id,
            new_ord: old_ord,
        },
    )
}


fn apply_merge(tree: &mut MutableTree, block_id: i64, merged_into_id: i64) -> (r: Result<TreeOp, TreeOpError>)
    ensures
        final(tree)@ == merge_outcome(old(tree)@, block_id, merged_into_id).tree,
        result_view(r) == merge_outcome(old(tree)@, block_id, merged_into_id).result,
{
    let ghost t = tree@;
    let yi = match tree.position(merged_into_id) {
        Some(i) => i,
        None => return Err(TreeOpError::BlockNotFound(merged_into_id)),
    };
    proof {
        lemma_index_of(t, merged_into_id);
        lemma_index_of(t, block_id);
    }
    assert(t[yi as int] == tree.blocks@[yi as int]@);
    if tree.blocks[yi].depth == PRELUDE_DEPTH {
        return Err(TreeOpError::CannotMergeIntoPrelude);
    }
    let xi = match tree.position(block_id) {
        Some(i) => i,
        None => return Err(TreeOpError::BlockNotFound(block_id)),
    };
    assert(t[xi as int] == tree.blocks@[xi as int]@);
    let original_raw = tree.blocks[xi].raw.clone();
    let merging_parent = tree.blocks[xi].parent_id;
    let merging_ord = tree.blocks[xi].ord;
    let before_len = tree.blocks[yi].raw.as_str().len();
    let mut target_raw = tree.blocks[yi].raw.clone();
    target_raw.append(original_raw.as_str());
    tree.blocks[yi].raw = target_raw;
    assert(tree@ =~= t.update(yi as int, with_raw(t[yi as int], t[yi as int].raw + t[xi as int].raw)));
    remove_with_id(tree, block_id);
    shift_siblings(tree, None, merging_parent, merging_ord as i64 + 1, -1);
    Ok(TreeOp::Split { block_id: merged_into_id, at_offset: before_len, new_block_id: block_id })
}

fn apply_split(tree: &mut MutableTree, block_id: i64, at_offset: usize, new_block_id: i64) -> (r: Result<TreeOp, TreeOpError>)
    requires
        split_fits(old(tree)@, block_id, at_offset),
    ensures
        final(tree)@ == split_outcome(old(tree)@, block_id, at_offset, new_block_id).tree,
        result_view(r) == split_outcome(old(tree)@, block_id, at_offset, new_block_id).result,
{
    let ghost t = tree@;
    let yi = match tree.position(block_id) {
        Some(i) => i,
        None => return Err(TreeOpError::BlockNotFound(block_id)),
    };
    proof {
        lemma_index_of(t, block_id);
    }
    assert(t[yi as int] == tree.blocks@[yi as int]@);
    let raw_str = tree.blocks[yi].raw.as_str();
    // an offset past the end is not a character boundary either
    if !raw_str.is_char_boundary(at_offset) {
        return Err(TreeOpError::InvalidSplitOffset);
    }
    proof {
        encode_utf8_valid_utf8(t[yi as int].raw);
        assert(at_offset <= encode_utf8(t[yi as int].raw).len());
        assert(split_offset_ok(t[yi as int].raw, at_offset));
    }
    let (l, rr) = raw_str.split_at(at_offset);
    let left = l.to_owned();
    let right = rr.to_owned();
    proof {
        encode_utf8_decode_utf8(l@);
        encode_utf8_decode_utf8(rr@);
        assert(left@ == left_of(t[yi as int].raw, at_offset));
        assert(right@ == right_of(t[yi as int].raw, at_offset));
    }
    let parent_id = tree.blocks[yi].parent_id;
    let ord = tree.blocks[yi].ord;
    let depth = tree.blocks[yi].depth;
    let new_ord = ord + 1;
    shift_siblings(tree, Some(block_id), parent_id, new_ord as i64, 1);
    let ghost t1 = tree@;
    assert(t1[yi as int] == t[yi as int]);
    assert(t1[yi as int] == tree.blocks@[yi as int]@);
    tree.blocks[yi].raw = left;
    let ghost t2 = tree@;
    assert(t2 =~= t1.update(yi as int, with_raw(t[yi as int], left_of(t[yi as int].raw, at_offset))));
    let original_raw = right.clone();
    tree.blocks.push(
        MutableBlock { id: new_block_id, parent_id, ord: new_ord, depth, raw: right },
    );
    assert(tree@ =~= t2.push(
        BlockV {
            id: new_block_id,
            parent_id,
            ord: new_ord,
            depth,
            raw: right_of(t[yi as int].raw, at_offset),
        },
    ));
    Ok(TreeOp::Merge { block_id: new_block_id, merged_into_id: block_id, original_raw })
}


impl MutableTree {
    /// Blocks whose parent is `parent_id` (the prelude included), stably
    /// sorted by `ord`.
    fn sorted_with_parent(&self, parent_id: Option<i64>) -> (r: Vec<&MutableBlock>)
        ensures
            refs_view(r@) == sort_by_ord(with_parent(self@, parent_id)),
    {
        let mut v: Vec<&MutableBlock> = Vec::new();
        let mut i: usize = 0;
        while i < self.blocks.len()
            invariant
                i <= self.blocks@.len(),
                refs_view(v@) == sort_by_ord(with_parent(self@.take(i as int), parent_id)),
            decreases self.blocks@.len() - i,
        {
            let b = &self.blocks[i];
            let ghost t = self@;
            assert(t.take(i + 1).drop_last() =~= t.take(i as int));
            assert(t.take(i + 1).last() == b@);
            if opt_eq(b.parent_id, parent_id) {
                let mut j: usize = 0;
                while j < v.len() && v[j].ord <= b.ord
                    invariant
                        j <= v@.len(),
                        forall|k: int| 0 <= k < j ==> (#[trigger] refs_view(v@)[k]).ord <= b.ord,
                    decreases v@.len() - j,
                {
                    assert(refs_view(v@)[j as int] == v@[j as int]@);
                    j = j + 1;
                }
                proof {
                    if j < v@.len() {
                        assert(refs_view(v@)[j as int] == v@[j as int]@);
                    }
                    lemma_insert_pos(refs_view(v@), b@, j as int);
                }
                let ghost before = v@;
                v.insert(j, b);
                assert(refs_view(v@) =~= refs_view(before).insert(j as int, b@));
                let ghost c = with_parent(t.take(i as int), parent_id);
                assert(with_parent(t.take(i + 1), parent_id) == c.push(b@));
                assert(c.push(b@).drop_last() =~= c);
            }
            i = i + 1;
        }
        assert(self@.take(self.blocks@.len() as int) =~= self@);
        v
    }

    /// Ids of the children of `id`, stably sorted by `ord`.
    fn child_ids_sorted(&self, id: i64) -> (r: Vec<i64>)
        ensures
            r@ == child_ids(self@, id),
    {
        let kids = self.sorted_with_parent(Some(id));
        let mut ids: Vec<i64> = Vec::new();
        let mut i: usize = 0;
        while i < kids.len()
            invariant
                i <= kids@.len(),
                ids@ == refs_view(kids@).take(i as int).map_values(|b: BlockV| b.id),
            decreases kids@.len() - i,
        {
            ids.push(kids[i].id);
            i = i + 1;
            assert(ids@ =~= refs_view(kids@).take(i as int).map_values(|b: BlockV| b.id));
        }
        assert(refs_view(kids@).take(kids@.len() as int) =~= refs_view(kids@));
        ids
    }
}

impl Default for BlockSnapshot {
    fn default() -> (s: Self)
        ensures
            s@ == empty_snapshot(),
    {
        let s = BlockSnapshot {
            raw: String::new(),
            depth: 0,
            parent_id: None,
            ord: 0,
            reparented_children: Vec::new(),
        };
        assert(s@.reparented_children =~= Seq::<i64>::empty());
        s
    }
}

fn apply_delete(tree: &mut MutableTree, block_id: i64) -> (r: Result<TreeOp, TreeOpError>)
    requires
        index_of(old(tree)@, block_id) >= 0,
        delete_fits(old(tree)@, block_id),
    ensures
        final(tree)@ == delete_outcome(old(tree)@, block_id).tree,
        result_view(r) == delete_outcome(old(tree)@, block_id).result,
{
    let ghost t = tree@;
    let xi = match tree.position(block_id) {
        Some(i) => i,
        None => return Err(TreeOpError::BlockNotFound(block_id)),
    };
    assert(t[xi as int] == tree.blocks@[xi as int]@);
    let raw = tree.blocks[xi].raw.clone();
    let depth = tree.blocks[xi].depth;
    let parent_id = tree.blocks[xi].parent_id;
    let ord = tree.blocks[xi].ord;
    let child_ids = tree.child_ids_sorted(block_id);
    let n_children = child_ids.len() as i32;
    let shift = n_children - 1;
    shift_siblings(tree, Some(block_id), parent_id, ord as i64 + 1, shift);
    let ghost t1 = tree@;
    let mut i: usize = 0;
    while i < child_ids.len()
        invariant
            i <= child_ids@.len(),
            child_ids@.len() <= i32::MAX,
            child_ids@.len() > 0 ==> ord + child_ids@.len() - 1 <= i32::MAX,
            tree@ == reparented(t1, child_ids@, parent_id, ord as int, i as int),
        decreases child_ids@.len() - i,
    {
        let cid = child_ids[i];
        let ghost t0 = tree@;
        match tree.position(cid) {
            Some(j) => {
                assert(t0[j as int] == tree.blocks@[j as int]@);
                let d = tree.blocks[j].depth;
                tree.blocks[j].parent_id = parent_id;
                tree.blocks[j].ord = ord + i as i32;
                tree.blocks[j].depth = if d > 0 {
                    d - 1
                } else {
                    0
                };
                assert(tree@ =~= t0.update(
                    j as int,
                    relocated(t0[j as int], parent_id, ord + i, dec_depth(t0[j as int].depth)),
                ));
            },
            None => {},
        }
        i = i + 1;
    }
    remove_with_id(tree, block_id);
    Ok(
        TreeOp::Delete {
            block_id,
            snapshot: BlockSnapshot {
                raw,
                depth,
                parent_id,
                ord,
                reparented_children: child_ids,
            },
        },
    )
}

proof fn lemma_first_missing_ge(t: Seq<BlockV>, ids: Seq<i64>, x: i64, depth: int, k: int)
    requires
        0 <= k <= ids.len(),
    ensures
        k <= first_missing(t, ids, x, depth, k) <= ids.len(),
    decreases ids.len() - k,
{
    if k < ids.len() && index_of(adopted(t, ids, x, depth, k), ids[k]) >= 0 {
        lemma_first_missing_ge(t, ids, x, depth, k + 1);
    }
}

fn apply_restore(tree: &mut MutableTree, block_id: i64, snapshot: BlockSnapshot) -> (r: Result<TreeOp, TreeOpError>)
    requires
        restore_fits(old(tree)@, block_id, snapshot@),
    ensures
        final(tree)@ == restore_outcome(old(tree)@, block_id, snapshot@).tree,
        result_view(r) == restore_outcome(old(tree)@, block_id, snapshot@).result,
{
    let ghost t = tree@;
    let ghost ids = snapshot@.reparented_children;
    let ghost dd = snapshot.depth + 1;
    let n = snapshot.reparented_children.len() as i32;
    let mut i: usize = 0;
    proof {
        lemma_first_missing_ge(t, ids, block_id, dd, 0);
    }
    while i < snapshot.reparented_children.len()
        invariant
            ids == snapshot@.reparented_children,
            t == old(tree)@,
            dd == snapshot.depth + 1,
            n == ids.len(),
            ids.len() <= i32::MAX,
            i <= ids.len(),
            first_missing(t, ids, block_id, dd, 0) > 0 ==> snapshot.depth < 255,
            first_missing(t, ids, block_id, dd, 0) == first_missing(t, ids, block_id, dd, i as int),
            tree@ == adopted(t, ids, block_id, dd, i as int),
        decreases ids.len() - i,
    {
        let cid = snapshot.reparented_children[i];
        let ghost t0 = tree@;
        match tree.position(cid) {
            Some(j) => {
                proof {
                    lemma_first_missing_ge(t, ids, block_id, dd, i + 1);
                }
                assert(t0[j as int] == tree.blocks@[j as int]@);
                tree.blocks[j].parent_id = Some(block_id);
                tree.blocks[j].depth = snapshot.depth + 1;
                tree.blocks[j].ord = i as i32;
                assert(tree@ =~= t0.update(j as int, relocated(t0[j as int], Some(block_id), i as int, dd)));
            },
            None => {
                assert(cid == ids[i as int]);
                assert(first_missing(t, ids, block_id, dd, i as int) == i);
                return Err(TreeOpError::BlockNotFound(cid));
            },
        }
        i = i + 1;
    }
    let shift = 1 - n;
    shift_siblings(tree, None, snapshot.parent_id, snapshot.ord as i64 + n as i64, shift);
    let raw = snapshot.raw;
    tree.blocks.push(
        MutableBlock {
            id: block_id,
            parent_id: snapshot.parent_id,
            ord: snapshot.ord,
            depth: snapshot.depth,
            raw,
        },
    );
    Ok(TreeOp::Delete { block_id, snapshot: BlockSnapshot::default() })
}

fn apply_delete_or_restore(tree: &mut MutableTree, block_id: i64, snapshot: BlockSnapshot) -> (r: Result<TreeOp, TreeOpError>)
    requires
        apply_fits(old(tree)@, TreeOpV::Delete { block_id, snapshot: snapshot@ }),
    ensures
        final(tree)@ == apply_outcome(old(tree)@, TreeOpV::Delete { block_id, snapshot: snapshot@ }).tree,
        result_view(r) == apply_outcome(old(tree)@, TreeOpV::Delete { block_id, snapshot: snapshot@ }).result,
{
    if tree.position(block_id).is_some() {
        apply_delete(tree, block_id)
    } else {
        apply_restore(tree, block_id, snapshot)
    }
}

impl TreeOp {
    /// Apply the operation to `tree` and return its inverse.
    ///
    /// For an outdent the inverse is an `Indent` when the block was its
    /// parent's last child, and a `Move` back to its old place otherwise.
    /// The laws `law_*_inverse` state on which trees applying the inverse
    /// gives the tree back (a move of the prelude block is the exception:
    /// its inverse puts it at depth 0).
    ///
    /// The resulting tree and return value are [`apply_outcome`]; an error
    /// leaves the tree unchanged, except for a re-insert whose `k`-th
    /// recorded child is missing, which keeps the first `k` children it
    /// already adopted.
    pub fn apply(self, tree: &mut MutableTree) -> (r: Result<TreeOp, TreeOpError>)
        requires
            apply_fits(old(tree)@, self@),
        ensures
            final(tree)@ == apply_outcome(old(tree)@, self@).tree,
            result_view(r) == apply_outcome(old(tree)@, self@).result,
    {
        match self {
            TreeOp::Indent { block_id, .. } => apply_indent(tree, block_id),
            TreeOp::Outdent { block_id, .. } => apply_outdent(tree, block_id),
            TreeOp::Merge { block_id, merged_into_id, .. } => apply_merge(tree, block_id, merged_into_id),
            TreeOp::Split { block_id, at_offset, new_block_id } => apply_split(
                tree,
                block_id,
                at_offset,
                new_block_id,
            ),
            TreeOp::Move { block_id, new_parent_id, new_ord, .. } => apply_move(
                tree,
                block_id,
                new_parent_id,
                new_ord,
            ),
            TreeOp::Delete { block_id, snapshot } => apply_delete_or_restore(tree, block_id, snapshot),
        }
    }
}


// ----------------------------------------------------------------------------
// Laws: applying the returned inverse restores the tree
// ----------------------------------------------------------------------------

/// A well-formed outline: unique ids; every parent exists and sits one
/// depth above its children; roots are at depth 0 or are the prelude; the
/// prelude has no parent and a negative `ord`; siblings have distinct
/// `ord`s, and the non-prelude ones number `0, 1, ..` without gaps.
#[verifier::opaque]
pub open spec fn well_formed(t: Seq<BlockV>) -> bool {
    &&& t.len() < i32::MAX - 1
    &&& forall|i: int, j: int| 0 <= i < j < t.len() ==> (#[trigger] t[i]).id != (#[trigger] t[j]).id
    &&& forall|i: int|
        0 <= i < t.len() && (#[trigger] t[i]).parent_id is Some ==> index_of(t, t[i].parent_id.unwrap()) >= 0
            && t[i].depth == t[index_of(t, t[i].parent_id.unwrap())].depth + 1
    &&& forall|i: int|
        0 <= i < t.len() && (#[trigger] t[i]).parent_id is None ==> t[i].depth == 0 || t[i].depth
            == PRELUDE_DEPTH
    &&& forall|i: int|
        0 <= i < t.len() && (#[trigger] t[i]).depth == PRELUDE_DEPTH ==> t[i].parent_id is None
            && t[i].ord < 0
    &&& forall|i: int|
        0 <= i < t.len() && (#[trigger] t[i]).depth != PRELUDE_DEPTH ==> 0 <= t[i].ord < t.len()
    &&& forall|i: int, j: int|
        0 <= i < t.len() && 0 <= j < t.len() && i != j && (#[trigger] t[i]).parent_id == (#[trigger] t[j]).parent_id
            ==> t[i].ord != t[j].ord
    &&& forall|i: int|
        0 <= i < t.len() && (#[trigger] t[i]).depth != PRELUDE_DEPTH && t[i].ord > 0 ==> exists|j: int|
            0 <= j < t.len() && (#[trigger] t[j]).parent_id == t[i].parent_id && t[j].depth
                != PRELUDE_DEPTH && t[j].ord == t[i].ord - 1
}

/// What well-formedness says of one block, or of two.
pub proof fn lemma_wf_block(t: Seq<BlockV>, i: int)
    requires
        well_formed(t),
        0 <= i < t.len(),
    ensures
        t.len() < i32::MAX - 1,
        t[i].parent_id is Some ==> index_of(t, t[i].parent_id.unwrap()) >= 0 && t[i].depth
            == t[index_of(t, t[i].parent_id.unwrap())].depth + 1,
        t[i].parent_id is None ==> t[i].depth == 0 || t[i].depth == PRELUDE_DEPTH,
        t[i].depth == PRELUDE_DEPTH ==> t[i].parent_id is None && t[i].ord < 0,
        t[i].depth != PRELUDE_DEPTH ==> 0 <= t[i].ord < t.len(),
        t[i].depth != PRELUDE_DEPTH && t[i].ord > 0 ==> exists|j: int|
            0 <= j < t.len() && (#[trigger] t[j]).parent_id == t[i].parent_id && t[j].depth
                != PRELUDE_DEPTH && t[j].ord == t[i].ord - 1,
{
    reveal(well_formed);
    assert(t[i] == t[i]);
}

pub proof fn lemma_wf_pair(t: Seq<BlockV>, i: int, j: int)
    requires
        well_formed(t),
        0 <= i < t.len(),
        0 <= j < t.len(),
        i != j,
    ensures
        t[i].id != t[j].id,
        t[i].parent_id == t[j].parent_id ==> t[i].ord != t[j].ord,
{
    reveal(well_formed);
    if i < j {
        assert(t[i].id != t[j].id);
    } else {
        assert(t[j].id != t[i].id);
    }
    if t[i].parent_id == t[j].parent_id {
        assert(t[i].ord != t[j].ord);
    }
}

pub proof fn lemma_shifted_ids(t: Seq<BlockV>, skip: Option<i64>, parent: Option<i64>, lo: int, delta: int, id: i64)
    ensures
        shifted(t, skip, parent, lo, delta).len() == t.len(),
        index_of(shifted(t, skip, parent, lo, delta), id) == index_of(t, id),
{
    lemma_index_of_same_ids(t, shifted(t, skip, parent, lo, delta), id);
}

pub proof fn lemma_update_ids(t: Seq<BlockV>, k: int, b: BlockV, id: i64)
    requires
        0 <= k < t.len(),
        b.id == t[k].id,
    ensures
        index_of(t.update(k, b), id) == index_of(t, id),
{
    lemma_index_of_same_ids(t, t.update(k, b), id);
}

pub proof fn lemma_max_child_ord(t: Seq<BlockV>, parent: Option<i64>)
    ensures
        max_child_ord(t, parent) is None ==> forall|j: int|
            0 <= j < t.len() ==> !is_child(#[trigger] t[j], parent),
        max_child_ord(t, parent) matches Some(m) ==> forall|j: int|
            0 <= j < t.len() && is_child(#[trigger] t[j], parent) ==> t[j].ord <= m,
        max_child_ord(t, parent) matches Some(m) ==> exists|j: int|
            0 <= j < t.len() && is_child(#[trigger] t[j], parent) && t[j].ord == m,
    decreases t.len(),
{
    if t.len() > 0 {
        lemma_max_child_ord(t.drop_last(), parent);
        assert forall|j: int| 0 <= j < t.len() - 1 implies t[j] == t.drop_last()[j] by {}
        let r = max_child_ord(t.drop_last(), parent);
        if is_child(t.last(), parent) {
            let l = t.len() - 1;
            assert(is_child(t[l], parent));
            if r is Some && t.last().ord <= r.unwrap() {
                let j = choose|j: int|
                    0 <= j < t.drop_last().len() && is_child(#[trigger] t.drop_last()[j], parent)
                        && t.drop_last()[j].ord == r.unwrap();
                assert(t[j] == t.drop_last()[j]);
            }
        } else if r is Some {
            let j = choose|j: int|
                0 <= j < t.drop_last().len() && is_child(#[trigger] t.drop_last()[j], parent)
                    && t.drop_last()[j].ord == r.unwrap();
            assert(t[j] == t.drop_last()[j]);
        }
    }
}

/// Indent, then apply the returned operation: the tree is back, block for
/// block, on every well-formed tree on which the indent succeeds.
pub proof fn law_indent_inverse(t: Seq<BlockV>, x: i64)
    requires
        well_formed(t),
        apply_fits(t, TreeOpV::Indent { block_id: x, prev_depth: 0 }),
        apply_outcome(t, TreeOpV::Indent { block_id: x, prev_depth: 0 }).result is Ok,
    ensures
        ({
            let o1 = apply_outcome(t, TreeOpV::Indent { block_id: x, prev_depth: 0 });
            &&& apply_fits(o1.tree, o1.result.unwrap())
            &&& apply_outcome(o1.tree, o1.result.unwrap()).result is Ok
            &&& apply_outcome(o1.tree, o1.result.unwrap()).tree == t
        }),
{
    let p = pred_index(t, x);
    let xi = index_of(t, x);
    lemma_index_of(t, x);
    let b = t[xi];
    lemma_best_pred(t, b.parent_id, b.ord);
    let q = t[p];
    let qid = q.id;
    let o = b.ord as int;
    let pp = b.parent_id;
    lemma_wf_block(t, p);
    lemma_wf_block(t, xi);
    assert(b.depth != PRELUDE_DEPTH);
    // the predecessor is the sibling just before
    assert(q.ord == o - 1) by {
        let j = choose|j: int|
            0 <= j < t.len() && (#[trigger] t[j]).parent_id == t[xi].parent_id && t[j].depth
                != PRELUDE_DEPTH && t[j].ord == t[xi].ord - 1;
        assert(is_pred_candidate(t[j], pp, b.ord));
    }
    assert(index_of(t, qid) == p) by {
        assert forall|j: int| 0 <= j < p implies (#[trigger] t[j]).id != qid by {
            lemma_wf_pair(t, j, p);
        }
        lemma_index_of_char(t, qid, p);
    }
    let nw = indent_new_ord(t, qid);
    lemma_max_child_ord(t, Some(qid));
    let rb = relocated(b, Some(qid), nw, inc_depth(b.depth));
    let t1 = t.update(xi, rb);
    let t2 = shifted(t1, Some(x), pp, o + 1, -1);
    lemma_update_ids(t, xi, rb, x);
    lemma_update_ids(t, xi, rb, qid);
    lemma_shifted_ids(t1, Some(x), pp, o + 1, -1, x);
    lemma_shifted_ids(t1, Some(x), pp, o + 1, -1, qid);
    assert(t2[xi] == rb);
    assert(t2[p] == q);
    let t3 = shifted(t2, Some(x), pp, o, 1);
    let t4 = shifted(t3, Some(x), Some(qid), nw + 1, -1);
    let t5 = t4.update(xi, relocated(t2[xi], pp, o, b.depth as int));
    assert(shift_fits(t2, Some(x), pp, o, 1)) by {
        assert forall|i: int| 0 <= i < t2.len() && affected(#[trigger] t2[i], Some(x), pp, o) implies i32::MIN
            <= t2[i].ord + 1 <= i32::MAX by {
            lemma_wf_block(t, i);
        }
    }
    assert(outdent_fits(t2, x));
    assert(apply_outcome(t2, TreeOpV::Outdent { block_id: x, prev_depth: b.depth }).tree == t5);
    assert forall|i: int| 0 <= i < t.len() implies #[trigger] t5[i] == t[i] by {
        if i != xi {
            lemma_wf_pair(t, i, xi);
            lemma_wf_block(t, i);
            if t[i].parent_id == Some(qid) {
                assert(is_child(t[i], Some(qid)));
            }
            lemma_indent_elem(t[i], x, pp, o, qid, nw);
        }
    }
    assert(t5 =~= t);
}

proof fn lemma_indent_elem(c: BlockV, x: i64, pp: Option<i64>, o: int, qid: i64, nw: int)
    requires
        c.id != x,
        c.parent_id == pp ==> c.ord != o,
        c.parent_id == Some(qid) ==> c.ord < nw,
        c.ord < i32::MAX - 1,
        o >= 0,
    ensures
        shift1(
            shift1(shift1(c, Some(x), pp, o + 1, -1), Some(x), pp, o, 1),
            Some(x),
            Some(qid),
            nw + 1,
            -1,
        ) == c,
{
    if c.parent_id == pp && c.parent_id == Some(qid) {
        // the predecessor's children are not its siblings
    }
}

/// Move, then apply the returned operation: the tree is back, block for
/// block, on every well-formed tree on which the move succeeds, unless the
/// moved block is the prelude (the way back would put it at depth 0).
pub proof fn law_move_inverse(t: Seq<BlockV>, x: i64, np: Option<i64>, no: i32, pp: Option<i64>, po: i32)
    requires
        well_formed(t),
        index_of(t, x) >= 0 ==> t[index_of(t, x)].depth != PRELUDE_DEPTH,
        apply_fits(t, TreeOpV::Move { block_id: x, prev_parent_id: pp, prev_ord: po, new_parent_id: np, new_ord: no }),
        apply_outcome(t, TreeOpV::Move { block_id: x, prev_parent_id: pp, prev_ord: po, new_parent_id: np, new_ord: no }).result is Ok,
    ensures
        ({
            let o1 = apply_outcome(t, TreeOpV::Move { block_id: x, prev_parent_id: pp, prev_ord: po, new_parent_id: np, new_ord: no });
            &&& apply_fits(o1.tree, o1.result.unwrap())
            &&& apply_outcome(o1.tree, o1.result.unwrap()).result is Ok
            &&& apply_outcome(o1.tree, o1.result.unwrap()).tree == t
        }),
{
    let xi = index_of(t, x);
    lemma_index_of(t, x);
    let b = t[xi];
    let o = b.ord as int;
    let op = b.parent_id;
    lemma_wf_block(t, xi);
    let nd = match np {
        Some(p) => t[index_of(t, p)].depth + 1,
        None => 0,
    };
    let rb = relocated(b, np, no as int, nd);
    let t1 = shifted(t, Some(x), op, o + 1, -1);
    let t2 = shifted(t1, Some(x), np, no as int, 1);
    let t3 = t2.update(xi, rb);
    lemma_shifted_ids(t, Some(x), op, o + 1, -1, x);
    lemma_shifted_ids(t1, Some(x), np, no as int, 1, x);
    lemma_update_ids(t2, xi, rb, x);
    assert(index_of(t3, x) == xi);
    assert(t3[xi] == rb);
    if op is Some {
        let pid = op.unwrap();
        lemma_index_of(t, pid);
        lemma_shifted_ids(t, Some(x), op, o + 1, -1, pid);
        lemma_shifted_ids(t1, Some(x), np, no as int, 1, pid);
        lemma_update_ids(t2, xi, rb, pid);
        let pi = index_of(t, pid);
        assert(pi != xi);
        lemma_wf_pair(t, pi, xi);
        assert(t3[pi] == t2[pi]);
        assert(t3[pi].depth == t[pi].depth);
    }
    let u1 = shifted(t3, Some(x), np, no + 1, -1);
    let u2 = shifted(u1, Some(x), op, o, 1);
    let u3 = u2.update(xi, relocated(t3[xi], op, o, b.depth as int));
    assert(shift_fits(u1, Some(x), op, o, 1)) by {
        assert forall|i: int| 0 <= i < u1.len() && affected(#[trigger] u1[i], Some(x), op, o) implies i32::MIN
            <= u1[i].ord + 1 <= i32::MAX by {
            lemma_wf_block(t, i);
        }
    }
    assert(move_fits(t3, x, op, b.ord));
    assert(apply_outcome(t3, TreeOpV::Move { block_id: x, prev_parent_id: np, prev_ord: no, new_parent_id: op, new_ord: b.ord }).tree == u3);
    assert forall|i: int| 0 <= i < t.len() implies #[trigger] u3[i] == t[i] by {
        if i != xi {
            lemma_wf_pair(t, i, xi);
            lemma_wf_block(t, i);
            lemma_move_elem(t[i], x, op, o, np, no as int);
        }
    }
    assert(u3 =~= t);
}

proof fn lemma_move_elem(b: BlockV, x: i64, op: Option<i64>, o: int, np: Option<i64>, no: int)
    requires
        b.id != x,
        b.parent_id == op ==> b.ord != o,
        b.ord < i32::MAX - 1,
        0 <= o < i32::MAX - 1,
        i32::MIN <= no <= i32::MAX,
        shift1(b, Some(x), op, o + 1, -1).ord < i32::MAX || shift1(b, Some(x), op, o + 1, -1).parent_id != np
            || shift1(b, Some(x), op, o + 1, -1).ord < no,
    ensures
        shift1(
            shift1(
                shift1(shift1(b, Some(x), op, o + 1, -1), Some(x), np, no, 1),
                Some(x),
                np,
                no + 1,
                -1,
            ),
            Some(x),
            op,
            o,
            1,
        ) == b,
{
}


pub proof fn lemma_without_absent(t: Seq<BlockV>, id: i64)
    requires
        forall|j: int| 0 <= j < t.len() ==> (#[trigger] t[j]).id != id,
    ensures
        without_id(t, id) == t,
    decreases t.len(),
{
    if t.len() > 0 {
        assert forall|j: int| 0 <= j < t.drop_last().len() implies (#[trigger] t.drop_last()[j]).id != id by {
            assert(t.drop_last()[j] == t[j]);
        }
        lemma_without_absent(t.drop_last(), id);
        assert(t.drop_last().push(t.last()) =~= t);
    }
}

/// The two halves of a split give the text back.
pub proof fn lemma_split_halves(raw: Seq<char>, at: usize)
    requires
        split_offset_ok(raw, at),
    ensures
        left_of(raw, at) + right_of(raw, at) == raw,
{
    let e = encode_utf8(raw);
    encode_utf8_valid_utf8(raw);
    decode_utf8_split(e, at as int);
    encode_utf8_decode_utf8(raw);
}

/// Split, then apply the returned merge: the tree is back exactly, on
/// every well-formed tree on which the split succeeds with a fresh id for
/// the new block, unless the split block is the prelude (merging into the
/// prelude is refused).
pub proof fn law_split_inverse(t: Seq<BlockV>, y: i64, at: usize, nid: i64)
    requires
        well_formed(t),
        index_of(t, nid) < 0,
        index_of(t, y) >= 0 ==> t[index_of(t, y)].depth != PRELUDE_DEPTH,
        apply_fits(t, TreeOpV::Split { block_id: y, at_offset: at, new_block_id: nid }),
        apply_outcome(t, TreeOpV::Split { block_id: y, at_offset: at, new_block_id: nid }).result is Ok,
    ensures
        ({
            let o1 = apply_outcome(t, TreeOpV::Split { block_id: y, at_offset: at, new_block_id: nid });
            &&& apply_fits(o1.tree, o1.result.unwrap())
            &&& apply_outcome(o1.tree, o1.result.unwrap()).result is Ok
            &&& apply_outcome(o1.tree, o1.result.unwrap()).tree == t
        }),
{
    let yi = index_of(t, y);
    lemma_index_of(t, y);
    lemma_index_of(t, nid);
    let b = t[yi];
    let pp = b.parent_id;
    let o = b.ord as int;
    let l = left_of(b.raw, at);
    let r = right_of(b.raw, at);
    lemma_split_halves(b.raw, at);
    let t1 = shifted(t, Some(y), pp, o + 1, 1);
    let t2 = t1.update(yi, with_raw(b, l));
    let nb = BlockV { id: nid, parent_id: pp, ord: (o + 1) as i32, depth: b.depth, raw: r };
    let t3 = t2.push(nb);
    lemma_shifted_ids(t, Some(y), pp, o + 1, 1, y);
    lemma_shifted_ids(t, Some(y), pp, o + 1, 1, nid);
    lemma_update_ids(t1, yi, with_raw(b, l), y);
    lemma_update_ids(t1, yi, with_raw(b, l), nid);
    // y and nid in the split tree
    assert(index_of(t3, y) == yi) by {
        lemma_index_of_char(t3, y, yi);
    }
    assert(index_of(t3, nid) == t.len()) by {
        assert forall|j: int| 0 <= j < t.len() implies (#[trigger] t3[j]).id != nid by {
            assert(t3[j].id == t[j].id);
        }
        lemma_index_of_char(t3, nid, t.len() as int);
    }
    let m1 = t3.update(yi, with_raw(t3[yi], t3[yi].raw + nb.raw));
    assert(m1 =~= t2.update(yi, b).push(nb));
    let s2 = t2.update(yi, b);
    assert forall|j: int| 0 <= j < s2.len() implies (#[trigger] s2[j]).id != nid by {
        assert(s2[j].id == t[j].id);
    }
    assert(without_id(s2.push(nb), nid) == without_id(s2, nid)) by {
        assert(s2.push(nb).drop_last() =~= s2);
    }
    lemma_without_absent(s2, nid);
    let m3 = shifted(s2, None, pp, o + 2, -1);
    assert(apply_outcome(t3, TreeOpV::Merge { block_id: nid, merged_into_id: y, original_raw: r }).tree == m3);
    assert forall|i: int| 0 <= i < t.len() implies #[trigger] m3[i] == t[i] by {
        if i != yi {
            lemma_wf_pair(t, i, yi);
            lemma_wf_block(t, i);
        }
    }
    assert(m3 =~= t);
}


/// An operation that fails leaves the tree as it was. The one exception is
/// a restore (a delete of a block that is not there), which re-attaches the
/// recorded children it finds before it meets a missing one.
pub proof fn law_failed_op_leaves_tree(t: Seq<BlockV>, op: TreeOpV)
    requires
        !(op matches TreeOpV::Delete { block_id, .. } && index_of(t, block_id) < 0),
    ensures
        apply_outcome(t, op).result is Err ==> apply_outcome(t, op).tree == t,
{
}

/// Splitting a block that exists fails with `InvalidSplitOffset` exactly
/// when the offset is past the end of its text or not on a character
/// boundary. Otherwise the block keeps the text before the offset, and a
/// new block (with a fresh id) takes the text after it, with the same
/// parent and depth and the next `ord`; the two texts make up the old one.
pub proof fn law_split_result(t: Seq<BlockV>, y: i64, at: usize, nid: i64)
    requires
        index_of(t, y) >= 0,
        index_of(t, nid) < 0,
    ensures
        ({
            let b = t[index_of(t, y)];
            let o = split_outcome(t, y, at, nid);
            &&& (o.result == Err::<TreeOpV, TreeOpError>(TreeOpError::InvalidSplitOffset)
                <==> !split_offset_ok(b.raw, at))
            &&& split_offset_ok(b.raw, at) ==> {
                &&& o.result is Ok
                &&& index_of(o.tree, y) == index_of(t, y)
                &&& o.tree[index_of(t, y)].raw == left_of(b.raw, at)
                &&& index_of(o.tree, nid) == t.len()
                &&& o.tree[t.len() as int] == (BlockV {
                    id: nid,
                    parent_id: b.parent_id,
                    ord: (b.ord + 1) as i32,
                    depth: b.depth,
                    raw: right_of(b.raw, at),
                })
                &&& left_of(b.raw, at) + right_of(b.raw, at) == b.raw
            }
        }),
{
    let yi = index_of(t, y);
    lemma_index_of(t, y);
    lemma_index_of(t, nid);
    let b = t[yi];
    if split_offset_ok(b.raw, at) {
        lemma_split_halves(b.raw, at);
        let t1 = shifted(t, Some(y), b.parent_id, b.ord + 1, 1);
        let t2 = t1.update(yi, with_raw(b, left_of(b.raw, at)));
        lemma_shifted_ids(t, Some(y), b.parent_id, b.ord + 1, 1, y);
        lemma_update_ids(t1, yi, with_raw(b, left_of(b.raw, at)), y);
        lemma_shifted_ids(t, Some(y), b.parent_id, b.ord + 1, 1, nid);
        lemma_update_ids(t1, yi, with_raw(b, left_of(b.raw, at)), nid);
        let u = split_outcome(t, y, at, nid).tree;
        assert(u == t2.push(u[t.len() as int]));
        lemma_index_of(t2, y);
        lemma_index_of(t2, nid);
        assert forall|j: int| 0 <= j < index_of(t2, y) implies (#[trigger] u[j]).id != y by {
            assert(u[j] == t2[j]);
        }
        lemma_index_of_char(u, y, yi);
        assert forall|j: int| 0 <= j < t.len() implies (#[trigger] u[j]).id != nid by {
            assert(u[j] == t2[j]);
        }
        lemma_index_of_char(u, nid, t.len() as int);
    }
}

/// The outdent of an inner child returns a move that puts it back.
proof fn lemma_outdent_move_back(t: Seq<BlockV>, x: i64)
    requires
        well_formed(t),
        index_of(t, x) >= 0 ==> !last_child(t, index_of(t, x)),
        apply_fits(t, TreeOpV::Outdent { block_id: x, prev_depth: 0 }),
        apply_outcome(t, TreeOpV::Outdent { block_id: x, prev_depth: 0 }).result is Ok,
    ensures
        ({
            let o1 = apply_outcome(t, TreeOpV::Outdent { block_id: x, prev_depth: 0 });
            &&& apply_fits(o1.tree, o1.result.unwrap())
            &&& apply_outcome(o1.tree, o1.result.unwrap()).result is Ok
            &&& apply_outcome(o1.tree, o1.result.unwrap()).tree == t
        }),
{
    let xi = index_of(t, x);
    lemma_index_of(t, x);
    let b = t[xi];
    let o = b.ord as int;
    let p = b.parent_id.unwrap();
    let pi = index_of(t, p);
    lemma_index_of(t, p);
    lemma_wf_block(t, xi);
    lemma_wf_block(t, pi);
    lemma_wf_pair(t, xi, pi);
    let pb = t[pi];
    let g = pb.parent_id;
    let no = pb.ord + 1;
    assert(g != Some(p)) by {
        if g == Some(p) {
            assert(index_of(t, p) == pi);
        }
    }
    let t1 = shifted(t, Some(x), g, no, 1);
    let t2 = shifted(t1, Some(x), Some(p), o + 1, -1);
    let rb = relocated(b, g, no, b.depth - 1);
    let t3 = t2.update(xi, rb);
    lemma_shifted_ids(t, Some(x), g, no, 1, x);
    lemma_shifted_ids(t1, Some(x), Some(p), o + 1, -1, x);
    lemma_update_ids(t2, xi, rb, x);
    lemma_shifted_ids(t, Some(x), g, no, 1, p);
    lemma_shifted_ids(t1, Some(x), Some(p), o + 1, -1, p);
    lemma_update_ids(t2, xi, rb, p);
    assert(t3[xi] == rb);
    assert(t3[pi] == pb);
    assert(index_of(t3, x) == xi);
    assert(index_of(t3, p) == pi);
    let inv = TreeOpV::Move {
        block_id: x,
        prev_parent_id: g,
        prev_ord: no as i32,
        new_parent_id: Some(p),
        new_ord: b.ord,
    };
    assert(apply_outcome(t, TreeOpV::Outdent { block_id: x, prev_depth: 0 }).result == Ok::<TreeOpV, TreeOpError>(inv));
    let u1 = shifted(t3, Some(x), g, no + 1, -1);
    let u2 = shifted(u1, Some(x), Some(p), o, 1);
    let u3 = u2.update(xi, relocated(rb, Some(p), o, pb.depth + 1));
    assert(shift_fits(u1, Some(x), Some(p), o, 1)) by {
        assert forall|i: int| 0 <= i < u1.len() && affected(#[trigger] u1[i], Some(x), Some(p), o) implies i32::MIN
            <= u1[i].ord + 1 <= i32::MAX by {
            lemma_wf_block(t, i);
        }
    }
    assert(move_fits(t3, x, Some(p), b.ord));
    assert(apply_outcome(t3, inv).tree == u3);
    assert(u3[xi] == b);
    assert forall|i: int| 0 <= i < t.len() implies #[trigger] u3[i] == t[i] by {
        if i != xi {
            lemma_wf_pair(t, i, xi);
            lemma_wf_block(t, i);
            lemma_outdent_elem(t[i], x, p, o, g, no);
        }
    }
    assert(u3 =~= t);
}

/// The outdent of a last child returns an indent that puts it back.
proof fn lemma_outdent_indent_back(t: Seq<BlockV>, x: i64)
    requires
        well_formed(t),
        index_of(t, x) >= 0 ==> last_child(t, index_of(t, x)),
        apply_fits(t, TreeOpV::Outdent { block_id: x, prev_depth: 0 }),
        apply_outcome(t, TreeOpV::Outdent { block_id: x, prev_depth: 0 }).result is Ok,
    ensures
        ({
            let o1 = apply_outcome(t, TreeOpV::Outdent { block_id: x, prev_depth: 0 });
            &&& apply_fits(o1.tree, o1.result.unwrap())
            &&& apply_outcome(o1.tree, o1.result.unwrap()).result is Ok
            &&& apply_outcome(o1.tree, o1.result.unwrap()).tree == t
        }),
{
    let xi = index_of(t, x);
    lemma_index_of(t, x);
    let b = t[xi];
    let o = b.ord as int;
    let p = b.parent_id.unwrap();
    let pi = index_of(t, p);
    lemma_index_of(t, p);
    lemma_wf_block(t, xi);
    lemma_wf_block(t, pi);
    lemma_wf_pair(t, xi, pi);
    let pb = t[pi];
    let g = pb.parent_id;
    let no = pb.ord + 1;
    assert(g != Some(p)) by {
        if g == Some(p) {
            assert(index_of(t, p) == pi);
        }
    }
    let t1 = shifted(t, Some(x), g, no, 1);
    let t2 = shifted(t1, Some(x), Some(p), o + 1, -1);
    let rb = relocated(b, g, no, b.depth - 1);
    let t3 = t2.update(xi, rb);
    lemma_shifted_ids(t, Some(x), g, no, 1, x);
    lemma_shifted_ids(t1, Some(x), Some(p), o + 1, -1, x);
    lemma_update_ids(t2, xi, rb, x);
    lemma_shifted_ids(t, Some(x), g, no, 1, p);
    lemma_shifted_ids(t1, Some(x), Some(p), o + 1, -1, p);
    lemma_update_ids(t2, xi, rb, p);
    assert(t3[xi] == rb);
    assert(t3[pi] == pb);
    assert(apply_outcome(t, TreeOpV::Outdent { block_id: x, prev_depth: 0 }).result
        == Ok::<TreeOpV, TreeOpError>(TreeOpV::Indent { block_id: x, prev_depth: b.depth }));
    // the parent is the predecessor in the new position
    let bp = best_pred(t3, g, no as i32);
    lemma_best_pred(t3, g, no as i32);
    assert(is_pred_candidate(t3[pi], g, no as i32));
    assert(bp == pi) by {
        lemma_wf_block(t, bp);
        if bp != pi {
            lemma_wf_pair(t, bp, pi);
            if bp != xi {
                assert(t3[bp].ord == t[bp].ord);
            }
        }
    }
    assert(pred_index(t3, x) == pi);
    // the new ord under the parent is the old one
    lemma_max_child_ord(t3, Some(p));
    assert(indent_new_ord(t3, p) == o) by {
        if o > 0 {
            let j = choose|j: int|
                0 <= j < t.len() && (#[trigger] t[j]).parent_id == t[xi].parent_id && t[j].depth
                    != PRELUDE_DEPTH && t[j].ord == t[xi].ord - 1;
            lemma_wf_pair(t, j, xi);
            assert(t3[j] == t[j]);
            assert(is_child(t3[j], Some(p)));
        }
        if max_child_ord(t3, Some(p)) is Some {
            let m = max_child_ord(t3, Some(p)).unwrap();
            let j = choose|j: int| 0 <= j < t3.len() && is_child(#[trigger] t3[j], Some(p)) && t3[j].ord == m;
            lemma_wf_block(t, j);
            assert(j != xi);
            assert(t3[j] == t[j]);
        }
    }
    let t4 = t3.update(xi, relocated(rb, Some(p), o, inc_depth(rb.depth)));
    let t5 = shifted(t4, Some(x), g, no + 1, -1);
    assert(indent_fits(t3, x));
    assert(apply_outcome(t3, TreeOpV::Indent { block_id: x, prev_depth: b.depth }).tree == t5);
    assert forall|i: int| 0 <= i < t.len() implies #[trigger] t5[i] == t[i] by {
        if i != xi {
            lemma_wf_pair(t, i, xi);
            lemma_wf_block(t, i);
            if t[i].parent_id == g && t[i].id != x && i != pi {
                lemma_wf_pair(t, i, pi);
            }
        }
    }
    assert(t5 =~= t);
}

/// Outdent, then apply the returned operation: the tree is back exactly,
/// on every well-formed tree on which the outdent succeeds. For a last
/// child the returned operation is an `Indent`, which makes it the last
/// child again; for an inner child it is a `Move` back under the old parent
/// at the old `ord`, between its siblings.
pub proof fn law_outdent_inverse(t: Seq<BlockV>, x: i64)
    requires
        well_formed(t),
        apply_fits(t, TreeOpV::Outdent { block_id: x, prev_depth: 0 }),
        apply_outcome(t, TreeOpV::Outdent { block_id: x, prev_depth: 0 }).result is Ok,
    ensures
        ({
            let o1 = apply_outcome(t, TreeOpV::Outdent { block_id: x, prev_depth: 0 });
            &&& apply_fits(o1.tree, o1.result.unwrap())
            &&& apply_outcome(o1.tree, o1.result.unwrap()).result is Ok
            &&& apply_outcome(o1.tree, o1.result.unwrap()).tree == t
        }),
{
    let xi = index_of(t, x);
    lemma_index_of(t, x);
    if last_child(t, xi) {
        lemma_outdent_indent_back(t, x);
    } else {
        lemma_outdent_move_back(t, x);
    }
}

proof fn lemma_outdent_elem(c: BlockV, x: i64, p: i64, o: int, g: Option<i64>, no: int)
    requires
        c.id != x,
        c.parent_id == Some(p) ==> c.ord != o,
        g != Some(p),
        c.ord < i32::MAX - 1,
        0 <= o < i32::MAX - 1,
        1 <= no < i32::MAX - 1,
    ensures
        shift1(
            shift1(
                shift1(shift1(c, Some(x), g, no, 1), Some(x), Some(p), o + 1, -1),
                Some(x),
                g,
                no + 1,
                -1,
            ),
            Some(x),
            Some(p),
            o,
            1,
        ) == c,
{
}

/// The UTF-8 encoding of a concatenation is the concatenation of the
/// encodings.
pub proof fn lemma_encode_concat(a: Seq<char>, b: Seq<char>)
    ensures
        encode_utf8(a + b) == encode_utf8(a) + encode_utf8(b),
    decreases a.len(),
{
    if a.len() == 0 {
        assert(a + b =~= b);
    } else {
        assert((a + b).drop_first() =~= a.drop_first() + b);
        assert((a + b)[0] == a[0]);
        lemma_encode_concat(a.drop_first(), b);
    }
}

/// Where the encoding of `a` ends inside that of `a + b` is a character
/// boundary.
pub proof fn lemma_concat_boundary(a: Seq<char>, b: Seq<char>)
    ensures
        is_char_boundary(encode_utf8(a + b), encode_utf8(a).len() as int),
    decreases a.len(),
{
    encode_utf8_valid_utf8(a + b);
    if a.len() > 0 {
        let bytes = encode_utf8(a + b);
        lemma_encode_concat(a, b);
        encode_utf8_first_scalar(a + b);
        assert((a + b).drop_first() =~= a.drop_first() + b);
        assert((a + b)[0] == a[0]);
        assert(pop_first_scalar(bytes) =~= encode_utf8((a + b).drop_first()));
        lemma_concat_boundary(a.drop_first(), b);
        assert(encode_utf8(a).len() == encode_scalar(a[0] as u32).len() + encode_utf8(
            a.drop_first(),
        ).len());
        assert(encode_scalar(a[0] as u32).len() > 0);
    }
}

/// Splitting `a + b` where the bytes of `a` end gives `a` and `b` back.
pub proof fn lemma_split_concat(a: Seq<char>, b: Seq<char>)
    ensures
        split_offset_ok(a + b, encode_utf8(a).len() as usize) || encode_utf8(a).len() > usize::MAX,
        encode_utf8(a).len() <= usize::MAX ==> left_of(a + b, encode_utf8(a).len() as usize) == a,
        encode_utf8(a).len() <= usize::MAX ==> right_of(a + b, encode_utf8(a).len() as usize) == b,
{
    lemma_encode_concat(a, b);
    lemma_concat_boundary(a, b);
    let e = encode_utf8(a + b);
    let n = encode_utf8(a).len() as int;
    assert(e.subrange(0, n) =~= encode_utf8(a));
    assert(e.subrange(n, e.len() as int) =~= encode_utf8(b));
    encode_utf8_decode_utf8(a);
    encode_utf8_decode_utf8(b);
}

/// Removing the one block of id `t[k].id` removes position `k`.
pub proof fn lemma_without_unique(t: Seq<BlockV>, k: int)
    requires
        0 <= k < t.len(),
        forall|j: int| 0 <= j < t.len() && j != k ==> (#[trigger] t[j]).id != t[k].id,
    ensures
        without_id(t, t[k].id) == t.remove(k),
    decreases t.len(),
{
    let x = t[k].id;
    let l = t.len() - 1;
    if k == l {
        assert forall|j: int| 0 <= j < t.drop_last().len() implies (#[trigger] t.drop_last()[j]).id
            != x by {
            assert(t.drop_last()[j] == t[j]);
        }
        lemma_without_absent(t.drop_last(), x);
        assert(t.drop_last() =~= t.remove(k));
    } else {
        let d = t.drop_last();
        assert(d[k] == t[k]);
        assert forall|j: int| 0 <= j < d.len() && j != k implies (#[trigger] d[j]).id != d[k].id by {
            assert(d[j] == t[j]);
        }
        lemma_without_unique(d, k);
        assert(t.last().id != x);
        assert(d.remove(k).push(t.last()) =~= t.remove(k));
    }
}

/// Merge a block into the sibling just before it, then apply the returned
/// split: the same blocks come back, the merged one at the end of the
/// list, on every well-formed tree where the merged block follows its
/// target among the same parent's children and the target is not the
/// prelude.
#[verifier::spinoff_prover]
#[verifier::rlimit(30)]
pub proof fn law_merge_inverse(t: Seq<BlockV>, x: i64, y: i64, raw: Seq<char>)
    requires
        well_formed(t),
        x != y,
        index_of(t, x) >= 0,
        index_of(t, y) >= 0,
        t[index_of(t, y)].depth != PRELUDE_DEPTH,
        t[index_of(t, x)].parent_id == t[index_of(t, y)].parent_id,
        t[index_of(t, x)].ord == t[index_of(t, y)].ord + 1,
        encode_utf8(t[index_of(t, y)].raw).len() <= usize::MAX,
    ensures
        ({
            let o1 = apply_outcome(t, TreeOpV::Merge { block_id: x, merged_into_id: y, original_raw: raw });
            &&& o1.result is Ok
            &&& apply_fits(o1.tree, o1.result.unwrap())
            &&& apply_outcome(o1.tree, o1.result.unwrap()).result is Ok
            &&& apply_outcome(o1.tree, o1.result.unwrap()).tree == without_id(t, x).push(
                t[index_of(t, x)],
            )
        }),
{
    let xi = index_of(t, x);
    let yi = index_of(t, y);
    lemma_index_of(t, x);
    lemma_index_of(t, y);
    lemma_wf_block(t, xi);
    lemma_wf_block(t, yi);
    let b = t[xi];
    let yb = t[yi];
    let pp = yb.parent_id;
    let o = yb.ord as int;
    let a = yb.raw;
    let at = encode_utf8(a).len() as usize;
    assert(xi != yi);
    // both unique
    assert forall|j: int| 0 <= j < t.len() && j != xi implies (#[trigger] t[j]).id != t[xi].id by {
        lemma_wf_pair(t, j, xi);
    }
    assert(b.depth == yb.depth) by {
        if pp is Some {
            assert(index_of(t, pp.unwrap()) >= 0);
        }
    }
    let y2 = with_raw(yb, a + b.raw);
    let t1 = t.update(yi, y2);
    assert forall|j: int| 0 <= j < t1.len() && j != xi implies (#[trigger] t1[j]).id != t1[xi].id by {
        lemma_wf_pair(t, j, xi);
    }
    assert(t1[xi] == b);
    lemma_without_unique(t1, xi);
    lemma_without_unique(t, xi);
    let w = t.remove(xi);
    let w1 = t1.remove(xi);
    let yk = if yi < xi { yi } else { yi - 1 };
    assert(w1 =~= w.update(yk, y2));
    let t3 = shifted(w1, None, pp, o + 2, -1);
    let op2 = TreeOpV::Split { block_id: y, at_offset: at, new_block_id: x };
    assert(merge_outcome(t, x, y).tree == t3);
    assert(merge_outcome(t, x, y).result == Ok::<TreeOpV, TreeOpError>(op2));
    // y sits at yk in the merged tree
    assert(t3[yk] == y2);
    assert(index_of(t3, y) == yk) by {
        assert forall|j: int| 0 <= j < yk implies (#[trigger] t3[j]).id != y by {
            let jj = if j < xi { j } else { j + 1 };
            assert(t3[j].id == t[jj].id);
            lemma_wf_pair(t, jj, yi);
        }
        lemma_index_of_char(t3, y, yk);
    }
    lemma_split_concat(a, b.raw);
    assert(t3.len() < i32::MAX - 1);
    assert(split_fits(t3, y, at)) by {
        assert forall|i: int| 0 <= i < t3.len() && affected(#[trigger] t3[i], Some(y), pp, o + 1) implies i32::MIN
            <= t3[i].ord + 1 <= i32::MAX by {
            let ii = if i < xi { i } else { i + 1 };
            lemma_wf_block(t, ii);
        }
    }
    let t4 = shifted(t3, Some(y), pp, o + 1, 1);
    let t5 = t4.update(yk, with_raw(y2, a));
    let nb = BlockV { id: x, parent_id: pp, ord: (o + 1) as i32, depth: yb.depth, raw: b.raw };
    assert(split_outcome(t3, y, at, x).tree == t5.push(nb));
    assert(nb == b);
    assert forall|k: int| 0 <= k < w.len() implies #[trigger] t5[k] == w[k] by {
        if k != yk {
            let kk = if k < xi { k } else { k + 1 };
            assert(w[k] == t[kk]);
            lemma_wf_block(t, kk);
            lemma_wf_pair(t, kk, xi);
            lemma_wf_pair(t, kk, yi);
        }
    }
    assert(t5 =~= w);
}

} // verus!
