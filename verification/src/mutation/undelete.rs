//! Deleting a block and applying the returned operation gives the outline
//! back.
//!
//! The proof rests on what well-formedness says of a block's children:
//! sorted by `ord` they are numbered `0, 1, ..` without gaps, so the ids
//! that a delete records are in `ord` order and the restore gives each
//! child its old `ord` back.

use vstd::prelude::*;
use vstd::multiset::*;
use vstd::seq_lib::*;
use vstd::relations::injective_on;
use vstd::set_lib::{lemma_int_range, lemma_len_subset, lemma_map_size, set_int_range};

use crate::mutation::tree_ops::{
    adopted, affected, apply_fits, apply_outcome, child_ids, dec_depth, delete_fits, delete_outcome,
    children_in, empty_snapshot, first_missing, index_of, insert_pos, is_child, lemma_index_of, lemma_index_of_char,
    lemma_index_of_same_ids, lemma_insert_pos, lemma_wf_block, lemma_wf_pair, lemma_without_unique,
    relocated, reparented, restore_fits, restore_outcome, shift1, shifted, sort_by_ord, well_formed,
    with_parent, without_id, BlockV, SnapshotV, TreeOpError, TreeOpV, PRELUDE_DEPTH,
};

verus! {

/// Non-decreasing `ord`s.
pub open spec fn sorted_by_ord(s: Seq<BlockV>) -> bool {
    forall|i: int, j: int| 0 <= i < j < s.len() ==> (#[trigger] s[i]).ord <= (#[trigger] s[j]).ord
}

proof fn lemma_insert_pos_props(s: Seq<BlockV>, x: BlockV)
    ensures
        0 <= insert_pos(s, x) <= s.len(),
        forall|k: int| 0 <= k < insert_pos(s, x) ==> (#[trigger] s[k]).ord <= x.ord,
        insert_pos(s, x) < s.len() ==> s[insert_pos(s, x)].ord > x.ord,
    decreases s.len(),
{
    if s.len() > 0 && s[0].ord <= x.ord {
        lemma_insert_pos_props(s.drop_first(), x);
        assert forall|k: int| 0 <= k < insert_pos(s, x) implies (#[trigger] s[k]).ord <= x.ord by {
            if k > 0 {
                assert(s[k] == s.drop_first()[k - 1]);
            }
        }
    }
}

/// The insertion sort keeps the blocks and orders them by `ord`.
pub proof fn lemma_sort_by_ord(s: Seq<BlockV>)
    ensures
        sort_by_ord(s).len() == s.len(),
        sort_by_ord(s).to_multiset() == s.to_multiset(),
        sorted_by_ord(sort_by_ord(s)),
    decreases s.len(),
{
    broadcast use group_to_multiset_ensures;

    if s.len() > 0 {
        let d = s.drop_last();
        let x = s.last();
        lemma_sort_by_ord(d);
        let r = sort_by_ord(d);
        let p = insert_pos(r, x);
        lemma_insert_pos_props(r, x);
        let q = r.insert(p, x);
        assert(sort_by_ord(s) == q);
        to_multiset_insert(r, p, x);
        assert(d.push(x) =~= s);
        to_multiset_build(d, x);
        assert forall|i: int, j: int| 0 <= i < j < q.len() implies (#[trigger] q[i]).ord <= (
        #[trigger] q[j]).ord by {
            if j < p {
                assert(q[i] == r[i] && q[j] == r[j]);
            } else if j == p {
                assert(q[i] == r[i]);
            } else if i < p {
                assert(q[i] == r[i] && q[j] == r[j - 1]);
                assert(r[p].ord > x.ord);
                if j - 1 > p {
                    assert(r[p].ord <= r[j - 1].ord);
                }
            } else if i == p {
                assert(q[j] == r[j - 1]);
                assert(r[p].ord > x.ord);
                if j - 1 > p {
                    assert(r[p].ord <= r[j - 1].ord);
                }
            } else {
                assert(q[i] == r[i - 1] && q[j] == r[j - 1]);
            }
        }
    }
}

/// No two blocks share an id.
pub open spec fn unique_ids(t: Seq<BlockV>) -> bool {
    forall|a: int, b: int| 0 <= a < b < t.len() ==> (#[trigger] t[a]).id != (#[trigger] t[b]).id
}

/// The blocks under `p` are blocks of `t` with that parent, all of them,
/// each once.
pub proof fn lemma_with_parent(t: Seq<BlockV>, p: Option<i64>)
    ensures
        forall|i: int|
            0 <= i < with_parent(t, p).len() ==> (#[trigger] with_parent(t, p)[i]).parent_id == p
                && t.contains(with_parent(t, p)[i]),
        forall|j: int|
            0 <= j < t.len() && (#[trigger] t[j]).parent_id == p ==> with_parent(t, p).contains(t[j]),
        unique_ids(t) ==> with_parent(t, p).no_duplicates(),
    decreases t.len(),
{
    if t.len() > 0 {
        let d = t.drop_last();
        let l = t.last();
        lemma_with_parent(d, p);
        let c = with_parent(t, p);
        let cd = with_parent(d, p);
        assert(t[t.len() - 1] == l);
        assert forall|i: int| 0 <= i < c.len() implies (#[trigger] c[i]).parent_id == p && t.contains(c[i]) by {
            if i < cd.len() {
                assert(c[i] == cd[i]);
                let k = choose|k: int| 0 <= k < d.len() && d[k] == cd[i];
                assert(t[k] == d[k]);
            } else {
                assert(c[i] == l);
            }
        }
        assert forall|j: int| 0 <= j < t.len() && (#[trigger] t[j]).parent_id == p implies c.contains(t[j]) by {
            if j < t.len() - 1 {
                assert(t[j] == d[j]);
                let k = choose|k: int| 0 <= k < cd.len() && cd[k] == d[j];
                assert(c[k] == cd[k]);
            } else {
                assert(c[c.len() - 1] == l);
            }
        }
        if unique_ids(t) {
            assert(unique_ids(d)) by {
                assert forall|a: int, b: int| 0 <= a < b < d.len() implies (#[trigger] d[a]).id != (
                #[trigger] d[b]).id by {
                    assert(d[a] == t[a] && d[b] == t[b]);
                }
            }
            if l.parent_id == p {
                assert(!cd.contains(l)) by {
                    if cd.contains(l) {
                        let k = choose|k: int| 0 <= k < cd.len() && cd[k] == l;
                        let m = choose|m: int| 0 <= m < d.len() && d[m] == cd[k];
                        assert(t[m] == d[m]);
                        assert(t[m].id != t[t.len() - 1].id);
                    }
                }
                assert forall|a: int, b: int| 0 <= a < c.len() && 0 <= b < c.len() && a != b implies c[a]
                    != c[b] by {
                    if a < cd.len() && b < cd.len() {
                        assert(c[a] == cd[a] && c[b] == cd[b]);
                    } else if a < cd.len() {
                        assert(c[a] == cd[a] && c[b] == l);
                    } else if b < cd.len() {
                        assert(c[b] == cd[b] && c[a] == l);
                    }
                }
            }
        }
    }
}

/// Below a child of `x` with `ord` v sit children of `x` with every `ord`
/// from `0` to v.
proof fn lemma_down(t: Seq<BlockV>, x: i64, j: int, u: int)
    requires
        well_formed(t),
        0 <= j < t.len(),
        t[j].parent_id == Some(x),
        0 <= u <= t[j].ord,
    ensures
        exists|k: int| 0 <= k < t.len() && (#[trigger] t[k]).parent_id == Some(x) && t[k].ord == u,
    decreases t[j].ord - u,
{
    if t[j].ord == u {
        assert(t[j].parent_id == Some(x) && t[j].ord == u);
    } else {
        lemma_wf_block(t, j);
        let j2 = choose|j2: int|
            0 <= j2 < t.len() && (#[trigger] t[j2]).parent_id == t[j].parent_id && t[j2].depth
                != PRELUDE_DEPTH && t[j2].ord == t[j].ord - 1;
        lemma_down(t, x, j2, u);
    }
}

/// What the sorted children of `x` are, short of their numbering.
pub open spec fn children_props(t: Seq<BlockV>, x: i64, s: Seq<BlockV>) -> bool {
    &&& forall|k: int| 0 <= k < s.len() ==> (#[trigger] s[k]).parent_id == Some(x) && t.contains(s[k])
    &&& forall|j: int| 0 <= j < t.len() && (#[trigger] t[j]).parent_id == Some(x) ==> s.contains(t[j])
    &&& forall|i: int, j: int| 0 <= i < j < s.len() ==> (#[trigger] s[i]).ord < (#[trigger] s[j]).ord
    &&& forall|k: int| 0 <= k < s.len() ==> (#[trigger] s[k]).ord >= 0
}

proof fn lemma_numbered_prefix(t: Seq<BlockV>, x: i64, s: Seq<BlockV>, k: int)
    requires
        well_formed(t),
        children_props(t, x, s),
        0 <= k <= s.len(),
    ensures
        forall|i: int| 0 <= i < k ==> (#[trigger] s[i]).ord == i,
    decreases k,
{
    if k > 0 {
        lemma_numbered_prefix(t, x, s, k - 1);
        let i = k - 1;
        if i > 0 {
            assert(s[i - 1].ord == i - 1);
            assert(s[i - 1].ord < s[i].ord);
        }
        assert(s[i].ord >= i);
        if s[i].ord > i {
            let m = choose|m: int| 0 <= m < t.len() && t[m] == s[i];
            lemma_down(t, x, m, i);
            let c = choose|c: int| 0 <= c < t.len() && (#[trigger] t[c]).parent_id == Some(x) && t[c].ord == i;
            assert(s.contains(t[c]));
            let q = choose|q: int| 0 <= q < s.len() && s[q] == t[c];
            if q < i {
                assert(s[q].ord == q);
            } else if q > i {
                assert(s[i].ord < s[q].ord);
            }
            assert(false);
        }
    }
}

/// Sorted by `ord`, the children of `x` in a well-formed tree are numbered
/// `0, 1, ..`: the one at position `k` has `ord` k, and every child sits at
/// the position of its `ord`.
pub proof fn lemma_children_sorted(t: Seq<BlockV>, x: i64)
    requires
        well_formed(t),
    ensures
        ({
            let s = sort_by_ord(with_parent(t, Some(x)));
            &&& s.no_duplicates()
            &&& forall|k: int|
                0 <= k < s.len() ==> (#[trigger] s[k]).ord == k && s[k].parent_id == Some(x)
                    && t.contains(s[k])
            &&& forall|j: int|
                0 <= j < t.len() && (#[trigger] t[j]).parent_id == Some(x) ==> 0 <= t[j].ord < s.len()
                    && s[t[j].ord as int] == t[j]
        }),
{
    broadcast use group_to_multiset_ensures;

    let c = with_parent(t, Some(x));
    let s = sort_by_ord(c);
    assert(unique_ids(t)) by {
        assert forall|a: int, b: int| 0 <= a < b < t.len() implies (#[trigger] t[a]).id != (
        #[trigger] t[b]).id by {
            lemma_wf_pair(t, a, b);
        }
    }
    lemma_with_parent(t, Some(x));
    lemma_sort_by_ord(c);
    c.lemma_multiset_has_no_duplicates();
    assert forall|e: BlockV| s.to_multiset().contains(e) implies s.to_multiset().count(e) == 1 by {}
    s.lemma_multiset_has_no_duplicates_conv();
    assert forall|e: BlockV| s.contains(e) <==> c.contains(e) by {
        to_multiset_contains(s, e);
        to_multiset_contains(c, e);
    }
    assert forall|k: int| 0 <= k < s.len() implies (#[trigger] s[k]).parent_id == Some(x) && t.contains(s[k])
        && s[k].ord >= 0 by {
        assert(s.contains(s[k]));
        let i = choose|i: int| 0 <= i < c.len() && c[i] == s[k];
        let m = choose|m: int| 0 <= m < t.len() && t[m] == c[i];
        lemma_wf_block(t, m);
    }
    assert forall|i: int, j: int| 0 <= i < j < s.len() implies (#[trigger] s[i]).ord < (#[trigger] s[j]).ord by {
        assert(s[i] != s[j]);
        let mi = choose|m: int| 0 <= m < t.len() && t[m] == s[i];
        let mj = choose|m: int| 0 <= m < t.len() && t[m] == s[j];
        lemma_wf_pair(t, mi, mj);
    }
    assert(children_props(t, x, s));
    lemma_numbered_prefix(t, x, s, s.len() as int);
    assert forall|j: int| 0 <= j < t.len() && (#[trigger] t[j]).parent_id == Some(x) implies 0 <= t[j].ord
        < s.len() && s[t[j].ord as int] == t[j] by {
        assert(c.contains(t[j]));
        let q = choose|q: int| 0 <= q < s.len() && s[q] == t[j];
        assert(s[q].ord == q);
    }
}

/// The first position below `k` of `id` in `ids`, or `-1`.
pub open spec fn first_pos(ids: Seq<i64>, id: i64, k: int) -> int
    decreases k,
{
    if k <= 0 {
        -1
    } else if first_pos(ids, id, k - 1) >= 0 {
        first_pos(ids, id, k - 1)
    } else if ids[k - 1] == id {
        k - 1
    } else {
        -1
    }
}

proof fn lemma_first_pos(ids: Seq<i64>, id: i64, k: int)
    requires
        0 <= k <= ids.len(),
        ids.no_duplicates(),
    ensures
        -1 <= first_pos(ids, id, k) < k,
        first_pos(ids, id, k) >= 0 ==> ids[first_pos(ids, id, k)] == id,
        first_pos(ids, id, k) < 0 ==> forall|m: int| 0 <= m < k ==> ids[m] != id,
        forall|m: int| 0 <= m < k && ids[m] == id ==> first_pos(ids, id, k) == m,
    decreases k,
{
    if k > 0 {
        lemma_first_pos(ids, id, k - 1);
    }
}

/// Reparenting the first `k` children moves each block whose id is among
/// them, by its position, and leaves the others.
proof fn lemma_reparented(t: Seq<BlockV>, ids: Seq<i64>, parent: Option<i64>, ord: int, k: int)
    requires
        0 <= k <= ids.len(),
        unique_ids(t),
        ids.no_duplicates(),
    ensures
        reparented(t, ids, parent, ord, k).len() == t.len(),
        forall|j: int|
            0 <= j < t.len() ==> #[trigger] reparented(t, ids, parent, ord, k)[j] == if first_pos(
                ids,
                t[j].id,
                k,
            ) >= 0 {
                relocated(t[j], parent, ord + first_pos(ids, t[j].id, k), dec_depth(t[j].depth))
            } else {
                t[j]
            },
    decreases k,
{
    if k > 0 {
        lemma_reparented(t, ids, parent, ord, k - 1);
        let t0 = reparented(t, ids, parent, ord, k - 1);
        let id = ids[k - 1];
        lemma_index_of_same_ids(t, t0, id);
        lemma_index_of(t, id);
        let jj = index_of(t0, id);
        assert forall|j: int| 0 <= j < t.len() implies #[trigger] reparented(t, ids, parent, ord, k)[j]
            == if first_pos(ids, t[j].id, k) >= 0 {
            relocated(t[j], parent, ord + first_pos(ids, t[j].id, k), dec_depth(t[j].depth))
        } else {
            t[j]
        } by {
            lemma_first_pos(ids, t[j].id, k);
            lemma_first_pos(ids, t[j].id, k - 1);
            if t[j].id == id {
                assert(jj == j) by {
                    if jj != j {
                        if jj < j {
                            assert(t[jj].id != t[j].id);
                        } else {
                            assert(t[j].id != t[jj].id);
                        }
                    }
                }
            }
        }
    }
}

/// Adopting the first `k` children puts each block whose id is among them
/// under `x`, numbered by its position, and leaves the others.
proof fn lemma_adopted(t: Seq<BlockV>, ids: Seq<i64>, x: i64, depth: int, k: int)
    requires
        0 <= k <= ids.len(),
        unique_ids(t),
        ids.no_duplicates(),
    ensures
        adopted(t, ids, x, depth, k).len() == t.len(),
        forall|j: int|
            0 <= j < t.len() ==> #[trigger] adopted(t, ids, x, depth, k)[j] == if first_pos(
                ids,
                t[j].id,
                k,
            ) >= 0 {
                relocated(t[j], Some(x), first_pos(ids, t[j].id, k), depth)
            } else {
                t[j]
            },
    decreases k,
{
    if k > 0 {
        lemma_adopted(t, ids, x, depth, k - 1);
        let t0 = adopted(t, ids, x, depth, k - 1);
        let id = ids[k - 1];
        lemma_index_of_same_ids(t, t0, id);
        lemma_index_of(t, id);
        let jj = index_of(t0, id);
        assert forall|j: int| 0 <= j < t.len() implies #[trigger] adopted(t, ids, x, depth, k)[j] == if first_pos(
            ids,
            t[j].id,
            k,
        ) >= 0 {
            relocated(t[j], Some(x), first_pos(ids, t[j].id, k), depth)
        } else {
            t[j]
        } by {
            lemma_first_pos(ids, t[j].id, k);
            lemma_first_pos(ids, t[j].id, k - 1);
            if t[j].id == id {
                assert(jj == j) by {
                    if jj != j {
                        if jj < j {
                            assert(t[jj].id != t[j].id);
                        } else {
                            assert(t[j].id != t[jj].id);
                        }
                    }
                }
            }
        }
    }
}

/// No child goes missing when every id is in the tree.
proof fn lemma_none_missing(t: Seq<BlockV>, ids: Seq<i64>, x: i64, depth: int, k: int)
    requires
        0 <= k <= ids.len(),
        unique_ids(t),
        ids.no_duplicates(),
        forall|m: int| 0 <= m < ids.len() ==> index_of(t, #[trigger] ids[m]) >= 0,
    ensures
        first_missing(t, ids, x, depth, k) == ids.len(),
    decreases ids.len() - k,
{
    if k < ids.len() {
        lemma_adopted(t, ids, x, depth, k);
        let a = adopted(t, ids, x, depth, k);
        assert forall|j: int| 0 <= j < t.len() implies (#[trigger] t[j]).id == a[j].id by {}
        lemma_index_of_same_ids(t, a, ids[k]);
        lemma_none_missing(t, ids, x, depth, k + 1);
    }
}

/// What the ids recorded by a delete are: the children of `x`, each once,
/// the one at position `m` having `ord` m.
proof fn lemma_child_ids(t: Seq<BlockV>, x: i64)
    requires
        well_formed(t),
        index_of(t, x) >= 0,
    ensures
        unique_ids(t),
        child_ids(t, x).no_duplicates(),
        child_ids(t, x).len() <= t.len(),
        t[index_of(t, x)].parent_id != Some(x),
        forall|m: int| 0 <= m < child_ids(t, x).len() ==> #[trigger] child_ids(t, x)[m] != x,
        forall|m: int|
            0 <= m < child_ids(t, x).len() ==> index_of(t, #[trigger] child_ids(t, x)[m]) >= 0
                && t[index_of(t, child_ids(t, x)[m])].parent_id == Some(x),
        forall|j: int|
            0 <= j < t.len() && (#[trigger] t[j]).parent_id == Some(x) ==> 0 <= t[j].ord < child_ids(
                t,
                x,
            ).len() && child_ids(t, x)[t[j].ord as int] == t[j].id,
{
    let xi = index_of(t, x);
    lemma_index_of(t, x);
    lemma_wf_block(t, xi);
    let sc = sort_by_ord(with_parent(t, Some(x)));
    let ids = child_ids(t, x);
    let n = ids.len() as int;
    lemma_children_sorted(t, x);
    assert(ids.len() == sc.len());
    assert forall|k: int| 0 <= k < n implies #[trigger] ids[k] == sc[k].id by {}
    assert(unique_ids(t)) by {
        assert forall|a: int, c: int| 0 <= a < c < t.len() implies (#[trigger] t[a]).id != (
        #[trigger] t[c]).id by {
            lemma_wf_pair(t, a, c);
        }
    }
    assert(ids.no_duplicates()) by {
        assert forall|i: int, j: int| 0 <= i < n && 0 <= j < n && i != j implies ids[i] != ids[j] by {
            let mi = choose|m: int| 0 <= m < t.len() && t[m] == sc[i];
            let mj = choose|m: int| 0 <= m < t.len() && t[m] == sc[j];
            assert(sc[i] != sc[j]);
            lemma_wf_pair(t, mi, mj);
        }
    }
    assert(t[xi].parent_id != Some(x)) by {
        if t[xi].parent_id == Some(x) {
            assert(index_of(t, x) == xi);
        }
    }
    assert forall|m: int| 0 <= m < n implies #[trigger] ids[m] != x && index_of(t, ids[m]) >= 0
        && t[index_of(t, ids[m])].parent_id == Some(x) by {
        let mi = choose|q: int| 0 <= q < t.len() && t[q] == sc[m];
        lemma_index_of(t, ids[m]);
        let r = index_of(t, ids[m]);
        if r < 0 {
            assert(t[mi].id == ids[m]);
        } else if r != mi {
            lemma_wf_pair(t, mi, r);
        }
        if ids[m] == x {
            assert(mi == xi) by {
                if mi != xi {
                    lemma_wf_pair(t, mi, xi);
                }
            }
        }
    }
    assert(n <= t.len()) by {
        if n > t.len() {
            assert(sc[t.len() as int].ord == t.len());
            let mi = choose|q: int| 0 <= q < t.len() && t[q] == sc[t.len() as int];
            lemma_wf_block(t, mi);
        }
    }
}

/// What a delete does to a block other than the deleted one: a child moves
/// up into the deleted block's place, numbered from its `ord`; a later
/// sibling shifts to make room.
pub open spec fn deleted_elem(c: BlockV, x: i64, pp: Option<i64>, o: int, n: int) -> BlockV {
    if c.parent_id == Some(x) {
        relocated(c, pp, o + c.ord, dec_depth(c.depth))
    } else {
        shift1(c, Some(x), pp, o + 1, n - 1)
    }
}

proof fn lemma_delete_tree(t: Seq<BlockV>, x: i64)
    requires
        well_formed(t),
        index_of(t, x) >= 0,
    ensures
        ({
            let xi = index_of(t, x);
            let b = t[xi];
            let n = child_ids(t, x).len() as int;
            let t3 = delete_outcome(t, x).tree;
            &&& t3.len() == t.len() - 1
            &&& forall|k: int|
                0 <= k < t3.len() ==> #[trigger] t3[k] == deleted_elem(
                    t[if k < xi { k } else { k + 1 }],
                    x,
                    b.parent_id,
                    b.ord as int,
                    n,
                )
        }),
{
    let xi = index_of(t, x);
    lemma_index_of(t, x);
    lemma_child_ids(t, x);
    let b = t[xi];
    let pp = b.parent_id;
    let o = b.ord as int;
    let ids = child_ids(t, x);
    let n = ids.len() as int;
    let t1 = shifted(t, Some(x), pp, o + 1, n - 1);
    assert(unique_ids(t1)) by {
        assert forall|a: int, c: int| 0 <= a < c < t1.len() implies (#[trigger] t1[a]).id != (
        #[trigger] t1[c]).id by {
            assert(t1[a].id == t[a].id && t1[c].id == t[c].id);
        }
    }
    lemma_reparented(t1, ids, pp, o, n);
    let t2 = reparented(t1, ids, pp, o, n);
    lemma_first_pos(ids, x, n);
    assert(t2[xi] == t1[xi]);
    assert forall|j: int| 0 <= j < t2.len() && j != xi implies (#[trigger] t2[j]).id != t2[xi].id by {
        lemma_first_pos(ids, t1[j].id, n);
        assert(t2[j].id == t1[j].id);
        assert(t1[j].id == t[j].id);
    }
    lemma_without_unique(t2, xi);
    assert forall|k: int| 0 <= k < t2.len() - 1 implies #[trigger] t2.remove(xi)[k] == deleted_elem(
        t[if k < xi { k } else { k + 1 }],
        x,
        pp,
        o,
        n,
    ) by {
        let kk = if k < xi { k } else { k + 1 };
        let c = t[kk];
        lemma_first_pos(ids, c.id, n);
        assert(t1[kk].id == c.id);
        if c.parent_id == Some(x) {
            assert(ids[c.ord as int] == c.id);
            assert(pp != Some(x));
        } else {
            if first_pos(ids, c.id, n) >= 0 {
                let m = first_pos(ids, c.id, n);
                let r = index_of(t, ids[m]);
                lemma_index_of(t, ids[m]);
                assert(r == kk) by {
                    if r != kk {
                        lemma_wf_pair(t, r, kk);
                    }
                }
            }
        }
    }
}

/// The restore on the deleted tree puts every other block back as it was.
proof fn lemma_restored(t: Seq<BlockV>, x: i64)
    requires
        well_formed(t),
        index_of(t, x) >= 0,
        delete_fits(t, x),
    ensures
        ({
            let xi = index_of(t, x);
            let b = t[xi];
            let ids = child_ids(t, x);
            let n = ids.len() as int;
            let t3 = delete_outcome(t, x).tree;
            let t4 = adopted(t3, ids, x, b.depth + 1, n);
            &&& t4.len() == t.len() - 1
            &&& forall|k: int|
                0 <= k < t4.len() ==> #[trigger] shifted(t4, None, b.parent_id, b.ord + n, 1 - n)[k]
                    == t[if k < xi { k } else { k + 1 }] && (affected(
                    t4[k],
                    None,
                    b.parent_id,
                    b.ord + n,
                ) ==> i32::MIN <= t4[k].ord + 1 - n <= i32::MAX)
        }),
{
    let xi = index_of(t, x);
    lemma_index_of(t, x);
    lemma_wf_block(t, xi);
    lemma_child_ids(t, x);
    lemma_delete_tree(t, x);
    let b = t[xi];
    let pp = b.parent_id;
    let o = b.ord as int;
    let d = b.depth as int;
    let ids = child_ids(t, x);
    let n = ids.len() as int;
    let t3 = delete_outcome(t, x).tree;
    assert(unique_ids(t3)) by {
        assert forall|a: int, c: int| 0 <= a < c < t3.len() implies (#[trigger] t3[a]).id != (
        #[trigger] t3[c]).id by {
            let aa = if a < xi { a } else { a + 1 };
            let cc = if c < xi { c } else { c + 1 };
            assert(t3[a].id == t[aa].id && t3[c].id == t[cc].id);
        }
    }
    lemma_adopted(t3, ids, x, d + 1, n);
    let t4 = adopted(t3, ids, x, d + 1, n);
    let t5 = shifted(t4, None, pp, o + n, 1 - n);
    assert forall|k: int| 0 <= k < t4.len() implies #[trigger] t5[k] == t[if k < xi { k } else { k + 1 }] && (
    affected(t4[k], None, pp, o + n) ==> i32::MIN <= t4[k].ord + 1 - n <= i32::MAX) by {
        let kk = if k < xi { k } else { k + 1 };
        let c = t[kk];
        lemma_wf_block(t, kk);
        lemma_wf_pair(t, kk, xi);
        lemma_first_pos(ids, c.id, n);
        assert(t3[k] == deleted_elem(c, x, pp, o, n));
        assert(t3[k].id == c.id);
        if c.parent_id == Some(x) {
            assert(ids[c.ord as int] == c.id);
            assert(first_pos(ids, c.id, n) == c.ord);
            assert(index_of(t, x) == xi);
            assert(c.depth == d + 1);
            assert(t4[k] == c);
            assert(t5[k] == t4[k]);
        } else {
            if first_pos(ids, c.id, n) >= 0 {
                let m = first_pos(ids, c.id, n);
                let r = index_of(t, ids[m]);
                lemma_index_of(t, ids[m]);
                assert(r == kk) by {
                    if r != kk {
                        lemma_wf_pair(t, r, kk);
                    }
                }
            }
            assert(t4[k] == t3[k]);
            if c.parent_id == pp && c.ord >= o + 1 {
                assert(affected(c, Some(x), pp, o + 1));
                assert(i32::MIN <= c.ord + n - 1 <= i32::MAX);
                assert(t4[k].ord == c.ord + n - 1);
            } else if c.parent_id == pp {
                assert(c.ord < o);
            }
        }
    }
}

/// Below a non-prelude block with `ord` v sit siblings with every `ord`
/// from `0` to v.
proof fn lemma_siblings_down(t: Seq<BlockV>, j: int, u: int)
    requires
        well_formed(t),
        0 <= j < t.len(),
        t[j].depth != PRELUDE_DEPTH,
        0 <= u <= t[j].ord,
    ensures
        exists|k: int|
            0 <= k < t.len() && (#[trigger] t[k]).parent_id == t[j].parent_id && t[k].depth
                != PRELUDE_DEPTH && t[k].ord == u,
    decreases t[j].ord - u,
{
    if t[j].ord == u {
        assert(t[j].parent_id == t[j].parent_id);
    } else {
        lemma_wf_block(t, j);
        let j2 = choose|j2: int|
            0 <= j2 < t.len() && (#[trigger] t[j2]).parent_id == t[j].parent_id && t[j2].depth
                != PRELUDE_DEPTH && t[j2].ord == t[j].ord - 1;
        lemma_siblings_down(t, j2, u);
    }
}

/// A block's `ord` plus its number of children stays below the tree's
/// size: the siblings before it and its children are that many other
/// blocks.
proof fn lemma_room(t: Seq<BlockV>, x: i64)
    requires
        well_formed(t),
        index_of(t, x) >= 0,
    ensures
        t[index_of(t, x)].ord + child_ids(t, x).len() < t.len(),
{
    let xi = index_of(t, x);
    lemma_index_of(t, x);
    lemma_wf_block(t, xi);
    lemma_child_ids(t, x);
    let b = t[xi];
    let pp = b.parent_id;
    let o = b.ord as int;
    let ids = child_ids(t, x);
    let n = ids.len() as int;
    if b.depth == PRELUDE_DEPTH {
        assert(n == 0) by {
            if n > 0 {
                let r = index_of(t, ids[0]);
                lemma_index_of(t, ids[0]);
                lemma_wf_block(t, r);
                assert(index_of(t, x) == xi);
            }
        }
    } else {
        let m = o + 1 + n;
        let f = |v: int|
            if v <= o {
                choose|k: int|
                    0 <= k < t.len() && (#[trigger] t[k]).parent_id == pp && t[k].depth
                        != PRELUDE_DEPTH && t[k].ord == v
            } else {
                index_of(t, ids[v - o - 1])
            };
        let dom = set_int_range(0, m);
        let img = set_int_range(0, t.len() as int);
        assert forall|v: int| dom.contains(v) implies 0 <= #[trigger] f(v) < t.len() && (v <= o ==> t[f(v)].parent_id
            == pp && t[f(v)].ord == v) && (v > o ==> t[f(v)].parent_id == Some(x) && t[f(v)].id
            == ids[v - o - 1]) by {
            if v <= o {
                lemma_siblings_down(t, xi, v);
            } else {
                lemma_index_of(t, ids[v - o - 1]);
            }
        }
        assert(injective_on(f, dom)) by {
            assert forall|v1: int, v2: int| dom.contains(v1) && dom.contains(v2) && #[trigger] f(v1)
                == #[trigger] f(v2) implies v1 == v2 by {
                if v1 > o && v2 > o {
                    assert(ids[v1 - o - 1] == ids[v2 - o - 1]);
                }
            }
        }
        lemma_int_range(0, m);
        lemma_int_range(0, t.len() as int);
        lemma_map_size(dom, dom.map(f), f);
        assert(dom.map(f).subset_of(img)) by {
            assert forall|y: int| dom.map(f).contains(y) implies img.contains(y) by {
                let v = choose|v: int| dom.contains(v) && f(v) == y;
            }
        }
        lemma_len_subset(dom.map(f), img);
    }
}

proof fn lemma_children_in_members(t: Seq<BlockV>, p: Option<i64>)
    ensures
        forall|c: BlockV|
            children_in(t, p).contains(c) <==> (is_child(c, p) && t.contains(c)),
    decreases t.len(),
{
    if t.len() > 0 {
        lemma_children_in_members(t.drop_last(), p);
        assert forall|c: BlockV| t.contains(c) <==> (t.drop_last().contains(c) || c == t.last()) by {
            if t.contains(c) {
                let j = choose|j: int| 0 <= j < t.len() && t[j] == c;
                if j < t.len() - 1 {
                    assert(t.drop_last()[j] == c);
                }
            }
            if t.drop_last().contains(c) {
                let j = choose|j: int| 0 <= j < t.drop_last().len() && t.drop_last()[j] == c;
                assert(t[j] == c);
            }
            if c == t.last() {
                assert(t[t.len() - 1] == c);
            }
        }
        let r = children_in(t.drop_last(), p);
        if is_child(t.last(), p) {
            assert forall|c: BlockV| r.push(t.last()).contains(c) <==> (r.contains(c) || c == t.last()) by {
                if r.push(t.last()).contains(c) {
                    let j = choose|j: int| 0 <= j < r.push(t.last()).len() && r.push(t.last())[j] == c;
                    if j < r.len() {
                        assert(r[j] == c);
                    }
                }
                if r.contains(c) {
                    let j = choose|j: int| 0 <= j < r.len() && r[j] == c;
                    assert(r.push(t.last())[j] == c);
                }
                if c == t.last() {
                    assert(r.push(t.last())[r.len() as int] == c);
                }
            }
        }
    }
}

/// Every two elements of `r` with equal `ord` come in the order in which
/// they stand in `s`.
pub open spec fn keeps_order_of(r: Seq<BlockV>, s: Seq<BlockV>) -> bool {
    forall|a: int, b: int|
        0 <= a < b < r.len() && (#[trigger] r[a]).ord == (#[trigger] r[b]).ord ==> exists|p: int, q: int|
            0 <= p < q < s.len() && #[trigger] s[p] == r[a] && #[trigger] s[q] == r[b]
}

proof fn lemma_sort_stable(s: Seq<BlockV>)
    ensures
        keeps_order_of(sort_by_ord(s), s),
    decreases s.len(),
{
    broadcast use group_to_multiset_ensures;

    if s.len() > 0 {
        let d = s.drop_last();
        let x = s.last();
        let r = sort_by_ord(d);
        lemma_sort_stable(d);
        lemma_sort_by_ord(d);
        lemma_insert_pos_props(r, x);
        let k = insert_pos(r, x);
        let out = r.insert(k, x);
        assert(sort_by_ord(s) == out);
        assert forall|a: int, b: int|
            0 <= a < b < out.len() && (#[trigger] out[a]).ord == (#[trigger] out[b]).ord implies exists|p: int, q: int|
                0 <= p < q < s.len() && #[trigger] s[p] == out[a] && #[trigger] s[q] == out[b] by {
            if a == k {
                assert(out[b] == r[b - 1]);
                assert(r[k].ord > x.ord);
                assert(r[k].ord <= r[b - 1].ord);
            } else if b == k {
                assert(out[a] == r[a]);
                assert(r.contains(r[a]));
                assert(r.to_multiset().count(r[a]) > 0);
                assert(d.contains(r[a]));
                let p = choose|p: int| 0 <= p < d.len() && d[p] == r[a];
                assert(s[p] == out[a] && s[s.len() - 1] == out[b]);
            } else {
                let a2 = if a < k { a } else { a - 1 };
                let b2 = if b < k { b } else { b - 1 };
                assert(out[a] == r[a2] && out[b] == r[b2]);
                assert(a2 < b2);
                let (p, q) = choose|p: int, q: int| 0 <= p < q < d.len() && #[trigger] d[p] == r[a2] && #[trigger] d[q] == r[b2];
                assert(s[p] == d[p] && s[q] == d[q]);
            }
        }
    }
}

/// `children_of` gives the non-prelude children of a parent, each as often
/// as it is stored, sorted by `ord`, equal `ord`s in storage order.
pub proof fn law_children_sorted(t: Seq<BlockV>, p: Option<i64>)
    ensures
        sort_by_ord(children_in(t, p)).to_multiset() == children_in(t, p).to_multiset(),
        sorted_by_ord(sort_by_ord(children_in(t, p))),
        keeps_order_of(sort_by_ord(children_in(t, p)), children_in(t, p)),
        forall|c: BlockV| children_in(t, p).contains(c) <==> (is_child(c, p) && t.contains(c)),
{
    lemma_sort_by_ord(children_in(t, p));
    lemma_sort_stable(children_in(t, p));
    lemma_children_in_members(t, p);
}

/// Deleting a block of a well-formed tree records its text, depth, parent,
/// `ord` and the ids of its children in `ord` order (the child with `ord`
/// `k` at position `k`), and removes it. Each child moves up into its place:
/// under its parent, at its `ord` plus the child's own, one depth up. The
/// later siblings shift by the number of children less one; nothing else
/// changes.
pub proof fn law_delete_result(t: Seq<BlockV>, x: i64, snap: SnapshotV)
    requires
        well_formed(t),
        index_of(t, x) >= 0,
    ensures
        ({
            let xi = index_of(t, x);
            let b = t[xi];
            let ids = child_ids(t, x);
            let o1 = apply_outcome(t, TreeOpV::Delete { block_id: x, snapshot: snap });
            &&& o1.result == Ok::<TreeOpV, TreeOpError>(
                TreeOpV::Delete {
                    block_id: x,
                    snapshot: SnapshotV {
                        raw: b.raw,
                        depth: b.depth,
                        parent_id: b.parent_id,
                        ord: b.ord,
                        reparented_children: ids,
                    },
                },
            )
            &&& forall|j: int|
                0 <= j < t.len() && (#[trigger] t[j]).parent_id == Some(x) ==> ids[t[j].ord as int] == t[j].id
            &&& ids.len() == with_parent(t, Some(x)).len()
            &&& index_of(o1.tree, x) < 0
            &&& o1.tree.len() == t.len() - 1
            &&& forall|k: int|
                0 <= k < o1.tree.len() ==> #[trigger] o1.tree[k] == deleted_elem(
                    t[if k < xi { k } else { k + 1 }],
                    x,
                    b.parent_id,
                    b.ord as int,
                    ids.len() as int,
                )
        }),
{
    let xi = index_of(t, x);
    lemma_index_of(t, x);
    lemma_child_ids(t, x);
    lemma_delete_tree(t, x);
    lemma_sort_by_ord(with_parent(t, Some(x)));
    let u = delete_outcome(t, x).tree;
    assert forall|j: int| 0 <= j < u.len() implies (#[trigger] u[j]).id != x by {
        let i = if j < xi { j } else { j + 1 };
        if i != xi {
            lemma_wf_pair(t, i, xi);
        }
    }
    lemma_index_of_char(u, x, -1);
}

/// Delete a block, then apply the returned delete (the restore): the same
/// blocks come back, the deleted one at the end of the list, on every
/// well-formed tree on which the delete stays in range. Its children, moved
/// up into its place by the delete, go back under it with their old
/// `ord`s.
pub proof fn law_delete_inverse(t: Seq<BlockV>, x: i64, snap: SnapshotV)
    requires
        well_formed(t),
        index_of(t, x) >= 0,
        apply_fits(t, TreeOpV::Delete { block_id: x, snapshot: snap }),
    ensures
        ({
            let o1 = apply_outcome(t, TreeOpV::Delete { block_id: x, snapshot: snap });
            &&& o1.result is Ok
            &&& apply_fits(o1.tree, o1.result.unwrap())
            &&& apply_outcome(o1.tree, o1.result.unwrap()).result is Ok
            &&& apply_outcome(o1.tree, o1.result.unwrap()).tree == without_id(t, x).push(
                t[index_of(t, x)],
            )
        }),
{
    let xi = index_of(t, x);
    lemma_index_of(t, x);
    lemma_wf_block(t, xi);
    lemma_child_ids(t, x);
    lemma_delete_tree(t, x);
    lemma_room(t, x);
    let b = t[xi];
    let pp = b.parent_id;
    let o = b.ord as int;
    let d = b.depth as int;
    let ids = child_ids(t, x);
    let n = ids.len() as int;
    let t3 = delete_outcome(t, x).tree;
    let snap2 = SnapshotV { raw: b.raw, depth: b.depth, parent_id: pp, ord: b.ord, reparented_children: ids };
    assert(apply_outcome(t, TreeOpV::Delete { block_id: x, snapshot: snap }).result == Ok::<
        TreeOpV,
        TreeOpError,
    >(TreeOpV::Delete { block_id: x, snapshot: snap2 }));
    assert(unique_ids(t3)) by {
        assert forall|a: int, c: int| 0 <= a < c < t3.len() implies (#[trigger] t3[a]).id != (
        #[trigger] t3[c]).id by {
            let aa = if a < xi { a } else { a + 1 };
            let cc = if c < xi { c } else { c + 1 };
            assert(t3[a].id == t[aa].id && t3[c].id == t[cc].id);
        }
    }
    assert(index_of(t3, x) < 0) by {
        assert forall|j: int| 0 <= j < t3.len() implies (#[trigger] t3[j]).id != x by {
            let jj = if j < xi { j } else { j + 1 };
            assert(t3[j].id == t[jj].id);
            lemma_wf_pair(t, jj, xi);
        }
        lemma_index_of_char(t3, x, -1);
    }
    assert forall|m: int| 0 <= m < ids.len() implies index_of(t3, #[trigger] ids[m]) >= 0 by {
        let r = index_of(t, ids[m]);
        lemma_index_of(t, ids[m]);
        assert(r != xi);
        let k = if r < xi { r } else { r - 1 };
        assert(t3[k].id == ids[m]);
        lemma_index_of(t3, ids[m]);
    }
    lemma_none_missing(t3, ids, x, d + 1, 0);
    lemma_restored(t, x);
    let t4 = adopted(t3, ids, x, d + 1, n);
    let t5 = shifted(t4, None, pp, o + n, 1 - n);
    let w = t.remove(xi);
    lemma_without_unique(t, xi);
    assert forall|k: int| 0 <= k < w.len() implies #[trigger] t5[k] == w[k] by {
        assert(w[k] == t[if k < xi { k } else { k + 1 }]);
    }
    assert(t5 =~= w);
    assert(restore_fits(t3, x, snap2)) by {
        if n > 0 {
            let r = index_of(t, ids[0]);
            lemma_index_of(t, ids[0]);
            lemma_wf_block(t, r);
            assert(index_of(t, x) == xi);
        }
        assert forall|i: int| 0 <= i < t4.len() && affected(#[trigger] t4[i], None, pp, o + n) implies i32::MIN
            <= t4[i].ord + (1 - n) <= i32::MAX by {
            assert(t5[i] == t5[i]);
        }
    }
    assert(restore_outcome(t3, x, snap2).tree == t5.push(b));
}

} // verus!
