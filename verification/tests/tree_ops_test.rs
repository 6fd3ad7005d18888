use foliom_core::mutation::tree_ops::{
    BlockSnapshot, MutableBlock, MutableTree, TreeOp, TreeOpError,
};

fn assert_trees_equal(actual: &MutableTree, expected: &MutableTree) {
    let mut a = actual.blocks.clone();
    let mut e = expected.blocks.clone();
    a.sort_by_key(|b| b.id);
    e.sort_by_key(|b| b.id);
    assert_eq!(a, e, "trees diverge (sorted-by-id)");
}

fn block(id: i64, parent_id: Option<i64>, ord: i32, depth: u8, raw: &str) -> MutableBlock {
    MutableBlock { id, parent_id, ord, depth, raw: raw.to_string() }
}

fn small_tree() -> MutableTree {
    MutableTree::new(vec![
        block(0, None, -1, u8::MAX, ""),
        block(1, None, 0, 0, "- A\n"),
        block(2, Some(1), 0, 1, "\t- B\n"),
        block(3, None, 1, 0, "- C\n"),
        block(4, None, 2, 0, "- D\n"),
    ])
}

fn empty_snapshot() -> BlockSnapshot {
    BlockSnapshot {
        raw: String::new(),
        depth: 0,
        parent_id: None,
        ord: 0,
        reparented_children: Vec::new(),
    }
}

#[test]
fn indent_then_inverse_restores_tree() {
    let orig = small_tree();
    let mut t = orig.clone();
    let op = TreeOp::Indent { block_id: 3, prev_depth: 0 };
    let inv = op.apply(&mut t).expect("indent");
    let c = t.get(3).unwrap();
    assert_eq!(c.parent_id, Some(1));
    assert_eq!(c.depth, 1);
    assert_eq!(c.ord, 1);
    inv.apply(&mut t).expect("outdent (inverse)");
    assert_trees_equal(&t, &orig);
}

#[test]
fn indent_first_child_returns_error() {
    let mut t = small_tree();
    let err = TreeOp::Indent { block_id: 2, prev_depth: 1 }.apply(&mut t).unwrap_err();
    assert_eq!(err, TreeOpError::FirstChildCannotIndent);
}

#[test]
fn indent_first_top_level_block_returns_error() {
    let mut t = small_tree();
    let err = TreeOp::Indent { block_id: 1, prev_depth: 0 }.apply(&mut t).unwrap_err();
    assert_eq!(err, TreeOpError::FirstChildCannotIndent);
}

#[test]
fn outdent_then_inverse_restores_tree() {
    let orig = small_tree();
    let mut t = orig.clone();
    let op = TreeOp::Outdent { block_id: 2, prev_depth: 1 };
    let inv = op.apply(&mut t).expect("outdent");
    let b = t.get(2).unwrap();
    assert_eq!(b.parent_id, None);
    assert_eq!(b.depth, 0);
    assert_eq!(b.ord, 1);
    assert_eq!(t.get(3).unwrap().ord, 2);
    assert_eq!(t.get(4).unwrap().ord, 3);
    inv.apply(&mut t).expect("indent (inverse)");
    assert_trees_equal(&t, &orig);
}

#[test]
fn outdent_at_root_returns_error() {
    let mut t = small_tree();
    let err = TreeOp::Outdent { block_id: 1, prev_depth: 0 }.apply(&mut t).unwrap_err();
    assert_eq!(err, TreeOpError::AlreadyAtRoot);
}

#[test]
fn merge_then_inverse_restores_tree() {
    let orig = small_tree();
    let mut t = orig.clone();
    let op = TreeOp::Merge { block_id: 3, merged_into_id: 1, original_raw: String::new() };
    let inv = op.apply(&mut t).expect("merge");
    assert!(t.get(3).is_none());
    let a = t.get(1).unwrap();
    assert!(a.raw.contains("- A"));
    assert!(a.raw.contains("- C"));
    inv.apply(&mut t).expect("split (inverse)");
    assert_trees_equal(&t, &orig);
}

#[test]
fn merge_into_prelude_returns_error() {
    let mut t = small_tree();
    let err = TreeOp::Merge { block_id: 1, merged_into_id: 0, original_raw: String::new() }
        .apply(&mut t)
        .unwrap_err();
    assert_eq!(err, TreeOpError::CannotMergeIntoPrelude);
}

#[test]
fn split_then_inverse_restores_tree() {
    let orig = small_tree();
    let mut t = orig.clone();
    let op = TreeOp::Split { block_id: 1, at_offset: 2, new_block_id: 99 };
    let inv = op.apply(&mut t).expect("split");
    let a = t.get(1).unwrap();
    let new_block = t.get(99).unwrap();
    assert_eq!(a.raw, "- ");
    assert_eq!(new_block.raw, "A\n");
    assert_eq!(new_block.parent_id, None);
    assert_eq!(new_block.depth, 0);
    inv.apply(&mut t).expect("merge (inverse)");
    assert_trees_equal(&t, &orig);
}

#[test]
fn split_offset_out_of_bounds_returns_error() {
    let mut t = small_tree();
    let err = TreeOp::Split { block_id: 1, at_offset: 9999, new_block_id: 100 }
        .apply(&mut t)
        .unwrap_err();
    assert_eq!(err, TreeOpError::InvalidSplitOffset);
}

#[test]
fn split_inside_a_character_is_refused() {
    let mut t = MutableTree::new(vec![block(1, None, 0, 0, "- é\n")]);
    let err = TreeOp::Split { block_id: 1, at_offset: 3, new_block_id: 2 }
        .apply(&mut t)
        .unwrap_err();
    assert_eq!(err, TreeOpError::InvalidSplitOffset);
}

#[test]
fn move_then_inverse_restores_tree() {
    let orig = small_tree();
    let mut t = orig.clone();
    let op = TreeOp::Move {
        block_id: 4,
        prev_parent_id: None,
        prev_ord: 2,
        new_parent_id: Some(1),
        new_ord: 1,
    };
    let inv = op.apply(&mut t).expect("move");
    let d = t.get(4).unwrap();
    assert_eq!(d.parent_id, Some(1));
    assert_eq!(d.ord, 1);
    inv.apply(&mut t).expect("move (inverse)");
    assert_trees_equal(&t, &orig);
}

#[test]
fn delete_then_inverse_restores_tree() {
    let orig = small_tree();
    let mut t = orig.clone();
    let op = TreeOp::Delete { block_id: 3, snapshot: empty_snapshot() };
    let inv = op.apply(&mut t).expect("delete");
    assert!(t.get(3).is_none());
    assert_eq!(t.get(4).unwrap().ord, 1);
    inv.apply(&mut t).expect("undelete (inverse)");
    assert_trees_equal(&t, &orig);
}

#[test]
fn delete_block_with_children_reparents_to_grandparent() {
    let orig = small_tree();
    let mut t = orig.clone();
    let op = TreeOp::Delete { block_id: 1, snapshot: empty_snapshot() };
    let inv = op.apply(&mut t).expect("delete A");
    assert!(t.get(1).is_none());
    let b = t.get(2).unwrap();
    assert_eq!(b.parent_id, None);
    assert_eq!(b.ord, 0);
    assert_eq!(b.depth, 0);
    inv.apply(&mut t).expect("undelete A (inverse)");
    assert_trees_equal(&t, &orig);
}

#[test]
fn restore_with_missing_child_returns_error() {
    let mut t = small_tree();
    let snap = BlockSnapshot {
        raw: "- Z\n".to_string(),
        depth: 0,
        parent_id: None,
        ord: 3,
        reparented_children: vec![77],
    };
    let err = TreeOp::Delete { block_id: 50, snapshot: snap }.apply(&mut t).unwrap_err();
    assert_eq!(err, TreeOpError::BlockNotFound(77));
}

#[test]
fn children_of_sorts_by_ord() {
    let t = MutableTree::new(vec![
        block(1, None, 2, 0, "- c\n"),
        block(2, None, 0, 0, "- a\n"),
        block(3, None, 1, 0, "- b\n"),
    ]);
    let kids = t.children_of(None);
    let ids: Vec<i64> = kids.iter().map(|b| b.id).collect();
    assert_eq!(ids, vec![2, 3, 1]);
}

#[test]
fn predecessor_at_same_depth_returns_none_for_first_child() {
    let t = small_tree();
    assert_eq!(t.predecessor_at_same_depth(2), None);
    assert_eq!(t.predecessor_at_same_depth(1), None);
    assert_eq!(t.predecessor_at_same_depth(3), Some(1));
    assert_eq!(t.predecessor_at_same_depth(4), Some(3));
}

#[test]
fn unknown_block_returns_not_found() {
    let mut t = small_tree();
    let err = TreeOp::Merge { block_id: 1, merged_into_id: 42, original_raw: String::new() }
        .apply(&mut t)
        .unwrap_err();
    assert_eq!(err, TreeOpError::BlockNotFound(42));
    let err = TreeOp::Indent { block_id: 42, prev_depth: 0 }.apply(&mut t).unwrap_err();
    assert_eq!(err, TreeOpError::FirstChildCannotIndent);
}

#[test]
fn get_mut_edits_the_block_in_place() {
    let mut t = small_tree();
    t.get_mut(3).expect("block 3").raw = "- C2\n".to_string();
    assert_eq!(t.get(3).unwrap().raw, "- C2\n");
    assert_eq!(t.get(4).unwrap().raw, "- D\n");
    assert!(t.get_mut(99).is_none());
}

#[test]
fn outdent_of_inner_child_then_inverse_restores_tree() {
    let orig = MutableTree::new(vec![
        block(0, None, -1, u8::MAX, ""),
        block(1, None, 0, 0, "- A\n"),
        block(2, Some(1), 0, 1, "\t- B\n"),
        block(5, Some(1), 1, 1, "\t- B2\n"),
        block(3, None, 1, 0, "- C\n"),
    ]);
    let mut t = orig.clone();
    let inv = TreeOp::Outdent { block_id: 2, prev_depth: 1 }.apply(&mut t).expect("outdent");
    assert_eq!(
        inv,
        TreeOp::Move { block_id: 2, prev_parent_id: None, prev_ord: 1, new_parent_id: Some(1), new_ord: 0 }
    );
    assert_eq!(t.get(2).unwrap().parent_id, None);
    assert_eq!(t.get(2).unwrap().ord, 1);
    assert_eq!(t.get(5).unwrap().ord, 0);
    assert_eq!(t.get(3).unwrap().ord, 2);
    inv.apply(&mut t).expect("inverse");
    assert_trees_equal(&t, &orig);
}

#[test]
fn children_of_sorts_by_ord_keeping_storage_order_of_ties() {
    let t = MutableTree::new(vec![
        block(0, None, -1, u8::MAX, ""),
        block(7, Some(1), 2, 1, "x"),
        block(8, Some(1), 0, 1, "y"),
        block(9, Some(1), 2, 1, "z"),
        block(1, None, 0, 0, "p"),
    ]);
    let ids: Vec<i64> = t.children_of(Some(1)).iter().map(|b| b.id).collect();
    assert_eq!(ids, vec![8, 7, 9]);
    let roots: Vec<i64> = t.children_of(None).iter().map(|b| b.id).collect();
    assert_eq!(roots, vec![1]);
}

#[test]
fn outdent_of_last_child_returns_indent() {
    let mut t = small_tree();
    let inv = TreeOp::Outdent { block_id: 2, prev_depth: 1 }.apply(&mut t).expect("outdent");
    assert_eq!(inv, TreeOp::Indent { block_id: 2, prev_depth: 1 });
    assert_eq!(t.get(1).unwrap().ord, 0);
}
