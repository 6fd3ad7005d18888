use foliom_core::query::{build_block_tree, search_params};

#[test]
fn blank_query_searches_nothing() {
    assert_eq!(search_params("   ", 5), None);
    assert_eq!(search_params("", 0), None);
}

#[test]
fn query_is_trimmed_and_limit_mapped() {
    assert_eq!(search_params("  foo bar \n", 7), Some(("foo bar".to_string(), 7)));
    assert_eq!(search_params("x", 0), Some(("x".to_string(), i64::MAX)));
}

#[test]
fn tree_follows_parents_in_row_order() {
    let rows = vec![
        (10, None, -1, "".to_string()),
        (11, None, 0, "- a\n".to_string()),
        (12, Some(11), 1, "\t- b\n".to_string()),
        (13, Some(11), 1, "\t- c\n".to_string()),
        (14, None, 0, "- d\n".to_string()),
    ];
    let tree = build_block_tree(&rows);
    assert_eq!(tree.len(), 3);
    assert_eq!(tree[0].depth, -1);
    assert_eq!(tree[1].raw, "- a\n");
    assert_eq!(tree[1].children.len(), 2);
    assert_eq!(tree[1].children[0].raw, "\t- b\n");
    assert_eq!(tree[1].children[1].raw, "\t- c\n");
    assert!(tree[1].children[0].children.is_empty());
    assert_eq!(tree[2].raw, "- d\n");
}

#[test]
fn empty_rows_give_empty_tree() {
    assert!(build_block_tree(&Vec::new()).is_empty());
}

#[test]
fn unicode_white_space_is_trimmed_like_str_trim() {
    for q in ["\u{3000}abc\u{a0}", "\u{85}\u{2028} a b \u{200a}\t", "\u{1680}x\u{205f}"] {
        let expected = q.trim().to_string();
        assert_eq!(search_params(q, 1), Some((expected, 1)));
    }
    assert_eq!(search_params("\u{2000}\u{202f}\u{2029}", 3), None);
    assert_eq!(search_params("\u{200b}x", 1), Some(("\u{200b}x".to_string(), 1)));
}
