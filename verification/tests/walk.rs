use foliom_core::scanner::ignore::IgnoreSet;
use foliom_core::scanner::walk::{is_markdown_name, keep_entry, mtime_ns_from_parts};

#[test]
fn ignored_and_dot_directories_are_pruned() {
    let set = IgnoreSet::default_logseq();
    assert!(!keep_entry(&set, true, Some("logseq"), 1));
    assert!(!keep_entry(&set, true, Some(".hidden"), 2));
    assert!(keep_entry(&set, true, Some(".hidden"), 0));
    assert!(keep_entry(&set, true, Some("."), 1));
    assert!(keep_entry(&set, true, Some("journals"), 1));
    assert!(keep_entry(&set, false, Some("logseq"), 1));
    assert!(keep_entry(&set, true, None, 1));
}

#[test]
fn markdown_names_by_extension() {
    assert!(is_markdown_name("a.md"));
    assert!(is_markdown_name("x.y.md"));
    assert!(!is_markdown_name(".md"));
    assert!(!is_markdown_name("a.mdx"));
    assert!(!is_markdown_name("md"));
    assert!(!is_markdown_name("a.MD"));
}

#[test]
fn mtime_in_nanoseconds() {
    assert_eq!(mtime_ns_from_parts(2, 5), Some(2_000_000_005));
    assert_eq!(mtime_ns_from_parts(-1, 0), Some(-1_000_000_000));
    assert_eq!(mtime_ns_from_parts(i64::MAX, 0), None);
    assert_eq!(mtime_ns_from_parts(9_223_372_036, 854_775_807), Some(i64::MAX));
    assert_eq!(mtime_ns_from_parts(9_223_372_036, 854_775_808), None);
}
