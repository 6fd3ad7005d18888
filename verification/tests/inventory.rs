use foliom_core::inventory::{
    count_occurrences, file_patterns, pattern_index, pattern_key_str, InventoryTally,
    PATTERN_COUNT,
};
use foliom_core::parser::segment::segment;

#[test]
fn count_occurrences_handles_overlap_correctly() {
    assert_eq!(count_occurrences("aaaa", "aa"), 2);
    assert_eq!(count_occurrences("", "x"), 0);
    assert_eq!(count_occurrences("abc", ""), 0);
    assert_eq!(count_occurrences("alias::alias::", "alias::"), 2);
}

#[test]
fn count_occurrences_multibyte_haystack() {
    assert_eq!(count_occurrences("ção #[[a]] ção #[[b]]", "#[["), 2);
    assert_eq!(count_occurrences("aaa", "aa"), 1);
}

#[test]
fn pattern_keys_in_report_order() {
    assert_eq!(PATTERN_COUNT, 9);
    assert_eq!(pattern_key_str(0), "alias::");
    assert_eq!(pattern_key_str(3), "LOGBOOK");
    assert_eq!(pattern_key_str(8), "%2F-in-filename");
    assert_eq!(pattern_index("#[[...]]"), 4);
    assert_eq!(pattern_index("code-fence-in-bullet"), 7);
}

#[test]
fn file_patterns_counts_every_pattern() {
    let src = b"- a alias:: x\n  id:: 1\n  :LOGBOOK:\n  CLOCK: x\n  :END:\n- b #[[T]] #[[U]]\n  SCHEDULED: <2024>\n- ```\n  code\n  ```\n";
    let blocks = segment(src);
    let fp = file_patterns("pages/A%2fB.md", &blocks).expect("fits");
    assert_eq!(fp.counts.len(), PATTERN_COUNT);
    assert_eq!(fp.counts[0], 1); // alias::
    assert_eq!(fp.counts[1], 1); // id::
    assert_eq!(fp.counts[2], 0); // template::
    assert_eq!(fp.counts[3], 1); // LOGBOOK
    assert_eq!(fp.counts[4], 2); // #[[
    assert_eq!(fp.counts[5], 1); // SCHEDULED:
    assert_eq!(fp.counts[6], 0); // DEADLINE:
    assert_eq!(fp.counts[7], 1); // fence in a bullet
    assert_eq!(fp.counts[8], 1); // %2F in the path
    assert!(fp.has_property);
    assert!(fp.has_drawer);
}

#[test]
fn prelude_fence_is_not_a_fence_in_bullet() {
    let src = b"```\ncode\n```\n";
    let blocks = segment(src);
    let fp = file_patterns("pages/x.md", &blocks).expect("fits");
    assert_eq!(fp.counts[7], 0);
    assert_eq!(fp.counts[8], 0);
    assert!(!fp.has_property);
}

#[test]
fn tally_sums_files_and_counts_distinct_paths() {
    let mut t = InventoryTally::new();
    let a = segment(b"- a\n  alias:: one\n- b\n  alias:: two\n");
    let fa = file_patterns("journals/2024_01_01.md", &a).unwrap();
    assert!(t.add_file("journals/2024_01_01.md", 10, &fa));
    let b = segment(b"- c\n  alias:: three\n");
    let fb = file_patterns("pages/b.md", &b).unwrap();
    assert!(t.add_file("pages/b.md", 5, &fb));
    assert!(t.add_file("pages/b.md", 5, &fb));
    assert!(t.skip_file(u64::MAX));
    let r = t.finish("C:\\notes\\root");
    assert_eq!(r.root, "C:/notes/root");
    assert_eq!(r.scanned_files, 4);
    assert_eq!(r.journal_files, 1);
    assert_eq!(r.page_files, 3);
    assert_eq!(r.total_size_bytes, u64::MAX);
    assert_eq!(r.patterns.len(), PATTERN_COUNT);
    assert_eq!(r.patterns[0].name, "alias::");
    assert_eq!(r.patterns[0].occurrences, 4);
    assert_eq!(r.patterns[0].files_with, 2);
    assert_eq!(r.block_property_files, 2);
    assert_eq!(r.drawer_files, 0);
}
