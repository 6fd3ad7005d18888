use foliom_core::indexer::write::{
    content_action, dedup_refs, page_kind_name, plan_block_rows, ref_type_name, self_page_action,
    stale_paths, stored_depth_exec, unchanged_by_metadata, ContentAction, SelfPageAction,
};
use foliom_core::indexer::page_name::PageKind;
use foliom_core::indexer::{FileOutcome, ReindexMode, ReindexStats};
use foliom_core::parser::ast::{extract_refs, ExtractedRef, RefKind};
use foliom_core::parser::segment::segment;

#[test]
fn block_rows_link_each_block_to_nearest_shallower() {
    let blocks = segment(b"intro\n- a\n\t- b\n\t\t- c\n\t- d\n- e\n");
    let rows = plan_block_rows(&blocks);
    let parents: Vec<Option<usize>> = rows.iter().map(|r| r.parent).collect();
    let depths: Vec<i64> = rows.iter().map(|r| r.depth).collect();
    assert_eq!(depths, vec![-1, 0, 1, 2, 1, 0]);
    assert_eq!(parents, vec![None, Some(0), Some(1), Some(2), Some(1), Some(0)]);
    assert!(rows.iter().all(|r| r.hash.len() == 32));
    assert_ne!(rows[1].hash, rows[5].hash);
}

#[test]
fn block_hash_is_blake3_of_raw() {
    let blocks = segment(b"- a\n");
    let rows = plan_block_rows(&blocks);
    assert_eq!(rows[1].hash, blake3::hash(b"- a\n").as_bytes().to_vec());
}

#[test]
fn stored_depth_of_prelude_is_minus_one() {
    assert_eq!(stored_depth_exec(u8::MAX), -1);
    assert_eq!(stored_depth_exec(3), 3);
}

#[test]
fn refs_are_stored_once_per_kind_and_target() {
    let refs = extract_refs("[[A]] #A [[A]] #[[A]] [[B]]");
    let d = dedup_refs(refs);
    assert_eq!(
        d,
        vec![
            ExtractedRef { kind: RefKind::PageLink, target: "A".to_string() },
            ExtractedRef { kind: RefKind::Tag, target: "A".to_string() },
            ExtractedRef { kind: RefKind::PageLink, target: "B".to_string() },
        ]
    );
    assert_eq!(ref_type_name(RefKind::Tag), "tag");
    assert_eq!(ref_type_name(RefKind::PageLink), "page-link");
    assert_eq!(page_kind_name(PageKind::Journal), "journal");
    assert_eq!(page_kind_name(PageKind::Page), "page");
}

#[test]
fn self_page_actions() {
    assert_eq!(self_page_action(None, 4), SelfPageAction::Insert);
    assert_eq!(self_page_action(Some((9, None)), 4), SelfPageAction::Claim(9));
    assert_eq!(self_page_action(Some((9, Some(4))), 4), SelfPageAction::Refresh(9));
    assert_eq!(self_page_action(Some((9, Some(5))), 4), SelfPageAction::Collision(9));
}

#[test]
fn metadata_skip_only_in_incremental_mode() {
    assert!(unchanged_by_metadata(ReindexMode::Incremental, Some((10, 20)), 10, 20));
    assert!(!unchanged_by_metadata(ReindexMode::Full, Some((10, 20)), 10, 20));
    assert!(!unchanged_by_metadata(ReindexMode::Incremental, Some((10, 21)), 10, 20));
    assert!(!unchanged_by_metadata(ReindexMode::Incremental, None, 10, 20));
}

#[test]
fn content_actions_follow_the_hash() {
    let bytes = b"- x\n";
    let h = blake3::hash(bytes).as_bytes().to_vec();
    let (a, got) = content_action(Some((3, h.clone())), bytes);
    assert_eq!(a, ContentAction::TouchMtime(3));
    assert_eq!(got, h);
    let (b, _) = content_action(Some((3, vec![0u8; 32])), bytes);
    assert_eq!(b, ContentAction::Reparse(3));
    let (c, _) = content_action(None, bytes);
    assert_eq!(c, ContentAction::Insert);
}

#[test]
fn stale_paths_are_known_but_unseen() {
    let known = vec!["a.md".to_string(), "b.md".to_string(), "c.md".to_string()];
    let seen = vec!["c.md".to_string(), "a.md".to_string()];
    assert_eq!(stale_paths(&known, &seen), vec!["b.md".to_string()]);
}

#[test]
fn stats_start_at_zero() {
    let s = ReindexStats::default();
    assert_eq!(
        s,
        ReindexStats { scanned: 0, added: 0, modified: 0, unchanged: 0, mtime_touched: 0, deleted: 0 }
    );
}

#[test]
fn each_outcome_counts_once() {
    let mut s = ReindexStats::default();
    for o in [FileOutcome::Added, FileOutcome::Added, FileOutcome::Modified, FileOutcome::Unchanged, FileOutcome::MtimeTouched, FileOutcome::Deleted] {
        assert!(s.record(o));
    }
    assert_eq!(
        s,
        ReindexStats { scanned: 0, added: 2, modified: 1, unchanged: 1, mtime_touched: 1, deleted: 1 }
    );
    let mut full = ReindexStats { deleted: usize::MAX, ..ReindexStats::default() };
    assert!(!full.record(FileOutcome::Deleted));
    assert_eq!(full.deleted, usize::MAX);
}
