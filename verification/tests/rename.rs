use foliom_core::rename::journal::{
    all_ops_applied, entry_is_pending, kept_on_remove, unapplied_ops, kept_on_update, replay_op, Journal,
    JournalEntry, JournalOp, OpReplay,
};
use foliom_core::rename::rewrite::{apply_order, rewrite_file_ops, RewriteNoteKind};
use foliom_core::rename::{
    block_backlinks, case_only_change, file_rename_step, found_page, mark_all_applied, merge_target,
    rename_entry, renamed_file_path, validate_page_name, FileRenameStep, RenameError,
};

fn invalid(name: &str) -> String {
    match validate_page_name(name) {
        Err(RenameError::InvalidName(m)) => m,
        other => panic!("expected InvalidName, got {:?}", other),
    }
}

#[test]
fn valid_names_pass() {
    assert!(validate_page_name("My Page").is_ok());
    assert!(validate_page_name("Avaliação").is_ok());
    assert!(validate_page_name("CONSOLE").is_ok());
}

#[test]
fn each_refusal_has_its_message() {
    assert_eq!(invalid(""), "name cannot be empty");
    assert_eq!(invalid("a\0b"), "name contains NUL byte");
    assert_eq!(invalid("a/b"), "name contains reserved character '/'");
    assert_eq!(invalid("a:b*"), "name contains reserved character ':'");
    assert_eq!(invalid("con.md"), "'con.md' is a Windows-reserved device name");
    assert_eq!(invalid("Lpt9"), "'Lpt9' is a Windows-reserved device name");
    assert_eq!(invalid(".hidden"), "name cannot start or end with '.' or ' '");
    assert_eq!(invalid("trailing "), "name cannot start or end with '.' or ' '");
}

#[test]
fn backlinks_found_with_alias_kept_and_case_ignored() {
    let raw = "- see [[Old]] and [[old|the alias]] but not [[Older]]\n";
    let occ = block_backlinks("pages/x.md", raw, 100, "OLD", "New");
    assert_eq!(occ.len(), 2);
    assert_eq!(occ[0].file_path, "pages/x.md");
    assert_eq!(occ[0].byte_offset, 106);
    assert_eq!(occ[0].byte_length, 7);
    assert_eq!(occ[0].old_text, "[[Old]]");
    assert_eq!(occ[0].new_text, "[[New]]");
    assert_eq!(occ[1].old_text, "[[old|the alias]]");
    assert_eq!(occ[1].new_text, "[[New|the alias]]");
    assert_eq!(occ[1].byte_offset, 100 + raw.find("[[old|").unwrap());
}

#[test]
fn backlink_scan_stops_at_unclosed_link() {
    let occ = block_backlinks("f.md", "[[A]] [[A", 0, "A", "B");
    assert_eq!(occ.len(), 1);
    let none = block_backlinks("f.md", "[[Zé]]", 0, "A", "B");
    assert!(none.is_empty());
}

#[test]
fn renamed_path_keeps_directory() {
    assert_eq!(renamed_file_path("pages/Old.md", "New"), "pages/New.md");
    assert_eq!(renamed_file_path("Old.md", "New"), "New.md");
    assert_eq!(renamed_file_path("a/b/Old.md", "X"), "a/b/X.md");
}

#[test]
fn lookup_and_collision_outcomes() {
    assert!(matches!(found_page(None, "Old"), Err(RenameError::NotFound(n)) if n == "Old"));
    assert_eq!(found_page(Some((3, Some(9))), "Old").unwrap(), (3, Some(9)));
    assert!(matches!(merge_target(Some((5, Some(1))), "New"), Err(RenameError::TargetExists(n)) if n == "New"));
    assert_eq!(merge_target(Some((5, None)), "New").unwrap(), Some(5));
    assert_eq!(merge_target(None, "New").unwrap(), None);
}

fn op(offset: usize, old: &str, new: &str) -> JournalOp {
    JournalOp {
        file: "f.md".to_string(),
        old_text: old.to_string(),
        new_text: new.to_string(),
        byte_offset: offset,
        byte_length: old.len(),
        applied: false,
    }
}

#[test]
fn replay_op_outcomes() {
    let bytes = b"x [[Old]] y";
    match replay_op(bytes, &op(2, "[[Old]]", "[[Newer]]")) {
        OpReplay::Spliced(out) => assert_eq!(out, b"x [[Newer]] y"),
        other => panic!("{:?}", other),
    }
    assert!(matches!(replay_op(b"x [[New]] y", &op(2, "[[Old]]", "[[New]]")), OpReplay::AlreadyApplied));
    assert!(matches!(replay_op(b"x [[Zzz]] y", &op(2, "[[Old]]", "[[New]]")), OpReplay::Mismatch));
    assert!(matches!(replay_op(b"x [[O", &op(2, "[[Old]]", "[[New]]")), OpReplay::OutOfRange));
}

#[test]
fn replaying_twice_does_not_splice_again() {
    let o = op(2, "[[Old]]", "[[New]]");
    let once = match replay_op(b"x [[Old]] y", &o) {
        OpReplay::Spliced(out) => out,
        other => panic!("{:?}", other),
    };
    assert!(matches!(replay_op(&once, &o), OpReplay::AlreadyApplied));
}

#[test]
fn rewrite_applies_last_offset_first() {
    let bytes = b"[[A]] mid [[A]] end [[A]]".to_vec();
    let mut ops = vec![op(0, "[[A]]", "[[Bee]]"), op(10, "[[A]]", "[[Bee]]"), op(20, "[[A]]", "[[Bee]]")];
    let order = apply_order(&ops, &vec![0, 1, 2]);
    assert_eq!(order, vec![2, 1, 0]);
    let r = rewrite_file_ops(bytes, &mut ops, &vec![0, 1, 2]);
    assert_eq!(r.bytes, b"[[Bee]] mid [[Bee]] end [[Bee]]".to_vec());
    assert!(r.changed);
    assert!(r.notes.is_empty());
    assert!(ops.iter().all(|o| o.applied));
}

#[test]
fn rewrite_notes_mismatch_and_out_of_range() {
    let bytes = b"[[A]] zz and more".to_vec();
    let mut ops = vec![op(0, "[[A]]", "[[B]]"), op(6, "[[A]]", "[[B]]"), op(50, "[[A]]", "[[B]]")];
    let r = rewrite_file_ops(bytes, &mut ops, &vec![0, 1, 2]);
    assert_eq!(r.bytes, b"[[B]] zz and more".to_vec());
    assert_eq!(r.notes.len(), 2);
    assert_eq!(r.notes[0].op, 2);
    assert_eq!(r.notes[0].kind, RewriteNoteKind::OutOfRange);
    assert_eq!(r.notes[1].op, 1);
    assert_eq!(r.notes[1].kind, RewriteNoteKind::Mismatch);
    assert!(ops[0].applied);
    assert!(ops[1].applied);
    assert!(!ops[2].applied);
}

#[test]
fn equal_offsets_keep_their_order() {
    let ops = vec![op(5, "a", "b"), op(9, "a", "b"), op(5, "a", "b")];
    assert_eq!(apply_order(&ops, &vec![0, 1, 2]), vec![1, 0, 2]);
}

fn entry(ops: Vec<JournalOp>, sql: bool, renamed: bool) -> JournalEntry {
    JournalEntry {
        id: "rename-A-B".to_string(),
        started: "now".to_string(),
        old_name: "A".to_string(),
        new_name: "B".to_string(),
        page_id: 1,
        old_file: "pages/A.md".to_string(),
        new_file: "pages/B.md".to_string(),
        ops,
        sql_committed: sql,
        file_renamed: renamed,
    }
}

#[test]
fn pending_entries() {
    assert!(!entry_is_pending(&entry(vec![op(0, "a", "b")], false, false)));
    assert!(entry_is_pending(&entry(vec![], true, false)));
    assert!(entry_is_pending(&entry(vec![op(0, "a", "b")], true, true)));
    let mut done = vec![op(0, "a", "b")];
    mark_all_applied(&mut done);
    assert!(all_ops_applied(&entry(done.clone(), true, true)));
    assert!(!entry_is_pending(&entry(done, true, true)));
}

#[test]
fn rename_entry_starts_with_pending_ops() {
    let occ = block_backlinks("p.md", "[[A]]", 0, "A", "B");
    let e = rename_entry("A", "B", 7, Some("pages/A.md"), None, &occ);
    assert_eq!(e.id, "rename-A-B");
    assert_eq!(e.started, "now");
    assert_eq!(e.page_id, 7);
    assert_eq!(e.old_file, "pages/A.md");
    assert_eq!(e.new_file, "");
    assert_eq!(e.ops.len(), 1);
    assert_eq!(e.ops[0].new_text, "[[B]]");
    assert!(!e.ops[0].applied && !e.sql_committed && !e.file_renamed);
}

#[test]
fn file_rename_steps() {
    let mut e = entry(vec![], true, false);
    assert_eq!(file_rename_step(&e, true, false), FileRenameStep::Rename);
    assert_eq!(file_rename_step(&e, false, true), FileRenameStep::AlreadyMoved);
    assert_eq!(file_rename_step(&e, false, false), FileRenameStep::Missing);
    e.old_file = String::new();
    e.new_file = String::new();
    assert_eq!(file_rename_step(&e, true, true), FileRenameStep::NoFile);
    e.file_renamed = true;
    assert_eq!(file_rename_step(&e, true, true), FileRenameStep::Done);
}

#[test]
fn journal_paths() {
    let j = Journal::open_at("/tmp/x.rename-journal".to_string());
    assert_eq!(j.path(), "/tmp/x.rename-journal");
    let k = Journal::open_for_root("/data/foliom", "/home/u/notes");
    assert!(k.path().starts_with("/data/foliom/"));
    assert!(k.path().ends_with(".rename-journal"));
    assert_eq!(k.path().len(), "/data/foliom/".len() + 16 + ".rename-journal".len());
}

#[test]
fn journal_update_keeps_other_decoded_lines() {
    let ids = vec![Some("rename-A-B".to_string()), None, Some("rename-C-D".to_string())];
    let updated = vec![entry(vec![], true, false)];
    assert_eq!(kept_on_update(&ids, &updated), vec![false, false, true]);
    assert_eq!(kept_on_update(&ids, &[]), vec![true, false, true]);
}

#[test]
fn journal_remove_drops_only_that_entry() {
    let ids = vec![Some("rename-A-B".to_string()), None, Some("rename-C-D".to_string())];
    assert_eq!(kept_on_remove(&ids, "rename-A-B"), vec![false, true, true]);
    assert_eq!(kept_on_remove(&ids, "rename-X-Y"), vec![true, true, true]);
}

#[test]
fn case_only_renames_are_recognised() {
    assert!(case_only_change("Foo.md", "foo.md"));
    assert!(case_only_change("straße.md", "STRASSE.md"));
    assert!(!case_only_change("a.md", "a.md"));
    assert!(!case_only_change("a.md", "b.md"));
}

#[test]
fn unapplied_ops_in_stored_order() {
    let mut ops = vec![op(0, "a", "b"), op(5, "a", "b"), op(9, "a", "b")];
    ops[1].applied = true;
    assert_eq!(unapplied_ops(&entry(ops, true, false)), vec![0, 2]);
}
