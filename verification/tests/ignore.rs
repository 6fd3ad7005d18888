use foliom_core::scanner::ignore::{IgnoreSet, DEFAULT_LOGSEQ_IGNORES};

#[test]
fn default_logseq_ignores_logseq_dir() {
    let set = IgnoreSet::default_logseq();
    assert!(set.is_ignored("logseq"));
}

#[test]
fn default_logseq_ignores_every_documented_name() {
    let set = IgnoreSet::default_logseq();
    for name in [
        "logseq",
        "assets",
        "draws",
        "whiteboards",
        "bak",
        ".recycle",
        "version-files",
        ".git",
        ".obsidian",
        ".trash",
        "node_modules",
    ] {
        assert!(set.is_ignored(name), "expected {name:?} to be ignored");
    }
}

#[test]
fn default_logseq_does_not_ignore_user_content_dirs() {
    let set = IgnoreSet::default_logseq();
    assert!(!set.is_ignored("journals"));
    assert!(!set.is_ignored("pages"));
    assert!(!set.is_ignored("Untitled.md"));
}

#[test]
fn extend_from_config_edn_adds_entries() {
    let mut set = IgnoreSet::default_logseq();
    set.extend_from_config_edn(vec!["foo".to_string(), "bar".to_string()]);
    assert!(set.is_ignored("foo"));
    assert!(set.is_ignored("bar"));
    assert!(set.is_ignored("logseq"));
}

#[test]
fn ignore_matching_is_case_sensitive() {
    let set = IgnoreSet::default_logseq();
    assert!(!set.is_ignored("LOGSEQ"));
    assert!(!set.is_ignored("Assets"));
}

#[test]
fn empty_set_ignores_nothing() {
    let set = IgnoreSet::empty();
    assert!(!set.is_ignored("logseq"));
}

#[test]
fn default_set_has_expected_size() {
    let _ = IgnoreSet::default_logseq();
    assert_eq!(DEFAULT_LOGSEQ_IGNORES.len(), 11);
}
