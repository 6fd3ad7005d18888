use std::collections::HashSet;
use std::path::PathBuf;

use foliom_core::path::{PathError, RelativePath};
use unicode_normalization::UnicodeNormalization;

#[test]
fn from_filesystem_strips_root_and_uses_forward_slash() {
    let rp = RelativePath::from_filesystem("/notes/journals/2023_11_09.md", "/notes").expect("ok");
    assert_eq!(rp.as_str(), "journals/2023_11_09.md");
}

#[test]
fn from_filesystem_single_component() {
    let rp = RelativePath::from_filesystem("/notes/foo.md", "/notes").expect("ok");
    assert_eq!(rp.as_str(), "foo.md");
}

#[test]
fn from_filesystem_nfd_normalizes_to_nfc() {
    let nfc_form: String = "Avaliação".nfc().collect();
    let nfd_form: String = "Avaliação".nfd().collect();
    assert_ne!(nfc_form, nfd_form);

    let abs_nfc = format!("/notes/{}.md", nfc_form);
    let abs_nfd = format!("/notes/{}.md", nfd_form);

    let rp_nfc = RelativePath::from_filesystem(&abs_nfc, "/notes").expect("ok");
    let rp_nfd = RelativePath::from_filesystem(&abs_nfd, "/notes").expect("ok");

    assert_eq!(rp_nfc.as_str(), rp_nfd.as_str());
    assert_eq!(rp_nfc.as_str(), format!("{}.md", nfc_form));
}

#[test]
fn from_filesystem_rejects_path_outside_root() {
    let err = RelativePath::from_filesystem("/other/file.md", "/notes").unwrap_err();
    assert!(matches!(err, PathError::PathOutsideRoot));
}

#[test]
fn from_filesystem_rejects_dotdot_component_traversal() {
    let res = RelativePath::from_filesystem("/notes/../escape.md", "/notes");
    assert!(res.is_err(), "must reject path with .. component");
}

#[test]
fn from_filesystem_rejects_dot_component() {
    let res = RelativePath::from_filesystem("/notes/./foo.md", "/notes");
    if let Ok(rp) = res {
        assert_eq!(rp.as_str(), "foo.md");
    }
}

#[test]
fn from_storage_str_is_a_trust_constructor() {
    let rp = RelativePath::from_storage_str("a/b/c.md");
    assert_eq!(rp.as_str(), "a/b/c.md");
}

#[test]
fn to_filesystem_roundtrips_via_platform_separator() {
    let rp = RelativePath::from_storage_str("journals/2023_11_09.md");
    let abs = PathBuf::from(rp.to_filesystem("/notes"));
    let expected: PathBuf = ["/notes", "journals", "2023_11_09.md"].iter().collect();
    assert_eq!(abs, expected);
}

#[test]
fn relative_path_is_hash_and_eq() {
    let mut set: HashSet<RelativePath> = HashSet::new();
    set.insert(RelativePath::from_storage_str("a/b.md"));
    set.insert(RelativePath::from_storage_str("a/b.md"));
    assert_eq!(set.len(), 1);
}

#[test]
fn to_filesystem_of_empty_path_is_the_root() {
    let rp = RelativePath::from_storage_str("");
    assert_eq!(rp.to_filesystem("/notes"), "/notes");
}

#[test]
fn from_filesystem_then_to_filesystem_gives_the_path_back() {
    let rp = RelativePath::from_filesystem("/notes/a/b.md", "/notes").unwrap();
    assert_eq!(rp.to_filesystem("/notes"), "/notes/a/b.md");
}

#[test]
fn storage_key_survives_the_trip_to_disk_and_back() {
    for root in ["/notes", "/notes/", "", "/"] {
        let rp = RelativePath::from_storage_str("journals/2023_11_09.md");
        let abs = rp.to_filesystem(root);
        let back = RelativePath::from_filesystem(&abs, root).expect("under root");
        assert_eq!(back.as_str(), "journals/2023_11_09.md", "root {root:?}");
    }
}

#[test]
fn path_error_messages() {
    assert_eq!(PathError::PathOutsideRoot.message(), "path is not under root");
    assert_eq!(PathError::NonUtf8Path.message(), "path component is not valid UTF-8");
    assert_eq!(
        PathError::UnexpectedPathComponent.message(),
        "unexpected path component (only Normal components allowed)"
    );
}
