use foliom_core::indexer::page_name::{derive_page_info, PageKind};
use foliom_core::path::RelativePath;

fn rel(s: &str) -> RelativePath {
    RelativePath::from_storage_str(s)
}

#[test]
fn journal_yyyy_mm_dd_parsed() {
    let info = derive_page_info(&rel("journals/2023_11_09.md"));
    assert_eq!(info.name, "2023_11_09");
    assert_eq!(info.kind, PageKind::Journal);
    assert_eq!(info.journal_date.as_deref(), Some("2023-11-09"));
}

#[test]
fn simple_page_in_pages_dir() {
    let info = derive_page_info(&rel("pages/Sleep.md"));
    assert_eq!(info.name, "Sleep");
    assert_eq!(info.kind, PageKind::Page);
    assert_eq!(info.journal_date, None);
}

#[test]
fn percent_2f_decoded_uppercase() {
    let info = derive_page_info(&rel("pages/Parent%2FChild.md"));
    assert_eq!(info.name, "Parent/Child");
    assert_eq!(info.kind, PageKind::Page);
}

#[test]
fn page_name_percent_2f_decoded_lowercase() {
    let info = derive_page_info(&rel("pages/Foo%2fBar.md"));
    assert_eq!(info.name, "Foo/Bar");
}

#[test]
fn nfc_passthrough_for_accents() {
    let info = derive_page_info(&rel("pages/Avaliação.md"));
    assert_eq!(info.name, "Avaliação");
    assert_eq!(info.kind, PageKind::Page);
}

#[test]
fn untitled_no_parent_dir() {
    let info = derive_page_info(&rel("Untitled.md"));
    assert_eq!(info.name, "Untitled");
    assert_eq!(info.kind, PageKind::Page);
    assert_eq!(info.journal_date, None);
}

#[test]
fn malformed_journal_date_downgrades_to_page() {
    let info = derive_page_info(&rel("journals/foo_bar_baz.md"));
    assert_eq!(info.name, "foo_bar_baz");
    assert_eq!(info.kind, PageKind::Page);
    assert_eq!(info.journal_date, None);
}

#[test]
fn journal_date_wrong_length_downgrades() {
    let info = derive_page_info(&rel("journals/2024_1_15.md"));
    assert_eq!(info.kind, PageKind::Page);
    assert_eq!(info.journal_date, None);
}

#[test]
fn no_md_suffix_still_strips_nothing() {
    let info = derive_page_info(&rel("pages/NoExt"));
    assert_eq!(info.name, "NoExt");
}

#[test]
fn no_2f_no_alloc_path_correct() {
    let info = derive_page_info(&rel("pages/Plain.md"));
    assert_eq!(info.name, "Plain");
}

#[test]
fn journal_date_outside_journals_dir_is_a_page() {
    let info = derive_page_info(&rel("pages/2023_11_09.md"));
    assert_eq!(info.kind, PageKind::Page);
    assert_eq!(info.journal_date, None);
}
