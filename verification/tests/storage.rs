use foliom_core::storage::{
    data_dir_linux, data_dir_macos, data_dir_windows, db_file_name, db_path_in,
    journal_file_name, root_hash_stem, StorageError,
};

#[test]
fn filename_is_16_hex_chars_plus_db_extension() {
    let name = db_file_name("/home/u/notes");
    assert!(name.ends_with(".db"));
    let stem = &name[..name.len() - 3];
    assert_eq!(stem.len(), 16);
    assert!(stem.chars().all(|c| c.is_ascii_hexdigit() && !c.is_ascii_uppercase()));
}

#[test]
fn stem_is_prefix_of_blake3_hex() {
    let full = blake3::hash("/home/u/notes".as_bytes()).to_hex().to_string();
    assert_eq!(root_hash_stem("/home/u/notes"), full[..16].to_string());
}

#[test]
fn backslashes_hash_like_slashes() {
    assert_eq!(root_hash_stem("C:\\notes\\x"), root_hash_stem("C:/notes/x"));
}

#[test]
fn deterministic_for_same_notes_root() {
    assert_eq!(db_file_name("/a/notes"), db_file_name("/a/notes"));
}

#[test]
fn differs_for_different_notes_roots() {
    assert_ne!(db_file_name("/a/notes"), db_file_name("/b/notes"));
}

#[test]
fn journal_shares_the_stem() {
    let db = db_file_name("/n");
    let j = journal_file_name("/n");
    assert_eq!(&db[..16], &j[..16]);
    assert!(j.ends_with(".rename-journal"));
}

#[test]
fn db_path_is_under_foliom_dir() {
    let p = db_path_in("/data", "/home/u/notes");
    assert!(p.starts_with("/data/foliom/"));
    assert!(!p.starts_with("/home/u/notes"));
}

#[test]
fn linux_data_dir_choice() {
    assert_eq!(data_dir_linux(Some("/x"), Some("/home/u")).unwrap(), "/x");
    assert_eq!(data_dir_linux(Some(""), Some("/home/u")).unwrap(), "/home/u/.local/share");
    assert_eq!(data_dir_linux(None, Some("/home/u/")).unwrap(), "/home/u/.local/share");
    assert!(matches!(data_dir_linux(None, None), Err(StorageError::NoHomeDir)));
}

#[test]
fn other_platform_data_dirs() {
    assert_eq!(data_dir_macos(Some("/Users/u")).unwrap(), "/Users/u/Library/Application Support");
    assert!(matches!(data_dir_macos(None), Err(StorageError::NoHomeDir)));
    assert_eq!(data_dir_windows(Some("C:\\Local")).unwrap(), "C:\\Local");
    assert!(matches!(data_dir_windows(None), Err(StorageError::NoAppData)));
    assert_eq!(StorageError::NoAppData.message(), "%LOCALAPPDATA% is not set — cannot resolve user data directory");
}
