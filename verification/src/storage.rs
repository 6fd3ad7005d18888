//! Where the index lives: the file names derived from a notes root, and the
//! per-platform user data directory.
//!
//! The index of a notes root is named after the BLAKE3 hash of the root's
//! canonical path, written with forward slashes and put in Unicode NFC: the
//! first sixteen lowercase hex digits of the hash, then `.db`. It lives
//! outside the notes folder, under `foliom/` in the user data directory.

use vstd::prelude::*;
use vstd::utf8::*;

use crate::indexer::write::{blake3_hash, blake3_of};
use crate::path::{filesystem_spec, nfc, nfc_of, RelativePath};
use crate::text::{chars_of, string_of};

verus! {

/// Errors of the storage layer.
#[derive(Debug)]
pub enum StorageError {
    Io(std::io::Error),
    NoHomeDir,
    NoAppData,
}

impl StorageError {
    /// The error's message, for the variants that carry no other error.
    pub fn message(&self) -> (r: &'static str)
        ensures
            self is NoHomeDir ==> r@ == "$HOME is not set — cannot resolve user data directory"@,
            self is NoAppData ==> r@
                == "%LOCALAPPDATA% is not set — cannot resolve user data directory"@,
            self is Io ==> r@ == "io error"@,
    {
        match self {
            StorageError::Io(_) => "io error",
            StorageError::NoHomeDir => "$HOME is not set — cannot resolve user data directory",
            StorageError::NoAppData => "%LOCALAPPDATA% is not set — cannot resolve user data directory",
        }
    }
}

// ----------------------------------------------------------------------------
// File names
// ----------------------------------------------------------------------------

/// The lowercase hex digit of `v` (below 16).
pub open spec fn hex_digit(v: int) -> char {
    if v < 10 {
        ((48 + v) as u32) as char
    } else {
        ((87 + v) as u32) as char
    }
}

/// Two lowercase hex digits per byte.
pub open spec fn hex_of(bytes: Seq<u8>) -> Seq<char>
    decreases bytes.len(),
{
    if bytes.len() == 0 {
        seq![]
    } else {
        hex_of(bytes.drop_last()) + seq![
            hex_digit(bytes.last() as int / 16),
            hex_digit(bytes.last() as int % 16),
        ]
    }
}

fn hex_digit_exec(v: u8) -> (c: char)
    requires
        v < 16,
    ensures
        c == hex_digit(v as int),
{
    let table = vec!['0', '1', '2', '3', '4', '5', '6', '7', '8', '9', 'a', 'b', 'c', 'd', 'e', 'f'];
    let c = table[v as usize];
    assert(c == hex_digit(v as int)) by {
        assert(table@[v as int] == c);
        if v == 0 {
        } else if v == 1 {
        } else if v == 2 {
        } else if v == 3 {
        } else if v == 4 {
        } else if v == 5 {
        } else if v == 6 {
        } else if v == 7 {
        } else if v == 8 {
        } else if v == 9 {
        } else if v == 10 {
        } else if v == 11 {
        } else if v == 12 {
        } else if v == 13 {
        } else if v == 14 {
        } else {
        }
    }
    c
}

/// The root's path as it is hashed: `\` turned into `/`, then NFC.
pub open spec fn hashed_root(root: Seq<char>) -> Seq<char> {
    nfc_of(root.map_values(|c: char| if c == '\\' { '/' } else { c }))
}

/// The sixteen hex digits that name the files of a notes root.
pub open spec fn root_stem(root: Seq<char>) -> Seq<char> {
    hex_of(blake3_of(encode_utf8(hashed_root(root))).take(8))
}

/// The sixteen hex digits for the notes root whose canonical path is
/// `canonical_root`.
pub fn root_hash_stem(canonical_root: &str) -> (r: String)
    ensures
        r@ == root_stem(canonical_root@),
{
    let rc = chars_of(canonical_root);
    let mut slashed: Vec<char> = Vec::new();
    let mut i: usize = 0;
    while i < rc.len()
        invariant
            i <= rc@.len(),
            slashed@ == rc@.take(i as int).map_values(|c: char| if c == '\\' { '/' } else { c }),
        decreases rc@.len() - i,
    {
        let c = if rc[i] == '\\' {
            '/'
        } else {
            rc[i]
        };
        slashed.push(c);
        i = i + 1;
        assert(slashed@ =~= rc@.take(i as int).map_values(
            |c: char| if c == '\\' { '/' } else { c },
        ));
    }
    assert(rc@.take(rc@.len() as int) =~= rc@);
    let normal = string_of(nfc(slashed.as_slice()).as_slice());
    let hash = blake3_hash(normal.as_str().as_bytes());
    let mut out: Vec<char> = Vec::new();
    let mut k: usize = 0;
    while k < 8
        invariant
            k <= 8,
            hash@.len() == 32,
            out@ == hex_of(hash@.take(k as int)),
        decreases 8 - k,
    {
        let b = hash[k];
        out.push(hex_digit_exec(b / 16));
        out.push(hex_digit_exec(b % 16));
        assert(hash@.take(k + 1).drop_last() =~= hash@.take(k as int));
        assert(out@ =~= hex_of(hash@.take(k + 1)));
        k = k + 1;
    }
    string_of(out.as_slice())
}

/// The index file name of a notes root: its stem, then `.db`.
pub fn db_file_name(canonical_root: &str) -> (r: String)
    ensures
        r@ == root_stem(canonical_root@) + ".db"@,
{
    let mut s = root_hash_stem(canonical_root);
    s.append(".db");
    s
}

/// The rename journal's file name of a notes root: its stem, then
/// `.rename-journal`.
pub fn journal_file_name(canonical_root: &str) -> (r: String)
    ensures
        r@ == root_stem(canonical_root@) + ".rename-journal"@,
{
    let mut s = root_hash_stem(canonical_root);
    s.append(".rename-journal");
    s
}

// ----------------------------------------------------------------------------
// Data directories
// ----------------------------------------------------------------------------

/// The user data directory on Linux: `$XDG_DATA_HOME` when set and not
/// empty, else `$HOME/.local/share`; without either, `NoHomeDir`.
pub fn data_dir_linux(xdg_data_home: Option<&str>, home: Option<&str>) -> (r: Result<
    String,
    StorageError,
>)
    ensures
        match xdg_data_home {
            Some(x) if x@.len() > 0 => r matches Ok(d) && d@ == x@,
            _ => match home {
                Some(h) => r matches Ok(d) && d@ == filesystem_spec(".local/share"@, h@),
                None => r matches Err(StorageError::NoHomeDir),
            },
        },
{
    if let Some(x) = xdg_data_home {
        if chars_of(x).len() > 0 {
            return Ok(x.to_owned());
        }
    }
    match home {
        Some(h) => {
            let rel = RelativePath::from_storage_str(".local/share");
            Ok(rel.to_filesystem(h))
        },
        None => Err(StorageError::NoHomeDir),
    }
}

/// The user data directory on macOS: `$HOME/Library/Application Support`;
/// without `$HOME`, `NoHomeDir`.
pub fn data_dir_macos(home: Option<&str>) -> (r: Result<String, StorageError>)
    ensures
        match home {
            Some(h) => r matches Ok(d) && d@ == filesystem_spec("Library/Application Support"@, h@),
            None => r matches Err(StorageError::NoHomeDir),
        },
{
    match home {
        Some(h) => {
            let rel = RelativePath::from_storage_str("Library/Application Support");
            Ok(rel.to_filesystem(h))
        },
        None => Err(StorageError::NoHomeDir),
    }
}

/// The user data directory on Windows: `%LOCALAPPDATA%`; without it,
/// `NoAppData`.
pub fn data_dir_windows(local_app_data: Option<&str>) -> (r: Result<String, StorageError>)
    ensures
        match local_app_data {
            Some(d0) => r matches Ok(d) && d@ == d0@,
            None => r matches Err(StorageError::NoAppData),
        },
{
    match local_app_data {
        Some(d) => Ok(d.to_owned()),
        None => Err(StorageError::NoAppData),
    }
}

/// Where the index of a notes root goes: `foliom/<stem>.db` under the data
/// directory.
pub fn db_path_in(data_dir: &str, canonical_root: &str) -> (r: String)
    ensures
        r@ == filesystem_spec("foliom"@ + seq!['/'] + root_stem(canonical_root@) + ".db"@, data_dir@),
{
    let mut rel = "foliom/".to_owned();
    let name = db_file_name(canonical_root);
    rel.append(name.as_str());
    proof {
        reveal_strlit("foliom/");
        reveal_strlit("foliom");
        assert(rel@ =~= "foliom"@ + seq!['/'] + root_stem(canonical_root@) + ".db"@);
    }
    let rp = RelativePath::from_storage_str(rel.as_str());
    rp.to_filesystem(data_dir)
}

} // verus!
