//! Page renames: name validation, locating `[[OldName]]` occurrences in a
//! block's text and the path of the renamed file.

pub mod journal;
pub mod rewrite;

use vstd::prelude::*;
use vstd::utf8::*;

use crate::rename::journal::{JournalEntry, JournalOp};
use crate::text::{
    chars_of, find_byte, find_byte_exec, find_bytes, find_bytes_spec, find_char, find_char_exec,
    lemma_boundary_after_ascii, lemma_boundary_at_ascii, lemma_first_occ, lemma_valid_slice, occurs_at, rfind_char, rfind_char_exec, slice_to_string, str_eq,
    string_of, sub_chars,
};

verus! {

#[verifier::external_type_specification]
#[verifier::external_body]
pub struct ExIoError(std::io::Error);

#[verifier::external_type_specification]
#[verifier::external_body]
pub struct ExSqliteError(rusqlite::Error);

/// Result returned to the caller of a rename.
#[derive(Debug)]
pub struct RenameResult {
    /// Number of files whose backlink text was rewritten.
    pub rewritten_count: u32,
    /// Non-fatal warnings.
    pub warnings: Vec<String>,
}

/// Errors from rename operations.
#[derive(Debug)]
pub enum RenameError {
    NotFound(String),
    TargetExists(String),
    InvalidName(String),
    Db(rusqlite::Error),
    Io(std::io::Error),
    Journal(String),
}

// ----------------------------------------------------------------------------
// Page-name validation
// ----------------------------------------------------------------------------

/// The Unicode uppercase of a string.
pub uninterp spec fn uppercase_of(s: Seq<char>) -> Seq<char>;

/// Uppercase a string.
///
/// Calls `str::to_uppercase`, whose result (the Unicode uppercase mapping
/// of each character, concatenated) depends on the string alone.
#[verifier::external_body]
fn to_uppercase(s: &str) -> (r: String)
    ensures
        r@ == uppercase_of(s@),
{
    s.to_uppercase()
}

/// Whether renaming a file from `old_name` to `new_name` changes only the
/// case of letters: the names differ, and their upper-cased forms agree.
/// (On a case-insensitive file system such a rename goes through a
/// temporary name.)
pub fn case_only_change(old_name: &str, new_name: &str) -> (r: bool)
    ensures
        r == (uppercase_of(old_name@) == uppercase_of(new_name@) && old_name@ != new_name@),
{
    let a = to_uppercase(old_name);
    let b = to_uppercase(new_name);
    str_eq(a.as_str(), b.as_str()) && !str_eq(old_name, new_name)
}

/// Windows device names that cannot name a file, whatever the extension.
pub open spec fn is_reserved_name(s: Seq<char>) -> bool {
    ||| s == "CON"@
    ||| s == "PRN"@
    ||| s == "AUX"@
    ||| s == "NUL"@
    ||| s == "COM1"@
    ||| s == "COM2"@
    ||| s == "COM3"@
    ||| s == "COM4"@
    ||| s == "COM5"@
    ||| s == "COM6"@
    ||| s == "COM7"@
    ||| s == "COM8"@
    ||| s == "COM9"@
    ||| s == "LPT1"@
    ||| s == "LPT2"@
    ||| s == "LPT3"@
    ||| s == "LPT4"@
    ||| s == "LPT5"@
    ||| s == "LPT6"@
    ||| s == "LPT7"@
    ||| s == "LPT8"@
    ||| s == "LPT9"@
}

fn is_reserved_name_exec(s: &str) -> (r: bool)
    ensures
        r == is_reserved_name(s@),
{
    str_eq(s, "CON") || str_eq(s, "PRN") || str_eq(s, "AUX") || str_eq(s, "NUL") || str_eq(s, "COM1")
        || str_eq(s, "COM2") || str_eq(s, "COM3") || str_eq(s, "COM4") || str_eq(s, "COM5")
        || str_eq(s, "COM6") || str_eq(s, "COM7") || str_eq(s, "COM8") || str_eq(s, "COM9")
        || str_eq(s, "LPT1") || str_eq(s, "LPT2") || str_eq(s, "LPT3") || str_eq(s, "LPT4")
        || str_eq(s, "LPT5") || str_eq(s, "LPT6") || str_eq(s, "LPT7") || str_eq(s, "LPT8")
        || str_eq(s, "LPT9")
}

/// The characters refused in a page name, in the order they are checked.
pub open spec fn reserved_chars() -> Seq<char> {
    seq!['<', '>', ':', '"', '/', '\\', '|', '?', '*']
}

pub open spec fn contains_char(s: Seq<char>, c: char) -> bool {
    exists|i: int| 0 <= i < s.len() && s[i] == c
}

/// Index into `reserved_chars()` of the first one that `s` contains, from
/// `k` on, or `-1`.
pub open spec fn first_reserved(s: Seq<char>, k: int) -> int
    decreases 9 - k,
{
    if k < 0 || k >= 9 {
        -1
    } else if contains_char(s, reserved_chars()[k]) {
        k
    } else {
        first_reserved(s, k + 1)
    }
}

/// The part of `s` before its first `.`.
pub open spec fn stem(s: Seq<char>) -> Seq<char> {
    s.take(find_char(s, 0, '.'))
}

/// Why a page name is refused, as the message of `InvalidName`; `None`
/// when it is accepted.
pub open spec fn page_name_problem(name: Seq<char>) -> Option<Seq<char>> {
    if name.len() == 0 {
        Some("name cannot be empty"@)
    } else if contains_char(name, '\0') {
        Some("name contains NUL byte"@)
    } else if first_reserved(name, 0) >= 0 {
        Some("name contains reserved character '"@ + seq![reserved_chars()[first_reserved(name, 0)]] + "'"@)
    } else if is_reserved_name(stem(uppercase_of(name))) {
        Some("'"@ + name + "' is a Windows-reserved device name"@)
    } else if name[0] == '.' || name.last() == '.' || name[0] == ' ' || name.last() == ' ' {
        Some("name cannot start or end with '.' or ' '"@)
    } else {
        None
    }
}

fn contains_char_exec(s: &[char], c: char) -> (r: bool)
    ensures
        r == contains_char(s@, c),
{
    let i = find_char_exec(s, 0, c);
    i < s.len()
}

/// Check that `name` can be a page name and a file name.
///
/// Refused, with `InvalidName` and the message of
/// [`page_name_problem`]: the empty name; a NUL; any of
/// `< > : " / \ | ? *`; a Windows device name (compared uppercase, before
/// the first `.`); a leading or trailing `.` or space.
pub fn validate_page_name(name: &str) -> (r: Result<(), RenameError>)
    ensures
        match page_name_problem(name@) {
            None => r is Ok,
            Some(msg) => r matches Err(RenameError::InvalidName(m)) && m@ == msg,
        },
{
    let cs = chars_of(name);
    if cs.len() == 0 {
        return Err(RenameError::InvalidName("name cannot be empty".to_owned()));
    }
    if contains_char_exec(cs.as_slice(), '\0') {
        return Err(RenameError::InvalidName("name contains NUL byte".to_owned()));
    }
    let reserved = vec!['<', '>', ':', '"', '/', '\\', '|', '?', '*'];
    assert(reserved@ =~= reserved_chars());
    let mut k: usize = 0;
    while k < 9
        invariant
            k <= 9,
            reserved@ == reserved_chars(),
            cs@ == name@,
            name@.len() > 0,
            !contains_char(name@, '\0'),
            first_reserved(name@, 0) == first_reserved(name@, k as int),
        decreases 9 - k,
    {
        let c = reserved[k];
        if contains_char_exec(cs.as_slice(), c) {
            let one = vec![c];
            let mut m = "name contains reserved character '".to_owned();
            let cstr = string_of(one.as_slice());
            assert(first_reserved(name@, k as int) == k);
            m.append(cstr.as_str());
            m.append("'");
            return Err(RenameError::InvalidName(m));
        }
        k = k + 1;
    }
    assert(first_reserved(name@, 0) == -1);
    let upper = chars_of(to_uppercase(name).as_str());
    let dot = find_char_exec(upper.as_slice(), 0, '.');
    let stem_chars = sub_chars(upper.as_slice(), 0, dot);
    let stem_str = string_of(stem_chars.as_slice());
    if is_reserved_name_exec(stem_str.as_str()) {
        let mut m = "'".to_owned();
        m.append(name);
        m.append("' is a Windows-reserved device name");
        return Err(RenameError::InvalidName(m));
    }
    let n = cs.len();
    if cs[0] == '.' || cs[n - 1] == '.' || cs[0] == ' ' || cs[n - 1] == ' ' {
        return Err(RenameError::InvalidName("name cannot start or end with '.' or ' '".to_owned()));
    }
    Ok(())
}

// ----------------------------------------------------------------------------
// Byte search and backlink scanning
// ----------------------------------------------------------------------------

/// One `[[OldName]]` (or `[[OldName|alias]]`) occurrence to rewrite.
#[derive(Debug, Clone)]
pub struct BacklinkOccurrence {
    /// Relative path of the file that holds the reference.
    pub file_path: String,
    /// Absolute byte offset in the file of the `[[`.
    pub byte_offset: usize,
    /// Byte length through the closing `]]`.
    pub byte_length: usize,
    /// The text there now.
    pub old_text: String,
    /// `[[NewName]]`, or `[[NewName|alias]]` keeping the alias.
    pub new_text: String,
}

pub open spec fn ascii_lower(b: u8) -> u8 {
    if 65 <= b <= 90 {
        (b + 32) as u8
    } else {
        b
    }
}

/// ASCII case-insensitive equality of byte strings.
pub open spec fn eq_ignore_ascii_case(a: Seq<u8>, b: Seq<u8>) -> bool {
    a.len() == b.len() && forall|i: int| 0 <= i < a.len() ==> ascii_lower(#[trigger] a[i]) == ascii_lower(b[i])
}

fn eq_ignore_ascii_case_exec(a: &[u8], b: &[u8]) -> (r: bool)
    ensures
        r == eq_ignore_ascii_case(a@, b@),
{
    if a.len() != b.len() {
        return false;
    }
    let mut i: usize = 0;
    while i < a.len()
        invariant
            a@.len() == b@.len(),
            i <= a@.len(),
            forall|j: int| 0 <= j < i ==> ascii_lower(#[trigger] a@[j]) == ascii_lower(b@[j]),
        decreases a@.len() - i,
    {
        let x = if 65 <= a[i] && a[i] <= 90 {
            a[i] + 32
        } else {
            a[i]
        };
        let y = if 65 <= b[i] && b[i] <= 90 {
            b[i] + 32
        } else {
            b[i]
        };
        if x != y {
            assert(ascii_lower(a@[i as int]) != ascii_lower(b@[i as int]));
            return false;
        }
        i = i + 1;
    }
    true
}

/// The bytes of `[[`.
pub open spec fn open_pat() -> Seq<u8> {
    seq![91u8, 91u8]
}

/// The bytes of `]]`.
pub open spec fn close_pat() -> Seq<u8> {
    seq![93u8, 93u8]
}

/// The text between the brackets of the link spanning `sp`.
pub open spec fn link_inner(h: Seq<u8>, sp: (int, int)) -> Seq<u8> {
    h.subrange(sp.0 + 2, sp.1)
}

/// Where the alias of the link spanning `sp` starts (its `|`), or the
/// closing brackets when it has none.
pub open spec fn alias_start(h: Seq<u8>, sp: (int, int)) -> int {
    sp.0 + 2 + find_byte(link_inner(h, sp), 0, 124)
}

/// The link spanning `sp` names `old` (the part before any `|`, compared
/// ASCII case-insensitively).
pub open spec fn names_page(h: Seq<u8>, sp: (int, int), old: Seq<u8>) -> bool {
    eq_ignore_ascii_case(h.subrange(sp.0 + 2, alias_start(h, sp)), old)
}

/// The links to `old` that a scan of `h` from `pos` finds, as
/// `(open, close)`: `[[` at `open`, the first `]]` after it at `close`; the
/// scan goes on after each `]]` and stops at the first `[[` without a
/// closing `]]`.
pub open spec fn backlink_spans(h: Seq<u8>, old: Seq<u8>, pos: int) -> Seq<(int, int)>
    decreases h.len() - pos,
{
    if pos < 0 || pos >= h.len() {
        seq![]
    } else {
        match find_bytes_spec(h, open_pat(), pos) {
            None => seq![],
            Some(open) => match find_bytes_spec(h, close_pat(), open + 2) {
                None => seq![],
                Some(close) => if close + 2 <= pos || close + 2 > h.len() {
                    seq![]
                } else if names_page(h, (open, close), old) {
                    seq![(open, close)] + backlink_spans(h, old, close + 2)
                } else {
                    backlink_spans(h, old, close + 2)
                },
            },
        }
    }
}

/// `occ` is the rewrite of the link spanning `sp` in block bytes `h` that
/// start at `base` in file `file`.
pub open spec fn occurrence_for(
    occ: BacklinkOccurrence,
    file: Seq<char>,
    h: Seq<u8>,
    base: int,
    new_name: Seq<char>,
    sp: (int, int),
) -> bool {
    &&& occ.file_path@ == file
    &&& occ.byte_offset == base + sp.0
    &&& occ.byte_length == sp.1 + 2 - sp.0
    &&& occ.old_text@ == decode_utf8(h.subrange(sp.0, sp.1 + 2))
    &&& occ.new_text@ == "[["@ + new_name + decode_utf8(h.subrange(alias_start(h, sp), sp.1))
        + "]]"@
}

/// The `[[old_name]]` and `[[old_name|alias]]` links in the text of one
/// block, which starts at byte `block_offset` of file `file_path`, each with
/// its rewrite to `new_name` (an alias is kept).
pub fn block_backlinks(
    file_path: &str,
    raw: &str,
    block_offset: usize,
    old_name: &str,
    new_name: &str,
) -> (r: Vec<BacklinkOccurrence>)
    requires
        block_offset + encode_utf8(raw@).len() <= usize::MAX,
    ensures
        ({
            let h = encode_utf8(raw@);
            let sps = backlink_spans(h, encode_utf8(old_name@), 0);
            &&& r@.len() == sps.len()
            &&& forall|i: int|
                0 <= i < sps.len() ==> occurrence_for(
                    #[trigger] r@[i],
                    file_path@,
                    h,
                    block_offset as int,
                    new_name@,
                    sps[i],
                )
        }),
{
    let h = raw.as_bytes();
    let old = old_name.as_bytes();
    let op = vec![91u8, 91u8];
    let cp = vec![93u8, 93u8];
    proof {
        encode_utf8_valid_utf8(raw@);
        assert(op@ =~= open_pat());
        assert(cp@ =~= close_pat());
    }
    let hl = h.len();
    let mut out: Vec<BacklinkOccurrence> = Vec::new();
    let ghost mut done: Seq<(int, int)> = seq![];
    let mut pos: usize = 0;
    while pos < hl
        invariant
            hl == h@.len(),
            h@ == encode_utf8(raw@),
            valid_utf8(h@),
            old@ == encode_utf8(old_name@),
            op@ == open_pat(),
            cp@ == close_pat(),
            block_offset + h@.len() <= usize::MAX,
            pos <= hl,
            backlink_spans(h@, old@, 0) == done + backlink_spans(h@, old@, pos as int),
            out@.len() == done.len(),
            forall|i: int|
                0 <= i < done.len() ==> occurrence_for(
                    #[trigger] out@[i],
                    file_path@,
                    h@,
                    block_offset as int,
                    new_name@,
                    done[i],
                ),
        decreases hl - pos,
    {
        let open = match find_bytes(h, op.as_slice(), pos) {
            Some(o) => o,
            None => {
                assert(done + backlink_spans(h@, old@, pos as int) =~= done);
                return out;
            },
        };
        proof {
            lemma_first_occ(h@, open_pat(), pos as int);
        }
        let after = open + 2;
        let close = match find_bytes(h, cp.as_slice(), after) {
            Some(c) => c,
            None => {
                assert(done + backlink_spans(h@, old@, pos as int) =~= done);
                return out;
            },
        };
        proof {
            lemma_first_occ(h@, close_pat(), after as int);
            assert(h@.subrange(open as int, open + 2)[0] == 91u8);
            assert(h@.subrange(close as int, close + 2)[0] == 93u8);
            assert(h@.subrange(close as int, close + 2)[1] == 93u8);
        }
        let ghost sp = (open as int, close as int);
        let inner = &h[after..close];
        assert(inner@ == link_inner(h@, sp));
        let k = find_byte_exec(inner, 0, 124u8);
        let bar = after + k;
        let page_part = &h[after..bar];
        assert(page_part@ == h@.subrange(sp.0 + 2, alias_start(h@, sp)));
        if eq_ignore_ascii_case_exec(page_part, old) {
            proof {
                lemma_boundary_at_ascii(h@, open as int);
                lemma_boundary_at_ascii(h@, close + 1);
                lemma_boundary_at_ascii(h@, close as int);
                if bar < close {
                    assert(h@[bar as int] == inner@[k as int]);
                    lemma_boundary_at_ascii(h@, bar as int);
                }
            }
            let old_text = slice_to_string(h, open, close + 2);
            let alias = slice_to_string(h, bar, close);
            let mut new_text = "[[".to_owned();
            new_text.append(new_name);
            new_text.append(alias.as_str());
            new_text.append("]]");
            let occ = BacklinkOccurrence {
                file_path: file_path.to_owned(),
                byte_offset: block_offset + open,
                byte_length: close + 2 - open,
                old_text,
                new_text,
            };
            out.push(occ);
            proof {
                assert(backlink_spans(h@, old@, pos as int) == seq![sp] + backlink_spans(
                    h@,
                    old@,
                    close + 2,
                ));
                assert(done + (seq![sp] + backlink_spans(h@, old@, close + 2)) =~= done.push(sp)
                    + backlink_spans(h@, old@, close + 2));
                done = done.push(sp);
            }
        } else {
            assert(backlink_spans(h@, old@, pos as int) == backlink_spans(h@, old@, close + 2));
        }
        pos = close + 2;
    }
    assert(backlink_spans(h@, old@, pos as int) =~= seq![]);
    assert(done + backlink_spans(h@, old@, pos as int) =~= done);
    out
}

/// The links that a backlink scan finds come in order and never overlap:
/// each runs from its `[[` to the first `]]` after it, inside the block,
/// and the next one starts after it ends. In a block of valid UTF-8 the
/// bytes of each link are whole characters, so the old text recorded for
/// it encodes back to exactly those bytes.
pub proof fn law_backlink_spans_in_order(h: Seq<u8>, old: Seq<u8>, pos: int)
    requires
        0 <= pos,
    ensures
        ({
            let sps = backlink_spans(h, old, pos);
            &&& forall|i: int|
                0 <= i < sps.len() ==> {
                    let sp = #[trigger] sps[i];
                    &&& pos <= sp.0
                    &&& sp.0 + 2 <= sp.1
                    &&& sp.1 + 2 <= h.len()
                    &&& occurs_at(h, open_pat(), sp.0)
                    &&& occurs_at(h, close_pat(), sp.1)
                    &&& valid_utf8(h) ==> encode_utf8(decode_utf8(h.subrange(sp.0, sp.1 + 2)))
                        == h.subrange(sp.0, sp.1 + 2)
                }
            &&& forall|i: int, j: int| 0 <= i < j < sps.len() ==> (#[trigger] sps[i]).1 + 2 <= (#[trigger] sps[j]).0
        }),
    decreases h.len() - pos,
{
    let sps = backlink_spans(h, old, pos);
    if pos < h.len() {
        lemma_first_occ(h, open_pat(), pos);
        if let Some(open) = find_bytes_spec(h, open_pat(), pos) {
            lemma_first_occ(h, close_pat(), open + 2);
            if let Some(close) = find_bytes_spec(h, close_pat(), open + 2) {
                let rest = backlink_spans(h, old, close + 2);
                law_backlink_spans_in_order(h, old, close + 2);
                let sp = (open, close);
                assert(h.subrange(open, open + 2)[0] == h[open]);
                assert(h.subrange(close, close + 2)[1] == h[close + 1]);
                if valid_utf8(h) {
                    lemma_boundary_at_ascii(h, open);
                    lemma_boundary_after_ascii(h, close + 1);
                    lemma_valid_slice(h, open, close + 2);
                    decode_utf8_encode_utf8(h.subrange(open, close + 2));
                }
                if names_page(h, sp, old) {
                    assert(sps == seq![sp] + rest);
                    assert forall|i: int, j: int| 0 <= i < j < sps.len() implies (#[trigger] sps[i]).1 + 2
                        <= (#[trigger] sps[j]).0 by {
                        assert(sps[j] == rest[j - 1]);
                        if i > 0 {
                            assert(sps[i] == rest[i - 1]);
                        }
                    }
                    assert forall|i: int| 0 <= i < sps.len() && i > 0 implies #[trigger] sps[i] == rest[i - 1] by {}
                }
            }
        }
    }
}


/// Where the file name of `old_path` is, replaced by `new_name.md` in the
/// same directory.
pub open spec fn renamed_path_spec(old_path: Seq<char>, new_name: Seq<char>) -> Seq<char> {
    let k = rfind_char(old_path, old_path.len() as int, '/');
    if k >= 0 {
        old_path.take(k) + seq!['/'] + new_name + ".md"@
    } else {
        new_name + ".md"@
    }
}

/// The path of a page's file once the page is renamed to `new_name`.
pub fn renamed_file_path(old_path: &str, new_name: &str) -> (r: String)
    ensures
        r@ == renamed_path_spec(old_path@, new_name@),
{
    let cs = chars_of(old_path);
    let s = cs.as_slice();
    let n = s.len();
    match rfind_char_exec(s, '/') {
        Some(idx) => {
            let dir = sub_chars(s, 0, idx + 1);
            let mut r = string_of(dir.as_slice());
            r.append(new_name);
            r.append(".md");
            assert(cs@.subrange(0, idx + 1) =~= cs@.take(idx as int) + seq!['/']);
            r
        },
        None => {
            let mut r = new_name.to_owned();
            r.append(".md");
            r
        },
    }
}

// ----------------------------------------------------------------------------
// The steps of a rename
// ----------------------------------------------------------------------------

/// The page to rename, from the row found under its old name: its id and
/// backing file id; `NotFound` when there is no such page.
pub fn found_page(old_row: Option<(i64, Option<i64>)>, old_name: &str) -> (r: Result<
    (i64, Option<i64>),
    RenameError,
>)
    ensures
        match old_row {
            Some(row) => r matches Ok(x) && x == row,
            None => r matches Err(RenameError::NotFound(n)) && n@ == old_name@,
        },
{
    match old_row {
        Some(row) => Ok(row),
        None => Err(RenameError::NotFound(old_name.to_owned())),
    }
}

/// What another page already named `new_name` means: a page backed by a
/// file refuses the rename (`TargetExists`); an unresolved one is merged
/// into the renamed page (its id is returned); none, nothing to merge.
pub fn merge_target(target_row: Option<(i64, Option<i64>)>, new_name: &str) -> (r: Result<
    Option<i64>,
    RenameError,
>)
    ensures
        match target_row {
            Some((_, Some(_))) => r matches Err(RenameError::TargetExists(n)) && n@ == new_name@,
            Some((id, None)) => r matches Ok(Some(x)) && x == id,
            None => r matches Ok(None),
        },
{
    match target_row {
        Some((_, Some(_))) => Err(RenameError::TargetExists(new_name.to_owned())),
        Some((id, None)) => Ok(Some(id)),
        None => Ok(None),
    }
}

/// `op` is the not-yet-applied journal op of occurrence `occ`.
pub open spec fn op_of(op: JournalOp, occ: BacklinkOccurrence) -> bool {
    &&& op.file@ == occ.file_path@
    &&& op.old_text@ == occ.old_text@
    &&& op.new_text@ == occ.new_text@
    &&& op.byte_offset == occ.byte_offset
    &&& op.byte_length == occ.byte_length
    &&& !op.applied
}

/// The journal entry written before a rename touches anything: id
/// `rename-<old>-<new>`, one pending op per occurrence, nothing committed.
pub fn rename_entry(
    old_name: &str,
    new_name: &str,
    page_id: i64,
    old_file: Option<&str>,
    new_file: Option<&str>,
    occurrences: &Vec<BacklinkOccurrence>,
) -> (r: JournalEntry)
    ensures
        r.id@ == "rename-"@ + old_name@ + "-"@ + new_name@,
        r.started@ == "now"@,
        r.old_name@ == old_name@,
        r.new_name@ == new_name@,
        r.page_id == page_id,
        r.old_file@ == (match old_file {
            Some(f) => f@,
            None => Seq::<char>::empty(),
        }),
        r.new_file@ == (match new_file {
            Some(f) => f@,
            None => Seq::<char>::empty(),
        }),
        r.ops@.len() == occurrences@.len(),
        forall|i: int| 0 <= i < occurrences@.len() ==> op_of(#[trigger] r.ops@[i], occurrences@[i]),
        !r.sql_committed,
        !r.file_renamed,
{
    let mut id = "rename-".to_owned();
    id.append(old_name);
    id.append("-");
    id.append(new_name);
    let mut ops: Vec<JournalOp> = Vec::new();
    let mut i: usize = 0;
    while i < occurrences.len()
        invariant
            i <= occurrences@.len(),
            ops@.len() == i,
            forall|k: int| 0 <= k < i ==> op_of(#[trigger] ops@[k], occurrences@[k]),
        decreases occurrences@.len() - i,
    {
        let occ = &occurrences[i];
        ops.push(
            JournalOp {
                file: occ.file_path.clone(),
                old_text: occ.old_text.clone(),
                new_text: occ.new_text.clone(),
                byte_offset: occ.byte_offset,
                byte_length: occ.byte_length,
                applied: false,
            },
        );
        i = i + 1;
    }
    JournalEntry {
        id,
        started: "now".to_owned(),
        old_name: old_name.to_owned(),
        new_name: new_name.to_owned(),
        page_id,
        old_file: match old_file {
            Some(f) => f.to_owned(),
            None => String::new(),
        },
        new_file: match new_file {
            Some(f) => f.to_owned(),
            None => String::new(),
        },
        ops,
        sql_committed: false,
        file_renamed: false,
    }
}

/// Mark every op applied (a rename that leaves backlinks as they are).
pub fn mark_all_applied(ops: &mut Vec<JournalOp>)
    ensures
        final(ops)@.len() == old(ops)@.len(),
        forall|j: int|
            0 <= j < old(ops)@.len() ==> (#[trigger] final(ops)@[j]) == (JournalOp {
                applied: true,
                ..old(ops)@[j]
            }),
{
    let ghost ops0 = ops@;
    let mut i: usize = 0;
    while i < ops.len()
        invariant
            i <= ops@.len(),
            ops@.len() == ops0.len(),
            forall|j: int| 0 <= j < i ==> (#[trigger] ops@[j]) == (JournalOp { applied: true, ..ops0[j] }),
            forall|j: int| i <= j < ops0.len() ==> (#[trigger] ops@[j]) == ops0[j],
        decreases ops@.len() - i,
    {
        ops[i].applied = true;
        i = i + 1;
    }
}

/// What replay does about the page's own file.
#[derive(Debug, Clone, Copy, PartialEq, Eq, Structural)]
pub enum FileRenameStep {
    /// Nothing to do: already renamed.
    Done,
    /// No file to rename (the page had none): mark it renamed.
    NoFile,
    /// Rename the old file to the new path, then mark it renamed.
    Rename,
    /// The new file is there already: mark it renamed.
    AlreadyMoved,
    /// Neither file exists: mark it renamed so the entry can go.
    Missing,
}

/// Decide the file step of replaying `entry`, given whether its old and
/// new files exist.
pub fn file_rename_step(entry: &JournalEntry, old_exists: bool, new_exists: bool) -> (r:
    FileRenameStep)
    ensures
        r == (if entry.file_renamed {
            FileRenameStep::Done
        } else if entry.old_file@.len() == 0 && entry.new_file@.len() == 0 {
            FileRenameStep::NoFile
        } else if old_exists {
            FileRenameStep::Rename
        } else if new_exists {
            FileRenameStep::AlreadyMoved
        } else {
            FileRenameStep::Missing
        }),
{
    if entry.file_renamed {
        FileRenameStep::Done
    } else if chars_of(entry.old_file.as_str()).len() == 0 && chars_of(entry.new_file.as_str()).len()
        == 0 {
        FileRenameStep::NoFile
    } else if old_exists {
        FileRenameStep::Rename
    } else if new_exists {
        FileRenameStep::AlreadyMoved
    } else {
        FileRenameStep::Missing
    }
}

} // verus!
