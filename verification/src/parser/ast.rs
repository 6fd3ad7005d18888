//! Reference extraction from the text of one block.
//!
//! A block's text is read line by line. Lines inside a fenced code block
//! (between lines starting with three backticks or three tildes), the
//! fence lines themselves, and ATX heading lines yield nothing. Within the
//! other lines, inline code spans and markdown links `[text](target)` are
//! skipped whole; what remains yields:
//!
//! - `[[Page]]`: a page link;
//! - `#[[Multi word tag]]`: a tag (taking precedence over a bare `#`);
//! - `#tag`: a tag, when the `#` starts the line or follows a character
//!   that is not alphanumeric; the tag runs up to whitespace or
//!   punctuation, and three- or six-digit hex colours are not tags.
//!
//! Each target has `%2F` / `%2f` decoded to `/` and is then put in Unicode
//! NFC, so that NFC and NFD spellings of a page name meet.

use vstd::prelude::*;

use crate::indexer::page_name::{decode_2f, decode_percent_2f};
use crate::path::{nfc, nfc_of};
use crate::text::{chars_of, find_char, find_char_exec, string_of};

verus! {

/// What a reference points at.
#[derive(Debug, Clone, Copy, PartialEq, Eq, Hash, Structural)]
pub enum RefKind {
    PageLink,
    Tag,
}

/// One reference found in a block.
#[derive(Debug, Clone, PartialEq, Eq)]
pub struct ExtractedRef {
    pub kind: RefKind,
    pub target: String,
}

/// The references as kinds and target characters.
pub open spec fn refs_view(v: Seq<ExtractedRef>) -> Seq<(RefKind, Seq<char>)> {
    v.map_values(|r: ExtractedRef| (r.kind, r.target@))
}

// ----------------------------------------------------------------------------
// Characters
// ----------------------------------------------------------------------------

/// Unicode's `Alphabetic` or `Numeric` property of a character.
pub uninterp spec fn unicode_alphanumeric(c: char) -> bool;

/// Whether `c` is alphanumeric.
///
/// Calls `char::is_alphanumeric`, which holds exactly for the characters
/// with Unicode's `Alphabetic` or `Numeric` property: a function of `c`
/// alone.
#[verifier::external_body]
fn is_alphanumeric(c: char) -> (r: bool)
    ensures
        r == unicode_alphanumeric(c),
{
    c.is_alphanumeric()
}

/// A character that ends a bare `#tag`.
pub open spec fn is_tag_stop(c: char) -> bool {
    c == ' ' || c == '\t' || c == '\r' || c == '\n' || c == ',' || c == '.' || c == '!' || c == '?'
        || c == ';' || c == ':' || c == '"' || c == '\'' || c == '(' || c == ')' || c == '['
        || c == ']' || c == '{' || c == '}' || c == '`' || c == '<' || c == '>'
}

pub open spec fn is_hex_digit(c: char) -> bool {
    ('0' <= c <= '9') || ('a' <= c <= 'f') || ('A' <= c <= 'F')
}

/// Three or six hex digits: a colour, not a tag.
pub open spec fn is_hex_color(b: Seq<char>) -> bool {
    (b.len() == 3 || b.len() == 6) && forall|k: int| 0 <= k < b.len() ==> is_hex_digit(#[trigger] b[k])
}

/// A `#` at `i` may open a tag: it starts the line or follows a character
/// that is not alphanumeric.
pub open spec fn hash_ok(l: Seq<char>, i: int) -> bool {
    i == 0 || !unicode_alphanumeric(l[i - 1])
}

pub open spec fn is_blank(c: char) -> bool {
    c == ' ' || c == '\t'
}

// ----------------------------------------------------------------------------
// Scanning one line
// ----------------------------------------------------------------------------

/// Index of the first `]]` at or after `from`, or `-1`.
pub open spec fn find_close(l: Seq<char>, from: int) -> int
    decreases l.len() - from,
{
    if from < 0 || from + 1 >= l.len() {
        -1
    } else if l[from] == ']' && l[from + 1] == ']' {
        from
    } else {
        find_close(l, from + 1)
    }
}

/// End of a bare tag's text starting at `from`.
pub open spec fn tag_end(l: Seq<char>, from: int) -> int
    decreases l.len() - from,
{
    if 0 <= from < l.len() && !is_tag_stop(l[from]) {
        tag_end(l, from + 1)
    } else {
        from
    }
}

/// Where a markdown link `[text](target)` opening at `i` ends, or `-1`.
pub open spec fn md_link_end(l: Seq<char>, i: int) -> int {
    let k = find_char(l, i + 1, ']');
    if k + 1 < l.len() && l[k + 1] == '(' {
        let m = find_char(l, k + 2, ')');
        if m < l.len() {
            m + 1
        } else {
            -1
        }
    } else {
        -1
    }
}

/// The reference for a bracketed target, unless it is empty.
pub open spec fn bracket_ref(kind: RefKind, inner: Seq<char>) -> Seq<(RefKind, Seq<char>)> {
    if inner.len() > 0 {
        seq![(kind, nfc_of(decode_2f(inner)))]
    } else {
        seq![]
    }
}

/// What the scan of line `l` finds at `i`, and where it goes on.
pub open spec fn step(l: Seq<char>, i: int) -> (Seq<(RefKind, Seq<char>)>, int) {
    if l[i] == '`' {
        let j = find_char(l, i + 1, '`');
        if j < l.len() {
            (seq![], j + 1)
        } else {
            (seq![], i + 1)
        }
    } else if l[i] == '#' && hash_ok(l, i) && i + 2 < l.len() && l[i + 1] == '[' && l[i + 2] == '['
        && find_close(l, i + 3) >= 0 {
        let j = find_close(l, i + 3);
        (bracket_ref(RefKind::Tag, l.subrange(i + 3, j)), j + 2)
    } else if l[i] == '[' && i + 1 < l.len() && l[i + 1] == '[' && find_close(l, i + 2) >= 0 {
        let j = find_close(l, i + 2);
        (bracket_ref(RefKind::PageLink, l.subrange(i + 2, j)), j + 2)
    } else if l[i] == '[' && md_link_end(l, i) >= 0 {
        (seq![], md_link_end(l, i))
    } else if l[i] == '#' && hash_ok(l, i) {
        let e = tag_end(l, i + 1);
        let body = l.subrange(i + 1, e);
        if body.len() > 0 && !is_hex_color(body) {
            (seq![(RefKind::Tag, nfc_of(decode_2f(body)))], e)
        } else {
            (seq![], i + 1)
        }
    } else {
        (seq![], i + 1)
    }
}

/// The references of line `l` from index `i` on.
pub open spec fn line_refs(l: Seq<char>, i: int) -> Seq<(RefKind, Seq<char>)>
    decreases l.len() - i,
{
    if i < 0 || i >= l.len() {
        seq![]
    } else {
        let (r, next) = step(l, i);
        if next <= i || next > l.len() {
            seq![]
        } else {
            r + line_refs(l, next)
        }
    }
}

// ----------------------------------------------------------------------------
// Lines
// ----------------------------------------------------------------------------

/// Index of the first character at or after `from` that is not a space or
/// a tab.
pub open spec fn skip_blank(l: Seq<char>, from: int) -> int
    decreases l.len() - from,
{
    if 0 <= from < l.len() && is_blank(l[from]) {
        skip_blank(l, from + 1)
    } else {
        from
    }
}

/// Where a line's content starts: after its indentation and its bullet
/// marker, if any.
pub open spec fn content_start(l: Seq<char>) -> int {
    let i = skip_blank(l, 0);
    if i < l.len() && (l[i] == '-' || l[i] == '*' || l[i] == '+') && (i + 1 == l.len() || is_blank(
        l[i + 1],
    )) {
        skip_blank(l, i + 1)
    } else {
        i
    }
}

pub open spec fn is_fence_line(b: Seq<char>) -> bool {
    b.len() >= 3 && ((b[0] == '`' && b[1] == '`' && b[2] == '`') || (b[0] == '~' && b[1] == '~'
        && b[2] == '~'))
}

/// Index of the first character at or after `from` that is not a `#`.
pub open spec fn hash_run(b: Seq<char>, from: int) -> int
    decreases b.len() - from,
{
    if 0 <= from < b.len() && b[from] == '#' {
        hash_run(b, from + 1)
    } else {
        from
    }
}

/// One to six `#`, then a blank or the end of the line.
pub open spec fn is_heading_line(b: Seq<char>) -> bool {
    let k = hash_run(b, 0);
    1 <= k <= 6 && (k == b.len() || is_blank(b[k]))
}

/// What one line yields, and whether the lines after it are inside a fence.
pub open spec fn line_step(line: Seq<char>, fence: bool) -> (Seq<(RefKind, Seq<char>)>, bool) {
    let body = line.skip(content_start(line));
    if is_fence_line(body) {
        (seq![], !fence)
    } else if fence {
        (seq![], true)
    } else if is_heading_line(body) {
        (seq![], false)
    } else {
        (line_refs(line, 0), false)
    }
}

/// The references of the text `s` from the line starting at `start` on,
/// `fence` telling whether that line is inside a fenced code block.
pub open spec fn text_refs(s: Seq<char>, start: int, fence: bool) -> Seq<(RefKind, Seq<char>)>
    decreases s.len() - start,
{
    if start < 0 || start >= s.len() {
        seq![]
    } else {
        let e = find_char(s, start, '\n');
        let (r, f) = line_step(s.subrange(start, e), fence);
        if e < start || e >= s.len() {
            r
        } else {
            r + text_refs(s, e + 1, f)
        }
    }
}

// ----------------------------------------------------------------------------
// Executable scan
// ----------------------------------------------------------------------------

fn is_tag_stop_exec(c: char) -> (r: bool)
    ensures
        r == is_tag_stop(c),
{
    c == ' ' || c == '\t' || c == '\r' || c == '\n' || c == ',' || c == '.' || c == '!' || c == '?'
        || c == ';' || c == ':' || c == '"' || c == '\'' || c == '(' || c == ')' || c == '['
        || c == ']' || c == '{' || c == '}' || c == '`' || c == '<' || c == '>'
}

fn is_hex_digit_exec(c: char) -> (r: bool)
    ensures
        r == is_hex_digit(c),
{
    ('0' <= c && c <= '9') || ('a' <= c && c <= 'f') || ('A' <= c && c <= 'F')
}

fn is_hex_color_exec(b: &[char]) -> (r: bool)
    ensures
        r == is_hex_color(b@),
{
    if b.len() != 3 && b.len() != 6 {
        return false;
    }
    let mut k: usize = 0;
    while k < b.len()
        invariant
            k <= b@.len(),
            forall|j: int| 0 <= j < k ==> is_hex_digit(#[trigger] b@[j]),
        decreases b@.len() - k,
    {
        if !is_hex_digit_exec(b[k]) {
            return false;
        }
        k = k + 1;
    }
    true
}

fn find_close_exec(l: &[char], from: usize) -> (r: Option<usize>)
    ensures
        match r {
            Some(j) => find_close(l@, from as int) == j && from <= j && j + 1 < l@.len(),
            None => find_close(l@, from as int) == -1,
        },
{
    let n = l.len();
    let mut j = from;
    while j < n && j + 1 < n && !(l[j] == ']' && l[j + 1] == ']')
        invariant
            n == l@.len(),
            from <= j,
            find_close(l@, from as int) == find_close(l@, j as int),
        decreases n - j,
    {
        j = j + 1;
    }
    if j < n && j + 1 < n {
        Some(j)
    } else {
        None
    }
}

fn tag_end_exec(l: &[char], from: usize) -> (e: usize)
    requires
        from <= l@.len(),
    ensures
        e == tag_end(l@, from as int),
        from <= e <= l@.len(),
{
    let mut e = from;
    while e < l.len() && !is_tag_stop_exec(l[e])
        invariant
            from <= e <= l@.len(),
            tag_end(l@, from as int) == tag_end(l@, e as int),
        decreases l@.len() - e,
    {
        e = e + 1;
    }
    e
}

fn skip_blank_exec(l: &[char], from: usize) -> (e: usize)
    requires
        from <= l@.len(),
    ensures
        e == skip_blank(l@, from as int),
        from <= e <= l@.len(),
{
    let mut e = from;
    while e < l.len() && (l[e] == ' ' || l[e] == '\t')
        invariant
            from <= e <= l@.len(),
            skip_blank(l@, from as int) == skip_blank(l@, e as int),
        decreases l@.len() - e,
    {
        e = e + 1;
    }
    e
}

fn hash_run_exec(b: &[char]) -> (e: usize)
    ensures
        e == hash_run(b@, 0),
        e <= b@.len(),
{
    let mut e: usize = 0;
    while e < b.len() && b[e] == '#'
        invariant
            e <= b@.len(),
            hash_run(b@, 0) == hash_run(b@, e as int),
        decreases b@.len() - e,
    {
        e = e + 1;
    }
    e
}

fn content_start_exec(l: &[char]) -> (c: usize)
    ensures
        c == content_start(l@),
        c <= l@.len(),
{
    let i = skip_blank_exec(l, 0);
    if i < l.len() && (l[i] == '-' || l[i] == '*' || l[i] == '+') && (i + 1 == l.len() || l[i + 1]
        == ' ' || l[i + 1] == '\t') {
        skip_blank_exec(l, i + 1)
    } else {
        i
    }
}

fn md_link_end_exec(l: &[char], i: usize) -> (r: Option<usize>)
    requires
        i < l@.len(),
    ensures
        match r {
            Some(m) => md_link_end(l@, i as int) == m && i < m <= l@.len(),
            None => md_link_end(l@, i as int) == -1,
        },
{
    let n = l.len();
    let k = find_char_exec(l, i + 1, ']');
    if k < n - 1 && l[k + 1] == '(' {
        let m = find_char_exec(l, k + 2, ')');
        if m < l.len() {
            Some(m + 1)
        } else {
            None
        }
    } else {
        None
    }
}

/// The reference of the given kind to the characters `inner`.
fn make_ref(kind: RefKind, inner: &[char]) -> (r: ExtractedRef)
    ensures
        r.kind == kind,
        r.target@ == nfc_of(decode_2f(inner@)),
{
    let decoded = decode_percent_2f(inner);
    let normal = nfc(decoded.as_slice());
    ExtractedRef { kind, target: string_of(normal.as_slice()) }
}

fn bracket_ref_exec(kind: RefKind, l: &[char], lo: usize, hi: usize) -> (r: Vec<ExtractedRef>)
    requires
        lo <= hi <= l@.len(),
    ensures
        refs_view(r@) == bracket_ref(kind, l@.subrange(lo as int, hi as int)),
{
    let mut r: Vec<ExtractedRef> = Vec::new();
    if lo < hi {
        let x = make_ref(kind, &l[lo..hi]);
        r.push(x);
        assert(refs_view(r@) =~= bracket_ref(kind, l@.subrange(lo as int, hi as int)));
    } else {
        assert(refs_view(r@) =~= bracket_ref(kind, l@.subrange(lo as int, hi as int)));
    }
    r
}

proof fn lemma_find_close(l: Seq<char>, from: int)
    requires
        0 <= from,
    ensures
        find_close(l, from) >= 0 ==> from <= find_close(l, from) && find_close(l, from) + 1 < l.len(),
    decreases l.len() - from,
{
    if from + 1 < l.len() && !(l[from] == ']' && l[from + 1] == ']') {
        lemma_find_close(l, from + 1);
    }
}

/// One step of the scan of line `l` at `i`.
fn step_exec(l: &[char], i: usize) -> (r: (Vec<ExtractedRef>, usize))
    requires
        i < l@.len(),
    ensures
        refs_view(r.0@) == step(l@, i as int).0,
        r.1 == step(l@, i as int).1,
        i < r.1 <= l@.len(),
{
    let n = l.len();
    let c = l[i];
    if c == '`' {
        let j = find_char_exec(l, i + 1, '`');
        if j < n {
            return (Vec::new(), j + 1);
        } else {
            return (Vec::new(), i + 1);
        }
    }
    let ok = c == '#' && (i == 0 || !is_alphanumeric(l[i - 1]));
    if ok && n - i > 2 && l[i + 1] == '[' && l[i + 2] == '[' {
        if let Some(j) = find_close_exec(l, i + 3) {
            let r = bracket_ref_exec(RefKind::Tag, l, i + 3, j);
            return (r, j + 2);
        }
    }
    if c == '[' && n - i > 1 && l[i + 1] == '[' {
        if let Some(j) = find_close_exec(l, i + 2) {
            let r = bracket_ref_exec(RefKind::PageLink, l, i + 2, j);
            return (r, j + 2);
        }
    }
    if c == '[' {
        if let Some(m) = md_link_end_exec(l, i) {
            return (Vec::new(), m);
        }
    }
    if ok {
        let e = tag_end_exec(l, i + 1);
        let body = &l[i + 1..e];
        if e > i + 1 && !is_hex_color_exec(body) {
            let x = make_ref(RefKind::Tag, body);
            let mut r: Vec<ExtractedRef> = Vec::new();
            r.push(x);
            assert(refs_view(r@) =~= step(l@, i as int).0);
            return (r, e);
        }
    }
    (Vec::new(), i + 1)
}

/// The references of one line.
fn scan_line(l: &[char]) -> (r: Vec<ExtractedRef>)
    ensures
        refs_view(r@) == line_refs(l@, 0),
{
    let mut out: Vec<ExtractedRef> = Vec::new();
    let mut i: usize = 0;
    while i < l.len()
        invariant
            i <= l@.len(),
            refs_view(out@) + line_refs(l@, i as int) == line_refs(l@, 0),
        decreases l@.len() - i,
    {
        let (mut found, next) = step_exec(l, i);
        let ghost before = out@;
        let ghost got = found@;
        out.append(&mut found);
        assert(refs_view(out@) =~= refs_view(before) + refs_view(got));
        assert(line_refs(l@, i as int) == refs_view(got) + line_refs(l@, next as int));
        assert(refs_view(before) + (refs_view(got) + line_refs(l@, next as int)) =~= refs_view(out@)
            + line_refs(l@, next as int));
        i = next;
    }
    assert(refs_view(out@) + line_refs(l@, i as int) =~= refs_view(out@));
    out
}

/// The `[[page]]` links and `#tags` of a block's text, in the order they
/// appear.
pub fn extract_refs(raw: &str) -> (r: Vec<ExtractedRef>)
    ensures
        refs_view(r@) == text_refs(raw@, 0, false),
{
    let cs = chars_of(raw);
    let s = cs.as_slice();
    let n = s.len();
    let mut out: Vec<ExtractedRef> = Vec::new();
    let mut fence = false;
    let mut start: usize = 0;
    while start < n
        invariant
            n == s@.len(),
            s@ == raw@,
            start <= n,
            refs_view(out@) + text_refs(s@, start as int, fence) == text_refs(s@, 0, false),
        decreases n - start,
    {
        let e = find_char_exec(s, start, '\n');
        let line = &s[start..e];
        let body = &line[content_start_exec(line)..line.len()];
        assert(body@ == line@.skip(content_start(line@)));
        let ghost before = out@;
        let ghost f0 = fence;
        let is_fence = body.len() >= 3 && ((body[0] == '`' && body[1] == '`' && body[2] == '`') || (
        body[0] == '~' && body[1] == '~' && body[2] == '~'));
        if is_fence {
            fence = !fence;
        } else if fence {
        } else {
            let k = hash_run_exec(body);
            let heading = 1 <= k && k <= 6 && (k == body.len() || body[k] == ' ' || body[k] == '\t');
            if !heading {
                let mut found = scan_line(line);
                out.append(&mut found);
            }
        }
        proof {
            let (r, f) = line_step(s@.subrange(start as int, e as int), f0);
            assert(f == fence);
            assert(refs_view(out@) =~= refs_view(before) + r);
            if e < n {
                assert(text_refs(s@, start as int, f0) == r + text_refs(s@, e + 1, f));
                assert(refs_view(before) + (r + text_refs(s@, e + 1, f)) =~= refs_view(out@)
                    + text_refs(s@, e + 1, f));
            } else {
                assert(text_refs(s@, start as int, f0) == r);
                assert(refs_view(out@) + text_refs(s@, n as int, f) =~= refs_view(out@));
            }
        }
        if e < n {
            start = e + 1;
        } else {
            start = n;
        }
    }
    assert(refs_view(out@) + text_refs(s@, start as int, fence) =~= refs_view(out@));
    out
}


// ----------------------------------------------------------------------------
// Heading lines yield nothing
// ----------------------------------------------------------------------------

/// `n` `#` characters.
pub open spec fn hashes(n: nat) -> Seq<char> {
    Seq::new(n, |k: int| '#')
}

/// The pieces of an ATX heading line: indentation of spaces and tabs; no
/// bullet marker, or one of `-`, `*`, `+` followed by one or more spaces
/// or tabs; one to six `#`; then nothing, or a space or tab and any text
/// without a newline.
pub open spec fn heading_pieces(indent: Seq<char>, marker: Seq<char>, n: nat, rest: Seq<char>) -> bool {
    &&& lead_pieces(indent, marker)
    &&& 1 <= n <= 6
    &&& (rest.len() == 0 || rest[0] == ' ' || rest[0] == '\t')
    &&& forall|k: int| 0 <= k < rest.len() ==> #[trigger] rest[k] != '\n'
}

proof fn lemma_skip_blank_to(l: Seq<char>, from: int, to: int)
    requires
        0 <= from <= to <= l.len(),
        forall|k: int| from <= k < to ==> is_blank(#[trigger] l[k]),
        to == l.len() || !is_blank(l[to]),
    ensures
        skip_blank(l, from) == to,
    decreases to - from,
{
    if from < to {
        lemma_skip_blank_to(l, from + 1, to);
    }
}

proof fn lemma_hash_run_to(b: Seq<char>, from: int, to: int)
    requires
        0 <= from <= to <= b.len(),
        forall|k: int| from <= k < to ==> #[trigger] b[k] == '#',
        to == b.len() || b[to] != '#',
    ensures
        hash_run(b, from) == to,
    decreases to - from,
{
    if from < to {
        lemma_hash_run_to(b, from + 1, to);
    }
}

/// Indentation, then no bullet marker or one followed by blanks.
pub open spec fn lead_pieces(indent: Seq<char>, marker: Seq<char>) -> bool {
    &&& forall|k: int| 0 <= k < indent.len() ==> (#[trigger] indent[k] == ' ' || indent[k] == '\t')
    &&& (marker.len() == 0 || (marker.len() >= 2 && (marker[0] == '-' || marker[0] == '*' || marker[0]
        == '+') && forall|k: int| 1 <= k < marker.len() ==> (#[trigger] marker[k] == ' ' || marker[k]
        == '\t')))
}

/// Where a line made of a lead, `n >= 1` hashes and a rest has its content.
proof fn lemma_line_body(indent: Seq<char>, marker: Seq<char>, n: nat, rest: Seq<char>)
    requires
        lead_pieces(indent, marker),
        n >= 1,
        rest.len() == 0 || rest[0] != '#',
    ensures
        content_start(indent + marker + hashes(n) + rest) == indent.len() + marker.len(),
        (indent + marker + hashes(n) + rest).skip(indent.len() + marker.len() as int) == hashes(n) + rest,
        hash_run(hashes(n) + rest, 0) == n,
        !is_fence_line(hashes(n) + rest),
{
    let line = indent + marker + hashes(n) + rest;
    let a = indent.len() as int;
    let m = marker.len() as int;
    assert forall|k: int| 0 <= k < a implies is_blank(#[trigger] line[k]) by {
        assert(line[k] == indent[k]);
    }
    assert(line[a] == if m > 0 { marker[0] } else { '#' });
    lemma_skip_blank_to(line, 0, a);
    if m > 0 {
        assert forall|k: int| a + 1 <= k < a + m implies is_blank(#[trigger] line[k]) by {
            assert(line[k] == marker[k - a]);
        }
        assert(line[a + m] == '#');
        lemma_skip_blank_to(line, a + 1, a + m);
        assert(is_blank(line[a + 1]));
    }
    let body = line.skip(a + m);
    assert(body =~= hashes(n) + rest);
    assert forall|k: int| 0 <= k < n implies #[trigger] body[k] == '#' by {}
    if rest.len() > 0 {
        assert(body[n as int] == rest[0]);
    }
    lemma_hash_run_to(body, 0, n as int);
}

/// The line made of heading pieces is read as a heading: it yields nothing
/// and leaves the fence state as it was.
proof fn lemma_heading_line_step(indent: Seq<char>, marker: Seq<char>, n: nat, rest: Seq<char>, f: bool)
    requires
        heading_pieces(indent, marker, n, rest),
    ensures
        line_step(indent + marker + hashes(n) + rest, f) == (Seq::<(RefKind, Seq<char>)>::empty(), f),
{
    lemma_line_body(indent, marker, n, rest);
    let body = hashes(n) + rest;
    if rest.len() > 0 {
        assert(body[n as int] == rest[0]);
    }
    assert(is_heading_line(body));
}

proof fn lemma_find_nl_shift(x: Seq<char>, y: Seq<char>, j: int)
    requires
        0 <= j,
    ensures
        find_char(x + y, x.len() + j, '\n') == x.len() + find_char(y, j, '\n'),
    decreases y.len() - j,
{
    if j < y.len() {
        assert((x + y)[x.len() + j] == y[j]);
        if y[j] != '\n' {
            lemma_find_nl_shift(x, y, j + 1);
        }
    }
}

/// Where the text starts does not matter, only what follows.
proof fn lemma_text_refs_shift(x: Seq<char>, y: Seq<char>, j: int, f: bool)
    requires
        0 <= j,
    ensures
        text_refs(x + y, x.len() + j, f) == text_refs(y, j, f),
    decreases y.len() - j,
{
    if j < y.len() {
        let e = find_char(y, j, '\n');
        lemma_find_nl_shift(x, y, j);
        lemma_find_range(y, j);
        assert((x + y).subrange(x.len() + j, x.len() + e) =~= y.subrange(j, e));
        let (r, g) = line_step(y.subrange(j, e), f);
        if e < y.len() {
            lemma_text_refs_shift(x, y, e + 1, g);
        }
    }
}

proof fn lemma_find_range(s: Seq<char>, from: int)
    requires
        0 <= from <= s.len(),
    ensures
        from <= find_char(s, from, '\n') <= s.len(),
        find_char(s, from, '\n') < s.len() ==> s[find_char(s, from, '\n')] == '\n',
        forall|k: int| from <= k < find_char(s, from, '\n') ==> #[trigger] s[k] != '\n',
    decreases s.len() - from,
{
    if from < s.len() && s[from] != '\n' {
        lemma_find_range(s, from + 1);
    }
}

/// A newline ending `a` is found before anything that follows.
proof fn lemma_find_nl_prefix(a: Seq<char>, b: Seq<char>, i: int)
    requires
        0 <= i < a.len(),
        a.last() == '\n',
    ensures
        find_char(a + b, i, '\n') == find_char(a, i, '\n'),
        find_char(a, i, '\n') < a.len(),
    decreases a.len() - i,
{
    assert((a + b)[i] == a[i]);
    if a[i] != '\n' {
        lemma_find_nl_prefix(a, b, i + 1);
    }
}

proof fn lemma_heading_dropped(
    pre: Seq<char>,
    line: Seq<char>,
    post: Seq<char>,
    start: int,
    f: bool,
)
    requires
        0 <= start <= pre.len(),
        pre.len() == 0 || pre.last() == '\n',
        forall|k: int| 0 <= k < line.len() ==> #[trigger] line[k] != '\n',
        forall|g: bool| #[trigger] line_step(line, g) == (Seq::<(RefKind, Seq<char>)>::empty(), g),
    ensures
        text_refs(pre + (line + seq!['\n']) + post, start, f) == text_refs(pre + post, start, f),
    decreases pre.len() - start,
{
    let l2 = line + seq!['\n'];
    let s1 = pre + l2 + post;
    let s2 = pre + post;
    if start == pre.len() {
        assert(s1 =~= pre + (l2 + post));
        lemma_find_nl_shift(pre, l2 + post, 0);
        assert forall|k: int| 0 <= k < line.len() implies #[trigger] (l2 + post)[k] != '\n' by {
            assert((l2 + post)[k] == line[k]);
        }
        assert((l2 + post)[line.len() as int] == '\n');
        crate::text::lemma_find_char(l2 + post, 0, line.len() as int, '\n');
        let e = start + line.len();
        assert(find_char(s1, start, '\n') == e);
        assert(s1.subrange(start, e) =~= line);
        assert(line_step(line, f) == (Seq::<(RefKind, Seq<char>)>::empty(), f));
        lemma_text_refs_shift(pre + l2, post, 0, f);
        assert(s1 == (pre + l2) + post);
        assert((pre + l2).len() == e + 1);
        lemma_text_refs_shift(pre, post, 0, f);
        assert(text_refs(s1, start, f) =~= text_refs(s1, e + 1, f));
    } else {
        lemma_find_nl_prefix(pre, l2 + post, start);
        lemma_find_nl_prefix(pre, post, start);
        assert(s1 == pre + (l2 + post));
        let e = find_char(pre, start, '\n');
        lemma_find_range(pre, start);
        assert(s1.subrange(start, e) =~= pre.subrange(start, e));
        assert(s2.subrange(start, e) =~= pre.subrange(start, e));
        let (r, g) = line_step(pre.subrange(start, e), f);
        lemma_heading_dropped(pre, line, post, e + 1, g);
    }
}

/// ATX heading lines yield no references. Adding a heading line (whatever
/// it contains) to a block's text, between two of its lines or at its
/// start or end, leaves the references that `extract_refs` finds as they
/// were, whether or not the line falls inside a fenced code block. In
/// particular a block whose whole text is a heading line has none.
pub proof fn law_heading_line_yields_nothing(
    pre: Seq<char>,
    indent: Seq<char>,
    marker: Seq<char>,
    n: nat,
    rest: Seq<char>,
    post: Seq<char>,
)
    requires
        pre.len() == 0 || pre.last() == '\n',
        heading_pieces(indent, marker, n, rest),
    ensures
        text_refs(pre + (indent + marker + hashes(n) + rest + seq!['\n']) + post, 0, false)
            == text_refs(pre + post, 0, false),
        text_refs(indent + marker + hashes(n) + rest, 0, false).len() == 0,
{
    let line = indent + marker + hashes(n) + rest;
    assert forall|g: bool| #[trigger] line_step(line, g) == (Seq::<(RefKind, Seq<char>)>::empty(), g) by {
        lemma_heading_line_step(indent, marker, n, rest, g);
    }
    assert forall|k: int| 0 <= k < line.len() implies #[trigger] line[k] != '\n' by {
        let a = indent.len() as int;
        let m = marker.len() as int;
        if k < a {
            assert(line[k] == indent[k]);
        } else if k < a + m {
            assert(line[k] == marker[k - a]);
        } else if k < a + m + n {
            assert(line[k] == '#');
        } else {
            assert(line[k] == rest[k - a - m - n]);
        }
    }
    lemma_heading_dropped(pre, line, post, 0, false);
    if line.len() > 0 {
        lemma_find_range(line, 0);
        crate::text::lemma_find_char(line, 0, line.len() as int, '\n');
        assert(line.subrange(0, line.len() as int) =~= line);
    }
}

/// A line whose content starts with `#` but is no ATX heading (seven or
/// more `#`, or a `#` run followed by something other than a blank) is
/// scanned for references like any other line: on its own, outside a
/// fence, it yields what the line scan finds in it.
pub proof fn law_hash_line_not_heading(indent: Seq<char>, marker: Seq<char>, n: nat, rest: Seq<char>)
    requires
        lead_pieces(indent, marker),
        n >= 1,
        rest.len() == 0 || rest[0] != '#',
        n >= 7 || (rest.len() > 0 && rest[0] != ' ' && rest[0] != '\t'),
        forall|k: int| 0 <= k < rest.len() ==> #[trigger] rest[k] != '\n',
    ensures
        text_refs(indent + marker + hashes(n) + rest, 0, false) == line_refs(
            indent + marker + hashes(n) + rest,
            0,
        ),
{
    let line = indent + marker + hashes(n) + rest;
    lemma_line_body(indent, marker, n, rest);
    let body = hashes(n) + rest;
    if rest.len() > 0 {
        assert(body[n as int] == rest[0]);
    }
    assert(!is_heading_line(body));
    assert forall|k: int| 0 <= k < line.len() implies #[trigger] line[k] != '\n' by {
        let a = indent.len() as int;
        let m = marker.len() as int;
        if k < a {
            assert(line[k] == indent[k]);
        } else if k < a + m {
            assert(line[k] == marker[k - a]);
        } else if k < a + m + n {
            assert(line[k] == '#');
        } else {
            assert(line[k] == rest[k - a - m - n]);
        }
    }
    crate::text::lemma_find_char(line, 0, line.len() as int, '\n');
    assert(line.subrange(0, line.len() as int) =~= line);
}
} // verus!
