//! Byte-level scanning primitives shared by the parsers: byte classes,
//! maximal runs ("spans") of a class, ASCII-whitespace trimming and the
//! UTF-8 decoding boundary.

use vstd::prelude::*;
use vstd::utf8::*;

verus! {

/// A class of bytes that a scan may run over.
#[derive(Clone, Copy, Debug)]
pub enum ByteClass {
    /// `\t`
    Tab,
    /// `' '` or `\t` (leading whitespace of a trimmed line)
    Blank,
    /// `' '`, `\t` or `\r` (trailing whitespace of a trimmed line)
    TrailingBlank,
    /// `[A-Za-z0-9._-]` (the tail of a property key)
    KeyChar,
    /// anything but `\n`
    NonNewline,
    /// exactly the given byte
    Exactly(u8),
}

pub open spec fn is_ascii_upper(b: u8) -> bool {
    65 <= b <= 90
}

pub open spec fn is_ascii_lower(b: u8) -> bool {
    97 <= b <= 122
}

pub open spec fn is_ascii_digit(b: u8) -> bool {
    48 <= b <= 57
}

pub open spec fn is_ascii_alpha(b: u8) -> bool {
    is_ascii_upper(b) || is_ascii_lower(b)
}

pub open spec fn is_ascii_alnum(b: u8) -> bool {
    is_ascii_alpha(b) || is_ascii_digit(b)
}

pub open spec fn in_class(b: u8, c: ByteClass) -> bool {
    match c {
        ByteClass::Tab => b == 9,
        ByteClass::Blank => b == 32 || b == 9,
        ByteClass::TrailingBlank => b == 32 || b == 9 || b == 13,
        ByteClass::KeyChar => is_ascii_alnum(b) || b == 46 || b == 95 || b == 45,
        ByteClass::NonNewline => b != 10,
        ByteClass::Exactly(m) => b == m,
    }
}

pub fn in_class_exec(b: u8, c: ByteClass) -> (r: bool)
    ensures
        r == in_class(b, c),
{
    match c {
        ByteClass::Tab => b == 9,
        ByteClass::Blank => b == 32 || b == 9,
        ByteClass::TrailingBlank => b == 32 || b == 9 || b == 13,
        ByteClass::KeyChar => (65 <= b && b <= 90) || (97 <= b && b <= 122) || (48 <= b && b
            <= 57) || b == 46 || b == 95 || b == 45,
        ByteClass::NonNewline => b != 10,
        ByteClass::Exactly(m) => b == m,
    }
}

pub fn is_ascii_upper_exec(b: u8) -> (r: bool)
    ensures
        r == is_ascii_upper(b),
{
    65 <= b && b <= 90
}

pub fn is_ascii_alpha_exec(b: u8) -> (r: bool)
    ensures
        r == is_ascii_alpha(b),
{
    (65 <= b && b <= 90) || (97 <= b && b <= 122)
}

/// The end of the maximal run of class `c` that starts at `from`: the first
/// index at or after `from` whose byte is not in `c`, or the length.
pub open spec fn span(s: Seq<u8>, from: int, c: ByteClass) -> int
    decreases s.len() - from,
{
    if 0 <= from < s.len() && in_class(s[from], c) {
        span(s, from + 1, c)
    } else {
        from
    }
}

/// The start of the maximal run of class `c` that ends at `hi`, not going
/// below `lo`.
pub open spec fn rspan(s: Seq<u8>, lo: int, hi: int, c: ByteClass) -> int
    decreases hi - lo,
{
    if lo < hi <= s.len() && in_class(s[hi - 1], c) {
        rspan(s, lo, hi - 1, c)
    } else {
        hi
    }
}

pub proof fn lemma_span(s: Seq<u8>, from: int, i: int, c: ByteClass)
    requires
        0 <= from <= i <= s.len(),
        forall|j: int| from <= j < i ==> in_class(#[trigger] s[j], c),
        i == s.len() || !in_class(s[i], c),
    ensures
        span(s, from, c) == i,
    decreases i - from,
{
    if from < i {
        lemma_span(s, from + 1, i, c);
    }
}

pub proof fn lemma_span_bounds(s: Seq<u8>, from: int, c: ByteClass)
    requires
        0 <= from <= s.len(),
    ensures
        from <= span(s, from, c) <= s.len(),
        forall|j: int| from <= j < span(s, from, c) ==> in_class(#[trigger] s[j], c),
        span(s, from, c) == s.len() || !in_class(s[span(s, from, c)], c),
    decreases s.len() - from,
{
    if from < s.len() && in_class(s[from], c) {
        lemma_span_bounds(s, from + 1, c);
    }
}

pub proof fn lemma_rspan(s: Seq<u8>, lo: int, hi: int, e: int, c: ByteClass)
    requires
        0 <= lo <= e <= hi <= s.len(),
        forall|j: int| e <= j < hi ==> in_class(#[trigger] s[j], c),
        e == lo || !in_class(s[e - 1], c),
    ensures
        rspan(s, lo, hi, c) == e,
    decreases hi - e,
{
    if e < hi {
        lemma_rspan(s, lo, hi - 1, e, c);
    }
}

/// Scan forward from `from` over bytes of class `c`.
pub fn span_exec(s: &[u8], from: usize, c: ByteClass) -> (i: usize)
    requires
        from <= s@.len(),
    ensures
        i == span(s@, from as int, c),
        from <= i <= s@.len(),
{
    let mut i = from;
    while i < s.len() && in_class_exec(s[i], c)
        invariant
            from <= i <= s@.len(),
            forall|j: int| from <= j < i ==> in_class(#[trigger] s@[j], c),
        decreases s@.len() - i,
    {
        i = i + 1;
    }
    proof {
        lemma_span(s@, from as int, i as int, c);
    }
    i
}

/// Scan backward from `hi` over bytes of class `c`, stopping at `lo`.
pub fn rspan_exec(s: &[u8], lo: usize, hi: usize, c: ByteClass) -> (e: usize)
    requires
        lo <= hi <= s@.len(),
    ensures
        e == rspan(s@, lo as int, hi as int, c),
        lo <= e <= hi,
{
    let mut e = hi;
    while e > lo && in_class_exec(s[e - 1], c)
        invariant
            lo <= e <= hi <= s@.len(),
            forall|j: int| e <= j < hi ==> in_class(#[trigger] s@[j], c),
        decreases e - lo,
    {
        e = e - 1;
    }
    proof {
        lemma_rspan(s@, lo as int, hi as int, e as int, c);
    }
    e
}

/// Leading `' '`/`\t` and trailing `' '`/`\t`/`\r` removed.
pub open spec fn trim_ws(s: Seq<u8>) -> Seq<u8> {
    let start = span(s, 0, ByteClass::Blank);
    let end = rspan(s, start, s.len() as int, ByteClass::TrailingBlank);
    s.subrange(start, end)
}

pub fn trim_ascii_ws(s: &[u8]) -> (r: &[u8])
    ensures
        r@ == trim_ws(s@),
{
    let start = span_exec(s, 0, ByteClass::Blank);
    let end = rspan_exec(s, start, s.len(), ByteClass::TrailingBlank);
    &s[start..end]
}

/// Equality of a byte slice with a sequence of bytes.
pub fn bytes_eq(a: &[u8], b: &[u8]) -> (r: bool)
    ensures
        r == (a@ == b@),
{
    if a.len() != b.len() {
        return false;
    }
    let mut i: usize = 0;
    while i < a.len()
        invariant
            a@.len() == b@.len(),
            i <= a@.len(),
            forall|j: int| 0 <= j < i ==> a@[j] == b@[j],
        decreases a@.len() - i,
    {
        if a[i] != b[i] {
            return false;
        }
        i = i + 1;
    }
    assert(a@ =~= b@);
    true
}

/// The characters of a sequence of ASCII bytes.
pub open spec fn ascii_chars(s: Seq<u8>) -> Seq<char> {
    s.map_values(|b: u8| b as char)
}

pub open spec fn all_ascii(s: Seq<u8>) -> bool {
    forall|i: int| 0 <= i < s.len() ==> #[trigger] s[i] < 128
}

/// ASCII bytes are valid UTF-8 and decode to the same characters.
pub proof fn lemma_ascii_decode(s: Seq<u8>)
    requires
        all_ascii(s),
    ensures
        valid_utf8(s),
        decode_utf8(s) == ascii_chars(s),
{
    let c = ascii_chars(s);
    assert(is_ascii_chars(c)) by {
        assert forall|i: int| 0 <= i < c.len() implies '\0' <= #[trigger] c[i] <= '\u{7f}' by {
            assert(s[i] < 128);
            assert(c[i] == s[i] as char);
        }
    }
    is_ascii_chars_encode_utf8(c);
    assert(encode_utf8(c) =~= s) by {
        assert forall|i: int| 0 <= i < s.len() implies encode_utf8(c)[i] == s[i] by {
            assert(c[i] == s[i] as char);
        }
    }
    encode_utf8_valid_utf8(c);
    encode_utf8_decode_utf8(c);
}

/// Decode a byte slice as UTF-8 into an owned string, if it is valid.
///
/// Calls `std::str::from_utf8`, which is documented to succeed exactly on
/// well-formed UTF-8; the characters of the result are those that the
/// bytes encode.
#[verifier::external_body]
pub(crate) fn utf8_to_string(bytes: &[u8]) -> (r: Option<String>)
    ensures
        r is Some <==> valid_utf8(bytes@),
        r matches Some(s) ==> s@ == decode_utf8(bytes@),
{
    match std::str::from_utf8(bytes) {
        Ok(s) => Some(s.to_string()),
        Err(_) => None,
    }
}

/// In valid UTF-8, the position right after an ASCII byte is a character
/// boundary.
pub proof fn lemma_boundary_after_ascii(bytes: Seq<u8>, k: int)
    requires
        valid_utf8(bytes),
        0 <= k < bytes.len(),
        bytes[k] < 128,
    ensures
        is_char_boundary(bytes, k + 1),
    decreases bytes.len(),
{
    let n = length_of_first_scalar(bytes);
    is_char_boundary_iff_not_is_continuation_byte(bytes, k);
    assert(valid_utf8(pop_first_scalar(bytes)));
    if k < n {
        // k is a boundary inside the first scalar, so it is its start
        if k > 0 {
            reveal_with_fuel(is_char_boundary, 2);
            assert(false);
        }
        assert(n == 1);
        reveal_with_fuel(is_char_boundary, 2);
    } else {
        let tail = pop_first_scalar(bytes);
        assert(tail[k - n] == bytes[k]);
        lemma_boundary_after_ascii(tail, k - n);
        reveal_with_fuel(is_char_boundary, 2);
    }
}

/// In valid UTF-8, an ASCII byte starts a character, and so does the
/// position right after it.
pub proof fn lemma_boundary_at_ascii(bytes: Seq<u8>, k: int)
    requires
        valid_utf8(bytes),
        0 <= k < bytes.len(),
        bytes[k] < 128,
    ensures
        is_char_boundary(bytes, k),
        is_char_boundary(bytes, k + 1),
{
    is_char_boundary_iff_not_is_continuation_byte(bytes, k);
    lemma_boundary_after_ascii(bytes, k);
}

/// The characters that the bytes `bytes[a..b]` encode, where both ends are
/// character boundaries of valid UTF-8.
pub fn slice_to_string(bytes: &[u8], a: usize, b: usize) -> (r: String)
    requires
        valid_utf8(bytes@),
        a <= b <= bytes@.len(),
        is_char_boundary(bytes@, a as int),
        is_char_boundary(bytes@, b as int),
    ensures
        r@ == decode_utf8(bytes@.subrange(a as int, b as int)),
{
    proof {
        lemma_valid_slice(bytes@, a as int, b as int);
    }
    let piece = &bytes[a..b];
    assert(piece@ == bytes@.subrange(a as int, b as int));
    match utf8_to_string(piece) {
        Some(s) => s,
        None => String::new(),
    }
}

/// A slice of valid UTF-8 between two character boundaries is valid UTF-8.
pub proof fn lemma_valid_slice(bytes: Seq<u8>, a: int, b: int)
    requires
        valid_utf8(bytes),
        0 <= a <= b <= bytes.len(),
        is_char_boundary(bytes, a),
        is_char_boundary(bytes, b),
    ensures
        valid_utf8(bytes.subrange(a, b)),
{
    valid_utf8_split(bytes, b);
    let pre = bytes.subrange(0, b);
    // a is a boundary of the prefix as well
    if a < b {
        is_char_boundary_iff_not_is_continuation_byte(bytes, a);
        is_char_boundary_iff_not_is_continuation_byte(pre, a);
        assert(pre[a] == bytes[a]);
    } else {
        is_char_boundary_start_end_of_seq(pre);
    }
    valid_utf8_split(pre, a);
    assert(pre.subrange(a, pre.len() as int) =~= bytes.subrange(a, b));
}


/// The characters of a string slice, in order.
pub(crate) fn chars_of(s: &str) -> (r: Vec<char>)
    ensures
        r@ == s@,
{
    broadcast use vstd::string::axiom_spec_iter;

    let mut out: Vec<char> = Vec::new();
    for c in it: s.chars()
        invariant
            it.seq() == s@,
            out@ == it.seq().take(it.index() as int),
    {
        out.push(c);
    }
    out
}

/// The string made of the given characters.
///
/// Collects the characters into a `String`, which holds exactly them, in
/// order.
#[verifier::external_body]
pub(crate) fn string_of(cs: &[char]) -> (r: String)
    ensures
        r@ == cs@,
{
    cs.iter().collect()
}

/// Equality of two string slices, character for character.
pub fn str_eq(a: &str, b: &str) -> (r: bool)
    ensures
        r == (a@ == b@),
{
    let r = bytes_eq(a.as_bytes(), b.as_bytes());
    proof {
        encode_utf8_decode_utf8(a@);
        encode_utf8_decode_utf8(b@);
    }
    r
}

/// Equality of two character sequences.
pub fn chars_eq(a: &[char], b: &[char]) -> (r: bool)
    ensures
        r == (a@ == b@),
{
    if a.len() != b.len() {
        return false;
    }
    let mut i: usize = 0;
    while i < a.len()
        invariant
            a@.len() == b@.len(),
            i <= a@.len(),
            forall|j: int| 0 <= j < i ==> a@[j] == b@[j],
        decreases a@.len() - i,
    {
        if a[i] != b[i] {
            return false;
        }
        i = i + 1;
    }
    assert(a@ =~= b@);
    true
}

/// Index of the first byte `b` at or after `from`, or the length.
pub open spec fn find_byte(s: Seq<u8>, from: int, b: u8) -> int
    decreases s.len() - from,
{
    if 0 <= from < s.len() && s[from] != b {
        find_byte(s, from + 1, b)
    } else {
        from
    }
}

pub fn find_byte_exec(s: &[u8], from: usize, b: u8) -> (i: usize)
    requires
        from <= s@.len(),
    ensures
        i == find_byte(s@, from as int, b),
        from <= i <= s@.len(),
        forall|j: int| from <= j < i ==> #[trigger] s@[j] != b,
        i < s@.len() ==> s@[i as int] == b,
{
    let mut i = from;
    while i < s.len() && s[i] != b
        invariant
            from <= i <= s@.len(),
            find_byte(s@, from as int, b) == find_byte(s@, i as int, b),
            forall|j: int| from <= j < i ==> #[trigger] s@[j] != b,
        decreases s@.len() - i,
    {
        i = i + 1;
    }
    i
}

/// Index of the first `c` at or after `from`, or the length.
pub open spec fn find_char(s: Seq<char>, from: int, c: char) -> int
    decreases s.len() - from,
{
    if 0 <= from < s.len() && s[from] != c {
        find_char(s, from + 1, c)
    } else {
        from
    }
}

pub proof fn lemma_find_char(s: Seq<char>, from: int, i: int, c: char)
    requires
        0 <= from <= i <= s.len(),
        forall|j: int| from <= j < i ==> #[trigger] s[j] != c,
        i == s.len() || s[i] == c,
    ensures
        find_char(s, from, c) == i,
    decreases i - from,
{
    if from < i {
        lemma_find_char(s, from + 1, i, c);
    }
}

pub fn find_char_exec(s: &[char], from: usize, c: char) -> (i: usize)
    requires
        from <= s@.len(),
    ensures
        i == find_char(s@, from as int, c),
        from <= i <= s@.len(),
        forall|j: int| from <= j < i ==> #[trigger] s@[j] != c,
        i < s@.len() ==> s@[i as int] == c,
{
    let mut i = from;
    while i < s.len() && s[i] != c
        invariant
            from <= i <= s@.len(),
            forall|j: int| from <= j < i ==> #[trigger] s@[j] != c,
        decreases s@.len() - i,
    {
        i = i + 1;
    }
    proof {
        lemma_find_char(s@, from as int, i as int, c);
    }
    i
}

/// Index of the last `c` before `end`, or `-1`.
pub open spec fn rfind_char(s: Seq<char>, end: int, c: char) -> int
    decreases end,
{
    if end <= 0 || end > s.len() {
        -1
    } else if s[end - 1] == c {
        end - 1
    } else {
        rfind_char(s, end - 1, c)
    }
}

pub fn rfind_char_exec(s: &[char], c: char) -> (r: Option<usize>)
    ensures
        match r {
            Some(i) => rfind_char(s@, s@.len() as int, c) == i && i < s@.len() && s@[i as int] == c,
            None => rfind_char(s@, s@.len() as int, c) == -1,
        },
{
    let mut e = s.len();
    while e > 0 && s[e - 1] != c
        invariant
            e <= s@.len(),
            rfind_char(s@, s@.len() as int, c) == rfind_char(s@, e as int, c),
        decreases e,
    {
        e = e - 1;
    }
    if e == 0 {
        None
    } else {
        Some(e - 1)
    }
}

/// The characters `cs[lo..hi]` as an owned vector.
pub fn sub_chars(cs: &[char], lo: usize, hi: usize) -> (r: Vec<char>)
    requires
        lo <= hi <= cs@.len(),
    ensures
        r@ == cs@.subrange(lo as int, hi as int),
{
    let mut r: Vec<char> = Vec::new();
    let mut i = lo;
    while i < hi
        invariant
            lo <= i <= hi <= cs@.len(),
            r@ == cs@.subrange(lo as int, i as int),
        decreases hi - i,
    {
        r.push(cs[i]);
        i = i + 1;
        assert(r@ =~= cs@.subrange(lo as int, i as int));
    }
    r
}

// ----------------------------------------------------------------------------
// Byte-string search
// ----------------------------------------------------------------------------

/// `needle` occurs in `h` at `p`.
pub open spec fn occurs_at(h: Seq<u8>, needle: Seq<u8>, p: int) -> bool {
    0 <= p && p + needle.len() <= h.len() && h.subrange(p, p + needle.len()) == needle
}

/// The first position at or after `p` where `needle` occurs in `h`, or `-1`.
pub open spec fn first_occ(h: Seq<u8>, needle: Seq<u8>, p: int) -> int
    decreases h.len() - p,
{
    if p < 0 || p >= h.len() || p + needle.len() > h.len() {
        -1
    } else if occurs_at(h, needle, p) {
        p
    } else {
        first_occ(h, needle, p + 1)
    }
}

/// What [`find_bytes`] returns: the first occurrence at or after `start`;
/// an empty needle, or one longer than the haystack, is never found.
pub open spec fn find_bytes_spec(h: Seq<u8>, needle: Seq<u8>, start: int) -> Option<int> {
    if needle.len() == 0 || h.len() < needle.len() || first_occ(h, needle, start) < 0 {
        None
    } else {
        Some(first_occ(h, needle, start))
    }
}

pub proof fn lemma_first_occ(h: Seq<u8>, needle: Seq<u8>, p: int)
    requires
        0 <= p,
    ensures
        first_occ(h, needle, p) >= 0 ==> p <= first_occ(h, needle, p) && occurs_at(
            h,
            needle,
            first_occ(h, needle, p),
        ),
    decreases h.len() - p,
{
    if p < h.len() && p + needle.len() <= h.len() && !occurs_at(h, needle, p) {
        lemma_first_occ(h, needle, p + 1);
    }
}

pub fn occurs_at_exec(h: &[u8], needle: &[u8], p: usize) -> (r: bool)
    requires
        p + needle@.len() <= h@.len(),
    ensures
        r == occurs_at(h@, needle@, p as int),
{
    let n = needle.len();
    let hl = h.len();
    let mut k: usize = 0;
    while k < n
        invariant
            n == needle@.len(),
            hl == h@.len(),
            p + n <= h@.len(),
            k <= n,
            forall|j: int| 0 <= j < k ==> h@[p + j] == needle@[j],
        decreases n - k,
    {
        if h[p + k] != needle[k] {
            assert(h@.subrange(p as int, p + n)[k as int] != needle@[k as int]);
            return false;
        }
        k = k + 1;
    }
    assert(h@.subrange(p as int, p + n) =~= needle@);
    true
}

/// Find `needle` in `haystack` at or after `start`.
pub fn find_bytes(haystack: &[u8], needle: &[u8], start: usize) -> (r: Option<usize>)
    requires
        start <= haystack@.len(),
    ensures
        match r {
            Some(p) => find_bytes_spec(haystack@, needle@, start as int) == Some(p as int),
            None => find_bytes_spec(haystack@, needle@, start as int) is None,
        },
{
    let n = needle.len();
    if n == 0 || haystack.len() < n {
        return None;
    }
    let mut p = start;
    while p <= haystack.len() - n
        invariant
            n == needle@.len(),
            0 < n <= haystack@.len(),
            start <= p,
            first_occ(haystack@, needle@, start as int) == first_occ(haystack@, needle@, p as int),
        decreases haystack@.len() - p,
    {
        if occurs_at_exec(haystack, needle, p) {
            return Some(p);
        }
        p = p + 1;
    }
    None
}

} // verus!
