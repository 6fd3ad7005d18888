//! A deliberately minimal extractor for the `:hidden` key of Logseq's
//! `config.edn`.
//!
//! The first `:hidden` that is followed (after whitespace) by a vector `[`
//! or a set `#{` is taken; the strings inside that collection, up to its
//! closing `]` or `}`, are returned in order, verbatim (escapes kept as
//! written: a backslash protects the character after it). Anything else
//! between the strings is skipped. A `:hidden` inside a comment is not
//! told apart from a real one.

use vstd::prelude::*;

use crate::text::{chars_of, string_of, sub_chars};

verus! {

pub open spec fn hidden_key() -> Seq<char> {
    seq![':', 'h', 'i', 'd', 'd', 'e', 'n']
}

pub open spec fn is_ws(c: char) -> bool {
    c == ' ' || c == '\t' || c == '\n' || c == '\r'
}

/// The first non-whitespace position at or after `i`.
pub open spec fn skip_ws(s: Seq<char>, i: int) -> int
    decreases s.len() - i,
{
    if 0 <= i < s.len() && is_ws(s[i]) {
        skip_ws(s, i + 1)
    } else {
        i
    }
}

/// Where the collection after a `:hidden` at `p` starts (just past its
/// opening `[` or `#{`), if one does.
pub open spec fn opener_at(s: Seq<char>, p: int) -> Option<int> {
    if 0 <= p && p + 7 <= s.len() && s.subrange(p, p + 7) == hidden_key() {
        let q = skip_ws(s, p + 7);
        if 0 <= q < s.len() && s[q] == '[' {
            Some(q + 1)
        } else if 0 <= q && q + 1 < s.len() && s[q] == '#' && s[q + 1] == '{' {
            Some(q + 2)
        } else {
            None
        }
    } else {
        None
    }
}

/// The body start of the first `:hidden` collection at or after `p`.
pub open spec fn find_hidden(s: Seq<char>, p: int) -> Option<int>
    decreases s.len() - p,
{
    if p < 0 || p >= s.len() {
        None
    } else if opener_at(s, p) is Some {
        opener_at(s, p)
    } else {
        find_hidden(s, p + 1)
    }
}

/// Where the string whose text starts at `j` ends (its closing quote), or
/// the length when it is not closed.
pub open spec fn string_end(s: Seq<char>, j: int) -> int
    decreases s.len() - j,
{
    if j < 0 || j >= s.len() {
        s.len() as int
    } else if s[j] == '"' {
        j
    } else if s[j] == '\\' {
        if j + 1 < s.len() {
            string_end(s, j + 2)
        } else {
            s.len() as int
        }
    } else {
        string_end(s, j + 1)
    }
}

/// The strings of a collection body from `i` on.
pub open spec fn strings_from(s: Seq<char>, i: int) -> Seq<Seq<char>>
    decreases s.len() - i,
{
    if i < 0 || i >= s.len() {
        seq![]
    } else if s[i] == ']' || s[i] == '}' {
        seq![]
    } else if s[i] == '"' {
        let e = string_end(s, i + 1);
        if e >= s.len() || e < i + 1 {
            seq![]
        } else {
            seq![s.subrange(i + 1, e)] + strings_from(s, e + 1)
        }
    } else {
        strings_from(s, i + 1)
    }
}

pub open spec fn hidden_spec(s: Seq<char>) -> Seq<Seq<char>> {
    match find_hidden(s, 0) {
        Some(b) => strings_from(s, b),
        None => seq![],
    }
}

pub open spec fn strings_view(v: Seq<String>) -> Seq<Seq<char>> {
    v.map_values(|x: String| x@)
}

fn is_ws_exec(c: char) -> (r: bool)
    ensures
        r == is_ws(c),
{
    c == ' ' || c == '\t' || c == '\n' || c == '\r'
}

fn skip_ws_exec(s: &[char], i: usize) -> (r: usize)
    requires
        i <= s@.len(),
    ensures
        r == skip_ws(s@, i as int),
        i <= r <= s@.len(),
{
    let mut j = i;
    while j < s.len() && is_ws_exec(s[j])
        invariant
            i <= j <= s@.len(),
            skip_ws(s@, j as int) == skip_ws(s@, i as int),
        decreases s@.len() - j,
    {
        j = j + 1;
    }
    j
}

fn opener_at_exec(s: &[char], p: usize) -> (r: Option<usize>)
    requires
        p < s@.len(),
    ensures
        match r {
            Some(b) => opener_at(s@, p as int) == Some(b as int),
            None => opener_at(s@, p as int) is None,
        },
{
    if s.len() - p < 7 {
        return None;
    }
    let is_key = s[p] == ':' && s[p + 1] == 'h' && s[p + 2] == 'i' && s[p + 3] == 'd' && s[p + 4]
        == 'd' && s[p + 5] == 'e' && s[p + 6] == 'n';
    proof {
        let w = s@.subrange(p as int, p + 7);
        if is_key {
            assert(w =~= hidden_key());
        } else if w == hidden_key() {
            assert(w[0] == ':' && w[1] == 'h' && w[2] == 'i' && w[3] == 'd');
            assert(w[4] == 'd' && w[5] == 'e' && w[6] == 'n');
        }
    }
    if !is_key {
        return None;
    }
    let q = skip_ws_exec(s, p + 7);
    if q < s.len() && s[q] == '[' {
        Some(q + 1)
    } else if q < s.len() && s.len() - q > 1 && s[q] == '#' && s[q + 1] == '{' {
        Some(q + 2)
    } else {
        None
    }
}

fn string_end_exec(s: &[char], j: usize) -> (r: usize)
    requires
        j <= s@.len(),
    ensures
        r == string_end(s@, j as int),
        j <= r <= s@.len(),
{
    let mut k = j;
    while k < s.len() && s[k] != '"'
        invariant
            j <= k <= s@.len(),
            string_end(s@, k as int) == string_end(s@, j as int),
        decreases s@.len() - k,
    {
        if s[k] == '\\' {
            if k + 1 < s.len() {
                k = k + 2;
            } else {
                k = s.len();
            }
        } else {
            k = k + 1;
        }
    }
    k
}

/// Extract the `:hidden` strings from the text of a `config.edn`.
pub fn parse_hidden_from_str(content: &str) -> (r: Vec<String>)
    ensures
        strings_view(r@) == hidden_spec(content@),
{
    let s = chars_of(content);
    let mut p: usize = 0;
    let mut body: Option<usize> = None;
    while p < s.len()
        invariant_except_break
            p <= s@.len(),
            body is None,
            find_hidden(s@, p as int) == find_hidden(s@, 0),
        ensures
            body matches Some(b) ==> find_hidden(s@, 0) == Some(b as int),
            body is None ==> find_hidden(s@, 0) is None,
            body matches Some(b) ==> b <= s@.len(),
        decreases s@.len() - p,
    {
        match opener_at_exec(s.as_slice(), p) {
            Some(b) => {
                body = Some(b);
                assert(b <= s@.len());
                break;
            },
            None => {},
        }
        p = p + 1;
    }
    let mut out: Vec<String> = Vec::new();
    let mut i: usize = match body {
        Some(b) => b,
        None => {
            return out;
        },
    };
    proof {
        assert(strings_view(out@) =~= Seq::<Seq<char>>::empty());
        assert(strings_view(out@) + strings_from(s@, i as int) =~= hidden_spec(s@));
    }
    while i < s.len()
        invariant_except_break
            i <= s@.len(),
            strings_view(out@) + strings_from(s@, i as int) == hidden_spec(s@),
        ensures
            strings_view(out@) == hidden_spec(s@),
        decreases s@.len() - i,
    {
        let c = s[i];
        if c == ']' || c == '}' {
            assert(strings_view(out@) =~= strings_view(out@) + strings_from(s@, i as int));
            break;
        } else if c == '"' {
            let e = string_end_exec(s.as_slice(), i + 1);
            if e >= s.len() {
                assert(strings_view(out@) =~= strings_view(out@) + strings_from(s@, i as int));
                break;
            }
            let piece = sub_chars(s.as_slice(), i + 1, e);
            let ghost before = out@;
            out.push(string_of(piece.as_slice()));
            assert(strings_view(out@) =~= strings_view(before).push(piece@));
            assert(strings_from(s@, i as int) == seq![piece@] + strings_from(s@, e + 1));
            assert(strings_view(out@) + strings_from(s@, e + 1) =~= strings_view(before) + strings_from(s@, i as int));
            i = e + 1;
        } else {
            i = i + 1;
        }
    }
    out
}

/// The `:hidden` strings of a `config.edn` from its text, or none when the
/// file could not be read (`None`): a missing or unreadable file hides
/// nothing.
pub fn hidden_from_contents(contents: Option<&str>) -> (r: Vec<String>)
    ensures
        match contents {
            None => r@.len() == 0,
            Some(c) => strings_view(r@) == hidden_spec(c@),
        },
{
    match contents {
        None => Vec::new(),
        Some(c) => parse_hidden_from_str(c),
    }
}

} // verus!
