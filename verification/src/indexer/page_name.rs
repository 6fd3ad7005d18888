//! Filename to canonical page name.
//!
//! 1. Take the last `/`-separated component of the `RelativePath`.
//! 2. Strip a trailing `.md` if present.
//! 3. Decode `%2F` / `%2f` to `/` in one left-to-right pass.
//! 4. If the first component is `journals` and the name is `YYYY_MM_DD`
//!    (digits, underscores at positions 4 and 7), the page is a journal
//!    with date `YYYY-MM-DD`; otherwise it is a plain page.

use vstd::prelude::*;

use crate::path::RelativePath;
use crate::text::{chars_of, find_char, find_char_exec, rfind_char, rfind_char_exec, string_of, sub_chars};

verus! {

#[derive(Debug, Clone, Copy, PartialEq, Eq, Structural)]
pub enum PageKind {
    Page,
    Journal,
}

#[derive(Debug, Clone, PartialEq, Eq)]
pub struct PageInfo {
    pub name: String,
    pub kind: PageKind,
    pub journal_date: Option<String>,
}

pub struct PageInfoV {
    pub name: Seq<char>,
    pub kind: PageKind,
    pub journal_date: Option<Seq<char>>,
}

impl View for PageInfo {
    type V = PageInfoV;

    open spec fn view(&self) -> PageInfoV {
        PageInfoV {
            name: self.name@,
            kind: self.kind,
            journal_date: match self.journal_date {
                Some(d) => Some(d@),
                None => None,
            },
        }
    }
}

pub open spec fn journals_dir() -> Seq<char> {
    seq!['j', 'o', 'u', 'r', 'n', 'a', 'l', 's']
}

pub open spec fn md_suffix() -> Seq<char> {
    seq!['.', 'm', 'd']
}

/// The text before the first `/` (all of it when there is none).
pub open spec fn first_component(s: Seq<char>) -> Seq<char> {
    s.take(find_char(s, 0, '/'))
}

/// The text after the last `/` (all of it when there is none).
pub open spec fn last_component(s: Seq<char>) -> Seq<char> {
    s.skip(rfind_char(s, s.len() as int, '/') + 1)
}

pub open spec fn strip_md(s: Seq<char>) -> Seq<char> {
    if s.len() >= 3 && s.skip(s.len() - 3) == md_suffix() {
        s.take(s.len() - 3)
    } else {
        s
    }
}

/// `%2F` and `%2f` replaced by `/`, left to right.
pub open spec fn decode_2f(s: Seq<char>) -> Seq<char>
    decreases s.len(),
{
    if s.len() == 0 {
        s
    } else if s.len() >= 3 && s[0] == '%' && s[1] == '2' && (s[2] == 'F' || s[2] == 'f') {
        seq!['/'] + decode_2f(s.skip(3))
    } else {
        seq![s[0]] + decode_2f(s.drop_first())
    }
}

pub open spec fn is_digit(c: char) -> bool {
    '0' <= c <= '9'
}

/// `YYYY_MM_DD` rewritten as `YYYY-MM-DD`.
pub open spec fn journal_date(name: Seq<char>) -> Option<Seq<char>> {
    if name.len() == 10 && name[4] == '_' && name[7] == '_' && is_digit(name[0]) && is_digit(name[1])
        && is_digit(name[2]) && is_digit(name[3]) && is_digit(name[5]) && is_digit(name[6])
        && is_digit(name[8]) && is_digit(name[9]) {
        Some(name.update(4, '-').update(7, '-'))
    } else {
        None
    }
}

pub open spec fn page_info_spec(rel: Seq<char>) -> PageInfoV {
    let name = decode_2f(strip_md(last_component(rel)));
    if first_component(rel) == journals_dir() && journal_date(name) is Some {
        PageInfoV { name, kind: PageKind::Journal, journal_date: journal_date(name) }
    } else {
        PageInfoV { name, kind: PageKind::Page, journal_date: None }
    }
}

fn strip_md_suffix(s: &[char]) -> (r: Vec<char>)
    ensures
        r@ == strip_md(s@),
{
    let n = s.len();
    if n >= 3 && s[n - 3] == '.' && s[n - 2] == 'm' && s[n - 1] == 'd' {
        assert(s@.skip(n - 3) =~= md_suffix());
        sub_chars(s, 0, n - 3)
    } else {
        proof {
            if n >= 3 && s@.skip(n - 3) == md_suffix() {
                assert(s@.skip(n - 3)[0] == '.');
                assert(s@.skip(n - 3)[1] == 'm');
                assert(s@.skip(n - 3)[2] == 'd');
            }
        }
        let r = sub_chars(s, 0, n);
        assert(s@.subrange(0, n as int) =~= s@);
        r
    }
}

pub(crate) fn decode_percent_2f(s: &[char]) -> (r: Vec<char>)
    ensures
        r@ == decode_2f(s@),
{
    let mut out: Vec<char> = Vec::new();
    let mut i: usize = 0;
    assert(s@.skip(0) =~= s@);
    assert(out@ + decode_2f(s@) =~= decode_2f(s@));
    while i < s.len()
        invariant
            i <= s@.len(),
            out@ + decode_2f(s@.skip(i as int)) == decode_2f(s@),
        decreases s@.len() - i,
    {
        let ghost rest = s@.skip(i as int);
        if s.len() - i >= 3 && s[i] == '%' && s[i + 1] == '2' && (s[i + 2] == 'F' || s[i + 2] == 'f') {
            out.push('/');
            assert(rest.skip(3) =~= s@.skip(i + 3));
            assert(out@ + decode_2f(s@.skip(i + 3)) =~= decode_2f(s@)) by {
                assert(decode_2f(rest) == seq!['/'] + decode_2f(rest.skip(3)));
            }
            i = i + 3;
        } else {
            out.push(s[i]);
            assert(rest.drop_first() =~= s@.skip(i + 1));
            assert(out@ + decode_2f(s@.skip(i + 1)) =~= decode_2f(s@)) by {
                assert(decode_2f(rest) == seq![s@[i as int]] + decode_2f(rest.drop_first()));
            }
            i = i + 1;
        }
    }
    assert(decode_2f(s@.skip(i as int)) =~= Seq::<char>::empty());
    assert(out@ =~= decode_2f(s@));
    out
}

fn is_digit_exec(c: char) -> (r: bool)
    ensures
        r == is_digit(c),
{
    '0' <= c && c <= '9'
}

fn validate_journal_date(name: &[char]) -> (r: Option<Vec<char>>)
    ensures
        match r {
            Some(d) => journal_date(name@) == Some(d@),
            None => journal_date(name@) is None,
        },
{
    if name.len() != 10 {
        return None;
    }
    if name[4] != '_' || name[7] != '_' {
        return None;
    }
    if !(is_digit_exec(name[0]) && is_digit_exec(name[1]) && is_digit_exec(name[2]) && is_digit_exec(
        name[3],
    ) && is_digit_exec(name[5]) && is_digit_exec(name[6]) && is_digit_exec(name[8])
        && is_digit_exec(name[9])) {
        return None;
    }
    let mut iso: Vec<char> = Vec::new();
    let mut k: usize = 0;
    while k < 10
        invariant
            name@.len() == 10,
            k <= 10,
            iso@ == name@.update(4, '-').update(7, '-').take(k as int),
        decreases 10 - k,
    {
        if k == 4 || k == 7 {
            iso.push('-');
        } else {
            iso.push(name[k]);
        }
        k = k + 1;
        assert(iso@ =~= name@.update(4, '-').update(7, '-').take(k as int));
    }
    assert(name@.update(4, '-').update(7, '-').take(10) =~= name@.update(4, '-').update(7, '-'));
    Some(iso)
}

/// Derive a [`PageInfo`] from a [`RelativePath`].
pub fn derive_page_info(rel: &RelativePath) -> (info: PageInfo)
    ensures
        info@ == page_info_spec(rel@),
{
    let s = chars_of(rel.as_str());
    let first_end = find_char_exec(s.as_slice(), 0, '/');
    let is_journal_dir = first_end == 8 && s[0] == 'j' && s[1] == 'o' && s[2] == 'u' && s[3] == 'r'
        && s[4] == 'n' && s[5] == 'a' && s[6] == 'l' && s[7] == 's';
    proof {
        let f = first_component(s@);
        if is_journal_dir {
            assert(f =~= journals_dir());
        } else if f == journals_dir() {
            assert(f.len() == 8);
            assert(f[0] == 'j' && f[1] == 'o' && f[2] == 'u' && f[3] == 'r');
            assert(f[4] == 'n' && f[5] == 'a' && f[6] == 'l' && f[7] == 's');
        }
        assert(is_journal_dir == (f == journals_dir()));
    }
    let start = match rfind_char_exec(s.as_slice(), '/') {
        Some(i) => i + 1,
        None => 0,
    };
    let last = sub_chars(s.as_slice(), start, s.len());
    assert(last@ =~= last_component(s@));
    let base = strip_md_suffix(last.as_slice());
    let decoded = decode_percent_2f(base.as_slice());
    if is_journal_dir {
        match validate_journal_date(decoded.as_slice()) {
            Some(iso) => {
                return PageInfo {
                    name: string_of(decoded.as_slice()),
                    kind: PageKind::Journal,
                    journal_date: Some(string_of(iso.as_slice())),
                };
            },
            None => {},
        }
    }
    PageInfo { name: string_of(decoded.as_slice()), kind: PageKind::Page, journal_date: None }
}

} // verus!
