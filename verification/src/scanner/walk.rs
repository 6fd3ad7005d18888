//! Which entries of a notes-root walk survive, and what is kept of each.
//!
//! A directory is descended into unless its name is in the ignore set, or
//! it is a dot-directory below the root. A file is kept when it is a
//! regular file whose extension is `md`. Symbolic links are never
//! followed.

use vstd::prelude::*;

use crate::scanner::ignore::IgnoreSet;
use crate::text::{chars_of, rfind_char, rfind_char_exec};

verus! {

/// One file kept by the walk.
#[derive(Debug, Clone, PartialEq, Eq)]
pub struct ScanEntry {
    /// Absolute filesystem path.
    pub path: String,
    /// Modification time, in nanoseconds since the Unix epoch.
    pub mtime_ns: i64,
    /// Size in bytes.
    pub size: u64,
}

/// The walk descends into (or yields) this entry.
pub open spec fn keeps_entry(ignored: Set<Seq<char>>, is_dir: bool, name: Option<Seq<char>>, depth: nat) -> bool {
    if !is_dir {
        true
    } else {
        match name {
            None => true,
            Some(n) => !ignored.contains(n) && !(n.len() > 0 && n[0] == '.' && n != "."@ && n
                != ".."@ && depth > 0),
        }
    }
}

/// Whether the walk keeps an entry: a directory (`is_dir`) named `name`
/// (`None` when the name is not UTF-8) at `depth` below the root. Files
/// are always kept here; they are filtered by extension afterwards.
pub fn keep_entry(ignore: &IgnoreSet, is_dir: bool, name: Option<&str>, depth: usize) -> (r: bool)
    ensures
        r == keeps_entry(
            ignore@,
            is_dir,
            match name {
                Some(n) => Some(n@),
                None => None,
            },
            depth as nat,
        ),
{
    if !is_dir {
        return true;
    }
    match name {
        None => true,
        Some(n) => {
            if ignore.is_ignored(n) {
                return false;
            }
            let cs = chars_of(n);
            proof {
                reveal_strlit(".");
                reveal_strlit("..");
            }
            let dotted = cs.len() > 0 && cs[0] == '.';
            let is_dot = cs.len() == 1 && cs[0] == '.';
            let is_dotdot = cs.len() == 2 && cs[0] == '.' && cs[1] == '.';
            proof {
                assert(is_dot == (n@ == "."@)) by {
                    if n@ == "."@ {
                        assert(cs@.len() == 1);
                    }
                    if is_dot {
                        assert(cs@ =~= "."@);
                    }
                }
                assert(is_dotdot == (n@ == ".."@)) by {
                    if n@ == ".."@ {
                        assert(cs@.len() == 2);
                    }
                    if is_dotdot {
                        assert(cs@ =~= ".."@);
                    }
                }
            }
            !(dotted && !is_dot && !is_dotdot && depth > 0)
        },
    }
}

/// The extension of a file name: the text after its last `.`, unless that
/// `.` starts the name.
pub open spec fn extension(name: Seq<char>) -> Option<Seq<char>> {
    let k = rfind_char(name, name.len() as int, '.');
    if k > 0 {
        Some(name.skip(k + 1))
    } else {
        None
    }
}

/// Whether a file named `name` is a markdown file: its extension is `md`.
pub fn is_markdown_name(name: &str) -> (r: bool)
    ensures
        r == (extension(name@) == Some("md"@)),
{
    let cs = chars_of(name);
    let n = cs.len();
    proof {
        reveal_strlit("md");
    }
    match rfind_char_exec(cs.as_slice(), '.') {
        Some(k) => {
            if k == 0 {
                return false;
            }
            let r = n - k == 3 && cs[k + 1] == 'm' && cs[k + 2] == 'd';
            proof {
                if r {
                    assert(name@.skip(k + 1) =~= "md"@);
                } else if name@.skip(k + 1) == "md"@ {
                    assert(name@.skip(k + 1).len() == 2);
                    assert(name@.skip(k + 1)[0] == 'm');
                    assert(name@.skip(k + 1)[1] == 'd');
                }
            }
            r
        },
        None => false,
    }
}

/// Nanoseconds since the epoch from seconds and nanoseconds, when the
/// product by 10^9 and then the sum fit in `i64`.
pub open spec fn mtime_ns_spec(secs: i64, nsecs: i64) -> Option<i64> {
    let p = secs * 1_000_000_000;
    if p < i64::MIN || p > i64::MAX || p + nsecs < i64::MIN || p + nsecs > i64::MAX {
        None
    } else {
        Some((p + nsecs) as i64)
    }
}

/// A file's modification time in nanoseconds from its seconds and
/// nanoseconds parts.
pub fn mtime_ns_from_parts(secs: i64, nsecs: i64) -> (r: Option<i64>)
    ensures
        r == mtime_ns_spec(secs, nsecs),
{
    let p: i128 = (secs as i128) * 1_000_000_000i128;
    if p < -9223372036854775808i128 || p > 9223372036854775807i128 {
        return None;
    }
    let t: i128 = p + (nsecs as i128);
    if t < -9223372036854775808i128 || t > 9223372036854775807i128 {
        return None;
    }
    Some(t as i64)
}

} // verus!
