//! The write-ahead journal of page renames: its entries, which of them are
//! still pending, and what one recorded splice does to a file.
//!
//! Each rename writes an entry before touching any file. An entry is
//! pending once its SQL has committed while its page file is not renamed
//! yet or one of its ops is not applied. Replaying an op checks the bytes
//! at its range: the old text is spliced over with the new text; the new
//! text means the op is already applied; anything else is skipped.

use vstd::prelude::*;
use vstd::utf8::encode_utf8;

use crate::mutation::splice::{splice_block, spliced};
use crate::path::{filesystem_spec, RelativePath};
use crate::storage::{journal_file_name, root_stem};
use crate::text::{bytes_eq, str_eq};

verus! {

/// One rename operation: one `[[OldName]]` occurrence in one file.
#[derive(Debug, Clone)]
pub struct JournalOp {
    /// Relative path of the file that holds the reference.
    pub file: String,
    /// Exact text expected at `byte_offset .. byte_offset + byte_length`.
    pub old_text: String,
    /// Replacement text.
    pub new_text: String,
    pub byte_offset: usize,
    pub byte_length: usize,
    /// Set once the splice is on disk.
    pub applied: bool,
}

/// One rename journal entry.
#[derive(Debug, Clone)]
pub struct JournalEntry {
    pub id: String,
    pub started: String,
    pub old_name: String,
    pub new_name: String,
    pub page_id: i64,
    pub old_file: String,
    pub new_file: String,
    pub ops: Vec<JournalOp>,
    /// Set once the SQL transaction (name and refs) has committed.
    pub sql_committed: bool,
    /// Set once the page's own file is renamed on disk.
    pub file_renamed: bool,
}

pub open spec fn some_op_unapplied(ops: Seq<JournalOp>) -> bool {
    exists|i: int| 0 <= i < ops.len() && !(#[trigger] ops[i]).applied
}

/// An entry is pending once its SQL committed while the file rename or
/// some op is still to do.
pub open spec fn pending_spec(e: JournalEntry) -> bool {
    e.sql_committed && (!e.file_renamed || some_op_unapplied(e.ops@))
}

/// Whether replay still has work to do for `entry`.
pub fn entry_is_pending(entry: &JournalEntry) -> (r: bool)
    ensures
        r == pending_spec(*entry),
{
    if !entry.sql_committed {
        return false;
    }
    if !entry.file_renamed {
        return true;
    }
    let mut i: usize = 0;
    while i < entry.ops.len()
        invariant
            entry.sql_committed,
            entry.file_renamed,
            i <= entry.ops@.len(),
            forall|j: int| 0 <= j < i ==> (#[trigger] entry.ops@[j]).applied,
        decreases entry.ops@.len() - i,
    {
        if !entry.ops[i].applied {
            return true;
        }
        i = i + 1;
    }
    false
}

/// Whether every op of `entry` is applied.
pub fn all_ops_applied(entry: &JournalEntry) -> (r: bool)
    ensures
        r == !some_op_unapplied(entry.ops@),
{
    let mut i: usize = 0;
    while i < entry.ops.len()
        invariant
            i <= entry.ops@.len(),
            forall|j: int| 0 <= j < i ==> (#[trigger] entry.ops@[j]).applied,
        decreases entry.ops@.len() - i,
    {
        if !entry.ops[i].applied {
            return false;
        }
        i = i + 1;
    }
    true
}

/// The positions of the ops of `entry` that are not applied yet, in order.
pub fn unapplied_ops(entry: &JournalEntry) -> (r: Vec<usize>)
    ensures
        forall|k: int| 0 <= k < r@.len() ==> r@[k] < entry.ops@.len() && !entry.ops@[r@[k] as int].applied,
        forall|k: int, l: int| 0 <= k < l < r@.len() ==> r@[k] < r@[l],
        forall|j: int| 0 <= j < entry.ops@.len() && !entry.ops@[j].applied ==> r@.contains(j as usize),
{
    let mut r: Vec<usize> = Vec::new();
    let mut i: usize = 0;
    while i < entry.ops.len()
        invariant
            i <= entry.ops@.len(),
            forall|k: int| 0 <= k < r@.len() ==> r@[k] < i && !entry.ops@[r@[k] as int].applied,
            forall|k: int, l: int| 0 <= k < l < r@.len() ==> r@[k] < r@[l],
            forall|j: int| 0 <= j < i && !entry.ops@[j].applied ==> r@.contains(j as usize),
        decreases entry.ops@.len() - i,
    {
        if !entry.ops[i].applied {
            let ghost r0 = r@;
            r.push(i);
            assert forall|j: int| 0 <= j < i + 1 && !entry.ops@[j].applied implies r@.contains(j as usize) by {
                if j < i {
                    let k = choose|k: int| 0 <= k < r0.len() && r0[k] == j as usize;
                    assert(r@[k] == r0[k]);
                } else {
                    assert(r@[r0.len() as int] == i);
                }
            }
        }
        i = i + 1;
    }
    r
}

/// What replaying one op against a file's bytes comes to.
#[derive(Debug)]
pub enum OpReplay {
    /// The old text was there: the file with the new text spliced in.
    Spliced(Vec<u8>),
    /// The new text is already there.
    AlreadyApplied,
    /// The op's range runs past the end of the file.
    OutOfRange,
    /// The range holds neither the old nor the new text.
    Mismatch,
}

pub open spec fn window(bytes: Seq<u8>, off: int, len: int) -> Seq<u8> {
    bytes.subrange(off, off + len)
}

/// Replay one op against `bytes`.
///
/// The texts are compared as their UTF-8 bytes. A range whose end does
/// not fit in `usize` counts as running past the end.
pub fn replay_op(bytes: &[u8], op: &JournalOp) -> (r: OpReplay)
    ensures
        ({
            let off = op.byte_offset as int;
            let len = op.byte_length as int;
            match r {
                OpReplay::OutOfRange => off + len > bytes@.len(),
                OpReplay::Spliced(out) => off + len <= bytes@.len() && window(bytes@, off, len)
                    == encode_utf8(op.old_text@) && out@ == spliced(
                    bytes@,
                    off,
                    len,
                    encode_utf8(op.new_text@),
                ),
                OpReplay::AlreadyApplied => off + len <= bytes@.len() && window(bytes@, off, len)
                    != encode_utf8(op.old_text@) && window(bytes@, off, len)
                    == encode_utf8(op.new_text@),
                OpReplay::Mismatch => off + len <= bytes@.len() && window(bytes@, off, len)
                    != encode_utf8(op.old_text@) && window(bytes@, off, len)
                    != encode_utf8(op.new_text@),
            }
        }),
{
    let start = op.byte_offset;
    if op.byte_length > bytes.len() || start > bytes.len() - op.byte_length {
        return OpReplay::OutOfRange;
    }
    let end = start + op.byte_length;
    let win = &bytes[start..end];
    if bytes_eq(win, op.old_text.as_str().as_bytes()) {
        OpReplay::Spliced(splice_block(bytes, start, op.byte_length, op.new_text.as_str().as_bytes()))
    } else if bytes_eq(win, op.new_text.as_str().as_bytes()) {
        OpReplay::AlreadyApplied
    } else {
        OpReplay::Mismatch
    }
}

/// Whether some entry of `entries` has the id `id`.
pub open spec fn id_among(id: Seq<char>, entries: Seq<JournalEntry>) -> bool {
    exists|j: int| 0 <= j < entries.len() && (#[trigger] entries[j]).id@ == id
}

/// Whether `id` is one of `entries`' ids.
fn has_id(entries: &[JournalEntry], id: &str) -> (r: bool)
    ensures
        r == id_among(id@, entries@),
{
    let mut j: usize = 0;
    while j < entries.len()
        invariant
            j <= entries@.len(),
            forall|k: int| 0 <= k < j ==> (#[trigger] entries@[k]).id@ != id@,
        decreases entries@.len() - j,
    {
        if str_eq(entries[j].id.as_str(), id) {
            return true;
        }
        j = j + 1;
    }
    false
}

/// Which journal lines survive a rewrite of the entries `updated`, given
/// the id each line decoded to (`None` for a line that did not decode): a
/// line survives when it decoded and its id is not among the updated ones.
/// The updated entries are then written after the survivors.
pub fn kept_on_update(line_ids: &[Option<String>], updated: &[JournalEntry]) -> (keep: Vec<bool>)
    ensures
        keep@.len() == line_ids@.len(),
        forall|i: int|
            0 <= i < line_ids@.len() ==> #[trigger] keep@[i] == match line_ids@[i] {
                Some(id) => !id_among(id@, updated@),
                None => false,
            },
{
    let mut keep: Vec<bool> = Vec::new();
    let mut i: usize = 0;
    while i < line_ids.len()
        invariant
            i <= line_ids@.len(),
            keep@.len() == i,
            forall|k: int|
                0 <= k < i ==> #[trigger] keep@[k] == match line_ids@[k] {
                    Some(id) => !id_among(id@, updated@),
                    None => false,
                },
        decreases line_ids@.len() - i,
    {
        let k = match &line_ids[i] {
            Some(id) => !has_id(updated, id.as_str()),
            None => false,
        };
        keep.push(k);
        i = i + 1;
    }
    keep
}

/// Which journal lines survive the removal of the entry `entry_id`, given
/// the id each line decoded to: every line but those of that entry, lines
/// that did not decode included.
pub fn kept_on_remove(line_ids: &[Option<String>], entry_id: &str) -> (keep: Vec<bool>)
    ensures
        keep@.len() == line_ids@.len(),
        forall|i: int|
            0 <= i < line_ids@.len() ==> #[trigger] keep@[i] == !(line_ids@[i] matches Some(id)
                && id@ == entry_id@),
{
    let mut keep: Vec<bool> = Vec::new();
    let mut i: usize = 0;
    while i < line_ids.len()
        invariant
            i <= line_ids@.len(),
            keep@.len() == i,
            forall|k: int|
                0 <= k < i ==> #[trigger] keep@[k] == !(line_ids@[k] matches Some(id) && id@
                    == entry_id@),
        decreases line_ids@.len() - i,
    {
        let k = match &line_ids[i] {
            Some(id) => !str_eq(id.as_str(), entry_id),
            None => true,
        };
        keep.push(k);
        i = i + 1;
    }
    keep
}

/// The journal file: where the entries of one notes root are kept.
#[derive(Debug, Clone)]
pub struct Journal {
    path: String,
}

impl View for Journal {
    type V = Seq<char>;

    closed spec fn view(&self) -> Seq<char> {
        self.path@
    }
}

impl Journal {
    /// The journal of the notes root whose canonical path is
    /// `canonical_root`, in the directory `foliom_dir` that also holds its
    /// index: `<stem>.rename-journal`.
    pub fn open_for_root(foliom_dir: &str, canonical_root: &str) -> (r: Self)
        ensures
            r@ == filesystem_spec(root_stem(canonical_root@) + ".rename-journal"@, foliom_dir@),
    {
        let name = journal_file_name(canonical_root);
        let rp = RelativePath::from_storage_str(name.as_str());
        Journal { path: rp.to_filesystem(foliom_dir) }
    }

    /// The journal kept at `path`.
    pub fn open_at(path: String) -> (r: Self)
        ensures
            r@ == path@,
    {
        Journal { path }
    }

    /// Where the journal is kept.
    pub fn path(&self) -> (r: &str)
        ensures
            r@ == self@,
    {
        self.path.as_str()
    }
}

/// Replaying an op a second time does no harm: once the old text has been
/// spliced over with a new text of the same byte length, the range holds
/// the new text (so the op reads as already applied), and splicing it again
/// would change nothing.
pub proof fn law_replay_idempotent(bytes: Seq<u8>, off: int, len: int, new_text: Seq<u8>)
    requires
        0 <= off,
        0 <= len,
        off + len <= bytes.len(),
        new_text.len() == len,
    ensures
        ({
            let out = spliced(bytes, off, len, new_text);
            &&& off + len <= out.len()
            &&& window(out, off, len) == new_text
            &&& spliced(out, off, len, new_text) == out
        }),
{
    let out = spliced(bytes, off, len, new_text);
    assert(window(out, off, len) =~= new_text);
    assert(spliced(out, off, len, new_text) =~= out);
}

} // verus!
