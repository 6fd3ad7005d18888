//! Byte-splice and offset-shift primitives: replace one block's byte range
//! in a file buffer, and recompute the ranges of the other blocks.

use vstd::prelude::*;
use vstd::utf8::encode_utf8;

use crate::parser::segment::RawBlock;

verus! {

/// `original` with `[byte_offset, byte_offset + byte_length)` replaced by
/// `new_raw`.
pub open spec fn spliced(original: Seq<u8>, byte_offset: int, byte_length: int, new_raw: Seq<u8>) -> Seq<u8> {
    original.subrange(0, byte_offset) + new_raw + original.subrange(
        byte_offset + byte_length,
        original.len() as int,
    )
}

/// Splice `new_raw` into `original` at `[byte_offset, byte_offset + byte_length)`.
///
/// Bytes outside the changed range are byte-identical to `original`. The
/// range must lie inside `original`.
pub fn splice_block(original: &[u8], byte_offset: usize, byte_length: usize, new_raw: &[u8]) -> (out: Vec<u8>)
    requires
        byte_offset + byte_length <= original@.len(),
    ensures
        out@ == spliced(original@, byte_offset as int, byte_length as int, new_raw@),
{
    let n = original.len();
    assert(byte_offset + byte_length <= n);
    let end = byte_offset + byte_length;
    let mut out: Vec<u8> = Vec::new();
    let mut i: usize = 0;
    while i < byte_offset
        invariant
            byte_offset <= end <= original@.len(),
            i <= byte_offset,
            out@ == original@.subrange(0, i as int),
        decreases byte_offset - i,
    {
        out.push(original[i]);
        i = i + 1;
        assert(out@ =~= original@.subrange(0, i as int));
    }
    let mut j: usize = 0;
    while j < new_raw.len()
        invariant
            byte_offset <= end <= original@.len(),
            j <= new_raw@.len(),
            out@ == original@.subrange(0, byte_offset as int) + new_raw@.subrange(0, j as int),
        decreases new_raw@.len() - j,
    {
        out.push(new_raw[j]);
        j = j + 1;
        assert(out@ =~= original@.subrange(0, byte_offset as int) + new_raw@.subrange(0, j as int));
    }
    let mut k: usize = end;
    while k < original.len()
        invariant
            byte_offset <= end <= k <= original@.len(),
            out@ == original@.subrange(0, byte_offset as int) + new_raw@ + original@.subrange(
                end as int,
                k as int,
            ),
        decreases original@.len() - k,
    {
        out.push(original[k]);
        k = k + 1;
        assert(out@ =~= original@.subrange(0, byte_offset as int) + new_raw@ + original@.subrange(
            end as int,
            k as int,
        ));
    }
    assert(new_raw@.subrange(0, new_raw@.len() as int) =~= new_raw@);
    out
}

/// Access to the three fields that offset shifting needs.
pub trait BlockOffset {
    spec fn spec_id(&self) -> i64;

    spec fn spec_byte_offset(&self) -> usize;

    spec fn spec_byte_length(&self) -> usize;

    fn id(&self) -> (r: i64)
        ensures
            r == self.spec_id(),
    ;

    fn byte_offset(&self) -> (r: usize)
        ensures
            r == self.spec_byte_offset(),
    ;

    fn byte_length(&self) -> (r: usize)
        ensures
            r == self.spec_byte_length(),
    ;
}

impl BlockOffset for (i64, usize, usize) {
    open spec fn spec_id(&self) -> i64 {
        self.0
    }

    open spec fn spec_byte_offset(&self) -> usize {
        self.1
    }

    open spec fn spec_byte_length(&self) -> usize {
        self.2
    }

    fn id(&self) -> (r: i64) {
        self.0
    }

    fn byte_offset(&self) -> (r: usize) {
        self.1
    }

    fn byte_length(&self) -> (r: usize) {
        self.2
    }
}

impl BlockOffset for RawBlock {
    /// A raw block carries no storage id yet: it reports `0`.
    open spec fn spec_id(&self) -> i64 {
        0
    }

    open spec fn spec_byte_offset(&self) -> usize {
        self.byte_offset
    }

    open spec fn spec_byte_length(&self) -> usize {
        self.byte_length
    }

    fn id(&self) -> (r: i64) {
        0
    }

    fn byte_offset(&self) -> (r: usize) {
        self.byte_offset
    }

    fn byte_length(&self) -> (r: usize) {
        self.byte_length
    }
}

/// Index of the first block with the given id, if any.
pub open spec fn first_with_id<B: BlockOffset>(blocks: Seq<B>, id: i64) -> int
    decreases blocks.len(),
{
    if blocks.len() == 0 {
        -1
    } else if blocks[0].spec_id() == id {
        0
    } else {
        let r = first_with_id(blocks.drop_first(), id);
        if r < 0 {
            -1
        } else {
            r + 1
        }
    }
}

pub proof fn lemma_first_with_id<B: BlockOffset>(blocks: Seq<B>, id: i64)
    ensures
        -1 <= first_with_id(blocks, id) < blocks.len(),
        first_with_id(blocks, id) >= 0 ==> blocks[first_with_id(blocks, id)].spec_id() == id,
        first_with_id(blocks, id) >= 0 ==> forall|j: int|
            0 <= j < first_with_id(blocks, id) ==> (#[trigger] blocks[j]).spec_id() != id,
        first_with_id(blocks, id) < 0 ==> forall|j: int|
            0 <= j < blocks.len() ==> (#[trigger] blocks[j]).spec_id() != id,
    decreases blocks.len(),
{
    if blocks.len() > 0 && blocks[0].spec_id() != id {
        lemma_first_with_id(blocks.drop_first(), id);
        assert forall|j: int| 1 <= j < blocks.len() implies blocks[j] == blocks.drop_first()[j
            - 1] by {}
    }
}

/// The entry that `compute_shifted_offsets` produces for block `b`.
pub open spec fn shifted_entry<B: BlockOffset>(
    b: B,
    changed_block_id: i64,
    pivot_offset: int,
    new_len: usize,
    delta: int,
) -> (i64, usize, usize) {
    if b.spec_id() == changed_block_id {
        (b.spec_id(), b.spec_byte_offset(), new_len)
    } else if b.spec_byte_offset() > pivot_offset {
        (b.spec_id(), (b.spec_byte_offset() + delta) as usize, b.spec_byte_length())
    } else {
        (b.spec_id(), b.spec_byte_offset(), b.spec_byte_length())
    }
}

/// `compute_shifted_offsets` does not overflow or go below zero on these
/// inputs.
pub open spec fn shift_in_range<B: BlockOffset>(blocks: Seq<B>, pivot_offset: int, delta: int) -> bool {
    forall|i: int|
        0 <= i < blocks.len() ==> (#[trigger] blocks[i]).spec_byte_offset() <= i64::MAX && (
        blocks[i].spec_byte_offset() > pivot_offset ==> 0 <= blocks[i].spec_byte_offset() + delta
            <= i64::MAX)
}

/// Recompute `(id, byte_offset, byte_length)` for every block after the
/// block `changed_block_id` was resized from `old_len` to `new_len`.
///
/// Blocks at or before the changed block's offset keep their range; every
/// block with the changed id takes `new_len`; blocks after it shift by
/// `new_len - old_len`. The changed block must be present and must have
/// length `old_len`, and no shifted offset may leave the `i64` range or
/// become negative.
pub fn compute_shifted_offsets<B: BlockOffset>(
    blocks: &[B],
    changed_block_id: i64,
    old_len: usize,
    new_len: usize,
) -> (out: Vec<(i64, usize, usize)>)
    requires
        first_with_id(blocks@, changed_block_id) >= 0,
        blocks@[first_with_id(blocks@, changed_block_id)].spec_byte_length() == old_len,
        old_len <= i64::MAX,
        new_len <= i64::MAX,
        shift_in_range(
            blocks@,
            blocks@[first_with_id(blocks@, changed_block_id)].spec_byte_offset() as int,
            new_len - old_len,
        ),
    ensures
        out@.len() == blocks@.len(),
        forall|i: int|
            0 <= i < blocks@.len() ==> #[trigger] out@[i] == shifted_entry(
                blocks@[i],
                changed_block_id,
                blocks@[first_with_id(blocks@, changed_block_id)].spec_byte_offset() as int,
                new_len,
                new_len - old_len,
            ),
{
    proof {
        lemma_first_with_id(blocks@, changed_block_id);
    }
    let ghost c = first_with_id(blocks@, changed_block_id);
    let mut k: usize = 0;
    while k < blocks.len() && blocks[k].id() != changed_block_id
        invariant
            k <= blocks@.len(),
            k <= c,
            0 <= c < blocks@.len(),
            blocks@[c].spec_id() == changed_block_id,
            forall|j: int| 0 <= j < c ==> (#[trigger] blocks@[j]).spec_id() != changed_block_id,
        decreases blocks@.len() - k,
    {
        k = k + 1;
    }
    let pivot_offset = blocks[k].byte_offset();
    let delta: i64 = new_len as i64 - old_len as i64;
    let mut out: Vec<(i64, usize, usize)> = Vec::new();
    let mut i: usize = 0;
    while i < blocks.len()
        invariant
            k == c,
            pivot_offset == blocks@[c].spec_byte_offset(),
            delta == new_len - old_len,
            i <= blocks@.len(),
            out@.len() == i,
            shift_in_range(blocks@, pivot_offset as int, delta as int),
            forall|j: int|
                0 <= j < i ==> #[trigger] out@[j] == shifted_entry(
                    blocks@[j],
                    changed_block_id,
                    pivot_offset as int,
                    new_len,
                    delta as int,
                ),
        decreases blocks@.len() - i,
    {
        let b = &blocks[i];
        let id = b.id();
        let off = b.byte_offset();
        if id == changed_block_id {
            out.push((id, off, new_len));
        } else if off > pivot_offset {
            assert(blocks@[i as int].spec_byte_offset() <= i64::MAX);
            let shifted: i64 = (off as i64) + delta;
            out.push((id, shifted as usize, b.byte_length()));
        } else {
            out.push((id, off, b.byte_length()));
        }
        i = i + 1;
    }
    out
}

/// A block's bytes survive a splice of another block: a block that ends
/// before the changed range keeps its offset and bytes, and a block that
/// starts after it keeps its bytes at the offset shifted by
/// `new_raw.len() - byte_length`.
pub proof fn law_splice_keeps_other_blocks(
    original: Seq<u8>,
    byte_offset: int,
    byte_length: int,
    new_raw: Seq<u8>,
    off: int,
    len: int,
)
    requires
        0 <= byte_offset,
        0 <= byte_length,
        byte_offset + byte_length <= original.len(),
        0 <= off,
        0 <= len,
        off + len <= original.len(),
    ensures
        off + len <= byte_offset ==> spliced(original, byte_offset, byte_length, new_raw).subrange(
            off,
            off + len,
        ) == original.subrange(off, off + len),
        off >= byte_offset + byte_length ==> ({
            let d = new_raw.len() - byte_length;
            spliced(original, byte_offset, byte_length, new_raw).subrange(off + d, off + d + len)
                == original.subrange(off, off + len)
        }),
{
    let out = spliced(original, byte_offset, byte_length, new_raw);
    if off + len <= byte_offset {
        assert(out.subrange(off, off + len) =~= original.subrange(off, off + len));
    }
    if off >= byte_offset + byte_length {
        let d = new_raw.len() - byte_length;
        assert(out.subrange(off + d, off + d + len) =~= original.subrange(off, off + len));
    }
}

/// Splicing the bytes that are already there changes nothing: a no-op
/// edit gives the file back byte for byte.
pub proof fn law_splice_same_bytes(original: Seq<u8>, byte_offset: int, byte_length: int)
    requires
        0 <= byte_offset,
        0 <= byte_length,
        byte_offset + byte_length <= original.len(),
    ensures
        spliced(
            original,
            byte_offset,
            byte_length,
            original.subrange(byte_offset, byte_offset + byte_length),
        ) == original,
{
    assert(spliced(
        original,
        byte_offset,
        byte_length,
        original.subrange(byte_offset, byte_offset + byte_length),
    ) =~= original);
}

/// Splicing a block's own text back over its range gives the source back,
/// byte for byte, whenever the text re-encodes to exactly that range (as
/// every block of `segment` does).
pub proof fn law_splice_own_text(source: Seq<u8>, byte_offset: int, byte_length: int, raw: Seq<char>)
    requires
        0 <= byte_offset,
        0 <= byte_length,
        byte_offset + byte_length <= source.len(),
        encode_utf8(raw) == source.subrange(byte_offset, byte_offset + byte_length),
    ensures
        spliced(source, byte_offset, byte_length, encode_utf8(raw)) == source,
{
    law_splice_same_bytes(source, byte_offset, byte_length);
}

} // verus!
