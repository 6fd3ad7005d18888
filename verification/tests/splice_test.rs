use foliom_core::mutation::splice::{compute_shifted_offsets, splice_block, BlockOffset};
use foliom_core::parser::segment::segment;

#[test]
fn splice_block_equal_length_substitution() {
    let original = b"abc\n- old\n- z\n";
    let out = splice_block(original, 4, 6, b"- NEW\n");
    assert_eq!(out, b"abc\n- NEW\n- z\n");
}

#[test]
fn splice_block_shrinking_replacement_shifts_left() {
    let original = b"abc\n- old block\n- z\n";
    let out = splice_block(original, 4, 12, b"- new\n");
    assert_eq!(out, b"abc\n- new\n- z\n");
}

#[test]
fn splice_block_growing_replacement_shifts_right() {
    let original = b"abc\n- x\n- z\n";
    let out = splice_block(original, 4, 4, b"- expanded text\n");
    assert_eq!(out, b"abc\n- expanded text\n- z\n");
}

#[test]
fn splice_block_empty_replacement_deletes_range() {
    let original = b"abc\n- gone\n- z\n";
    let out = splice_block(original, 4, 7, b"");
    assert_eq!(out, b"abc\n- z\n");
}

#[test]
fn splice_block_at_start() {
    let original = b"abc\nrest\n";
    let out = splice_block(original, 0, 4, b"XYZ\n");
    assert_eq!(out, b"XYZ\nrest\n");
}

#[test]
fn splice_block_at_end() {
    let original = b"abc\ndef\n";
    let out = splice_block(original, 4, 4, b"X\n");
    assert_eq!(out, b"abc\nX\n");
}

#[test]
fn noop_splice_of_every_block_is_byte_identical() {
    let src: &[u8] = b"pre\n- a\n  cont\n\t- b\n  ```\n  - x\n  ```\n- c\n  :LOGBOOK:\n  :END:\n";
    let blocks = segment(src);
    for b in &blocks {
        let raw = b.raw.as_bytes().to_vec();
        let out = splice_block(src, b.byte_offset, b.byte_length, &raw);
        assert_eq!(out, src);
    }
}

fn fixed_5_blocks() -> Vec<(i64, usize, usize)> {
    vec![(1, 0, 10), (2, 10, 10), (3, 20, 10), (4, 30, 10), (5, 40, 10)]
}

#[test]
fn shifted_offsets_grow_middle_block_pushes_downstream_right() {
    let blocks = fixed_5_blocks();
    let out = compute_shifted_offsets(&blocks, 3, 10, 15);
    assert_eq!(out, vec![(1, 0, 10), (2, 10, 10), (3, 20, 15), (4, 35, 10), (5, 45, 10)]);
}

#[test]
fn shifted_offsets_shrink_middle_block_pulls_downstream_left() {
    let blocks = fixed_5_blocks();
    let out = compute_shifted_offsets(&blocks, 3, 10, 5);
    assert_eq!(out, vec![(1, 0, 10), (2, 10, 10), (3, 20, 5), (4, 25, 10), (5, 35, 10)]);
}

#[test]
fn shifted_offsets_changed_block_is_last_no_downstream_shift() {
    let blocks = fixed_5_blocks();
    let out = compute_shifted_offsets(&blocks, 5, 10, 20);
    assert_eq!(out, vec![(1, 0, 10), (2, 10, 10), (3, 20, 10), (4, 30, 10), (5, 40, 20)]);
}

#[test]
fn shifted_offsets_no_change_when_lengths_equal() {
    let blocks = fixed_5_blocks();
    let out = compute_shifted_offsets(&blocks, 3, 10, 10);
    assert_eq!(out, blocks);
}

#[test]
fn shifted_offsets_changed_block_is_prelude_shifts_all_real_blocks() {
    let blocks: Vec<(i64, usize, usize)> =
        vec![(0, 0, 5), (1, 5, 10), (2, 15, 10), (3, 25, 10), (4, 35, 10)];
    let out = compute_shifted_offsets(&blocks, 0, 5, 12);
    assert_eq!(out, vec![(0, 0, 12), (1, 12, 10), (2, 22, 10), (3, 32, 10), (4, 42, 10)]);
}

fn check<B: BlockOffset>(b: &B) -> (usize, usize) {
    (b.byte_offset(), b.byte_length())
}

#[test]
fn raw_block_impl_block_offset_via_blanket_trait() {
    let bytes = b"- a\n- b\n";
    let blocks = segment(bytes);
    let first_real = blocks.iter().find(|b| b.depth != u8::MAX).unwrap();
    let (off, len) = check(first_real);
    assert_eq!(off, 0);
    assert_eq!(len, 4);
}
