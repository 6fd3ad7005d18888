use foliom_core::mutation::splice::splice_block;
use foliom_core::parser::segment::segment;

fn samples() -> Vec<&'static str> {
    vec![
        "",
        "title:: Page\n\n- first\n\t- child\n- second",
        "- starts with a bullet\n  continuation\n",
        "intro line\n- a\n\t- b\n\t\t- c\n",
        "- fenced\n  ```\n  - not a bullet\n  ```\n- after\n",
        "- with drawer\n  :LOGBOOK:\n  - not a bullet\n  :END:\n- next\n",
        "- props\n  id:: 123\n  alias:: x\n-\n- Avaliação ünïcödé\r\n",
    ]
}

#[test]
fn roundtrip_byte_identical_for_inline_samples() {
    for src in samples() {
        let bytes = src.as_bytes();
        let blocks = segment(bytes);
        let mut rebuilt = Vec::new();
        for b in &blocks {
            rebuilt.extend_from_slice(&bytes[b.byte_offset..b.byte_offset + b.byte_length]);
            assert_eq!(b.raw.as_bytes(), &bytes[b.byte_offset..b.byte_offset + b.byte_length]);
        }
        assert_eq!(rebuilt, bytes, "round trip of {src:?}");
    }
}

#[test]
fn noop_splice_byte_identical_for_inline_samples() {
    for src in samples() {
        let bytes = src.as_bytes();
        for b in segment(bytes) {
            let out = splice_block(bytes, b.byte_offset, b.byte_length, b.raw.as_bytes());
            assert_eq!(out, bytes, "no-op splice of {src:?} at {}", b.byte_offset);
        }
    }
}

#[test]
fn prelude_is_empty_exactly_when_the_file_opens_with_a_bullet() {
    assert_eq!(segment(b"- a\n")[0].byte_length, 0);
    assert_eq!(segment(b"")[0].byte_length, 0);
    assert_eq!(segment(b"").len(), 1);
    assert_eq!(segment(b"x\n- a\n")[0].byte_length, 2);
    let blocks = segment(b"x\n\t- a\n");
    assert_eq!(blocks[1].depth, 1);
    assert!(blocks[1].byte_offset == 2);
}
