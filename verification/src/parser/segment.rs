//! Stage 1 of the parser: a line-based segmenter that cuts a Logseq markdown
//! file into raw blocks.
//!
//! A block is a bullet line (`\t* - ...` or a bare `-`) followed by its
//! continuation lines. A new bullet is recognised only while no code fence
//! and no drawer (`:NAME:` .. `:END:`) is open. Bytes before the first
//! bullet form the page prelude (depth `255`), which always exists, even
//! with length zero.
//!
//! The blocks tile the source: their byte ranges are contiguous, start at
//! zero and end at the source length, so concatenating them gives the
//! source back byte for byte.

use vstd::prelude::*;
use vstd::utf8::*;

use crate::text::{
    all_ascii, ascii_chars, in_class, is_ascii_alpha, is_ascii_alpha_exec, is_ascii_upper,
    is_ascii_upper_exec, lemma_ascii_decode, lemma_boundary_after_ascii, lemma_span_bounds,
    lemma_valid_slice, span, span_exec, trim_ascii_ws, trim_ws, utf8_to_string, ByteClass,
};

verus! {

/// Depth of the page-prelude block.
pub const PRELUDE_DEPTH: u8 = 255;

/// A Logseq-style drawer, kept as an opaque byte range of the source.
#[derive(Debug, Clone)]
pub struct RawDrawer {
    /// Drawer name without the surrounding colons (e.g. `LOGBOOK`).
    pub name: String,
    /// Absolute byte offset of the `:NAME:` line.
    pub byte_offset: usize,
    /// Length in bytes, through the `:END:` line.
    pub byte_length: usize,
}

/// A raw block as produced by [`segment`].
#[derive(Debug, Clone)]
pub struct RawBlock {
    /// TAB-indent count; `255` marks the page prelude.
    pub depth: u8,
    /// Absolute byte offset into the source.
    pub byte_offset: usize,
    /// Length in bytes, continuation lines included.
    pub byte_length: usize,
    /// The source bytes of the block, decoded.
    pub raw: String,
    /// `key:: value` properties found in the block, in order.
    pub properties: Vec<(String, String)>,
    /// Drawers found in the block, in order.
    pub drawers: Vec<RawDrawer>,
}

/// What a drawer is, as a mathematical value.
pub struct DrawerModel {
    pub name: Seq<char>,
    pub byte_offset: int,
    pub byte_length: int,
}

/// What a block is, as a mathematical value (its text aside).
pub struct BlockModel {
    pub depth: u8,
    pub byte_offset: int,
    pub byte_length: int,
    pub properties: Seq<(Seq<char>, Seq<char>)>,
    pub drawers: Seq<DrawerModel>,
}

impl View for RawDrawer {
    type V = DrawerModel;

    open spec fn view(&self) -> DrawerModel {
        DrawerModel {
            name: self.name@,
            byte_offset: self.byte_offset as int,
            byte_length: self.byte_length as int,
        }
    }
}

pub open spec fn props_view(p: Seq<(String, String)>) -> Seq<(Seq<char>, Seq<char>)> {
    p.map_values(|kv: (String, String)| (kv.0@, kv.1@))
}

pub open spec fn drawers_view(d: Seq<RawDrawer>) -> Seq<DrawerModel> {
    d.map_values(|x: RawDrawer| x@)
}

impl View for RawBlock {
    type V = BlockModel;

    open spec fn view(&self) -> BlockModel {
        BlockModel {
            depth: self.depth,
            byte_offset: self.byte_offset as int,
            byte_length: self.byte_length as int,
            properties: props_view(self.properties@),
            drawers: drawers_view(self.drawers@),
        }
    }
}

/// In-progress state of an open code fence.
#[derive(Clone, Copy, Debug)]
struct FenceState {
    marker: u8,
    count: usize,
}

/// In-progress state of an open drawer.
struct DrawerState {
    name: String,
    byte_offset: usize,
}

// ----------------------------------------------------------------------------
// Line classification
// ----------------------------------------------------------------------------

/// `Some(depth)` iff the line is a bullet: `depth` TABs (at most 254), then
/// `- ` or exactly `-`.
pub open spec fn bullet_depth(line: Seq<u8>) -> Option<u8> {
    let i = span(line, 0, ByteClass::Tab);
    if i > 254 {
        None
    } else if (line.len() - i == 1 && line[i] == 45) || (line.len() - i >= 2 && line[i] == 45
        && line[i + 1] == 32) {
        Some(i as u8)
    } else {
        None
    }
}

/// The rest of a line after the continuation prefix of a block at `depth`
/// (`depth` TABs and two spaces); the whole line for the prelude or an
/// empty line; `None` when the prefix does not match.
pub open spec fn continuation_rest(line: Seq<u8>, depth: u8) -> Option<Seq<u8>> {
    if depth == PRELUDE_DEPTH {
        Some(line)
    } else if line.len() == 0 {
        Some(line)
    } else if line.len() < depth + 2 {
        None
    } else if !(forall|i: int| 0 <= i < depth ==> #[trigger] line[i] == 9) {
        None
    } else if line[depth as int] != 32 || line[depth + 1] != 32 {
        None
    } else {
        Some(line.subrange(depth + 2, line.len() as int))
    }
}

/// A fence opener: 3 or more backticks or tildes at the start.
pub open spec fn fence_open(s: Seq<u8>) -> Option<(u8, int)> {
    if s.len() < 3 {
        None
    } else if s[0] != 96 && s[0] != 126 {
        None
    } else if span(s, 0, ByteClass::Exactly(s[0])) >= 3 {
        Some((s[0], span(s, 0, ByteClass::Exactly(s[0]))))
    } else {
        None
    }
}

/// A fence closer: once trimmed, at least `count` bytes, all `marker`.
pub open spec fn fence_close(s: Seq<u8>, marker: u8, count: int) -> bool {
    let t = trim_ws(s);
    t.len() >= count && forall|j: int| 0 <= j < t.len() ==> #[trigger] t[j] == marker
}

pub open spec fn end_name() -> Seq<u8> {
    seq![69u8, 78u8, 68u8]
}

pub open spec fn end_marker() -> Seq<u8> {
    seq![58u8, 69u8, 78u8, 68u8, 58u8]
}

/// A drawer opener: once trimmed, `:NAME:` with NAME one or more ASCII
/// uppercase letters, other than `END`.
pub open spec fn drawer_open(s: Seq<u8>) -> Option<Seq<char>> {
    let t = trim_ws(s);
    if t.len() < 3 {
        None
    } else if t[0] != 58 || t[t.len() - 1] != 58 {
        None
    } else if !(forall|j: int| 1 <= j < t.len() - 1 ==> is_ascii_upper(#[trigger] t[j])) {
        None
    } else if t.subrange(1, t.len() - 1) == end_name() {
        None
    } else {
        Some(ascii_chars(t.subrange(1, t.len() - 1)))
    }
}

/// A `key:: value` property line: the key is `[A-Za-z][A-Za-z0-9._-]*`,
/// then `::`, then an optional space, then the value (one trailing `\r`
/// dropped).
pub open spec fn property(s: Seq<u8>) -> Option<(Seq<char>, Seq<char>)> {
    if s.len() == 0 {
        None
    } else if !is_ascii_alpha(s[0]) {
        None
    } else {
        let i = span(s, 1, ByteClass::KeyChar);
        if i >= s.len() - 1 {
            None
        } else if s[i] != 58 || s[i + 1] != 58 {
            None
        } else {
            let j = if i + 2 < s.len() && s[i + 2] == 32 {
                i + 3
            } else {
                i + 2
            };
            let v0 = s.subrange(j, s.len() as int);
            let v = if v0.len() > 0 && v0.last() == 13 {
                v0.drop_last()
            } else {
                v0
            };
            if valid_utf8(v) {
                Some((ascii_chars(s.subrange(0, i)), decode_utf8(v)))
            } else {
                None
            }
        }
    }
}

// ----------------------------------------------------------------------------
// The segmenter as a fold over lines
// ----------------------------------------------------------------------------

/// State between two lines.
pub struct SegState {
    pub done: Seq<BlockModel>,
    pub cur: BlockModel,
    pub fence: Option<(u8, int)>,
    pub drawer: Option<(Seq<char>, int)>,
}

pub open spec fn prelude_model(offset: int) -> BlockModel {
    BlockModel {
        depth: PRELUDE_DEPTH,
        byte_offset: offset,
        byte_length: 0,
        properties: seq![],
        drawers: seq![],
    }
}

pub open spec fn initial_state() -> SegState {
    SegState { done: seq![], cur: prelude_model(0), fence: None, drawer: None }
}

pub open spec fn grown(b: BlockModel, n: int) -> BlockModel {
    BlockModel {
        depth: b.depth,
        byte_offset: b.byte_offset,
        byte_length: b.byte_length + n,
        properties: b.properties,
        drawers: b.drawers,
    }
}

pub open spec fn with_drawer(b: BlockModel, d: DrawerModel) -> BlockModel {
    BlockModel {
        depth: b.depth,
        byte_offset: b.byte_offset,
        byte_length: b.byte_length,
        properties: b.properties,
        drawers: b.drawers.push(d),
    }
}

pub open spec fn with_property(b: BlockModel, p: (Seq<char>, Seq<char>)) -> BlockModel {
    BlockModel {
        depth: b.depth,
        byte_offset: b.byte_offset,
        byte_length: b.byte_length,
        properties: b.properties.push(p),
        drawers: b.drawers,
    }
}

/// The continuation-line case, with the grown current block `cur`.
pub open spec fn continue_line(
    st: SegState,
    cur: BlockModel,
    line: Seq<u8>,
    ls: int,
    nx: int,
) -> SegState {
    match st.fence {
        Some(f) => {
            let closes = match continuation_rest(line, cur.depth) {
                Some(a) => fence_close(a, f.0, f.1),
                None => false,
            };
            SegState {
                done: st.done,
                cur,
                fence: if closes {
                    None
                } else {
                    st.fence
                },
                drawer: st.drawer,
            }
        },
        None => match st.drawer {
            Some(dr) => {
                let trimmed = match continuation_rest(line, cur.depth) {
                    Some(a) => trim_ws(a),
                    None => line,
                };
                if trimmed == end_marker() {
                    SegState {
                        done: st.done,
                        cur: with_drawer(
                            cur,
                            DrawerModel { name: dr.0, byte_offset: dr.1, byte_length: nx - dr.1 },
                        ),
                        fence: None,
                        drawer: None,
                    }
                } else {
                    SegState { done: st.done, cur, fence: None, drawer: st.drawer }
                }
            },
            None => match continuation_rest(line, cur.depth) {
                Some(a) => if fence_open(a) is Some {
                    SegState { done: st.done, cur, fence: fence_open(a), drawer: None }
                } else if drawer_open(a) is Some {
                    SegState {
                        done: st.done,
                        cur,
                        fence: None,
                        drawer: Some((drawer_open(a).unwrap(), ls)),
                    }
                } else if property(a) is Some {
                    SegState {
                        done: st.done,
                        cur: with_property(cur, property(a).unwrap()),
                        fence: None,
                        drawer: None,
                    }
                } else {
                    SegState { done: st.done, cur, fence: None, drawer: None }
                },
                None => SegState { done: st.done, cur, fence: None, drawer: None },
            },
        },
    }
}

/// Process the line `[ls, le)` whose successor starts at `nx`.
pub open spec fn step(src: Seq<u8>, st: SegState, ls: int, le: int, nx: int) -> SegState {
    let line = src.subrange(ls, le);
    if st.fence is None && st.drawer is None && bullet_depth(line) is Some {
        let d = bullet_depth(line).unwrap();
        let p = d + 2;
        SegState {
            done: st.done.push(st.cur),
            cur: BlockModel {
                depth: d,
                byte_offset: ls,
                byte_length: nx - ls,
                properties: seq![],
                drawers: seq![],
            },
            fence: if line.len() >= p {
                fence_open(line.subrange(p, line.len() as int))
            } else {
                None
            },
            drawer: None,
        }
    } else {
        continue_line(st, grown(st.cur, nx - ls), line, ls, nx)
    }
}

/// The end of the line that starts at `pos` (exclusive of its `\n`).
pub open spec fn line_end(src: Seq<u8>, pos: int) -> int {
    span(src, pos, ByteClass::NonNewline)
}

/// Where the line after the one at `pos` starts.
pub open spec fn next_line(src: Seq<u8>, pos: int) -> int {
    let le = line_end(src, pos);
    if pos <= le < src.len() {
        le + 1
    } else {
        src.len() as int
    }
}

/// Fold `step` over the lines of `src` from byte `pos` on.
pub open spec fn seg_from(src: Seq<u8>, pos: int, st: SegState) -> SegState
    decreases src.len() - pos,
{
    if 0 <= pos < src.len() {
        seg_from(src, next_line(src, pos), step(src, st, pos, line_end(src, pos), next_line(src, pos)))
    } else {
        st
    }
}

/// End of input: close an open drawer through EOF and emit the last block.
pub open spec fn finish(src: Seq<u8>, st: SegState) -> Seq<BlockModel> {
    let cur = match st.drawer {
        Some(dr) => with_drawer(
            st.cur,
            DrawerModel { name: dr.0, byte_offset: dr.1, byte_length: src.len() - dr.1 },
        ),
        None => st.cur,
    };
    st.done.push(cur)
}

/// The blocks that `segment` produces for `src`.
pub open spec fn segment_model(src: Seq<u8>) -> Seq<BlockModel> {
    finish(src, seg_from(src, 0, initial_state()))
}

/// The byte ranges of `blocks` are contiguous from 0 to `n`.
pub open spec fn tiles(blocks: Seq<RawBlock>, n: int) -> bool {
    &&& blocks.len() >= 1
    &&& blocks[0].byte_offset == 0
    &&& forall|i: int|
        0 <= i < blocks.len() - 1 ==> #[trigger] blocks[i].byte_offset + blocks[i].byte_length
            == blocks[i + 1].byte_offset
    &&& blocks.last().byte_offset + blocks.last().byte_length == n
}

/// Every drawer lies inside the byte range of its block.
pub open spec fn drawers_inside(b: RawBlock) -> bool {
    forall|k: int|
        0 <= k < b.drawers@.len() ==> b.byte_offset <= (#[trigger] b.drawers@[k]).byte_offset
            && b.drawers@[k].byte_offset + b.drawers@[k].byte_length <= b.byte_offset
            + b.byte_length
}

/// A drawer name: one or more ASCII upper-case letters, other than `END`.
pub open spec fn drawer_name_ok(n: Seq<char>) -> bool {
    &&& n.len() > 0
    &&& forall|j: int| 0 <= j < n.len() ==> 'A' <= #[trigger] n[j] <= 'Z'
    &&& n != seq!['E', 'N', 'D']
}

/// Every drawer of `b` has a proper name.
pub open spec fn drawers_named(b: RawBlock) -> bool {
    forall|k: int| 0 <= k < b.drawers@.len() ==> drawer_name_ok(#[trigger] b.drawers@[k].name@)
}

/// The line of `src` that starts at `off`, without its newline.
pub open spec fn line_at(src: Seq<u8>, off: int) -> Seq<u8> {
    src.subrange(off, line_end(src, off))
}

/// `src` opens with a bullet line.
pub open spec fn opens_with_bullet(src: Seq<u8>) -> bool {
    src.len() > 0 && bullet_depth(line_at(src, 0)) is Some
}

proof fn lemma_bullet_depth_bound(line: Seq<u8>)
    ensures
        bullet_depth(line) matches Some(d) ==> d < PRELUDE_DEPTH,
{
    lemma_span_bounds(line, 0, ByteClass::Tab);
}

proof fn lemma_drawer_name(s: Seq<u8>)
    ensures
        drawer_open(s) matches Some(n) ==> drawer_name_ok(n),
{
    if let Some(n) = drawer_open(s) {
        let t = trim_ws(s);
        let inner = t.subrange(1, t.len() - 1);
        assert(n == ascii_chars(inner));
        assert forall|j: int| 0 <= j < n.len() implies 'A' <= #[trigger] n[j] <= 'Z' by {
            assert(inner[j] == t[j + 1]);
            assert(is_ascii_upper(t[j + 1]));
        }
        if n == seq!['E', 'N', 'D'] {
            assert(inner.len() == 3);
            assert(inner[0] as char == 'E');
            assert(inner[1] as char == 'N');
            assert(inner[2] as char == 'D');
            assert(inner =~= end_name());
        }
    }
}

// ----------------------------------------------------------------------------
// Executable helpers
// ----------------------------------------------------------------------------

fn new_prelude(offset: usize) -> (b: RawBlock)
    ensures
        b@ == prelude_model(offset as int),
        b.raw@ == Seq::<char>::empty(),
        b.drawers@.len() == 0,
        b.byte_offset == offset,
        b.byte_length == 0,
        b.depth == PRELUDE_DEPTH,
{
    let b = RawBlock {
        depth: PRELUDE_DEPTH,
        byte_offset: offset,
        byte_length: 0,
        raw: String::new(),
        properties: Vec::new(),
        drawers: Vec::new(),
    };
    assert(b@.properties =~= Seq::<(Seq<char>, Seq<char>)>::empty());
    assert(b@.drawers =~= Seq::<DrawerModel>::empty());
    b
}

fn finalize(block: &mut RawBlock, source: &[u8])
    requires
        old(block).byte_offset + old(block).byte_length <= source@.len(),
        valid_utf8(
            source@.subrange(
                old(block).byte_offset as int,
                old(block).byte_offset + old(block).byte_length,
            ),
        ),
    ensures
        final(block)@ == old(block)@,
        final(block).byte_offset == old(block).byte_offset,
        final(block).byte_length == old(block).byte_length,
        final(block).drawers@ == old(block).drawers@,
        final(block).raw@ == decode_utf8(
            source@.subrange(
                old(block).byte_offset as int,
                old(block).byte_offset + old(block).byte_length,
            ),
        ),
        encode_utf8(final(block).raw@) == source@.subrange(
            old(block).byte_offset as int,
            old(block).byte_offset + old(block).byte_length,
        ),
{
    proof {
        decode_utf8_encode_utf8(
            source@.subrange(block.byte_offset as int, block.byte_offset + block.byte_length),
        );
    }
    let n = source.len();
    assert(block.byte_offset + block.byte_length <= n);
    let slice = &source[block.byte_offset..block.byte_offset + block.byte_length];
    let s = utf8_to_string(slice);
    block.raw = s.unwrap();
}

fn detect_bullet_depth(line: &[u8]) -> (r: Option<u8>)
    ensures
        r == bullet_depth(line@),
{
    let i = span_exec(line, 0, ByteClass::Tab);
    if i > 254 {
        return None;
    }
    if (line.len() - i == 1 && line[i] == 45) || (line.len() - i >= 2 && line[i] == 45 && line[i
        + 1] == 32) {
        Some(i as u8)
    } else {
        None
    }
}

fn strip_continuation_prefix(line: &[u8], depth: u8) -> (r: Option<&[u8]>)
    ensures
        match r {
            Some(a) => continuation_rest(line@, depth) == Some(a@),
            None => continuation_rest(line@, depth) is None,
        },
{
    if depth == PRELUDE_DEPTH {
        return Some(line);
    }
    let d = depth as usize;
    if line.len() == 0 {
        return Some(line);
    }
    if line.len() < d + 2 {
        return None;
    }
    let mut i: usize = 0;
    while i < d
        invariant
            d == depth,
            depth != PRELUDE_DEPTH,
            d + 2 <= line@.len(),
            i <= d,
            forall|j: int| 0 <= j < i ==> #[trigger] line@[j] == 9,
        decreases d - i,
    {
        if line[i] != 9 {
            assert(line@[i as int] != 9);
            return None;
        }
        i = i + 1;
    }
    if line[d] != 32 || line[d + 1] != 32 {
        return None;
    }
    Some(&line[d + 2..line.len()])
}

fn detect_fence_open(s: &[u8]) -> (r: Option<FenceState>)
    ensures
        match r {
            Some(f) => fence_open(s@) == Some((f.marker, f.count as int)),
            None => fence_open(s@) is None,
        },
{
    if s.len() < 3 {
        return None;
    }
    let m = s[0];
    if m != 96 && m != 126 {
        return None;
    }
    let count = span_exec(s, 0, ByteClass::Exactly(m));
    if count >= 3 {
        Some(FenceState { marker: m, count })
    } else {
        None
    }
}

fn is_fence_close(s: &[u8], f: FenceState) -> (r: bool)
    ensures
        r == fence_close(s@, f.marker, f.count as int),
{
    let t = trim_ascii_ws(s);
    if t.len() < f.count {
        return false;
    }
    let mut j: usize = 0;
    while j < t.len()
        invariant
            j <= t@.len(),
            t@ == trim_ws(s@),
            t@.len() >= f.count,
            forall|k: int| 0 <= k < j ==> #[trigger] t@[k] == f.marker,
        decreases t@.len() - j,
    {
        if t[j] != f.marker {
            assert(t@[j as int] != f.marker);
            return false;
        }
        j = j + 1;
    }
    true
}

fn is_end_marker(t: &[u8]) -> (r: bool)
    ensures
        r == (t@ == end_marker()),
{
    let r = t.len() == 5 && t[0] == 58 && t[1] == 69 && t[2] == 78 && t[3] == 68 && t[4] == 58;
    if r {
        assert(t@ =~= end_marker());
    }
    r
}

fn detect_drawer_open(s: &[u8]) -> (r: Option<String>)
    ensures
        match r {
            Some(n) => drawer_open(s@) == Some(n@),
            None => drawer_open(s@) is None,
        },
{
    let t = trim_ascii_ws(s);
    if t.len() < 3 {
        return None;
    }
    if t[0] != 58 || t[t.len() - 1] != 58 {
        return None;
    }
    let n = t.len();
    let inner = &t[1..n - 1];
    let mut j: usize = 0;
    while j < inner.len()
        invariant
            inner@ == t@.subrange(1, n - 1),
            n == t@.len(),
            n >= 3,
            t@ == trim_ws(s@),
            t@[0] == 58 && t@[n - 1] == 58,
            j <= inner@.len(),
            forall|k: int| 1 <= k < j + 1 ==> is_ascii_upper(#[trigger] t@[k]),
        decreases inner@.len() - j,
    {
        if !is_ascii_upper_exec(inner[j]) {
            assert(t@[j + 1] == inner@[j as int]);
            assert(!is_ascii_upper(t@[j + 1]));
            return None;
        }
        assert(t@[j + 1] == inner@[j as int]);
        j = j + 1;
    }
    if inner.len() == 3 && inner[0] == 69 && inner[1] == 78 && inner[2] == 68 {
        assert(inner@ =~= end_name());
        return None;
    }
    assert(inner@ != end_name()) by {
        if inner@ == end_name() {
            assert(inner@[0] == 69 && inner@[1] == 78 && inner@[2] == 68);
        }
    }
    proof {
        assert(all_ascii(inner@)) by {
            assert forall|k: int| 0 <= k < inner@.len() implies #[trigger] inner@[k] < 128 by {
                assert(is_ascii_upper(t@[k + 1]));
            }
        }
        lemma_ascii_decode(inner@);
    }
    let name = utf8_to_string(inner);
    name
}

fn detect_property(s: &[u8]) -> (r: Option<(String, String)>)
    ensures
        match r {
            Some(kv) => property(s@) == Some((kv.0@, kv.1@)),
            None => property(s@) is None,
        },
{
    if s.len() == 0 {
        return None;
    }
    if !is_ascii_alpha_exec(s[0]) {
        return None;
    }
    let i = span_exec(s, 1, ByteClass::KeyChar);
    let key_end = i;
    if i >= s.len() - 1 {
        return None;
    }
    if s[i] != 58 || s[i + 1] != 58 {
        return None;
    }
    let mut j = i + 2;
    if j < s.len() && s[j] == 32 {
        j = j + 1;
    }
    let key_bytes = &s[0..key_end];
    proof {
        lemma_span_bounds(s@, 1, ByteClass::KeyChar);
        assert(all_ascii(key_bytes@)) by {
            assert forall|k: int| 0 <= k < key_bytes@.len() implies #[trigger] key_bytes@[k]
                < 128 by {
                if k > 0 {
                    assert(in_class(s@[k], ByteClass::KeyChar));
                }
            }
        }
        lemma_ascii_decode(key_bytes@);
    }
    let key = match utf8_to_string(key_bytes) {
        Some(k) => k,
        None => return None,
    };
    let mut value_slice = &s[j..s.len()];
    if value_slice.len() > 0 && value_slice[value_slice.len() - 1] == 13 {
        value_slice = &value_slice[0..value_slice.len() - 1];
    }
    let ghost v0 = s@.subrange(j as int, s@.len() as int);
    assert(value_slice@ == (if v0.len() > 0 && v0.last() == 13 {
        v0.drop_last()
    } else {
        v0
    }));
    let value = match utf8_to_string(value_slice) {
        Some(v) => v,
        None => return None,
    };
    Some((key, value))
}

/// A position where a line starts (or the end of the source).
pub open spec fn at_line_start(src: Seq<u8>, p: int) -> bool {
    p == 0 || p == src.len() || (0 < p <= src.len() && src[p - 1] == 10)
}

proof fn lemma_line_start_boundary(src: Seq<u8>, p: int)
    requires
        valid_utf8(src),
        0 <= p <= src.len(),
        at_line_start(src, p),
    ensures
        is_char_boundary(src, p),
{
    is_char_boundary_start_end_of_seq(src);
    if 0 < p < src.len() {
        lemma_boundary_after_ascii(src, p - 1);
    }
}

/// The model of the segmenter's state held in executable form.
spec fn state_view(
    blocks: Seq<RawBlock>,
    cur: RawBlock,
    fence: Option<FenceState>,
    drawer: Option<DrawerState>,
) -> SegState {
    SegState {
        done: blocks.map_values(|b: RawBlock| b@),
        cur: cur@,
        fence: match fence {
            Some(f) => Some((f.marker, f.count as int)),
            None => None,
        },
        drawer: match drawer {
            Some(d) => Some((d.name@, d.byte_offset as int)),
            None => None,
        },
    }
}

/// Segment a markdown source buffer into raw blocks.
///
/// The source must be UTF-8 (every block's text is decoded from it). The
/// result is exactly [`segment_model`], each block's text is the decoding of
/// its byte range, the ranges tile the source, the first block is the
/// prelude, and every drawer lies inside its block.
#[verifier::spinoff_prover]
#[verifier::rlimit(50)]
pub fn segment(source: &[u8]) -> (blocks: Vec<RawBlock>)
    requires
        valid_utf8(source@),
    ensures
        blocks@.len() == segment_model(source@).len(),
        forall|i: int| 0 <= i < blocks@.len() ==> (#[trigger] blocks@[i])@ == segment_model(source@)[i],
        forall|i: int|
            0 <= i < blocks@.len() ==> (#[trigger] blocks@[i]).raw@ == decode_utf8(
                source@.subrange(
                    blocks@[i].byte_offset as int,
                    blocks@[i].byte_offset + blocks@[i].byte_length,
                ),
            ),
        forall|i: int|
            0 <= i < blocks@.len() ==> encode_utf8((#[trigger] blocks@[i]).raw@) == source@.subrange(
                blocks@[i].byte_offset as int,
                blocks@[i].byte_offset + blocks@[i].byte_length,
            ),
        tiles(blocks@, source@.len() as int),
        blocks@[0].depth == PRELUDE_DEPTH,
        blocks@[0].byte_length == 0 <==> (source@.len() == 0 || opens_with_bullet(source@)),
        source@.len() == 0 ==> blocks@.len() == 1,
        forall|i: int|
            1 <= i < blocks@.len() ==> (#[trigger] blocks@[i]).depth < PRELUDE_DEPTH && bullet_depth(
                line_at(source@, blocks@[i].byte_offset as int),
            ) == Some(blocks@[i].depth),
        forall|i: int| 0 <= i < blocks@.len() ==> drawers_inside(#[trigger] blocks@[i]),
        forall|i: int| 0 <= i < blocks@.len() ==> drawers_named(#[trigger] blocks@[i]),
{
    let ghost src = source@;
    let mut blocks: Vec<RawBlock> = Vec::new();
    let mut current = new_prelude(0);
    let mut fence: Option<FenceState> = None;
    let mut drawer: Option<DrawerState> = None;
    let mut line_start: usize = 0;

    proof {
        assert(state_view(blocks@, current, fence, drawer) == initial_state()) by {
            assert(blocks@.map_values(|b: RawBlock| b@) =~= Seq::<BlockModel>::empty());
        }
    }

    while line_start < source.len()
        invariant
            src == source@,
            valid_utf8(src),
            line_start <= src.len(),
            at_line_start(src, line_start as int),
            at_line_start(src, current.byte_offset as int),
            current.byte_offset + current.byte_length == line_start,
            seg_from(src, line_start as int, state_view(blocks@, current, fence, drawer))
                == seg_from(src, 0, initial_state()),
            blocks@.len() == 0 ==> current.byte_offset == 0 && current.depth == PRELUDE_DEPTH,
            blocks@.len() > 0 ==> blocks@[0].byte_offset == 0 && blocks@[0].depth
                == PRELUDE_DEPTH,
            blocks@.len() > 0 ==> blocks@.last().byte_offset + blocks@.last().byte_length
                == current.byte_offset,
            forall|i: int|
                0 <= i < blocks@.len() - 1 ==> #[trigger] blocks@[i].byte_offset
                    + blocks@[i].byte_length == blocks@[i + 1].byte_offset,
            forall|i: int|
                0 <= i < blocks@.len() ==> (#[trigger] blocks@[i]).raw@ == decode_utf8(
                    src.subrange(
                        blocks@[i].byte_offset as int,
                        blocks@[i].byte_offset + blocks@[i].byte_length,
                    ),
                ),
            forall|i: int|
                0 <= i < blocks@.len() ==> encode_utf8((#[trigger] blocks@[i]).raw@) == src.subrange(
                    blocks@[i].byte_offset as int,
                    blocks@[i].byte_offset + blocks@[i].byte_length,
                ),
            forall|i: int| 0 <= i < blocks@.len() ==> drawers_inside(#[trigger] blocks@[i]),
            drawers_inside(current),
            drawer matches Some(d) ==> current.byte_offset <= d.byte_offset <= line_start,
            forall|i: int| 0 <= i < blocks@.len() ==> drawers_named(#[trigger] blocks@[i]),
            drawers_named(current),
            drawer matches Some(d) ==> drawer_name_ok(d.name@),
            line_start == 0 ==> blocks@.len() == 0 && fence is None && drawer is None
                && current.byte_length == 0,
            blocks@.len() > 0 ==> (blocks@[0].byte_length == 0 <==> opens_with_bullet(src)),
            blocks@.len() == 0 && line_start > 0 ==> current.byte_length > 0 && !opens_with_bullet(
                src,
            ),
            blocks@.len() > 0 ==> current.depth < PRELUDE_DEPTH && bullet_depth(
                line_at(src, current.byte_offset as int),
            ) == Some(current.depth),
            forall|i: int|
                1 <= i < blocks@.len() ==> (#[trigger] blocks@[i]).depth < PRELUDE_DEPTH
                    && bullet_depth(line_at(src, blocks@[i].byte_offset as int)) == Some(
                    blocks@[i].depth,
                ),
        decreases src.len() - line_start,
    {
        let ghost st = state_view(blocks@, current, fence, drawer);
        let nl_end = span_exec(source, line_start, ByteClass::NonNewline);
        let line_end: usize;
        let line_end_with_nl: usize;
        if nl_end < source.len() {
            line_end = nl_end;
            line_end_with_nl = nl_end + 1;
        } else {
            line_end = source.len();
            line_end_with_nl = source.len();
        }
        let ghost le = line_end_fn(src, line_start as int);
        let ghost nx = next_line(src, line_start as int);
        assert(line_end == le && line_end_with_nl == nx);
        proof {
            lemma_span_bounds(src, line_start as int, ByteClass::NonNewline);
        }
        let line = &source[line_start..line_end];
        let bullet = if fence.is_none() && drawer.is_none() {
            detect_bullet_depth(line)
        } else {
            None
        };
        match bullet {
            Some(depth) => {
                proof {
                    lemma_line_start_boundary(src, current.byte_offset as int);
                    lemma_line_start_boundary(src, line_start as int);
                    lemma_valid_slice(
                        src,
                        current.byte_offset as int,
                        current.byte_offset + current.byte_length,
                    );
                }
                finalize(&mut current, source);
                blocks.push(current);
                current = RawBlock {
                    depth,
                    byte_offset: line_start,
                    byte_length: line_end_with_nl - line_start,
                    raw: String::new(),
                    properties: Vec::new(),
                    drawers: Vec::new(),
                };
                proof {
                    assert(line@ == line_at(src, line_start as int));
                    lemma_bullet_depth_bound(line@);
                }
                let prefix_len = depth as usize + 2;
                if line.len() >= prefix_len {
                    let after_dash = &line[prefix_len..line.len()];
                    fence = detect_fence_open(after_dash);
                }
                proof {
                    assert(current@.properties =~= Seq::<(Seq<char>, Seq<char>)>::empty());
                    assert(current@.drawers =~= Seq::<DrawerModel>::empty());
                    assert(blocks@.map_values(|b: RawBlock| b@) =~= st.done.push(st.cur));
                }
            },
            None => {
                current.byte_length = current.byte_length + (line_end_with_nl - line_start);
                match fence {
                    Some(f) => {
                        let after = strip_continuation_prefix(line, current.depth);
                        match after {
                            Some(a) => {
                                if is_fence_close(a, f) {
                                    fence = None;
                                }
                            },
                            None => {},
                        }
                    },
                    None => {
                        match drawer {
                            Some(d) => {
                                let after = strip_continuation_prefix(line, current.depth);
                                let trimmed = match after {
                                    Some(a) => trim_ascii_ws(a),
                                    None => line,
                                };
                                if is_end_marker(trimmed) {
                                    let ghost old_drawers = current.drawers@;
                                    current.drawers.push(
                                        RawDrawer {
                                            name: d.name,
                                            byte_offset: d.byte_offset,
                                            byte_length: line_end_with_nl - d.byte_offset,
                                        },
                                    );
                                    drawer = None;
                                    proof {
                                        assert(drawers_view(current.drawers@) =~= drawers_view(
                                            old_drawers,
                                        ).push(current.drawers@.last()@));
                                    }
                                } else {
                                    drawer = Some(d);
                                }
                            },
                            None => {
                                let after = strip_continuation_prefix(line, current.depth);
                                match after {
                                    Some(a) => {
                                        let fo = detect_fence_open(a);
                                        if fo.is_some() {
                                            fence = fo;
                                        } else {
                                            let dn = detect_drawer_open(a);
                                            match dn {
                                                Some(name) => {
                                                    proof {
                                                        lemma_drawer_name(a@);
                                                    }
                                                    drawer = Some(
                                                        DrawerState {
                                                            name,
                                                            byte_offset: line_start,
                                                        },
                                                    );
                                                },
                                                None => {
                                                    let pr = detect_property(a);
                                                    match pr {
                                                        Some(kv) => {
                                                            let ghost old_props =
                                                                current.properties@;
                                                            current.properties.push(kv);
                                                            proof {
                                                                assert(props_view(
                                                                    current.properties@,
                                                                ) =~= props_view(
                                                                    old_props,
                                                                ).push(
                                                                    (
                                                                        current.properties@.last().0@,
                                                                        current.properties@.last().1@,
                                                                    ),
                                                                ));
                                                            }
                                                        },
                                                        None => {},
                                                    }
                                                },
                                            }
                                        }
                                    },
                                    None => {},
                                }
                            },
                        }
                    },
                }
            },
        }
        proof {
            assert(state_view(blocks@, current, fence, drawer) == step(
                src,
                st,
                line_start as int,
                le,
                nx,
            ));
        }
        line_start = line_end_with_nl;
    }

    // EOF: close a drawer left open, then emit the last block.
    let ghost st = state_view(blocks@, current, fence, drawer);
    match drawer {
        Some(d) => {
            let ghost old_drawers = current.drawers@;
            current.drawers.push(
                RawDrawer {
                    name: d.name,
                    byte_offset: d.byte_offset,
                    byte_length: source.len() - d.byte_offset,
                },
            );
            proof {
                assert(drawers_view(current.drawers@) =~= drawers_view(old_drawers).push(
                    current.drawers@.last()@,
                ));
            }
        },
        None => {},
    }
    proof {
        lemma_line_start_boundary(src, current.byte_offset as int);
        lemma_line_start_boundary(src, line_start as int);
        lemma_valid_slice(src, current.byte_offset as int, current.byte_offset + current.byte_length);
    }
    finalize(&mut current, source);
    blocks.push(current);
    proof {
        assert(seg_from(src, line_start as int, st) == st);
        assert(blocks@.map_values(|b: RawBlock| b@) =~= segment_model(src));
        assert forall|i: int| 0 <= i < blocks@.len() implies (#[trigger] blocks@[i])@
            == segment_model(src)[i] by {
            assert(blocks@.map_values(|b: RawBlock| b@)[i] == blocks@[i]@);
        }
    }
    blocks
}

pub open spec fn line_end_fn(src: Seq<u8>, pos: int) -> int {
    line_end(src, pos)
}

} // verus!
