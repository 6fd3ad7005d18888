//! `RelativePath`: the storage form of a note's path, NFC-normalized and
//! joined with `/`.
//!
//! Paths are read as Unix paths: `/`-separated components, a leading `/`
//! for the root, empty components and inner `.` components dropped, a
//! leading `.` of a relative path kept as the current directory, `..` as
//! the parent directory. `from_filesystem` strips the root's components
//! from the absolute path's, accepts only plain components in what is
//! left (no `..`, `.` or root: no traversal), NFC-normalizes each and joins
//! them with `/`.

use unicode_normalization::UnicodeNormalization;
use vstd::prelude::*;

use crate::text::{chars_eq, chars_of, find_char, find_char_exec, string_of, sub_chars};

verus! {

/// The NFC form of a character sequence (Unicode canonical composition).
pub uninterp spec fn nfc_of(s: Seq<char>) -> Seq<char>;

/// NFC-normalize a string.
///
/// Calls `unicode_normalization::UnicodeNormalization::nfc` on the
/// characters of `s`; the result is the canonical composition of `s`, a
/// function of `s` alone.
#[verifier::external_body]
pub(crate) fn nfc(s: &[char]) -> (r: Vec<char>)
    ensures
        r@ == nfc_of(s@),
{
    s.iter().copied().nfc().collect()
}

#[derive(Debug, Clone, PartialEq, Eq, Hash)]
pub struct RelativePath(String);

#[derive(Debug, Clone, Copy, PartialEq, Eq, Structural)]
pub enum PathError {
    PathOutsideRoot,
    NonUtf8Path,
    UnexpectedPathComponent,
}

impl PathError {
    /// Human-readable description.
    pub fn message(&self) -> (r: &'static str)
        ensures
            r@ == match *self {
                PathError::PathOutsideRoot => "path is not under root"@,
                PathError::NonUtf8Path => "path component is not valid UTF-8"@,
                PathError::UnexpectedPathComponent => "unexpected path component (only Normal components allowed)"@,
            },
    {
        match self {
            PathError::PathOutsideRoot => "path is not under root",
            PathError::NonUtf8Path => "path component is not valid UTF-8",
            PathError::UnexpectedPathComponent => "unexpected path component (only Normal components allowed)",
        }
    }
}

impl View for RelativePath {
    type V = Seq<char>;

    closed spec fn view(&self) -> Seq<char> {
        self.0@
    }
}

/// One component of a path.
pub enum Comp {
    Root,
    Cur,
    Parent,
    Normal(Seq<char>),
}

/// The `/`-separated pieces of `s` (empty ones included).
pub open spec fn pieces(s: Seq<char>) -> Seq<Seq<char>>
    decreases s.len(),
{
    let k = find_char(s, 0, '/');
    if k < 0 || k >= s.len() {
        seq![s]
    } else {
        seq![s.take(k)] + pieces(s.skip(k + 1))
    }
}

pub open spec fn dot() -> Seq<char> {
    seq!['.']
}

pub open spec fn dotdot() -> Seq<char> {
    seq!['.', '.']
}

/// The components of the pieces `ps`; a `.` piece counts only when it is
/// the very first piece of a relative path.
pub open spec fn comps_of(ps: Seq<Seq<char>>, lead_dot: bool) -> Seq<Comp>
    decreases ps.len(),
{
    if ps.len() == 0 {
        seq![]
    } else {
        let p = ps[0];
        let rest = comps_of(ps.drop_first(), false);
        if p.len() == 0 {
            rest
        } else if p == dot() {
            if lead_dot {
                seq![Comp::Cur] + rest
            } else {
                rest
            }
        } else if p == dotdot() {
            seq![Comp::Parent] + rest
        } else {
            seq![Comp::Normal(p)] + rest
        }
    }
}

pub open spec fn components(s: Seq<char>) -> Seq<Comp> {
    if s.len() > 0 && s[0] == '/' {
        seq![Comp::Root] + comps_of(pieces(s.skip(1)), false)
    } else {
        comps_of(pieces(s), true)
    }
}

pub open spec fn all_normal(cs: Seq<Comp>) -> bool {
    forall|i: int| 0 <= i < cs.len() ==> (#[trigger] cs[i]) is Normal
}

/// Pieces joined with `/`.
pub open spec fn join_slash(ps: Seq<Seq<char>>) -> Seq<char>
    decreases ps.len(),
{
    if ps.len() == 0 {
        seq![]
    } else if ps.len() == 1 {
        ps[0]
    } else {
        join_slash(ps.drop_last()) + seq!['/'] + ps.last()
    }
}

/// The storage form of the plain components `cs`.
pub open spec fn storage_form(cs: Seq<Comp>) -> Seq<char> {
    join_slash(cs.map_values(|c: Comp| nfc_of(c->Normal_0)))
}

/// What `from_filesystem` gives for `abs` under `root`.
pub open spec fn relative_spec(abs: Seq<char>, root: Seq<char>) -> Result<Seq<char>, PathError> {
    let ac = components(abs);
    let rc = components(root);
    if rc.len() > ac.len() || ac.take(rc.len() as int) != rc {
        Err(PathError::PathOutsideRoot)
    } else if !all_normal(ac.skip(rc.len() as int)) {
        Err(PathError::UnexpectedPathComponent)
    } else {
        Ok(storage_form(ac.skip(rc.len() as int)))
    }
}

/// Executable form of a path component.
enum CompE {
    Root,
    Cur,
    Parent,
    Normal(Vec<char>),
}

impl View for CompE {
    type V = Comp;

    closed spec fn view(&self) -> Comp {
        match self {
            CompE::Root => Comp::Root,
            CompE::Cur => Comp::Cur,
            CompE::Parent => Comp::Parent,
            CompE::Normal(v) => Comp::Normal(v@),
        }
    }
}

spec fn comps_view(v: Seq<CompE>) -> Seq<Comp> {
    v.map_values(|c: CompE| c@)
}

/// `comps_of` over the pieces of `s[from..]`.
spec fn comps_from(s: Seq<char>, from: int, lead_dot: bool) -> Seq<Comp> {
    comps_of(pieces(s.skip(from)), lead_dot)
}

proof fn lemma_pieces_step(s: Seq<char>, from: int, k: int)
    requires
        0 <= from <= k <= s.len(),
        k == find_char(s, from, '/'),
    ensures
        k >= s.len() ==> pieces(s.skip(from)) == seq![s.subrange(from, k)],
        k < s.len() ==> pieces(s.skip(from)) == seq![s.subrange(from, k)] + pieces(s.skip(k + 1)),
{
    let t = s.skip(from);
    lemma_find_char_range(s, from);
    assert(find_char(t, 0, '/') == k - from) by {
        assert forall|j: int| 0 <= j < k - from implies #[trigger] t[j] != '/' by {
            lemma_find_char_before(s, from, k, j + from);
        }
        if k < s.len() {
            lemma_find_char_at(s, from);
        }
        crate::text::lemma_find_char(t, 0, k - from, '/');
    }
    assert(t.take(k - from) =~= s.subrange(from, k));
    if k < s.len() {
        assert(t.skip(k - from + 1) =~= s.skip(k + 1));
    } else {
        assert(t =~= s.subrange(from, k));
    }
}

proof fn lemma_find_char_before(s: Seq<char>, from: int, k: int, j: int)
    requires
        0 <= from <= j < k,
        k == find_char(s, from, '/'),
        k <= s.len(),
    ensures
        s[j] != '/',
    decreases j - from,
{
    if from < j {
        lemma_find_char_before(s, from + 1, k, j);
    }
}

proof fn lemma_find_char_at(s: Seq<char>, from: int)
    requires
        0 <= from <= s.len(),
        find_char(s, from, '/') < s.len(),
    ensures
        s[find_char(s, from, '/')] == '/',
    decreases s.len() - from,
{
    if from < s.len() && s[from] != '/' {
        lemma_find_char_at(s, from + 1);
    }
}

proof fn lemma_find_char_range(s: Seq<char>, from: int)
    requires
        0 <= from <= s.len(),
    ensures
        from <= find_char(s, from, '/') <= s.len(),
    decreases s.len() - from,
{
    if from < s.len() && s[from] != '/' {
        lemma_find_char_range(s, from + 1);
    }
}

/// The components of `s[from..]`, read as pieces.
fn comps_exec(s: &[char], from: usize, lead_dot: bool) -> (r: Vec<CompE>)
    requires
        from <= s@.len(),
    ensures
        comps_view(r@) == comps_from(s@, from as int, lead_dot),
    decreases s@.len() - from,
{
    let k = find_char_exec(s, from, '/');
    proof {
        lemma_pieces_step(s@, from as int, k as int);
    }
    let piece = sub_chars(s, from, k);
    let mut rest: Vec<CompE> = if k < s.len() {
        comps_exec(s, k + 1, false)
    } else {
        Vec::new()
    };
    let ghost ps = pieces(s@.skip(from as int));
    assert(ps[0] == piece@);
    assert(ps.len() >= 1);
    proof {
        if k < s@.len() {
            assert(ps.drop_first() =~= pieces(s@.skip(k + 1)));
        } else {
            assert(ps.drop_first() =~= Seq::<Seq<char>>::empty());
            assert(comps_view(rest@) =~= Seq::<Comp>::empty());
        }
    }
    let ghost tail = comps_of(ps.drop_first(), false);
    assert(comps_view(rest@) == tail);
    assert(comps_from(s@, from as int, lead_dot) == comps_of(ps, lead_dot));
    if piece.len() == 0 {
        rest
    } else if piece.len() == 1 && piece[0] == '.' {
        assert(piece@ =~= dot());
        if lead_dot {
            let ghost before = rest@;
            rest.insert(0, CompE::Cur);
            assert(comps_view(rest@) =~= seq![Comp::Cur] + comps_view(before));
        }
        rest
    } else if piece.len() == 2 && piece[0] == '.' && piece[1] == '.' {
        assert(piece@ =~= dotdot());
        assert(piece@ != dot());
        let ghost before = rest@;
        rest.insert(0, CompE::Parent);
        assert(comps_view(rest@) =~= seq![Comp::Parent] + comps_view(before));
        rest
    } else {
        assert(piece@ != dot()) by {
            if piece@ == dot() {
                assert(piece@.len() == 1);
            }
        }
        assert(piece@ != dotdot()) by {
            if piece@ == dotdot() {
                assert(piece@.len() == 2);
            }
        }
        let ghost before = rest@;
        let ghost pv = piece@;
        rest.insert(0, CompE::Normal(piece));
        assert(comps_view(rest@) =~= seq![Comp::Normal(pv)] + comps_view(before));
        rest
    }
}

fn components_exec(s: &[char]) -> (r: Vec<CompE>)
    ensures
        comps_view(r@) == components(s@),
{
    if s.len() > 0 && s[0] == '/' {
        let rest = comps_exec(s, 1, false);
        let mut r: Vec<CompE> = Vec::new();
        r.push(CompE::Root);
        let mut rest2 = rest;
        let ghost before = rest2@;
        r.append(&mut rest2);
        assert(comps_view(r@) =~= seq![Comp::Root] + comps_view(before));
        r
    } else {
        let r = comps_exec(s, 0, true);
        assert(s@.skip(0) =~= s@);
        r
    }
}

fn comp_eq(a: &CompE, b: &CompE) -> (r: bool)
    ensures
        r == (a@ == b@),
{
    match (a, b) {
        (CompE::Root, CompE::Root) => true,
        (CompE::Cur, CompE::Cur) => true,
        (CompE::Parent, CompE::Parent) => true,
        (CompE::Normal(x), CompE::Normal(y)) => chars_eq(x.as_slice(), y.as_slice()),
        _ => false,
    }
}

impl RelativePath {
    /// Build a `RelativePath` from an absolute path under `root`.
    ///
    /// Fails with `PathOutsideRoot` when the root's components are not a
    /// prefix of the path's, and with `UnexpectedPathComponent` when what
    /// is left holds anything but plain components.
    pub fn from_filesystem(abs: &str, root: &str) -> (r: Result<Self, PathError>)
        ensures
            match r {
                Ok(p) => relative_spec(abs@, root@) == Ok::<Seq<char>, PathError>(p@),
                Err(e) => relative_spec(abs@, root@) == Err::<Seq<char>, PathError>(e),
            },
    {
        let ac_chars = chars_of(abs);
        let rc_chars = chars_of(root);
        let ac = components_exec(ac_chars.as_slice());
        let rc = components_exec(rc_chars.as_slice());
        let ghost acv = comps_view(ac@);
        let ghost rcv = comps_view(rc@);
        if rc.len() > ac.len() {
            return Err(PathError::PathOutsideRoot);
        }
        let mut i: usize = 0;
        while i < rc.len()
            invariant
                rc@.len() <= ac@.len(),
                i <= rc@.len(),
                acv == comps_view(ac@),
                rcv == comps_view(rc@),
                acv == components(abs@),
                rcv == components(root@),
                forall|j: int| 0 <= j < i ==> acv[j] == rcv[j],
            decreases rc@.len() - i,
        {
            if !comp_eq(&ac[i], &rc[i]) {
                assert(acv.take(rcv.len() as int)[i as int] != rcv[i as int]);
                return Err(PathError::PathOutsideRoot);
            }
            i = i + 1;
        }
        assert(acv.take(rcv.len() as int) =~= rcv);
        let ghost rest = acv.skip(rcv.len() as int);
        let mut parts: Vec<char> = Vec::new();
        let ghost mut done: Seq<Seq<char>> = seq![];
        let mut j: usize = rc.len();
        while j < ac.len()
            invariant
                rc@.len() <= j <= ac@.len(),
                acv == comps_view(ac@),
                rcv == comps_view(rc@),
                acv == components(abs@),
                rcv == components(root@),
                acv.take(rcv.len() as int) == rcv,
                rest == acv.skip(rc@.len() as int),
                forall|k: int| 0 <= k < j - rc@.len() ==> (#[trigger] rest[k]) is Normal,
                done == rest.take(j - rc@.len()).map_values(|c: Comp| nfc_of(c->Normal_0)),
                parts@ == join_slash(done),
            decreases ac@.len() - j,
        {
            match &ac[j] {
                CompE::Normal(piece) => {
                    let n = nfc(piece.as_slice());
                    let ghost before = parts@;
                    if j > rc.len() {
                        parts.push('/');
                    }
                    let mut k: usize = 0;
                    while k < n.len()
                        invariant
                            k <= n@.len(),
                            parts@ == (if j > rc@.len() {
                                before + seq!['/']
                            } else {
                                before
                            }) + n@.take(k as int),
                        decreases n@.len() - k,
                    {
                        parts.push(n[k]);
                        k = k + 1;
                        assert(n@.take(k as int) =~= n@.take(k - 1).push(n@[k - 1]));
                    }
                    proof {
                        let nd = rest.take(j + 1 - rc@.len()).map_values(|c: Comp| nfc_of(c->Normal_0));
                        assert(rest[j - rc@.len()] == acv[j as int]);
                        assert(nd =~= done.push(nfc_of(piece@)));
                        assert(n@.take(n@.len() as int) =~= n@);
                        if j > rc@.len() {
                            assert(nd.drop_last() =~= done);
                        } else {
                            assert(done =~= Seq::<Seq<char>>::empty());
                        }
                        done = nd;
                    }
                },
                _ => {
                    assert(rest[j - rc@.len()] == acv[j as int]);
                    return Err(PathError::UnexpectedPathComponent);
                },
            }
            j = j + 1;
        }
        assert(rest.take(rest.len() as int) =~= rest);
        Ok(RelativePath(string_of(parts.as_slice())))
    }

    /// Trusting constructor for values read back from storage: no
    /// normalization.
    pub fn from_storage_str(s: &str) -> (r: Self)
        ensures
            r@ == s@,
    {
        RelativePath(s.to_owned())
    }

    /// The canonical `/`-separated string.
    pub fn as_str(&self) -> (r: &str)
        ensures
            r@ == self@,
    {
        self.0.as_str()
    }
}


/// `buf` with the relative piece `p` pushed as a path component (a `/` put
/// in between unless `buf` is empty or already ends with one).
pub open spec fn push_component(buf: Seq<char>, p: Seq<char>) -> Seq<char> {
    (if buf.len() > 0 && buf.last() != '/' {
        buf.push('/')
    } else {
        buf
    }) + p
}

/// `buf` with every piece of `ps` pushed, in order.
pub open spec fn push_all(buf: Seq<char>, ps: Seq<Seq<char>>) -> Seq<char>
    decreases ps.len(),
{
    if ps.len() == 0 {
        buf
    } else {
        push_all(push_component(buf, ps[0]), ps.drop_first())
    }
}

pub open spec fn filesystem_spec(rel: Seq<char>, root: Seq<char>) -> Seq<char> {
    if rel.len() == 0 {
        root
    } else {
        push_all(root, pieces(rel))
    }
}

impl RelativePath {
    /// Rebuild a native (Unix) path by pushing each `/`-separated
    /// component onto `root`.
    pub fn to_filesystem(&self, root: &str) -> (r: String)
        ensures
            r@ == filesystem_spec(self@, root@),
    {
        let rel = chars_of(self.as_str());
        let mut out = chars_of(root);
        if rel.len() == 0 {
            return string_of(out.as_slice());
        }
        let mut from: usize = 0;
        proof {
            assert(rel@.skip(0) =~= rel@);
        }
        loop
            invariant
                from <= rel@.len(),
                rel@ == self@,
                rel@.len() > 0,
                push_all(out@, pieces(rel@.skip(from as int))) == filesystem_spec(self@, root@),
            decreases rel@.len() - from,
        {
            let ghost left = pieces(rel@.skip(from as int));
            let k = find_char_exec(rel.as_slice(), from, '/');
            proof {
                lemma_pieces_step(rel@, from as int, k as int);
            }
            let ghost piece = rel@.subrange(from as int, k as int);
            let ghost target = push_component(out@, piece);
            if out.len() > 0 && out[out.len() - 1] != '/' {
                out.push('/');
            }
            let ghost base = out@;
            let mut i = from;
            while i < k
                invariant
                    from <= i <= k <= rel@.len(),
                    out@ == base + rel@.subrange(from as int, i as int),
                decreases k - i,
            {
                out.push(rel[i]);
                i = i + 1;
                assert(out@ =~= base + rel@.subrange(from as int, i as int));
            }
            assert(out@ =~= target);
            if k >= rel.len() {
                assert(left.drop_first() =~= Seq::<Seq<char>>::empty());
                assert(push_all(target, left.drop_first()) == target);
                return string_of(out.as_slice());
            }
            assert(left.drop_first() =~= pieces(rel@.skip(k + 1)));
            from = k + 1;
        }
    }
}


// ----------------------------------------------------------------------------
// Storage keys back and forth
// ----------------------------------------------------------------------------

/// A piece that reads back as one plain path component: non-empty, without
/// `/`, and neither `.` nor `..`.
pub open spec fn plain_piece(p: Seq<char>) -> bool {
    p.len() > 0 && !p.contains('/') && p != dot() && p != dotdot()
}

/// A storage key as `from_filesystem` makes them: `/`-separated plain
/// pieces, each already in NFC.
pub open spec fn storage_key(rel: Seq<char>) -> bool {
    forall|i: int|
        0 <= i < pieces(rel).len() ==> plain_piece(#[trigger] pieces(rel)[i]) && nfc_of(
            pieces(rel)[i],
        ) == pieces(rel)[i]
}

proof fn lemma_pieces_nonempty(s: Seq<char>)
    ensures
        pieces(s).len() >= 1,
    decreases s.len(),
{
}

proof fn lemma_pieces_no_slash(p: Seq<char>)
    requires
        !p.contains('/'),
    ensures
        pieces(p) == seq![p],
{
    assert forall|j: int| 0 <= j < p.len() implies #[trigger] p[j] != '/' by {
        if p[j] == '/' {
            assert(p.contains('/'));
        }
    }
    crate::text::lemma_find_char(p, 0, p.len() as int, '/');
}

/// Splitting at a `/` splits the pieces.
proof fn lemma_pieces_join(a: Seq<char>, b: Seq<char>)
    ensures
        pieces(a + seq!['/'] + b) == pieces(a) + pieces(b),
    decreases a.len(),
{
    let t = a + seq!['/'] + b;
    let k = find_char(a, 0, '/');
    lemma_find_char_range(a, 0);
    assert forall|j: int| 0 <= j < k implies #[trigger] t[j] != '/' by {
        lemma_find_char_before(a, 0, k, j);
    }
    if k < a.len() {
        lemma_find_char_at(a, 0);
        crate::text::lemma_find_char(t, 0, k, '/');
        assert(t.take(k) =~= a.take(k));
        assert(t.skip(k + 1) =~= a.skip(k + 1) + seq!['/'] + b);
        lemma_pieces_join(a.skip(k + 1), b);
        assert(pieces(t) =~= pieces(a) + pieces(b));
    } else {
        crate::text::lemma_find_char(t, 0, a.len() as int, '/');
        assert(t.take(a.len() as int) =~= a);
        assert(t.skip(a.len() as int + 1) =~= b);
        assert(pieces(t) =~= pieces(a) + pieces(b));
    }
}

proof fn lemma_comps_concat(ps: Seq<Seq<char>>, qs: Seq<Seq<char>>, lead_dot: bool)
    requires
        ps.len() > 0,
    ensures
        comps_of(ps + qs, lead_dot) == comps_of(ps, lead_dot) + comps_of(qs, false),
    decreases ps.len(),
{
    assert((ps + qs).drop_first() =~= ps.drop_first() + qs);
    assert((ps + qs)[0] == ps[0]);
    if ps.len() == 1 {
        assert(ps.drop_first() + qs =~= qs);
        assert(comps_of(ps.drop_first(), false) =~= Seq::<Comp>::empty());
    } else {
        lemma_comps_concat(ps.drop_first(), qs, false);
    }
    assert(comps_of(ps + qs, lead_dot) =~= comps_of(ps, lead_dot) + comps_of(qs, false));
}

proof fn lemma_pieces_empty()
    ensures
        pieces(Seq::<char>::empty()) == seq![Seq::<char>::empty()],
        comps_of(pieces(Seq::<char>::empty()), false) == Seq::<Comp>::empty(),
{
    lemma_pieces_no_slash(Seq::<char>::empty());
    assert(comps_of(seq![Seq::<char>::empty()].drop_first(), false) =~= Seq::<Comp>::empty());
}

/// The components of `a/b` are those of `a/` followed by those of `b`.
proof fn lemma_components_slash(a: Seq<char>, b: Seq<char>)
    ensures
        components(a + seq!['/'] + b) == components(a + seq!['/']) + comps_of(pieces(b), false),
        a.len() > 0 ==> components(a + seq!['/']) == components(a),
{
    let e = Seq::<char>::empty();
    let t = a + seq!['/'] + b;
    let u = a + seq!['/'];
    assert(u =~= a + seq!['/'] + e);
    lemma_pieces_empty();
    if a.len() > 0 && a[0] == '/' {
        let a1 = a.skip(1);
        assert(t.skip(1) =~= a1 + seq!['/'] + b);
        assert(u.skip(1) =~= a1 + seq!['/'] + e);
        lemma_pieces_join(a1, b);
        lemma_pieces_join(a1, e);
        lemma_pieces_nonempty(a1);
        lemma_comps_concat(pieces(a1), pieces(b), false);
        lemma_comps_concat(pieces(a1), pieces(e), false);
        assert(components(t) =~= components(u) + comps_of(pieces(b), false));
        assert(components(u) =~= components(a));
    } else if a.len() == 0 {
        assert(t.skip(1) =~= b);
        assert(u.skip(1) =~= e);
        assert(components(u) =~= seq![Comp::Root]);
        assert(components(t) =~= components(u) + comps_of(pieces(b), false));
    } else {
        lemma_pieces_join(a, b);
        lemma_pieces_join(a, e);
        lemma_pieces_nonempty(a);
        lemma_comps_concat(pieces(a), pieces(b), true);
        lemma_comps_concat(pieces(a), pieces(e), true);
        assert(components(t) =~= components(u) + comps_of(pieces(b), false));
        assert(components(u) =~= components(a));
    }
}

/// Pushing a plain piece adds one normal component.
proof fn lemma_push_component(buf: Seq<char>, p: Seq<char>)
    requires
        plain_piece(p),
    ensures
        components(push_component(buf, p)) == components(buf).push(Comp::Normal(p)),
{
    lemma_pieces_no_slash(p);
    assert(comps_of(seq![p].drop_first(), false) =~= Seq::<Comp>::empty());
    assert(comps_of(seq![p], false) =~= seq![Comp::Normal(p)]);
    if buf.len() > 0 && buf.last() != '/' {
        assert(push_component(buf, p) =~= buf + seq!['/'] + p);
        lemma_components_slash(buf, p);
    } else if buf.len() == 0 {
        assert(push_component(buf, p) =~= p);
        assert(p[0] != '/') by {
            assert(p.contains(p[0]));
        }
        assert(comps_of(seq![p], true) =~= seq![Comp::Normal(p)]);
        lemma_pieces_no_slash(buf);
        assert(comps_of(seq![buf].drop_first(), false) =~= Seq::<Comp>::empty());
        assert(components(buf) =~= Seq::<Comp>::empty());
    } else {
        let c = buf.drop_last();
        assert(buf =~= c + seq!['/']);
        assert(push_component(buf, p) =~= c + seq!['/'] + p);
        lemma_components_slash(c, p);
    }
    assert(components(push_component(buf, p)) =~= components(buf).push(Comp::Normal(p)));
}

proof fn lemma_push_all(buf: Seq<char>, ps: Seq<Seq<char>>)
    requires
        forall|i: int| 0 <= i < ps.len() ==> plain_piece(#[trigger] ps[i]),
    ensures
        components(push_all(buf, ps)) == components(buf) + ps.map_values(|p: Seq<char>| Comp::Normal(p)),
    decreases ps.len(),
{
    if ps.len() == 0 {
        assert(ps.map_values(|p: Seq<char>| Comp::Normal(p)) =~= Seq::<Comp>::empty());
        assert(components(buf) + Seq::<Comp>::empty() =~= components(buf));
    } else {
        let next = push_component(buf, ps[0]);
        lemma_push_component(buf, ps[0]);
        assert forall|i: int| 0 <= i < ps.drop_first().len() implies plain_piece(
            #[trigger] ps.drop_first()[i],
        ) by {
            assert(ps.drop_first()[i] == ps[i + 1]);
        }
        lemma_push_all(next, ps.drop_first());
        assert(components(push_all(buf, ps)) =~= components(buf) + ps.map_values(
            |p: Seq<char>| Comp::Normal(p),
        ));
    }
}

proof fn lemma_join_cons(x: Seq<char>, qs: Seq<Seq<char>>)
    requires
        qs.len() > 0,
    ensures
        join_slash(seq![x] + qs) == x + seq!['/'] + join_slash(qs),
    decreases qs.len(),
{
    let ps = seq![x] + qs;
    assert(ps.last() == qs.last());
    assert(join_slash(ps) == join_slash(ps.drop_last()) + seq!['/'] + qs.last());
    if qs.len() == 1 {
        assert(ps.drop_last() =~= seq![x]);
        assert(join_slash(seq![x]) == x);
        assert(join_slash(qs) == qs[0]);
    } else {
        assert(ps.drop_last() =~= seq![x] + qs.drop_last());
        lemma_join_cons(x, qs.drop_last());
        assert(join_slash(qs) == join_slash(qs.drop_last()) + seq!['/'] + qs.last());
    }
    assert(join_slash(ps) =~= x + seq!['/'] + join_slash(qs));
}

/// Joining the pieces of `s` with `/` gives `s` back.
proof fn lemma_join_pieces(s: Seq<char>)
    ensures
        join_slash(pieces(s)) == s,
    decreases s.len(),
{
    let k = find_char(s, 0, '/');
    lemma_find_char_range(s, 0);
    if k < s.len() {
        lemma_find_char_at(s, 0);
        let rest = s.skip(k + 1);
        lemma_join_pieces(rest);
        lemma_pieces_nonempty(rest);
        lemma_join_cons(s.take(k), pieces(rest));
        assert(s =~= s.take(k) + seq!['/'] + rest);
    }
}

/// A storage key survives the trip to the disk and back: rebuilding the
/// native path of a key under any root, then reading that path back as
/// relative to the same root, gives the key again.
pub proof fn law_storage_key_round_trip(rel: Seq<char>, root: Seq<char>)
    requires
        storage_key(rel),
    ensures
        relative_spec(filesystem_spec(rel, root), root) == Ok::<Seq<char>, PathError>(rel),
{
    let ps = pieces(rel);
    lemma_pieces_nonempty(rel);
    assert(rel.len() > 0) by {
        if rel.len() == 0 {
            lemma_pieces_empty();
            assert(!plain_piece(ps[0]));
        }
    }
    lemma_push_all(root, ps);
    let ns = ps.map_values(|p: Seq<char>| Comp::Normal(p));
    let ac = components(filesystem_spec(rel, root));
    let rc = components(root);
    assert(ac == rc + ns);
    assert(ac.take(rc.len() as int) =~= rc);
    assert(ac.skip(rc.len() as int) =~= ns);
    assert(ns.map_values(|c: Comp| nfc_of(c->Normal_0)) =~= ps);
    lemma_join_pieces(rel);
}

} // verus!
