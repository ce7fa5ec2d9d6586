//! Unix path logic on strings: components, joining, lexical normalisation,
//! component-wise prefixes, final names and depths.

use vstd::prelude::*;
use crate::matcher;
use crate::text;

verus! {

/// A component of a path, as `std::path::Path::components` yields it on
/// Unix.
pub enum Component {
    RootDir,
    CurDir,
    ParentDir,
    Normal(Seq<char>),
}

/// The pieces of `s` between `/` separators, empty ones included.
pub open spec fn pieces(s: Seq<char>) -> Seq<Seq<char>> {
    matcher::segment_spans(s).map_values(|sp: (int, int)| s.subrange(sp.0, sp.1))
}

/// The component a piece stands for: none for an empty piece or `.`.
pub open spec fn piece_component(piece: Seq<char>) -> Option<Component> {
    if piece.len() == 0 || piece == seq!['.'] {
        None
    } else if piece == seq!['.', '.'] {
        Some(Component::ParentDir)
    } else {
        Some(Component::Normal(piece))
    }
}

/// The components that the pieces stand for, in order.
pub open spec fn piece_components(pcs: Seq<Seq<char>>) -> Seq<Component>
    decreases pcs.len(),
{
    if pcs.len() == 0 {
        seq![]
    } else {
        piece_components(pcs.drop_last()) + match piece_component(pcs.last()) {
            Some(c) => seq![c],
            None => seq![],
        }
    }
}

/// The path is absolute: it starts with `/`.
pub open spec fn is_absolute(s: Seq<char>) -> bool {
    s.len() > 0 && s[0] == '/'
}

/// The components of the path `s`: a root if it starts with `/`, a current
/// directory if it is relative and its first piece is `.`, then one
/// component for each piece that is neither empty nor `.`.
pub open spec fn components(s: Seq<char>) -> Seq<Component> {
    let pcs = pieces(s);
    if is_absolute(s) {
        seq![Component::RootDir] + piece_components(pcs.drop_first())
    } else if pcs[0] == seq!['.'] {
        seq![Component::CurDir] + piece_components(pcs.drop_first())
    } else {
        piece_components(pcs)
    }
}

/// `base` is a component-wise prefix of `path` (`Path::starts_with`).
pub open spec fn spec_path_starts_with(path: Seq<char>, base: Seq<char>) -> bool {
    let a = components(path);
    let b = components(base);
    b.len() <= a.len() && a.take(b.len() as int) == b
}

/// The final component of `s` if it is a normal one (`Path::file_name`).
pub open spec fn spec_file_name(s: Seq<char>) -> Option<Seq<char>> {
    let c = components(s);
    if c.len() > 0 && c.last() is Normal {
        Some(c.last()->Normal_0)
    } else {
        None
    }
}

/// `base` joined with `rest` (`PathBuf::push` on Unix): an absolute `rest`
/// replaces `base`, otherwise a separator is put between them unless `base`
/// is empty or ends with one.
pub open spec fn spec_path_join(base: Seq<char>, rest: Seq<char>) -> Seq<char> {
    if is_absolute(rest) {
        rest
    } else if base.len() == 0 || base.last() == '/' {
        base + rest
    } else {
        base + seq!['/'] + rest
    }
}

/// Root flag and segment list after pushing and popping the components in
/// order, as the normalisation does: `.` is skipped, `..` pops a segment, or
/// is kept when there is none and no root.
pub open spec fn normalize_fold(comps: Seq<Component>) -> (bool, Seq<Seq<char>>)
    decreases comps.len(),
{
    if comps.len() == 0 {
        (false, seq![])
    } else {
        let (root, segs) = normalize_fold(comps.drop_last());
        match comps.last() {
            Component::RootDir => (true, seq![]),
            Component::CurDir => (root, segs),
            Component::ParentDir => if segs.len() > 0 {
                (root, segs.drop_last())
            } else if !root {
                (root, segs.push(seq!['.', '.']))
            } else {
                (root, segs)
            },
            Component::Normal(n) => (root, segs.push(n)),
        }
    }
}

/// The segments joined with `/`.
pub open spec fn join_segments(segs: Seq<Seq<char>>) -> Seq<char>
    decreases segs.len(),
{
    if segs.len() == 0 {
        seq![]
    } else if segs.len() == 1 {
        segs[0]
    } else {
        join_segments(segs.drop_last()) + seq!['/'] + segs.last()
    }
}

/// The lexically normalised form of `s`: `.` removed, `..` resolved against
/// the segment before it, `/` when only the root is left, `.` when nothing
/// is.
pub open spec fn spec_normalize_path(s: Seq<char>) -> Seq<char> {
    let (root, segs) = normalize_fold(components(s));
    let text = if root {
        seq!['/'] + join_segments(segs)
    } else {
        join_segments(segs)
    };
    if text.len() == 0 {
        seq!['.']
    } else {
        text
    }
}

} // verus!

verus! {

/// A path component whose name, if any, is a span of the path's characters.
#[derive(Clone, Copy)]
pub enum PathPart {
    RootDir,
    CurDir,
    ParentDir,
    Normal(usize, usize),
}

/// The component that a part of `p` stands for.
pub open spec fn part_view(p: Seq<char>, x: PathPart) -> Component {
    match x {
        PathPart::RootDir => Component::RootDir,
        PathPart::CurDir => Component::CurDir,
        PathPart::ParentDir => Component::ParentDir,
        PathPart::Normal(a, b) => Component::Normal(p.subrange(a as int, b as int)),
    }
}

/// The components that the parts of `p` stand for.
pub open spec fn parts_view(p: Seq<char>, v: Seq<PathPart>) -> Seq<Component> {
    v.map_values(|x: PathPart| part_view(p, x))
}

/// The part's span lies within a path of length `n`.
pub open spec fn part_in_bounds(x: PathPart, n: int) -> bool {
    match x {
        PathPart::Normal(a, b) => a <= b <= n,
        _ => true,
    }
}

/// The component of the piece `p[a..b]`, if any.
fn piece_part(p: &[char], a: usize, b: usize) -> (r: Option<PathPart>)
    requires
        a <= b <= p@.len(),
    ensures
        match r {
            Some(x) => piece_component(p@.subrange(a as int, b as int)) == Some(part_view(p@, x))
                && part_in_bounds(x, p@.len() as int),
            None => piece_component(p@.subrange(a as int, b as int)) is None,
        },
{
    let ghost piece = p@.subrange(a as int, b as int);
    if a == b {
        None
    } else if b - a == 1 && p[a] == '.' {
        assert(piece =~= seq!['.']);
        None
    } else if b - a == 2 && p[a] == '.' && p[a + 1] == '.' {
        assert(piece =~= seq!['.', '.']);
        Some(PathPart::ParentDir)
    } else {
        assert(piece != seq!['.']) by {
            assert(seq!['.'].len() == 1 && seq!['.'][0] == '.');
            if b - a == 1 {
                assert(piece[0] == p@[a as int]);
            }
        }
        assert(piece != seq!['.', '.']) by {
            assert(seq!['.', '.'].len() == 2 && seq!['.', '.'][0] == '.' && seq!['.', '.'][1] == '.');
            if b - a == 2 {
                assert(piece[0] == p@[a as int]);
                assert(piece[1] == p@[a + 1]);
            }
        }
        Some(PathPart::Normal(a, b))
    }
}

/// The components of the path `p` (see [`components`]).
pub fn path_components(p: &[char]) -> (r: Vec<PathPart>)
    ensures
        parts_view(p@, r@) == components(p@),
        forall|k: int| 0 <= k < r@.len() ==> part_in_bounds(#[trigger] r@[k], p@.len() as int),
{
    let spans = matcher::segment_spans_exec(p);
    let ghost pcs = pieces(p@);
    proof {
        assert(pcs.len() == spans@.len());
        matcher::lemma_segment_spans_nonempty(p@, 0, 0);
    }
    let mut r: Vec<PathPart> = Vec::new();
    let mut first: usize = 0;
    let (a0, b0) = spans[0];
    proof {
        assert(matcher::spans_as_int(spans@)[0] == (a0 as int, b0 as int));
        assert(pcs[0] == p@.subrange(a0 as int, b0 as int));
    }
    if p.len() > 0 && p[0] == '/' {
        r.push(PathPart::RootDir);
        first = 1;
    } else if b0 - a0 == 1 && p[a0] == '.' {
        assert(pcs[0] =~= seq!['.']);
        r.push(PathPart::CurDir);
        first = 1;
    } else {
        assert(pcs[0] != seq!['.']) by {
            assert(seq!['.'].len() == 1 && seq!['.'][0] == '.');
            if b0 - a0 == 1 {
                assert(pcs[0][0] == p@[a0 as int]);
            }
        }
    }
    let ghost head = parts_view(p@, r@);
    let ghost rest = pcs.subrange(first as int, pcs.len() as int);
    proof {
        if first == 1 {
            assert(rest == pcs.drop_first());
        } else {
            assert(rest == pcs);
        }
        assert(components(p@) == head + piece_components(rest));
        assert(pcs.subrange(first as int, first as int) =~= Seq::<Seq<char>>::empty());
        assert(parts_view(p@, r@) == head + piece_components(pcs.subrange(first as int, first as int)));
    }
    let mut k: usize = first;
    while k < spans.len()
        invariant
            first <= k <= spans@.len(),
            first <= 1,
            pcs == pieces(p@),
            pcs.len() == spans@.len(),
            matcher::spans_as_int(spans@) == matcher::segment_spans(p@),
            forall|j: int|
                0 <= j < spans@.len() ==> (#[trigger] spans@[j]).0 <= spans@[j].1 <= p@.len(),
            parts_view(p@, r@) == head + piece_components(pcs.subrange(first as int, k as int)),
            forall|j: int| 0 <= j < r@.len() ==> part_in_bounds(#[trigger] r@[j], p@.len() as int),
        decreases spans@.len() - k,
    {
        let (a, b) = spans[k];
        proof {
            assert(matcher::spans_as_int(spans@)[k as int] == (a as int, b as int));
            assert(pcs[k as int] == p@.subrange(a as int, b as int));
            let sub = pcs.subrange(first as int, k + 1);
            assert(sub.drop_last() == pcs.subrange(first as int, k as int));
            assert(sub.last() == pcs[k as int]);
        }
        let ghost old_r = r@;
        match piece_part(p, a, b) {
            Some(x) => {
                r.push(x);
                proof {
                    assert(parts_view(p@, r@) == parts_view(p@, old_r) + seq![part_view(p@, x)]);
                    assert(forall|u: Seq<Component>, v: Seq<Component>, w: Seq<Component>|
                        (u + v) + w == u + (v + w));
                }
            },
            None => {
                proof {
                    assert(piece_components(pcs.subrange(first as int, k + 1)) == piece_components(
                        pcs.subrange(first as int, k as int),
                    ) + Seq::<Component>::empty());
                }
            },
        }
        k = k + 1;
    }
    proof {
        assert(pcs.subrange(first as int, pcs.len() as int) == rest);
    }
    r
}

} // verus!

verus! {

/// A segment of a normalised path: a span of the source path, or `..`.
#[derive(Clone, Copy)]
enum Seg {
    Span(usize, usize),
    DotDot,
}

spec fn seg_view(p: Seq<char>, x: Seg) -> Seq<char> {
    match x {
        Seg::Span(a, b) => p.subrange(a as int, b as int),
        Seg::DotDot => seq!['.', '.'],
    }
}

spec fn segs_view(p: Seq<char>, v: Seq<Seg>) -> Seq<Seq<char>> {
    v.map_values(|x: Seg| seg_view(p, x))
}

spec fn seg_in_bounds(x: Seg, n: int) -> bool {
    match x {
        Seg::Span(a, b) => a <= b <= n,
        Seg::DotDot => true,
    }
}

/// Appends `p[a..b]` to `out`.
fn append_range(out: &mut Vec<char>, p: &[char], a: usize, b: usize)
    requires
        a <= b <= p@.len(),
    ensures
        final(out)@ == old(out)@ + p@.subrange(a as int, b as int),
{
    let mut i = a;
    while i < b
        invariant
            a <= i <= b <= p@.len(),
            out@ == old(out)@ + p@.subrange(a as int, i as int),
        decreases b - i,
    {
        out.push(p[i]);
        assert(p@.subrange(a as int, i + 1) == p@.subrange(a as int, i as int) + seq![p@[i as int]]);
        assert(forall|u: Seq<char>, v: Seq<char>, w: Seq<char>| (u + v) + w == u + (v + w));
        i = i + 1;
    }
}

/// The lexically normalised form of `path` (see [`spec_normalize_path`]):
/// what `goto` stores for a path given on the command line when the path
/// cannot be resolved on disk.
pub fn normalize_path(path: &str) -> (r: String)
    ensures
        r@ == spec_normalize_path(path@),
{
    let p = text::str_to_chars(path);
    let parts = path_components(p.as_slice());
    let ghost comps = components(p@);
    let mut root = false;
    let mut segs: Vec<Seg> = Vec::new();
    let mut k: usize = 0;
    assert(comps.take(0) =~= Seq::<Component>::empty());
    while k < parts.len()
        invariant
            k <= parts@.len(),
            comps == components(p@),
            parts_view(p@, parts@) == comps,
            forall|j: int| 0 <= j < parts@.len() ==> part_in_bounds(#[trigger] parts@[j], p@.len() as int),
            forall|j: int| 0 <= j < segs@.len() ==> seg_in_bounds(#[trigger] segs@[j], p@.len() as int),
            normalize_fold(comps.take(k as int)) == (root, segs_view(p@, segs@)),
        decreases parts@.len() - k,
    {
        let part = parts[k];
        proof {
            assert(comps.take(k + 1).drop_last() == comps.take(k as int));
            assert(comps.take(k + 1).last() == part_view(p@, part));
            assert(part_in_bounds(parts@[k as int], p@.len() as int));
        }
        let ghost old_segs = segs@;
        match part {
            PathPart::RootDir => {
                root = true;
                segs = Vec::new();
                assert(segs_view(p@, segs@) =~= Seq::<Seq<char>>::empty());
            },
            PathPart::CurDir => {},
            PathPart::ParentDir => {
                if segs.len() > 0 {
                    segs.pop();
                    assert(segs_view(p@, segs@) =~= segs_view(p@, old_segs).drop_last());
                } else if !root {
                    segs.push(Seg::DotDot);
                    assert(segs_view(p@, segs@) =~= segs_view(p@, old_segs).push(seq!['.', '.']));
                }
            },
            PathPart::Normal(a, b) => {
                segs.push(Seg::Span(a, b));
                assert(segs_view(p@, segs@) =~= segs_view(p@, old_segs).push(
                    p@.subrange(a as int, b as int),
                ));
            },
        }
        k = k + 1;
    }
    assert(comps.take(parts@.len() as int) == comps);
    let ghost sv = segs_view(p@, segs@);
    let mut out: Vec<char> = Vec::new();
    if root {
        out.push('/');
    }
    let ghost head: Seq<char> = if root {
        seq!['/']
    } else {
        seq![]
    };
    assert(out@ == head);
    let mut i: usize = 0;
    assert(sv.take(0) =~= Seq::<Seq<char>>::empty());
    while i < segs.len()
        invariant
            i <= segs@.len(),
            sv == segs_view(p@, segs@),
            forall|j: int| 0 <= j < segs@.len() ==> seg_in_bounds(#[trigger] segs@[j], p@.len() as int),
            out@ == head + join_segments(sv.take(i as int)),
        decreases segs@.len() - i,
    {
        let ghost before = out@;
        if i > 0 {
            out.push('/');
        }
        let s = segs[i];
        assert(seg_in_bounds(segs@[i as int], p@.len() as int));
        match s {
            Seg::Span(a, b) => {
                append_range(&mut out, p.as_slice(), a, b);
            },
            Seg::DotDot => {
                out.push('.');
                out.push('.');
            },
        }
        proof {
            let t = sv.take(i + 1);
            assert(t.drop_last() == sv.take(i as int));
            assert(t.last() == seg_view(p@, s));
            assert(forall|u: Seq<char>, v: Seq<char>, w: Seq<char>| (u + v) + w == u + (v + w));
            if i == 0 {
                assert(out@ =~= head + seg_view(p@, s));
            } else {
                assert(out@ =~= before + seq!['/'] + seg_view(p@, s));
            }
        }
        i = i + 1;
    }
    assert(sv.take(segs@.len() as int) == sv);
    if out.len() == 0 {
        out.push('.');
        assert(out@ =~= seq!['.']);
    }
    text::chars_to_string(out.as_slice())
}

} // verus!

verus! {

/// `base` joined with `rest` (see [`spec_path_join`]).
pub fn path_join(base: &str, rest: &str) -> (r: String)
    ensures
        r@ == spec_path_join(base@, rest@),
{
    let b = text::str_to_chars(base);
    let s = text::str_to_chars(rest);
    if s.len() > 0 && s[0] == '/' {
        return text::chars_to_string(s.as_slice());
    }
    let mut out: Vec<char> = Vec::new();
    append_range(&mut out, b.as_slice(), 0, b.len());
    assert(b@.subrange(0, b@.len() as int) == b@);
    if b.len() > 0 && b[b.len() - 1] != '/' {
        out.push('/');
    }
    append_range(&mut out, s.as_slice(), 0, s.len());
    assert(s@.subrange(0, s@.len() as int) == s@);
    text::chars_to_string(out.as_slice())
}

/// Whether the components `x` of `p` and `y` of `q` are equal.
fn part_eq(p: &[char], x: PathPart, q: &[char], y: PathPart) -> (r: bool)
    requires
        part_in_bounds(x, p@.len() as int),
        part_in_bounds(y, q@.len() as int),
    ensures
        r == (part_view(p@, x) == part_view(q@, y)),
{
    match (x, y) {
        (PathPart::RootDir, PathPart::RootDir) => true,
        (PathPart::CurDir, PathPart::CurDir) => true,
        (PathPart::ParentDir, PathPart::ParentDir) => true,
        (PathPart::Normal(a, b), PathPart::Normal(c, d)) => {
            if b - a != d - c {
                assert(p@.subrange(a as int, b as int).len() != q@.subrange(c as int, d as int).len());
                false
            } else {
                matcher::chars_equal(p, a, q, c, b - a)
            }
        },
        _ => false,
    }
}

/// Whether `base` is a component-wise prefix of `path` (`Path::starts_with`).
pub fn path_starts_with(path: &str, base: &str) -> (r: bool)
    ensures
        r == spec_path_starts_with(path@, base@),
{
    let p = text::str_to_chars(path);
    let q = text::str_to_chars(base);
    let a = path_components(p.as_slice());
    let b = path_components(q.as_slice());
    if b.len() > a.len() {
        return false;
    }
    let ghost av = components(p@);
    let ghost bv = components(q@);
    let mut i: usize = 0;
    while i < b.len()
        invariant
            b@.len() <= a@.len(),
            i <= b@.len(),
            parts_view(p@, a@) == av,
            parts_view(q@, b@) == bv,
            p@ == path@,
            q@ == base@,
            av == components(p@),
            bv == components(q@),
            forall|j: int| 0 <= j < a@.len() ==> part_in_bounds(#[trigger] a@[j], p@.len() as int),
            forall|j: int| 0 <= j < b@.len() ==> part_in_bounds(#[trigger] b@[j], q@.len() as int),
            forall|j: int| 0 <= j < i ==> av[j] == bv[j],
        decreases b@.len() - i,
    {
        assert(part_in_bounds(a@[i as int], p@.len() as int));
        assert(part_in_bounds(b@[i as int], q@.len() as int));
        assert(av[i as int] == part_view(p@, a@[i as int]));
        assert(bv[i as int] == part_view(q@, b@[i as int]));
        if !part_eq(p.as_slice(), a[i], q.as_slice(), b[i]) {
            assert(av.len() == a@.len() && bv.len() == b@.len());
            assert(av.take(bv.len() as int)[i as int] == av[i as int]);
            assert(av.take(bv.len() as int) != bv);
            return false;
        }
        i = i + 1;
    }
    assert(av.take(bv.len() as int) =~= bv);
    true
}

/// The final component of `path` if it is a normal one (`Path::file_name`).
pub fn file_name(path: &str) -> (r: Option<String>)
    ensures
        match r {
            Some(n) => spec_file_name(path@) == Some(n@),
            None => spec_file_name(path@) is None,
        },
{
    let p = text::str_to_chars(path);
    let parts = path_components(p.as_slice());
    if parts.len() == 0 {
        return None;
    }
    let last = parts[parts.len() - 1];
    assert(part_in_bounds(parts@[parts@.len() - 1], p@.len() as int));
    assert(components(p@).last() == part_view(p@, last));
    match last {
        PathPart::Normal(a, b) => {
            let mut out: Vec<char> = Vec::new();
            append_range(&mut out, p.as_slice(), a, b);
            Some(text::chars_to_string(out.as_slice()))
        },
        _ => None,
    }
}

/// The number of components of `path` (`path.components().count()`).
pub fn component_count(path: &str) -> (r: usize)
    ensures
        r == components(path@).len(),
{
    let p = text::str_to_chars(path);
    let parts = path_components(p.as_slice());
    parts.len()
}

/// The name recorded for a directory: its final component, or `/` when it
/// has none.
pub open spec fn spec_directory_name(path: Seq<char>) -> Seq<char> {
    match spec_file_name(path) {
        Some(n) => n,
        None => seq!['/'],
    }
}

/// The name recorded for a directory (see [`spec_directory_name`]).
pub fn directory_name(path: &str) -> (r: String)
    ensures
        r@ == spec_directory_name(path@),
{
    match file_name(path) {
        Some(n) => n,
        None => {
            let v: Vec<char> = vec!['/'];
            let s = text::chars_to_string(v.as_slice());
            assert(s@ =~= seq!['/']);
            s
        },
    }
}

/// `s` begins with `prefix`.
pub open spec fn has_prefix(s: Seq<char>, prefix: Seq<char>) -> bool {
    prefix.len() <= s.len() && s.take(prefix.len() as int) == prefix
}

/// The query names a path directly: `.`, `..`, or text starting with `./`,
/// `../` or `/`.
pub open spec fn spec_is_direct_path_query(q: Seq<char>) -> bool {
    ||| q == seq!['.']
    ||| q == seq!['.', '.']
    ||| has_prefix(q, seq!['.', '/'])
    ||| has_prefix(q, seq!['.', '.', '/'])
    ||| has_prefix(q, seq!['/'])
}

/// Whether a search query names a path directly rather than a search.
pub fn is_direct_path_query(query: &str) -> (r: bool)
    ensures
        r == spec_is_direct_path_query(query@),
{
    let q = text::str_to_chars(query);
    let n = q.len();
    proof {
        assert(seq!['.'].len() == 1 && seq!['.'][0] == '.');
        assert(seq!['.', '.'].len() == 2 && seq!['.', '.'][0] == '.' && seq!['.', '.'][1] == '.');
        assert(seq!['.', '/'].len() == 2 && seq!['.', '/'][0] == '.' && seq!['.', '/'][1] == '/');
        assert(seq!['.', '.', '/'].len() == 3 && seq!['.', '.', '/'][0] == '.' && seq!['.', '.', '/'][1]
            == '.' && seq!['.', '.', '/'][2] == '/');
        assert(seq!['/'].len() == 1 && seq!['/'][0] == '/');
        if n >= 1 {
            assert(q@.take(1) =~= seq![q@[0]]);
        }
        if n >= 2 {
            assert(q@.take(2) =~= seq![q@[0], q@[1]]);
        }
        if n >= 3 {
            assert(q@.take(3) =~= seq![q@[0], q@[1], q@[2]]);
        }
    }
    let dot_only = n == 1 && q[0] == '.';
    let dot_dot = n == 2 && q[0] == '.' && q[1] == '.';
    let dot_slash = n >= 2 && q[0] == '.' && q[1] == '/';
    let dot_dot_slash = n >= 3 && q[0] == '.' && q[1] == '.' && q[2] == '/';
    let slash = n >= 1 && q[0] == '/';
    proof {
        if n == 1 && q@[0] == '.' {
            assert(q@ =~= seq!['.']);
        }
        if n == 2 && q@[0] == '.' && q@[1] == '.' {
            assert(q@ =~= seq!['.', '.']);
        }
    }
    dot_only || dot_dot || dot_slash || dot_dot_slash || slash
}

/// The path that `input`, given relative to `base`, names, resolved
/// lexically: joined to `base` unless absolute, then normalised.
pub open spec fn spec_resolve_lexically(base: Seq<char>, input: Seq<char>) -> Seq<char> {
    spec_normalize_path(spec_path_join(base, input))
}

/// The path that `input_path` names when given relative to `base_dir`,
/// resolved without looking at the disk (see [`spec_resolve_lexically`]).
pub fn resolve_input_path_from_base(base_dir: &str, input_path: &str) -> (r: String)
    ensures
        r@ == spec_resolve_lexically(base_dir@, input_path@),
{
    let combined = path_join(base_dir, input_path);
    normalize_path(combined.as_str())
}

} // verus!

verus! {

/// A segment name that is neither empty nor `.` nor `..`.
pub open spec fn is_clean_name(n: Seq<char>) -> bool {
    n.len() > 0 && n != seq!['.'] && n != seq!['.', '.']
}

/// Every normal component has a clean name.
pub open spec fn normals_clean(comps: Seq<Component>) -> bool {
    forall|i: int| 0 <= i < comps.len() && (#[trigger] comps[i]) is Normal ==> is_clean_name(comps[i]->Normal_0)
}

proof fn lemma_piece_components_clean(pcs: Seq<Seq<char>>)
    ensures
        normals_clean(piece_components(pcs)),
        forall|i: int| 0 <= i < piece_components(pcs).len() ==> !(#[trigger] piece_components(pcs)[i] is RootDir),
    decreases pcs.len(),
{
    if pcs.len() > 0 {
        lemma_piece_components_clean(pcs.drop_last());
        let pre = piece_components(pcs.drop_last());
        let tail: Seq<Component> = match piece_component(pcs.last()) {
            Some(c) => seq![c],
            None => seq![],
        };
        let all = piece_components(pcs);
        assert(all == pre + tail);
        assert forall|i: int| 0 <= i < all.len() && (#[trigger] all[i]) is Normal implies is_clean_name(
            all[i]->Normal_0,
        ) by {
            if i >= pre.len() {
                assert(all[i] == tail[i - pre.len()]);
            } else {
                assert(all[i] == pre[i]);
            }
        }
        assert forall|i: int| 0 <= i < all.len() implies !(#[trigger] all[i] is RootDir) by {
            if i >= pre.len() {
                assert(all[i] == tail[i - pre.len()]);
            } else {
                assert(all[i] == pre[i]);
            }
        }
    }
}

proof fn lemma_fold_rooted_clean(comps: Seq<Component>)
    requires
        comps.len() > 0,
        comps[0] is RootDir,
        normals_clean(comps),
    ensures
        normalize_fold(comps).0,
        forall|k: int| 0 <= k < normalize_fold(comps).1.len() ==> is_clean_name(#[trigger] normalize_fold(comps).1[k]),
    decreases comps.len(),
{
    let pre = comps.drop_last();
    if comps.len() > 1 {
        assert(pre[0] == comps[0]);
        assert forall|i: int| 0 <= i < pre.len() && (#[trigger] pre[i]) is Normal implies is_clean_name(
            pre[i]->Normal_0,
        ) by {
            assert(pre[i] == comps[i]);
        }
        lemma_fold_rooted_clean(pre);
        let (root, segs) = normalize_fold(pre);
        let last = comps.last();
        assert(comps[comps.len() - 1] == last);
        match last {
            Component::Normal(n) => {
                assert(is_clean_name(n));
                assert forall|k: int| 0 <= k < segs.push(n).len() implies is_clean_name(#[trigger] segs.push(n)[k]) by {
                    if k < segs.len() {
                        assert(segs.push(n)[k] == segs[k]);
                    }
                }
            },
            Component::ParentDir => {
                if segs.len() > 0 {
                    assert forall|k: int| 0 <= k < segs.drop_last().len() implies is_clean_name(#[trigger] segs.drop_last()[k]) by {
                        assert(segs.drop_last()[k] == segs[k]);
                    }
                }
            },
            _ => {},
        }
    }
}

/// Normalising an absolute path gives an absolute path: `/` followed by
/// segment names none of which is empty, `.` or `..`, so parent steps never
/// climb above the root.
pub proof fn law_normalized_absolute_path_stays_under_root(s: Seq<char>)
    requires
        is_absolute(s),
    ensures
        spec_normalize_path(s) == seq!['/'] + join_segments(normalize_fold(components(s)).1),
        spec_normalize_path(s)[0] == '/',
        forall|k: int|
            0 <= k < normalize_fold(components(s)).1.len() ==> is_clean_name(
                #[trigger] normalize_fold(components(s)).1[k],
            ),
{
    let pcs = pieces(s);
    lemma_piece_components_clean(pcs.drop_first());
    let comps = components(s);
    let tail = piece_components(pcs.drop_first());
    assert(comps == seq![Component::RootDir] + tail);
    assert forall|i: int| 0 <= i < comps.len() && (#[trigger] comps[i]) is Normal implies is_clean_name(
        comps[i]->Normal_0,
    ) by {
        assert(comps[i] == tail[i - 1]);
    }
    lemma_fold_rooted_clean(comps);
    let text = seq!['/'] + join_segments(normalize_fold(comps).1);
    assert(text[0] == '/');
}

} // verus!

verus! {

/// An absolute input names the same path whatever the base: resolving it
/// just normalises it.
pub proof fn law_absolute_input_ignores_base(base: Seq<char>, input: Seq<char>)
    requires
        is_absolute(input),
    ensures
        spec_resolve_lexically(base, input) == spec_normalize_path(input),
{
}

} // verus!

verus! {

/// Whether two paths have the same components (`Path` equality).
pub fn same_path(a: &str, b: &str) -> (r: bool)
    ensures
        r == (components(a@) == components(b@)),
{
    let p = text::str_to_chars(a);
    let q = text::str_to_chars(b);
    let x = path_components(p.as_slice());
    let y = path_components(q.as_slice());
    let ghost xv = components(p@);
    let ghost yv = components(q@);
    if x.len() != y.len() {
        assert(xv.len() != yv.len());
        return false;
    }
    let mut i: usize = 0;
    while i < x.len()
        invariant
            x@.len() == y@.len(),
            i <= x@.len(),
            parts_view(p@, x@) == xv,
            parts_view(q@, y@) == yv,
            p@ == a@,
            q@ == b@,
            xv == components(p@),
            yv == components(q@),
            forall|j: int| 0 <= j < x@.len() ==> part_in_bounds(#[trigger] x@[j], p@.len() as int),
            forall|j: int| 0 <= j < y@.len() ==> part_in_bounds(#[trigger] y@[j], q@.len() as int),
            forall|j: int| 0 <= j < i ==> xv[j] == yv[j],
        decreases x@.len() - i,
    {
        assert(part_in_bounds(x@[i as int], p@.len() as int));
        assert(part_in_bounds(y@[i as int], q@.len() as int));
        assert(xv[i as int] == part_view(p@, x@[i as int]));
        assert(yv[i as int] == part_view(q@, y@[i as int]));
        if !part_eq(p.as_slice(), x[i], q.as_slice(), y[i]) {
            return false;
        }
        i = i + 1;
    }
    assert(xv =~= yv);
    true
}

} // verus!

verus! {

/// The spans of the part after a `/` are those of that part, moved.
proof fn lemma_spans_after_slash(x: Seq<char>, y: Seq<char>, j: int, st: int)
    requires
        0 <= st <= j <= y.len(),
    ensures
        segment_spans_from_cat(x, y, j, st) == text::shift_spans(matcher::segment_spans_from(y, j, st), x.len() + 1int),
    decreases y.len() - j,
{
    let s = x + seq!['/'] + y;
    let n = x.len() as int;
    let f = |p: (int, int)| (p.0 + n + 1, p.1 + n + 1);
    if j >= y.len() {
        assert(text::shift_spans(seq![(st, y.len() as int)], n + 1) =~= seq![(st + n + 1, s.len() as int)]);
    } else {
        assert(s[n + 1 + j] == y[j]);
        if y[j] == '/' {
            lemma_spans_after_slash(x, y, j + 1, j + 1);
            text::lemma_map_concat(seq![(st, j)], matcher::segment_spans_from(y, j + 1, j + 1), f);
            assert(seq![(st, j)].map_values(f) =~= seq![(st + n + 1, j + n + 1)]);
        } else {
            lemma_spans_after_slash(x, y, j + 1, st);
        }
    }
}

/// The spans of `x + "/" + y` are those of `x`, then those of `y` moved
/// past the `/`.
proof fn lemma_spans_of_cat(x: Seq<char>, y: Seq<char>, i: int, start: int)
    requires
        0 <= start <= i <= x.len(),
    ensures
        matcher::segment_spans_from(x + seq!['/'] + y, i, start) == matcher::segment_spans_from(x, i, start)
            + text::shift_spans(matcher::segment_spans(y), x.len() + 1int),
    decreases x.len() - i,
{
    let s = x + seq!['/'] + y;
    let n = x.len() as int;
    let tail = text::shift_spans(matcher::segment_spans(y), n + 1);
    if i == n {
        lemma_spans_after_slash(x, y, 0, 0);
        assert(s[n] == '/');
    } else {
        assert(s[i] == x[i]);
        if x[i] == '/' {
            lemma_spans_of_cat(x, y, i + 1, i + 1);
            assert((seq![(start, i)] + matcher::segment_spans_from(x, i + 1, i + 1)) + tail =~= seq![(start, i)]
                + (matcher::segment_spans_from(x, i + 1, i + 1) + tail));
        } else {
            lemma_spans_of_cat(x, y, i + 1, start);
        }
    }
}

/// Every span starts at or after `lo`, lies within `p` and holds no `/`.
spec fn spans_clear(p: Seq<char>, r: Seq<(int, int)>, lo: int) -> bool {
    &&& forall|k: int| 0 <= k < r.len() ==> lo <= (#[trigger] r[k]).0 <= r[k].1 <= p.len()
    &&& forall|k: int, m: int| 0 <= k < r.len() && (#[trigger] r[k]).0 <= m < r[k].1 ==> #[trigger] p[m] != '/'
}

/// Each span lies within the path and holds no `/`.
proof fn lemma_spans_bounded(p: Seq<char>, i: int, start: int)
    requires
        0 <= start <= i <= p.len(),
        forall|m: int| start <= m < i ==> p[m] != '/',
    ensures
        spans_clear(p, matcher::segment_spans_from(p, i, start), start),
    decreases p.len() - i,
{
    let r = matcher::segment_spans_from(p, i, start);
    if i >= p.len() {
        assert(r == seq![(start, p.len() as int)]);
        assert forall|k: int, m: int| 0 <= k < r.len() && (#[trigger] r[k]).0 <= m < r[k].1 implies #[trigger] p[m] != '/' by {
            assert(r[k] == (start, p.len() as int));
        }
    } else if p[i] == '/' {
        lemma_spans_bounded(p, i + 1, i + 1);
        let rest = matcher::segment_spans_from(p, i + 1, i + 1);
        assert(r == seq![(start, i)] + rest);
        assert forall|k: int| 0 <= k < r.len() implies start <= (#[trigger] r[k]).0 <= r[k].1 <= p.len() by {
            if k > 0 {
                assert(r[k] == rest[k - 1]);
            }
        }
        assert forall|k: int, m: int| 0 <= k < r.len() && (#[trigger] r[k]).0 <= m < r[k].1 implies #[trigger] p[m] != '/' by {
            if k > 0 {
                assert(r[k] == rest[k - 1]);
            }
        }
    } else {
        lemma_spans_bounded(p, i + 1, start);
    }
}

/// The pieces of `x + "/" + y` are those of `x` followed by those of `y`.
proof fn lemma_pieces_of_cat(x: Seq<char>, y: Seq<char>)
    ensures
        pieces(x + seq!['/'] + y) == pieces(x) + pieces(y),
{
    let s = x + seq!['/'] + y;
    let n = x.len() as int;
    let sx = matcher::segment_spans(x);
    let sy = matcher::segment_spans(y);
    lemma_spans_of_cat(x, y, 0, 0);
    lemma_spans_bounded(x, 0, 0);
    lemma_spans_bounded(y, 0, 0);
    let fs = |sp: (int, int)| s.subrange(sp.0, sp.1);
    text::lemma_map_concat(sx, text::shift_spans(sy, n + 1), fs);
    assert(sx.map_values(fs) =~= pieces(x)) by {
        assert forall|k: int| 0 <= k < sx.len() implies sx.map_values(fs)[k] == pieces(x)[k] by {
            assert(s.subrange(sx[k].0, sx[k].1) =~= x.subrange(sx[k].0, sx[k].1));
        }
    }
    assert(text::shift_spans(sy, n + 1).map_values(fs) =~= pieces(y)) by {
        assert forall|k: int| 0 <= k < sy.len() implies text::shift_spans(sy, n + 1).map_values(fs)[k] == pieces(y)[k] by {
            assert(s.subrange(sy[k].0 + n + 1, sy[k].1 + n + 1) =~= y.subrange(sy[k].0, sy[k].1));
        }
    }
}

/// `s` holds no `/`.
spec fn no_slash(s: Seq<char>) -> bool {
    forall|m: int| 0 <= m < s.len() ==> s[m] != '/'
}

proof fn lemma_spans_without_slash(x: Seq<char>, i: int, start: int)
    requires
        0 <= start <= i <= x.len(),
        no_slash(x),
    ensures
        matcher::segment_spans_from(x, i, start) == seq![(start, x.len() as int)],
    decreases x.len() - i,
{
    if i < x.len() {
        lemma_spans_without_slash(x, i + 1, start);
    }
}

/// Text without `/` is a single piece.
proof fn lemma_pieces_without_slash(x: Seq<char>)
    requires
        no_slash(x),
    ensures
        pieces(x) == seq![x],
{
    lemma_spans_without_slash(x, 0, 0);
    assert(pieces(x) =~= seq![x.subrange(0, x.len() as int)]);
    assert(x.subrange(0, x.len() as int) =~= x);
}

/// Splitting joined segments gives the segments back.
proof fn lemma_pieces_of_join(segs: Seq<Seq<char>>)
    requires
        segs.len() >= 1,
        forall|k: int| 0 <= k < segs.len() ==> no_slash(#[trigger] segs[k]),
    ensures
        pieces(join_segments(segs)) == segs,
    decreases segs.len(),
{
    if segs.len() == 1 {
        lemma_pieces_without_slash(segs[0]);
        assert(segs =~= seq![segs[0]]);
    } else {
        let pre = segs.drop_last();
        assert forall|k: int| 0 <= k < pre.len() implies no_slash(#[trigger] pre[k]) by {
            assert(pre[k] == segs[k]);
        }
        lemma_pieces_of_join(pre);
        lemma_pieces_of_cat(join_segments(pre), segs.last());
        lemma_pieces_without_slash(segs.last());
        assert(pre + seq![segs.last()] =~= segs);
    }
}

/// Every piece of a path holds no `/`.
proof fn lemma_pieces_no_slash(s: Seq<char>)
    ensures
        forall|k: int| 0 <= k < pieces(s).len() ==> no_slash(#[trigger] pieces(s)[k]),
{
    lemma_spans_bounded(s, 0, 0);
    let sp = matcher::segment_spans(s);
    assert forall|k: int| 0 <= k < pieces(s).len() implies no_slash(#[trigger] pieces(s)[k]) by {
        let (a, b) = sp[k];
        assert(pieces(s)[k] == s.subrange(a, b));
        assert forall|m: int| 0 <= m < b - a implies s.subrange(a, b)[m] != '/' by {
            assert(s.subrange(a, b)[m] == s[a + m]);
        }
    }
}

/// The names of normal components come from pieces without `/`.
proof fn lemma_piece_components_no_slash(pcs: Seq<Seq<char>>)
    requires
        forall|k: int| 0 <= k < pcs.len() ==> no_slash(#[trigger] pcs[k]),
    ensures
        forall|i: int|
            0 <= i < piece_components(pcs).len() && (#[trigger] piece_components(pcs)[i]) is Normal ==> no_slash(
                piece_components(pcs)[i]->Normal_0,
            ),
    decreases pcs.len(),
{
    if pcs.len() > 0 {
        let pre = pcs.drop_last();
        assert forall|k: int| 0 <= k < pre.len() implies no_slash(#[trigger] pre[k]) by {
            assert(pre[k] == pcs[k]);
        }
        lemma_piece_components_no_slash(pre);
        let head = piece_components(pre);
        let tail: Seq<Component> = match piece_component(pcs.last()) {
            Some(c) => seq![c],
            None => seq![],
        };
        let all = piece_components(pcs);
        assert(all == head + tail);
        assert forall|i: int| 0 <= i < all.len() && (#[trigger] all[i]) is Normal implies no_slash(all[i]->Normal_0) by {
            if i >= head.len() {
                assert(all[i] == tail[i - head.len()]);
            } else {
                assert(all[i] == head[i]);
            }
        }
    }
}

/// The normal components of a path have names that are neither empty, `.`
/// nor `..`, and hold no `/`.
spec fn normals_plain(comps: Seq<Component>) -> bool {
    forall|i: int|
        0 <= i < comps.len() && (#[trigger] comps[i]) is Normal ==> is_clean_name(comps[i]->Normal_0) && no_slash(
            comps[i]->Normal_0,
        )
}

proof fn lemma_components_plain(s: Seq<char>)
    ensures
        normals_plain(components(s)),
{
    let pcs = pieces(s);
    lemma_pieces_no_slash(s);
    matcher::lemma_segment_spans_nonempty(s, 0, 0);
    assert(pcs.len() >= 1);
    let rest = pcs.drop_first();
    assert forall|k: int| 0 <= k < rest.len() implies no_slash(#[trigger] rest[k]) by {
        assert(rest[k] == pcs[k + 1]);
    }
    lemma_piece_components_no_slash(pcs);
    lemma_piece_components_no_slash(rest);
    lemma_piece_components_clean(pcs);
    lemma_piece_components_clean(rest);
    let comps = components(s);
    if is_absolute(s) || pcs[0] == seq!['.'] {
        let tail = piece_components(rest);
        assert forall|i: int| 0 <= i < comps.len() && (#[trigger] comps[i]) is Normal implies is_clean_name(
            comps[i]->Normal_0,
        ) && no_slash(comps[i]->Normal_0) by {
            assert(comps[i] == tail[i - 1]);
        }
    }
}

/// The segment list a normalisation keeps: names without `/` that are
/// neither empty, `.` nor `..`, except that a relative result may start
/// with one `..`.
spec fn normalized_shape(root: bool, segs: Seq<Seq<char>>) -> bool {
    forall|k: int|
        0 <= k < segs.len() ==> no_slash(#[trigger] segs[k]) && (is_clean_name(segs[k]) || (k == 0 && !root
            && segs[k] == seq!['.', '.']))
}

proof fn lemma_fold_shape(comps: Seq<Component>)
    requires
        normals_plain(comps),
    ensures
        normalized_shape(normalize_fold(comps).0, normalize_fold(comps).1),
    decreases comps.len(),
{
    if comps.len() > 0 {
        let pre = comps.drop_last();
        assert forall|i: int| 0 <= i < pre.len() && (#[trigger] pre[i]) is Normal implies is_clean_name(
            pre[i]->Normal_0,
        ) && no_slash(pre[i]->Normal_0) by {
            assert(pre[i] == comps[i]);
        }
        lemma_fold_shape(pre);
        let (root, segs) = normalize_fold(pre);
        let last = comps.last();
        assert(comps[comps.len() - 1] == last);
        match last {
            Component::ParentDir => {
                if segs.len() > 0 {
                    assert forall|k: int| 0 <= k < segs.drop_last().len() implies #[trigger] segs.drop_last()[k] == segs[k] by {}
                } else if !root {
                    let t = segs.push(seq!['.', '.']);
                    assert(t[0] == seq!['.', '.']);
                    assert(no_slash(seq!['.', '.']));
                }
            },
            Component::Normal(n) => {
                let t = segs.push(n);
                assert forall|k: int| 0 <= k < t.len() implies no_slash(#[trigger] t[k]) && (is_clean_name(t[k]) || (
                k == 0 && !root && t[k] == seq!['.', '.'])) by {
                    if k < segs.len() {
                        assert(t[k] == segs[k]);
                    }
                }
            },
            _ => {},
        }
    }
}

/// The spans of `x + "/" + y` from index `n + 1 + j` on, the current piece
/// having begun at `n + 1 + st`.
spec fn segment_spans_from_cat(x: Seq<char>, y: Seq<char>, j: int, st: int) -> Seq<(int, int)> {
    matcher::segment_spans_from(x + seq!['/'] + y, x.len() + 1 + j, x.len() + 1 + st)
}

} // verus!

verus! {

/// The component a kept segment stands for when read back.
spec fn comp_of(n: Seq<char>) -> Component {
    if n == seq!['.', '.'] {
        Component::ParentDir
    } else {
        Component::Normal(n)
    }
}

proof fn lemma_piece_components_of_segments(segs: Seq<Seq<char>>)
    requires
        forall|k: int| 0 <= k < segs.len() ==> (#[trigger] segs[k]).len() > 0 && segs[k] != seq!['.'],
    ensures
        piece_components(segs) == segs.map_values(|n: Seq<char>| comp_of(n)),
    decreases segs.len(),
{
    if segs.len() > 0 {
        let pre = segs.drop_last();
        assert forall|k: int| 0 <= k < pre.len() implies (#[trigger] pre[k]).len() > 0 && pre[k] != seq!['.'] by {
            assert(pre[k] == segs[k]);
        }
        lemma_piece_components_of_segments(pre);
        assert(segs[segs.len() - 1] == segs.last());
        assert(segs.map_values(|n: Seq<char>| comp_of(n)) =~= pre.map_values(|n: Seq<char>| comp_of(n)) + seq![
            comp_of(segs.last()),
        ]);
    }
}

proof fn lemma_fold_names(pre: Seq<Component>, names: Seq<Seq<char>>)
    requires
        forall|k: int| 0 <= k < names.len() ==> is_clean_name(#[trigger] names[k]),
    ensures
        normalize_fold(pre + names.map_values(|n: Seq<char>| comp_of(n))) == (normalize_fold(pre).0,
        normalize_fold(pre).1 + names),
    decreases names.len(),
{
    let m = names.map_values(|n: Seq<char>| comp_of(n));
    if names.len() == 0 {
        assert(pre + m =~= pre);
        assert(normalize_fold(pre).1 + names =~= normalize_fold(pre).1);
    } else {
        let init = names.drop_last();
        assert forall|k: int| 0 <= k < init.len() implies is_clean_name(#[trigger] init[k]) by {
            assert(init[k] == names[k]);
        }
        lemma_fold_names(pre, init);
        let all = pre + m;
        assert(all.drop_last() =~= pre + init.map_values(|n: Seq<char>| comp_of(n)));
        assert(names[names.len() - 1] == names.last());
        assert(is_clean_name(names.last()));
        assert(all.last() == Component::Normal(names.last()));
        assert((normalize_fold(pre).1 + init).push(names.last()) =~= normalize_fold(pre).1 + names);
    }
}

proof fn lemma_join_starts_with_first(segs: Seq<Seq<char>>)
    requires
        segs.len() >= 1,
        segs[0].len() > 0,
    ensures
        join_segments(segs).len() > 0,
        join_segments(segs)[0] == segs[0][0],
    decreases segs.len(),
{
    if segs.len() > 1 {
        let pre = segs.drop_last();
        assert(pre[0] == segs[0]);
        lemma_join_starts_with_first(pre);
    }
}

/// The text a normalisation writes for a root flag and segment list.
spec fn normalized_text(root: bool, segs: Seq<Seq<char>>) -> Seq<char> {
    let text = if root {
        seq!['/'] + join_segments(segs)
    } else {
        join_segments(segs)
    };
    if text.len() == 0 {
        seq!['.']
    } else {
        text
    }
}

/// Reading back the text of a normalised path gives the same root flag and
/// segments.
proof fn lemma_read_back(root: bool, segs: Seq<Seq<char>>)
    requires
        normalized_shape(root, segs),
    ensures
        normalize_fold(components(normalized_text(root, segs))) == (root, segs),
        root ==> components(normalized_text(root, segs)) == seq![Component::RootDir] + segs.map_values(
            |n: Seq<char>| comp_of(n),
        ),
{
    let t = normalized_text(root, segs);
    let empty: Seq<char> = seq![];
    lemma_pieces_without_slash(empty);
    let f = |n: Seq<char>| comp_of(n);
    assert forall|k: int| 0 <= k < segs.len() implies (#[trigger] segs[k]).len() > 0 && segs[k] != seq!['.'] by {
        assert(seq!['.', '.'].len() == 2);
        assert(seq!['.'].len() == 1);
        if segs[k] == seq!['.'] {
            assert(segs[k] != seq!['.', '.']);
        }
    }
    if root {
        assert(t == empty + seq!['/'] + join_segments(segs));
        lemma_pieces_of_cat(empty, join_segments(segs));
        let pcs = pieces(t);
        assert(forall|k: int| 0 <= k < segs.len() ==> is_clean_name(#[trigger] segs[k]));
        if segs.len() > 0 {
            lemma_pieces_of_join(segs);
            assert(pcs.drop_first() =~= segs);
            lemma_piece_components_of_segments(segs);
        } else {
            lemma_pieces_without_slash(join_segments(segs));
            assert(pcs.drop_first() =~= seq![empty]);
            assert(seq![empty].drop_last() =~= Seq::<Seq<char>>::empty());
            assert(seq![empty].last() == empty);
            assert(piece_component(empty) is None);
            assert(piece_components(seq![empty]) =~= Seq::<Component>::empty()) by {
                reveal_with_fuel(piece_components, 2);
            }
            assert(segs.map_values(f) =~= Seq::<Component>::empty());
        }
        assert(t[0] == '/');
        assert(components(t) == seq![Component::RootDir] + segs.map_values(f));
        lemma_fold_names(seq![Component::RootDir], segs);
        assert(seq![Component::RootDir].drop_last() =~= Seq::<Component>::empty());
        assert(Seq::<Seq<char>>::empty() + segs =~= segs);
    } else if segs.len() > 0 {
        lemma_join_starts_with_first(segs);
        lemma_pieces_of_join(segs);
        assert(t == join_segments(segs));
        assert(no_slash(segs[0]));
        assert(t[0] != '/');
        assert(pieces(t)[0] != seq!['.']);
        lemma_piece_components_of_segments(segs);
        assert(components(t) == segs.map_values(f));
        if segs[0] == seq!['.', '.'] {
            let rest = segs.drop_first();
            assert forall|k: int| 0 <= k < rest.len() implies is_clean_name(#[trigger] rest[k]) by {
                assert(rest[k] == segs[k + 1]);
            }
            assert(segs.map_values(f) =~= seq![Component::ParentDir] + rest.map_values(f));
            lemma_fold_names(seq![Component::ParentDir], rest);
            assert(seq![Component::ParentDir].drop_last() =~= Seq::<Component>::empty());
            assert(normalize_fold(seq![Component::ParentDir]) == (false, seq![seq!['.', '.']])) by {
                reveal_with_fuel(normalize_fold, 2);
                assert(Seq::<Seq<char>>::empty().push(seq!['.', '.']) =~= seq![seq!['.', '.']]);
            }
            assert(seq![seq!['.', '.']] + rest =~= segs);
        } else {
            assert forall|k: int| 0 <= k < segs.len() implies is_clean_name(#[trigger] segs[k]) by {}
            lemma_fold_names(Seq::<Component>::empty(), segs);
            assert(Seq::<Component>::empty() + segs.map_values(f) =~= segs.map_values(f));
            assert(Seq::<Seq<char>>::empty() + segs =~= segs);
        }
    } else {
        assert(t == seq!['.']);
        assert(no_slash(t));
        lemma_pieces_without_slash(t);
        assert(pieces(t).drop_first() =~= Seq::<Seq<char>>::empty());
        assert(components(t) =~= seq![Component::CurDir]);
        assert(seq![Component::CurDir].drop_last() =~= Seq::<Component>::empty());
        assert(normalize_fold(seq![Component::CurDir]) == (false, Seq::<Seq<char>>::empty())) by {
            reveal_with_fuel(normalize_fold, 2);
        }
        assert(segs =~= Seq::<Seq<char>>::empty());
    }
}

/// Normalising a normalised path changes nothing.
pub proof fn law_normalizing_twice_changes_nothing(s: Seq<char>)
    ensures
        spec_normalize_path(spec_normalize_path(s)) == spec_normalize_path(s),
{
    lemma_components_plain(s);
    lemma_fold_shape(components(s));
    let (root, segs) = normalize_fold(components(s));
    assert(spec_normalize_path(s) == normalized_text(root, segs));
    lemma_read_back(root, segs);
}

} // verus!

verus! {

/// Normalising an absolute path resolves it fully: the result is absolute,
/// and after its root every component is a name, never `.` or `..`.
pub proof fn law_normalized_absolute_path_has_no_dot_components(s: Seq<char>)
    requires
        is_absolute(s),
    ensures
        is_absolute(spec_normalize_path(s)),
        components(spec_normalize_path(s)).len() >= 1,
        components(spec_normalize_path(s))[0] == Component::RootDir,
        forall|i: int|
            1 <= i < components(spec_normalize_path(s)).len() ==> (#[trigger] components(spec_normalize_path(s))[i]) is Normal
                && is_clean_name(components(spec_normalize_path(s))[i]->Normal_0),
{
    law_normalized_absolute_path_stays_under_root(s);
    lemma_components_plain(s);
    lemma_fold_shape(components(s));
    let (root, segs) = normalize_fold(components(s));
    assert(spec_normalize_path(s) == normalized_text(root, segs));
    lemma_read_back(root, segs);
    let c = components(spec_normalize_path(s));
    assert(c == seq![Component::RootDir] + segs.map_values(|n: Seq<char>| comp_of(n)));
    assert forall|i: int| 1 <= i < c.len() implies (#[trigger] c[i]) is Normal && is_clean_name(c[i]->Normal_0) by {
        assert(c[i] == comp_of(segs[i - 1]));
        assert(is_clean_name(segs[i - 1]));
    }
}

} // verus!

verus! {

/// A query starting with `/` always names a path directly, and one that
/// starts with neither `.` nor `/` (a word, an `@` tag) never does.
pub proof fn law_direct_path_queries_start_with_a_dot_or_slash(q: Seq<char>)
    ensures
        q.len() > 0 && q[0] == '/' ==> spec_is_direct_path_query(q),
        (q.len() == 0 || (q[0] != '.' && q[0] != '/')) ==> !spec_is_direct_path_query(q),
{
    assert(seq!['/'].len() == 1 && seq!['/'][0] == '/');
    assert(seq!['.'][0] == '.' && seq!['.', '.'][0] == '.' && seq!['.', '/'][0] == '.' && seq!['.', '.', '/'][0] == '.');
    if q.len() > 0 && q[0] == '/' {
        assert(q.take(1) =~= seq!['/']);
    }
    if q.len() > 0 && q[0] != '.' && q[0] != '/' {
        assert(q.take(1)[0] == q[0]);
        if q.len() >= 2 {
            assert(q.take(2)[0] == q[0]);
        }
        if q.len() >= 3 {
            assert(q.take(3)[0] == q[0]);
        }
    }
}

} // verus!
