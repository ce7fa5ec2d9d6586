//! Matching of a search query against a directory path.
//!
//! A query is split into whitespace-separated tokens that must match the
//! path in order. A plain token matches a substring of the path after the
//! end of the previous match. A token starting with `^` or ending with `$`
//! is anchored to a `/`-separated segment: `^x` asks for a segment that
//! starts with `x`, `x$` for one that ends with `x`, `^x$` for a segment
//! equal to `x`. Matching ignores case.

use vstd::prelude::*;
use crate::text;

verus! {

// ---------------------------------------------------------------------------
// Specification
// ---------------------------------------------------------------------------

/// Spans of the `/`-separated segments of `p` at or after `i`, where the
/// current segment began at `start`.
pub open spec fn segment_spans_from(p: Seq<char>, i: int, start: int) -> Seq<(int, int)>
    decreases p.len() - i,
{
    if i >= p.len() {
        seq![(start, p.len() as int)]
    } else if p[i] == '/' {
        seq![(start, i)] + segment_spans_from(p, i + 1, i + 1)
    } else {
        segment_spans_from(p, i + 1, start)
    }
}

/// Spans of the `/`-separated segments of `p`, empty ones included: the
/// text before the first `/`, between each two, and after the last.
pub open spec fn segment_spans(p: Seq<char>) -> Seq<(int, int)> {
    segment_spans_from(p, 0, 0)
}

/// `t` occurs in `p` at index `j`.
pub open spec fn occurs_at(p: Seq<char>, t: Seq<char>, j: int) -> bool {
    0 <= j && j + t.len() <= p.len() && p.subrange(j, j + t.len()) == t
}

/// The first index at or after `pos` where `t` occurs in `p`.
pub open spec fn find_from(p: Seq<char>, t: Seq<char>, pos: int) -> Option<int>
    decreases p.len() + 1 - pos,
{
    if pos < 0 || pos + t.len() > p.len() {
        None
    } else if occurs_at(p, t, pos) {
        Some(pos)
    } else {
        find_from(p, t, pos + 1)
    }
}

/// The token is anchored at the start of a segment.
pub open spec fn is_start_anchored(tok: Seq<char>) -> bool {
    tok.len() > 0 && tok[0] == '^'
}

/// The token is anchored at the end of a segment.
pub open spec fn is_end_anchored(tok: Seq<char>) -> bool {
    tok.len() > 0 && tok.last() == '$'
}

/// The token without its anchors.
pub open spec fn anchor_inner(tok: Seq<char>) -> Seq<char> {
    let t1 = if is_start_anchored(tok) {
        tok.drop_first()
    } else {
        tok
    };
    if is_end_anchored(tok) {
        t1.drop_last()
    } else {
        t1
    }
}

/// Whether the segment text `seg` satisfies an anchored token with the given
/// anchors and inner text.
pub open spec fn segment_satisfies(seg: Seq<char>, inner: Seq<char>, sa: bool, ea: bool) -> bool {
    if sa && ea {
        seg == inner
    } else if sa {
        inner.len() <= seg.len() && seg.take(inner.len() as int) == inner
    } else {
        inner.len() <= seg.len() && seg.skip(seg.len() - inner.len()) == inner
    }
}

/// The position after an anchored match: the first segment, from the
/// `k`-th on, that does not end before `pos` and satisfies the token.
/// A start-anchored match ends after the inner text, an end-anchored one at
/// the end of the segment.
pub open spec fn anchored_from(
    p: Seq<char>,
    segs: Seq<(int, int)>,
    k: int,
    inner: Seq<char>,
    sa: bool,
    ea: bool,
    pos: int,
) -> Option<int>
    decreases segs.len() - k,
{
    if k < 0 || k >= segs.len() {
        None
    } else if segs[k].1 < pos {
        anchored_from(p, segs, k + 1, inner, sa, ea, pos)
    } else if segment_satisfies(p.subrange(segs[k].0, segs[k].1), inner, sa, ea) {
        Some(
            if sa {
                segs[k].0 + inner.len()
            } else {
                segs[k].1
            },
        )
    } else {
        anchored_from(p, segs, k + 1, inner, sa, ea, pos)
    }
}

/// The position after matching one token at or after `pos`, if it matches.
pub open spec fn token_step(p: Seq<char>, segs: Seq<(int, int)>, tok: Seq<char>, pos: int) -> Option<
    int,
> {
    if is_start_anchored(tok) || is_end_anchored(tok) {
        anchored_from(
            p,
            segs,
            0,
            anchor_inner(tok),
            is_start_anchored(tok),
            is_end_anchored(tok),
            pos,
        )
    } else {
        match find_from(p, tok, pos) {
            Some(j) => Some(j + tok.len()),
            None => None,
        }
    }
}

/// The tokens match `p` in order, the first at or after `pos`.
pub open spec fn tokens_match_from(
    p: Seq<char>,
    segs: Seq<(int, int)>,
    toks: Seq<Seq<char>>,
    pos: int,
) -> bool
    decreases toks.len(),
{
    if toks.len() == 0 {
        true
    } else {
        match token_step(p, segs, toks[0], pos) {
            Some(next) => tokens_match_from(p, segs, toks.drop_first(), next),
            None => false,
        }
    }
}

/// The tokens match the (lowercased) path `p` in order.
pub open spec fn tokens_match(p: Seq<char>, toks: Seq<Seq<char>>) -> bool {
    tokens_match_from(p, segment_spans(p), toks, 0)
}

/// The lowercased query `q` matches the lowercased path `p`.
pub open spec fn spec_match_lowered(p: Seq<char>, q: Seq<char>) -> bool {
    tokens_match(p, text::split_whitespace(q))
}

/// The query matches the path, ignoring case.
pub open spec fn spec_match_path(path: Seq<char>, query: Seq<char>) -> bool {
    spec_match_lowered(text::unicode_lowercase(path), text::unicode_lowercase(query))
}

} // verus!

verus! {

// ---------------------------------------------------------------------------
// Implementation
// ---------------------------------------------------------------------------

/// What `find_from` returns is an occurrence at or after `pos`.
pub proof fn lemma_find_from_occurs(p: Seq<char>, t: Seq<char>, pos: int)
    ensures
        find_from(p, t, pos) matches Some(j) ==> pos <= j && occurs_at(p, t, j),
    decreases p.len() + 1 - pos,
{
    if pos < 0 || pos + t.len() > p.len() {
    } else if occurs_at(p, t, pos) {
    } else {
        lemma_find_from_occurs(p, t, pos + 1);
    }
}

/// A path always has at least one segment.
pub proof fn lemma_segment_spans_nonempty(p: Seq<char>, i: int, start: int)
    ensures
        segment_spans_from(p, i, start).len() >= 1,
    decreases p.len() - i,
{
    if i < p.len() {
        lemma_segment_spans_nonempty(p, i + 1, if p[i] == '/' { i + 1 } else { start });
    }
}

/// Index pairs seen as integer pairs.
pub open spec fn spans_as_int(v: Seq<(usize, usize)>) -> Seq<(int, int)> {
    v.map_values(|x: (usize, usize)| (x.0 as int, x.1 as int))
}

/// The spans of the `/`-separated segments of `p` (see [`segment_spans`]).
pub fn segment_spans_exec(p: &[char]) -> (r: Vec<(usize, usize)>)
    ensures
        spans_as_int(r@) == segment_spans(p@),
        forall|k: int| 0 <= k < r@.len() ==> (#[trigger] r@[k]).0 <= r@[k].1 <= p@.len(),
{
    let mut r: Vec<(usize, usize)> = Vec::new();
    let mut i: usize = 0;
    let mut start: usize = 0;
    while i < p.len()
        invariant
            start <= i <= p@.len(),
            spans_as_int(r@) + segment_spans_from(p@, i as int, start as int) == segment_spans(
                p@,
            ),
            forall|k: int| 0 <= k < r@.len() ==> (#[trigger] r@[k]).0 <= r@[k].1 <= start,
        decreases p@.len() - i,
    {
        if p[i] == '/' {
            let ghost old_r = r@;
            r.push((start, i));
            proof {
                assert(spans_as_int(r@) == spans_as_int(old_r) + seq![(start as int, i as int)]);
                assert(segment_spans_from(p@, i as int, start as int) == seq![
                    (start as int, i as int),
                ] + segment_spans_from(p@, i + 1, i + 1));
                assert(forall|a: Seq<(int, int)>, b: Seq<(int, int)>, c: Seq<(int, int)>|
                    (a + b) + c == a + (b + c));
            }
            i = i + 1;
            start = i;
        } else {
            i = i + 1;
        }
    }
    let ghost old_r = r@;
    r.push((start, i));
    proof {
        assert(spans_as_int(r@) == spans_as_int(old_r) + seq![(start as int, i as int)]);
    }
    r
}

/// Whether `a[i..i + n]` and `b[j..j + n]` hold the same characters.
pub fn chars_equal(a: &[char], i: usize, b: &[char], j: usize, n: usize) -> (r: bool)
    requires
        i + n <= a@.len(),
        j + n <= b@.len(),
    ensures
        r == (a@.subrange(i as int, i + n) == b@.subrange(j as int, j + n)),
{
    let a_len = a.len();
    let b_len = b.len();
    let mut k: usize = 0;
    while k < n
        invariant
            k <= n,
            i + n <= a_len == a@.len(),
            j + n <= b_len == b@.len(),
            forall|m: int|
                0 <= m < k ==> #[trigger] a@.subrange(i as int, i + n)[m] == b@.subrange(
                    j as int,
                    j + n,
                )[m],
        decreases n - k,
    {
        if a[i + k] != b[j + k] {
            assert(a@.subrange(i as int, i + n)[k as int] != b@.subrange(j as int, j + n)[k as int]);
            return false;
        }
        k = k + 1;
    }
    assert(a@.subrange(i as int, i + n) =~= b@.subrange(j as int, j + n));
    true
}

/// The first index at or after `pos` where `q[a..b]` occurs in `p`.
pub fn find_exec(p: &[char], pos: usize, q: &[char], a: usize, b: usize) -> (r: Option<usize>)
    requires
        pos <= p@.len(),
        a <= b <= q@.len(),
    ensures
        match r {
            Some(j) => find_from(p@, q@.subrange(a as int, b as int), pos as int) == Some(j as int),
            None => find_from(p@, q@.subrange(a as int, b as int), pos as int) is None,
        },
{
    let ghost t = q@.subrange(a as int, b as int);
    let m = b - a;
    let mut j = pos;
    while j <= p.len() && m <= p.len() - j
        invariant
            pos <= j,
            a <= b <= q@.len(),
            m == b - a,
            t == q@.subrange(a as int, b as int),
            find_from(p@, t, pos as int) == find_from(p@, t, j as int),
        decreases p@.len() + 1 - j,
    {
        if chars_equal(p, j, q, a, m) {
            return Some(j);
        }
        if j == p.len() {
            assert(find_from(p@, t, j + 1) is None);
            return None;
        }
        j = j + 1;
    }
    None
}

/// Whether the segment `p[s..e]` satisfies an anchored token whose inner
/// text is `q[ia..ib]`.
pub fn segment_satisfies_exec(
    p: &[char],
    s: usize,
    e: usize,
    q: &[char],
    ia: usize,
    ib: usize,
    sa: bool,
    ea: bool,
) -> (r: bool)
    requires
        s <= e <= p@.len(),
        ia <= ib <= q@.len(),
    ensures
        r == segment_satisfies(
            p@.subrange(s as int, e as int),
            q@.subrange(ia as int, ib as int),
            sa,
            ea,
        ),
{
    let ghost seg = p@.subrange(s as int, e as int);
    let ghost inner = q@.subrange(ia as int, ib as int);
    let seg_len = e - s;
    let inner_len = ib - ia;
    if sa && ea {
        if seg_len != inner_len {
            assert(seg.len() != inner.len());
            return false;
        }
        chars_equal(p, s, q, ia, inner_len)
    } else if inner_len > seg_len {
        false
    } else if sa {
        assert(seg.take(inner_len as int) == p@.subrange(s as int, s + inner_len));
        chars_equal(p, s, q, ia, inner_len)
    } else {
        assert(seg.skip(seg.len() - inner_len) == p@.subrange(e - inner_len, e as int));
        chars_equal(p, e - inner_len, q, ia, inner_len)
    }
}

/// The position after an anchored match (see [`anchored_from`]).
pub fn anchored_exec(
    p: &[char],
    segs: &[(usize, usize)],
    q: &[char],
    ia: usize,
    ib: usize,
    sa: bool,
    ea: bool,
    pos: usize,
) -> (r: Option<usize>)
    requires
        ia <= ib <= q@.len(),
        forall|k: int| 0 <= k < segs@.len() ==> (#[trigger] segs@[k]).0 <= segs@[k].1 <= p@.len(),
    ensures
        match r {
            Some(n) => anchored_from(
                p@,
                spans_as_int(segs@),
                0,
                q@.subrange(ia as int, ib as int),
                sa,
                ea,
                pos as int,
            ) == Some(n as int),
            None => anchored_from(
                p@,
                spans_as_int(segs@),
                0,
                q@.subrange(ia as int, ib as int),
                sa,
                ea,
                pos as int,
            ) is None,
        },
        r matches Some(n) ==> n <= p@.len(),
{
    let ghost inner = q@.subrange(ia as int, ib as int);
    let ghost si = spans_as_int(segs@);
    let mut k: usize = 0;
    while k < segs.len()
        invariant
            k <= segs@.len(),
            ia <= ib <= q@.len(),
            inner == q@.subrange(ia as int, ib as int),
            si == spans_as_int(segs@),
            forall|k: int|
                0 <= k < segs@.len() ==> (#[trigger] segs@[k]).0 <= segs@[k].1 <= p@.len(),
            anchored_from(p@, si, 0, inner, sa, ea, pos as int) == anchored_from(
                p@,
                si,
                k as int,
                inner,
                sa,
                ea,
                pos as int,
            ),
        decreases segs@.len() - k,
    {
        let (s, e) = segs[k];
        assert(si[k as int] == (s as int, e as int));
        if e >= pos {
            if segment_satisfies_exec(p, s, e, q, ia, ib, sa, ea) {
                if sa {
                    assert(ib - ia <= e - s) by {
                        if ea {
                            assert(p@.subrange(s as int, e as int).len() == inner.len());
                        }
                    }
                    return Some(s + (ib - ia));
                } else {
                    return Some(e);
                }
            }
        }
        k = k + 1;
    }
    None
}

/// Whether the lowercased query `q` matches the lowercased path `p`.
pub fn match_lowered(p: &[char], q: &[char]) -> (r: bool)
    ensures
        r == spec_match_lowered(p@, q@),
{
    let spans = text::word_spans_exec(q);
    let segs = segment_spans_exec(p);
    let ghost toks = text::split_whitespace(q@);
    let ghost si = spans_as_int(segs@);
    let mut pos: usize = 0;
    let mut k: usize = 0;
    assert(toks.skip(0) == toks);
    while k < spans.len()
        invariant
            k <= spans@.len(),
            pos <= p@.len(),
            spans@.len() == text::word_spans(q@).len(),
            toks == text::split_whitespace(q@),
            toks.len() == spans@.len(),
            si == spans_as_int(segs@),
            si == segment_spans(p@),
            forall|j: int|
                0 <= j < spans@.len() ==> (#[trigger] spans@[j]).0 as int == text::word_spans(
                    q@,
                )[j].0 && spans@[j].1 as int == text::word_spans(q@)[j].1,
            forall|j: int| 0 <= j < spans@.len() ==> (#[trigger] spans@[j]).0 < spans@[j].1 <= q@.len(),
            forall|j: int|
                0 <= j < segs@.len() ==> (#[trigger] segs@[j]).0 <= segs@[j].1 <= p@.len(),
            spec_match_lowered(p@, q@) == tokens_match_from(p@, si, toks.skip(k as int), pos as int),
        decreases spans@.len() - k,
    {
        let (a, b) = spans[k];
        let ghost tok = q@.subrange(a as int, b as int);
        proof {
            assert(toks[k as int] == tok);
            assert(toks.skip(k as int)[0] == tok);
            assert(toks.skip(k as int).drop_first() == toks.skip(k + 1));
        }
        let sa = q[a] == '^';
        let ea = q[b - 1] == '$';
        assert(sa == is_start_anchored(tok));
        assert(ea == is_end_anchored(tok));
        let step: Option<usize>;
        if sa || ea {
            let ia = if sa { a + 1 } else { a };
            let ib = if ea { b - 1 } else { b };
            proof {
                if sa && ea {
                    assert(q@[a as int] != q@[b - 1]);
                }
                let t1 = if sa { tok.drop_first() } else { tok };
                assert(t1 == q@.subrange(ia as int, b as int));
                if ea {
                    assert(t1.drop_last() == q@.subrange(ia as int, ib as int));
                }
                assert(anchor_inner(tok) == q@.subrange(ia as int, ib as int));
            }
            step = anchored_exec(p, segs.as_slice(), q, ia, ib, sa, ea, pos);
        } else {
            match find_exec(p, pos, q, a, b) {
                Some(j) => {
                    proof {
                        lemma_find_from_occurs(p@, tok, pos as int);
                        assert(j + (b - a) <= p@.len());
                    }
                    assert(p@.len() == p.len());
                    step = Some(j + (b - a));
                },
                None => {
                    step = None;
                },
            }
        }
        match step {
            Some(next) => {
                pos = next;
            },
            None => {
                return false;
            },
        }
        k = k + 1;
    }
    true
}

/// Whether `query` matches `path`, ignoring case: the tokens of the query
/// match the path in order (see the module documentation).
pub fn match_path(path: &str, query: &str) -> (r: bool)
    ensures
        r == spec_match_path(path@, query@),
{
    let path_lower = text::to_lowercase(path);
    let query_lower = text::to_lowercase(query);
    let p = text::str_to_chars(path_lower.as_str());
    let q = text::str_to_chars(query_lower.as_str());
    match_lowered(p.as_slice(), q.as_slice())
}

} // verus!

verus! {

// ---------------------------------------------------------------------------
// Properties
// ---------------------------------------------------------------------------

/// A token with no anchor, matched as a plain substring.
pub open spec fn is_plain(tok: Seq<char>) -> bool {
    !is_start_anchored(tok) && !is_end_anchored(tok)
}

/// `js` places the tokens in `p` in order without overlap, the first at or
/// after `pos`: token `i` occurs at `js[i]`, and each starts after the end of
/// the one before.
pub open spec fn placed_in_order(p: Seq<char>, toks: Seq<Seq<char>>, js: Seq<int>, pos: int) -> bool {
    &&& js.len() == toks.len()
    &&& forall|i: int| 0 <= i < toks.len() ==> occurs_at(p, toks[i], #[trigger] js[i])
    &&& toks.len() > 0 ==> js[0] >= pos
    &&& forall|i: int| 0 < i < toks.len() ==> #[trigger] js[i] >= js[i - 1] + toks[i - 1].len()
}

proof fn lemma_blank_has_no_words(s: Seq<char>, i: int)
    requires
        0 <= i,
        forall|k: int| 0 <= k < s.len() ==> text::spec_is_whitespace(#[trigger] s[k]),
    ensures
        text::word_spans_from(s, i, i) == Seq::<(int, int)>::empty(),
    decreases s.len() - i,
{
    if i < s.len() {
        lemma_blank_has_no_words(s, i + 1);
        assert(text::word_spans_from(s, i, i) == Seq::<(int, int)>::empty()
            + text::word_spans_from(s, i + 1, i + 1));
    }
}

/// A lowercased query made only of whitespace, the empty query among them,
/// matches every path.
pub proof fn law_blank_query_matches_every_path(p: Seq<char>, q: Seq<char>)
    requires
        forall|k: int| 0 <= k < q.len() ==> text::spec_is_whitespace(#[trigger] q[k]),
    ensures
        spec_match_lowered(p, q),
{
    lemma_blank_has_no_words(q, 0);
    assert(text::split_whitespace(q).len() == 0);
}

proof fn lemma_prefix_from(p: Seq<char>, segs: Seq<(int, int)>, toks: Seq<Seq<char>>, pos: int, k: int)
    requires
        0 <= k <= toks.len(),
        tokens_match_from(p, segs, toks, pos),
    ensures
        tokens_match_from(p, segs, toks.take(k), pos),
    decreases toks.len(),
{
    if k > 0 {
        let next = token_step(p, segs, toks[0], pos)->0;
        lemma_prefix_from(p, segs, toks.drop_first(), next, k - 1);
        assert(toks.take(k).drop_first() == toks.drop_first().take(k - 1));
    }
}

/// Dropping trailing tokens never loses a match: a path that matches a
/// query matches every leading part of its tokens.
pub proof fn law_leading_tokens_still_match(p: Seq<char>, toks: Seq<Seq<char>>, k: int)
    requires
        0 <= k <= toks.len(),
        tokens_match(p, toks),
    ensures
        tokens_match(p, toks.take(k)),
{
    lemma_prefix_from(p, segment_spans(p), toks, 0, k);
}

proof fn lemma_find_from_minimal(p: Seq<char>, t: Seq<char>, pos: int, j: int)
    requires
        0 <= pos <= j,
        occurs_at(p, t, j),
    ensures
        find_from(p, t, pos) matches Some(j1) && j1 <= j,
    decreases j - pos,
{
    if !occurs_at(p, t, pos) {
        lemma_find_from_minimal(p, t, pos + 1, j);
    }
}

proof fn lemma_plain_monotone(
    p: Seq<char>,
    segs: Seq<(int, int)>,
    toks: Seq<Seq<char>>,
    pos1: int,
    pos2: int,
)
    requires
        0 <= pos1 <= pos2,
        forall|i: int| 0 <= i < toks.len() ==> is_plain(#[trigger] toks[i]),
        tokens_match_from(p, segs, toks, pos2),
    ensures
        tokens_match_from(p, segs, toks, pos1),
    decreases toks.len(),
{
    if toks.len() > 0 {
        let t = toks[0];
        assert(is_plain(t));
        lemma_find_from_occurs(p, t, pos2);
        let j2 = find_from(p, t, pos2)->0;
        lemma_find_from_minimal(p, t, pos1, j2);
        let j1 = find_from(p, t, pos1)->0;
        lemma_find_from_occurs(p, t, pos1);
        let rest = toks.drop_first();
        assert forall|i: int| 0 <= i < rest.len() implies is_plain(#[trigger] rest[i]) by {
            assert(rest[i] == toks[i + 1]);
        }
        lemma_plain_monotone(p, segs, rest, j1 + t.len(), j2 + t.len());
    }
}

proof fn lemma_plain_match_places(p: Seq<char>, segs: Seq<(int, int)>, toks: Seq<Seq<char>>, pos: int) -> (js: Seq<int>)
    requires
        forall|i: int| 0 <= i < toks.len() ==> is_plain(#[trigger] toks[i]),
        tokens_match_from(p, segs, toks, pos),
    ensures
        placed_in_order(p, toks, js, pos),
    decreases toks.len(),
{
    if toks.len() == 0 {
        Seq::empty()
    } else {
        let t = toks[0];
        assert(is_plain(t));
        lemma_find_from_occurs(p, t, pos);
        let j = find_from(p, t, pos)->0;
        let rest = toks.drop_first();
        assert forall|i: int| 0 <= i < rest.len() implies is_plain(#[trigger] rest[i]) by {
            assert(rest[i] == toks[i + 1]);
        }
        let js_rest = lemma_plain_match_places(p, segs, rest, j + t.len());
        let js = seq![j] + js_rest;
        assert forall|i: int| 0 <= i < toks.len() implies occurs_at(p, toks[i], #[trigger] js[i]) by {
            if i > 0 {
                assert(js[i] == js_rest[i - 1]);
                assert(toks[i] == rest[i - 1]);
            }
        }
        assert forall|i: int| 0 < i < toks.len() implies #[trigger] js[i] >= js[i - 1] + toks[i
            - 1].len() by {
            assert(js[i] == js_rest[i - 1]);
            assert(toks[i] == rest[i - 1]);
            if i > 1 {
                assert(js[i - 1] == js_rest[i - 2]);
                assert(toks[i - 1] == rest[i - 2]);
            }
        }
        js
    }
}

proof fn lemma_placement_matches(
    p: Seq<char>,
    segs: Seq<(int, int)>,
    toks: Seq<Seq<char>>,
    js: Seq<int>,
    pos: int,
)
    requires
        0 <= pos,
        forall|i: int| 0 <= i < toks.len() ==> is_plain(#[trigger] toks[i]),
        placed_in_order(p, toks, js, pos),
    ensures
        tokens_match_from(p, segs, toks, pos),
    decreases toks.len(),
{
    if toks.len() > 0 {
        let t = toks[0];
        assert(is_plain(t));
        assert(occurs_at(p, t, js[0]));
        lemma_find_from_minimal(p, t, pos, js[0]);
        let j1 = find_from(p, t, pos)->0;
        lemma_find_from_occurs(p, t, pos);
        let rest = toks.drop_first();
        let js_rest = js.drop_first();
        assert forall|i: int| 0 <= i < rest.len() implies is_plain(#[trigger] rest[i]) by {
            assert(rest[i] == toks[i + 1]);
        }
        assert forall|i: int| 0 <= i < rest.len() implies occurs_at(p, rest[i], #[trigger] js_rest[i]) by {
            assert(rest[i] == toks[i + 1]);
            assert(js_rest[i] == js[i + 1]);
        }
        assert forall|i: int| 0 < i < rest.len() implies #[trigger] js_rest[i] >= js_rest[i - 1] + rest[i
            - 1].len() by {
            assert(rest[i] == toks[i + 1]);
            assert(js_rest[i] == js[i + 1]);
            assert(rest[i - 1] == toks[i]);
            assert(js_rest[i - 1] == js[i]);
        }
        if rest.len() > 0 {
            assert(js_rest[0] == js[1]);
            assert(js[1] >= js[0] + toks[0].len());
        }
        assert(occurs_at(p, t, js[0]));
        lemma_placement_matches(p, segs, rest, js_rest, js[0] + t.len());
        lemma_plain_monotone(p, segs, rest, j1 + t.len(), js[0] + t.len());
    }
}

/// Tokens without anchors match exactly when they occur in the path in the
/// order given, each after the end of the one before.
pub proof fn law_plain_tokens_match_in_order(p: Seq<char>, toks: Seq<Seq<char>>)
    requires
        forall|i: int| 0 <= i < toks.len() ==> is_plain(#[trigger] toks[i]),
    ensures
        tokens_match(p, toks) <==> exists|js: Seq<int>| placed_in_order(p, toks, js, 0),
{
    if tokens_match(p, toks) {
        let js = lemma_plain_match_places(p, segment_spans(p), toks, 0);
    }
    if exists|js: Seq<int>| placed_in_order(p, toks, js, 0) {
        let js = choose|js: Seq<int>| placed_in_order(p, toks, js, 0);
        lemma_placement_matches(p, segment_spans(p), toks, js, 0);
    }
}

/// Matching ignores case: paths, and queries, with the same lowercase form
/// match alike.
pub proof fn law_match_ignores_case(path1: Seq<char>, path2: Seq<char>, query1: Seq<char>, query2: Seq<char>)
    requires
        text::unicode_lowercase(path1) == text::unicode_lowercase(path2),
        text::unicode_lowercase(query1) == text::unicode_lowercase(query2),
    ensures
        spec_match_path(path1, query1) == spec_match_path(path2, query2),
{
}

} // verus!

verus! {

/// Some segment of `p` satisfies the anchored token.
pub open spec fn some_segment_satisfies(p: Seq<char>, tok: Seq<char>) -> bool {
    let segs = segment_spans(p);
    exists|k: int|
        0 <= k < segs.len() && #[trigger] segment_satisfies(
            p.subrange(segs[k].0, segs[k].1),
            anchor_inner(tok),
            is_start_anchored(tok),
            is_end_anchored(tok),
        )
}

proof fn lemma_anchored_from_finds_segment(
    p: Seq<char>,
    segs: Seq<(int, int)>,
    k: int,
    inner: Seq<char>,
    sa: bool,
    ea: bool,
    pos: int,
)
    requires
        anchored_from(p, segs, k, inner, sa, ea, pos) is Some,
    ensures
        exists|m: int|
            k <= m < segs.len() && 0 <= m && #[trigger] segment_satisfies(p.subrange(segs[m].0, segs[m].1), inner, sa, ea),
    decreases segs.len() - k,
{
    if k >= 0 && k < segs.len() {
        if segs[k].1 < pos || !segment_satisfies(p.subrange(segs[k].0, segs[k].1), inner, sa, ea) {
            lemma_anchored_from_finds_segment(p, segs, k + 1, inner, sa, ea, pos);
        }
    }
}

proof fn lemma_anchored_sound_from(p: Seq<char>, toks: Seq<Seq<char>>, pos: int)
    requires
        tokens_match_from(p, segment_spans(p), toks, pos),
    ensures
        forall|i: int|
            0 <= i < toks.len() && !is_plain(#[trigger] toks[i]) ==> some_segment_satisfies(p, toks[i]),
    decreases toks.len(),
{
    if toks.len() > 0 {
        let segs = segment_spans(p);
        let t = toks[0];
        let next = token_step(p, segs, t, pos)->0;
        lemma_anchored_sound_from(p, toks.drop_first(), next);
        if !is_plain(t) {
            lemma_anchored_from_finds_segment(p, segs, 0, anchor_inner(t), is_start_anchored(t), is_end_anchored(t), pos);
        }
        assert forall|i: int| 0 <= i < toks.len() && !is_plain(#[trigger] toks[i]) implies some_segment_satisfies(p, toks[i]) by {
            if i > 0 {
                assert(toks[i] == toks.drop_first()[i - 1]);
            }
        }
    }
}

/// An anchored token matches only when some segment of the path satisfies
/// it: `^x` a segment starting with `x`, `x$` one ending with `x`, `^x$` one
/// equal to `x`.
pub proof fn law_anchored_tokens_name_segments(p: Seq<char>, toks: Seq<Seq<char>>)
    requires
        tokens_match(p, toks),
    ensures
        forall|i: int|
            0 <= i < toks.len() && !is_plain(#[trigger] toks[i]) ==> some_segment_satisfies(p, toks[i]),
{
    lemma_anchored_sound_from(p, toks, 0);
}

} // verus!

verus! {

proof fn lemma_segment_ends_nonnegative(p: Seq<char>, i: int, start: int)
    requires
        0 <= i,
    ensures
        forall|k: int|
            0 <= k < segment_spans_from(p, i, start).len() ==> (#[trigger] segment_spans_from(p, i, start)[k]).1 >= 0,
    decreases p.len() - i,
{
    let r = segment_spans_from(p, i, start);
    if i >= p.len() {
        assert(r == seq![(start, p.len() as int)]);
        assert forall|k: int| 0 <= k < r.len() implies (#[trigger] r[k]).1 >= 0 by {
            assert(r[k] == (start, p.len() as int));
        }
    } else if p[i] == '/' {
        lemma_segment_ends_nonnegative(p, i + 1, i + 1);
        let rest = segment_spans_from(p, i + 1, i + 1);
        assert(r == seq![(start, i)] + rest);
        assert forall|k: int| 0 <= k < r.len() implies (#[trigger] r[k]).1 >= 0 by {
            if k > 0 {
                assert(r[k] == rest[k - 1]);
            }
        }
    } else {
        lemma_segment_ends_nonnegative(p, i + 1, start);
        assert(r == segment_spans_from(p, i + 1, start));
    }
}

proof fn lemma_anchored_from_complete(
    p: Seq<char>,
    segs: Seq<(int, int)>,
    k: int,
    inner: Seq<char>,
    sa: bool,
    ea: bool,
    m: int,
)
    requires
        0 <= k <= m < segs.len(),
        forall|j: int| 0 <= j < segs.len() ==> (#[trigger] segs[j]).1 >= 0,
        segment_satisfies(p.subrange(segs[m].0, segs[m].1), inner, sa, ea),
    ensures
        anchored_from(p, segs, k, inner, sa, ea, 0) is Some,
    decreases segs.len() - k,
{
    assert(segs[k].1 >= 0);
    if k < m && !segment_satisfies(p.subrange(segs[k].0, segs[k].1), inner, sa, ea) {
        lemma_anchored_from_complete(p, segs, k + 1, inner, sa, ea, m);
    }
}

/// A query made of one anchored token matches exactly when some segment of
/// the path satisfies it: `^x$` a segment equal to `x`, `^x` one starting
/// with `x`, `x$` one ending with `x`.
pub proof fn law_anchored_token_matches_iff_some_segment(p: Seq<char>, q: Seq<char>, tok: Seq<char>)
    requires
        text::split_whitespace(q) == seq![tok],
        !is_plain(tok),
    ensures
        spec_match_lowered(p, q) <==> some_segment_satisfies(p, tok),
{
    let segs = segment_spans(p);
    let toks = seq![tok];
    assert(toks[0] == tok);
    assert(toks.drop_first() =~= Seq::<Seq<char>>::empty());
    let inner = anchor_inner(tok);
    let sa = is_start_anchored(tok);
    let ea = is_end_anchored(tok);
    assert(tokens_match_from(p, segs, toks, 0) == (anchored_from(p, segs, 0, inner, sa, ea, 0) is Some)) by {
        reveal_with_fuel(tokens_match_from, 2);
    }
    if spec_match_lowered(p, q) {
        lemma_anchored_from_finds_segment(p, segs, 0, inner, sa, ea, 0);
    }
    if some_segment_satisfies(p, tok) {
        let m = choose|k: int|
            0 <= k < segs.len() && #[trigger] segment_satisfies(p.subrange(segs[k].0, segs[k].1), inner, sa, ea);
        lemma_segment_ends_nonnegative(p, 0, 0);
        lemma_anchored_from_complete(p, segs, 0, inner, sa, ea, m);
    }
}

/// Adding words to a query never turns a path that does not match into one
/// that does: a path matching `q`, a whitespace character and `t` (all
/// lowercased) matches `q`.
pub proof fn law_adding_words_keeps_non_matches(p: Seq<char>, q: Seq<char>, c: char, t: Seq<char>)
    requires
        text::spec_is_whitespace(c),
        spec_match_lowered(p, q + seq![c] + t),
    ensures
        spec_match_lowered(p, q),
{
    text::lemma_split_whitespace_of_cat(q, c, t);
    let a = text::split_whitespace(q);
    let all = a + text::split_whitespace(t);
    lemma_prefix_from(p, segment_spans(p), all, 0, a.len() as int);
    assert(all.take(a.len() as int) =~= a);
}

} // verus!

verus! {

proof fn lemma_anchored_from_segment_after(
    p: Seq<char>,
    segs: Seq<(int, int)>,
    k: int,
    inner: Seq<char>,
    sa: bool,
    ea: bool,
    pos: int,
)
    requires
        anchored_from(p, segs, k, inner, sa, ea, pos) is Some,
    ensures
        exists|m: int|
            0 <= k <= m < segs.len() && segs[m].1 >= pos && #[trigger] segment_satisfies(
                p.subrange(segs[m].0, segs[m].1),
                inner,
                sa,
                ea,
            ),
    decreases segs.len() - k,
{
    if k >= 0 && k < segs.len() {
        if segs[k].1 < pos || !segment_satisfies(p.subrange(segs[k].0, segs[k].1), inner, sa, ea) {
            lemma_anchored_from_segment_after(p, segs, k + 1, inner, sa, ea, pos);
        }
    }
}

/// Anchored tokens keep to the order of the query: when the tokens match
/// from position `pos` and the first is anchored, some segment that does
/// not end before `pos` satisfies it.
pub proof fn law_anchored_token_respects_order(p: Seq<char>, toks: Seq<Seq<char>>, pos: int)
    requires
        toks.len() > 0,
        !is_plain(toks[0]),
        tokens_match_from(p, segment_spans(p), toks, pos),
    ensures
        exists|k: int|
            0 <= k < segment_spans(p).len() && segment_spans(p)[k].1 >= pos && #[trigger] segment_satisfies(
                p.subrange(segment_spans(p)[k].0, segment_spans(p)[k].1),
                anchor_inner(toks[0]),
                is_start_anchored(toks[0]),
                is_end_anchored(toks[0]),
            ),
{
    let t = toks[0];
    lemma_anchored_from_segment_after(
        p,
        segment_spans(p),
        0,
        anchor_inner(t),
        is_start_anchored(t),
        is_end_anchored(t),
        pos,
    );
}

/// For a query `x y` with `x` plain and `y` anchored, a matching path has
/// `x` and, after the end of the first occurrence of `x`, a segment that
/// satisfies `y`: the anchored token is never matched in a segment that
/// ends before `x`.
pub proof fn law_anchored_after_plain_token(p: Seq<char>, q: Seq<char>, x: Seq<char>, y: Seq<char>)
    requires
        text::split_whitespace(q) == seq![x, y],
        is_plain(x),
        !is_plain(y),
        spec_match_lowered(p, q),
    ensures
        find_from(p, x, 0) is Some,
        exists|k: int|
            0 <= k < segment_spans(p).len() && segment_spans(p)[k].1 >= find_from(p, x, 0)->0 + x.len()
                && #[trigger] segment_satisfies(
                p.subrange(segment_spans(p)[k].0, segment_spans(p)[k].1),
                anchor_inner(y),
                is_start_anchored(y),
                is_end_anchored(y),
            ),
{
    let toks = seq![x, y];
    let segs = segment_spans(p);
    assert(toks[0] == x);
    let rest = toks.drop_first();
    assert(rest =~= seq![y]);
    assert(rest[0] == y);
    let j = find_from(p, x, 0)->0;
    law_anchored_token_respects_order(p, rest, j + x.len());
}

} // verus!
