//! Character-level helpers shared by the matcher, the path logic and the UI.

use vstd::prelude::*;

verus! {

broadcast use vstd::string::group_string_axioms;

/// The Unicode `White_Space` property, which is what `char::is_whitespace`,
/// `str::trim` and `str::split_whitespace` go by.
pub open spec fn spec_is_whitespace(c: char) -> bool {
    let u = c as u32;
    ||| 0x09 <= u <= 0x0d
    ||| u == 0x20
    ||| u == 0x85
    ||| u == 0xa0
    ||| u == 0x1680
    ||| 0x2000 <= u <= 0x200a
    ||| u == 0x2028
    ||| u == 0x2029
    ||| u == 0x202f
    ||| u == 0x205f
    ||| u == 0x3000
}

/// Whether `c` has the Unicode `White_Space` property.
pub fn is_whitespace(c: char) -> (r: bool)
    ensures
        r == spec_is_whitespace(c),
{
    let u = c as u32;
    (0x09 <= u && u <= 0x0d) || u == 0x20 || u == 0x85 || u == 0xa0 || u == 0x1680 || (0x2000
        <= u && u <= 0x200a) || u == 0x2028 || u == 0x2029 || u == 0x202f || u == 0x205f || u
        == 0x3000
}

/// The characters of `s`, in order.
pub fn str_to_chars(s: &str) -> (v: Vec<char>)
    ensures
        v@ == s@,
{
    let mut v: Vec<char> = Vec::new();
    let mut it = s.chars();
    loop
        invariant
            vstd::std_specs::iter::IteratorSpec::remaining(&it) == s@.skip(v@.len() as int),
            v@ == s@.take(v@.len() as int),
            v@.len() <= s@.len(),
        decreases s@.len() - v@.len(),
    {
        match it.next() {
            Some(c) => {
                v.push(c);
            },
            None => {
                assert(v@ == s@);
                return v;
            },
        }
    }
}

/// Appends `c` to `s` (`String::push`).
#[verifier::external_body]
pub(crate) fn push_char(s: &mut String, c: char)
    ensures
        final(s)@ == old(s)@.push(c),
{
    s.push(c);
}

/// The string whose characters are `v`.
pub fn chars_to_string(v: &[char]) -> (s: String)
    ensures
        s@ == v@,
{
    let mut s = String::new();
    let mut i: usize = 0;
    while i < v.len()
        invariant
            i <= v@.len(),
            s@ == v@.take(i as int),
        decreases v@.len() - i,
    {
        push_char(&mut s, v[i]);
        assert(v@.take(i + 1) == v@.take(i as int).push(v@[i as int]));
        i = i + 1;
    }
    assert(v@.take(v@.len() as int) == v@);
    s
}

} // verus!

verus! {

/// Spans `(start, end)` of the maximal runs of non-whitespace characters of
/// `s` at or after `i`, where a run that is still open began at `start`
/// (`start == i` when none is open).
pub open spec fn word_spans_from(s: Seq<char>, i: int, start: int) -> Seq<(int, int)>
    decreases s.len() - i,
{
    if i >= s.len() {
        if start < s.len() {
            seq![(start, s.len() as int)]
        } else {
            seq![]
        }
    } else if spec_is_whitespace(s[i]) {
        let closed: Seq<(int, int)> = if start < i {
            seq![(start, i)]
        } else {
            seq![]
        };
        closed + word_spans_from(s, i + 1, i + 1)
    } else {
        word_spans_from(s, i + 1, start)
    }
}

/// Spans of the words of `s`: the maximal non-empty runs of characters
/// without the `White_Space` property, in order.
pub open spec fn word_spans(s: Seq<char>) -> Seq<(int, int)> {
    word_spans_from(s, 0, 0)
}

/// The words of `s`, as `str::split_whitespace` yields them.
pub open spec fn split_whitespace(s: Seq<char>) -> Seq<Seq<char>> {
    word_spans(s).map_values(|sp: (int, int)| s.subrange(sp.0, sp.1))
}

/// The spans of the words of `s` (see [`word_spans`]).
pub fn word_spans_exec(s: &[char]) -> (r: Vec<(usize, usize)>)
    ensures
        r@.len() == word_spans(s@).len(),
        forall|k: int|
            0 <= k < r@.len() ==> (#[trigger] r@[k]).0 as int == word_spans(s@)[k].0 && r@[k].1
                as int == word_spans(s@)[k].1,
        forall|k: int| 0 <= k < r@.len() ==> (#[trigger] r@[k]).0 < r@[k].1 <= s@.len(),
{
    let mut r: Vec<(usize, usize)> = Vec::new();
    let ghost mut acc: Seq<(int, int)> = seq![];
    let mut i: usize = 0;
    let mut start: usize = 0;
    while i < s.len()
        invariant
            start <= i <= s@.len(),
            r@.len() == acc.len(),
            forall|k: int|
                0 <= k < r@.len() ==> (#[trigger] r@[k]).0 as int == acc[k].0 && r@[k].1 as int
                    == acc[k].1,
            forall|k: int| 0 <= k < r@.len() ==> (#[trigger] r@[k]).0 < r@[k].1 <= start,
            acc + word_spans_from(s@, i as int, start as int) == word_spans(s@),
        decreases s@.len() - i,
    {
        if is_whitespace(s[i]) {
            if start < i {
                r.push((start, i));
                proof {
                    acc = acc.push((start as int, i as int));
                }
            }
            proof {
                let closed: Seq<(int, int)> = if start < i {
                    seq![(start as int, i as int)]
                } else {
                    seq![]
                };
                assert(word_spans_from(s@, i as int, start as int) == closed + word_spans_from(
                    s@,
                    i + 1,
                    i + 1,
                ));
            }
            i = i + 1;
            start = i;
            proof {
                assert(acc + word_spans_from(s@, i as int, start as int) == word_spans(s@)) by {
                    assert(forall|a: Seq<(int, int)>, b: Seq<(int, int)>, c: Seq<(int, int)>|
                        (a + b) + c == a + (b + c));
                }
            }
        } else {
            i = i + 1;
        }
    }
    if start < i {
        r.push((start, i));
        proof {
            acc = acc.push((start as int, i as int));
        }
    }
    proof {
        assert(acc == word_spans(s@));
    }
    r
}

} // verus!

verus! {

/// What `str::to_lowercase` returns for a string with the given characters:
/// the Unicode lowercase mapping, character by character except where the
/// mapping depends on the context (a capital sigma becomes a final sigma at
/// the end of a word).
pub uninterp spec fn unicode_lowercase(s: Seq<char>) -> Seq<char>;

/// `str::to_lowercase`. Its result is named, not stated: the mapping comes
/// from the Unicode tables, one character may map to several, and a capital
/// sigma maps by its context.
#[verifier::external_body]
pub(crate) fn to_lowercase(s: &str) -> (r: String)
    ensures
        r@ == unicode_lowercase(s@),
{
    s.to_lowercase()
}

} // verus!

verus! {

/// `s` without its leading whitespace.
pub open spec fn trim_start(s: Seq<char>) -> Seq<char>
    decreases s.len(),
{
    if s.len() > 0 && spec_is_whitespace(s[0]) {
        trim_start(s.drop_first())
    } else {
        s
    }
}

/// `s` without its trailing whitespace.
pub open spec fn trim_end(s: Seq<char>) -> Seq<char>
    decreases s.len(),
{
    if s.len() > 0 && spec_is_whitespace(s.last()) {
        trim_end(s.drop_last())
    } else {
        s
    }
}

/// `s` without leading and trailing whitespace (`str::trim`).
pub open spec fn trim(s: Seq<char>) -> Seq<char> {
    trim_end(trim_start(s))
}

/// The span `[a, b)` of `s[lo..hi]` without its leading and trailing
/// whitespace.
pub fn trim_span(s: &[char], lo: usize, hi: usize) -> (r: (usize, usize))
    requires
        lo <= hi <= s@.len(),
    ensures
        lo <= r.0 <= r.1 <= hi,
        s@.subrange(r.0 as int, r.1 as int) == trim(s@.subrange(lo as int, hi as int)),
{
    let mut a = lo;
    while a < hi && is_whitespace(s[a])
        invariant
            lo <= a <= hi <= s@.len(),
            trim_start(s@.subrange(lo as int, hi as int)) == trim_start(s@.subrange(a as int, hi as int)),
        decreases hi - a,
    {
        assert(s@.subrange(a as int, hi as int).drop_first() == s@.subrange(a + 1, hi as int));
        a = a + 1;
    }
    let mut b = hi;
    while b > a && is_whitespace(s[b - 1])
        invariant
            lo <= a <= b <= hi <= s@.len(),
            trim_start(s@.subrange(lo as int, hi as int)) == s@.subrange(a as int, hi as int),
            trim_end(s@.subrange(a as int, hi as int)) == trim_end(s@.subrange(a as int, b as int)),
        decreases b - a,
    {
        assert(s@.subrange(a as int, b as int).drop_last() == s@.subrange(a as int, b - 1));
        b = b - 1;
    }
    (a, b)
}

/// `c` with ASCII uppercase letters mapped to lowercase
/// (`char::to_ascii_lowercase`).
pub open spec fn spec_ascii_lower(c: char) -> char {
    if 'A' <= c <= 'Z' {
        ((c as u32) + 32) as char
    } else {
        c
    }
}

/// `s` with ASCII uppercase letters mapped to lowercase
/// (`str::to_ascii_lowercase`).
pub open spec fn ascii_lowercase(s: Seq<char>) -> Seq<char> {
    s.map_values(|c: char| spec_ascii_lower(c))
}

/// `c` with an ASCII uppercase letter mapped to lowercase.
pub fn ascii_lower(c: char) -> (r: char)
    ensures
        r == spec_ascii_lower(c),
{
    if 'A' <= c && c <= 'Z' {
        let u = (c as u8) + 32;
        u as char
    } else {
        c
    }
}

/// The decimal digit character for `d`.
pub open spec fn digit_char(d: nat) -> char {
    ((d + 48) as u32) as char
}

/// The decimal representation of `n`, without leading zeros.
pub open spec fn decimal(n: nat) -> Seq<char>
    decreases n,
{
    if n < 10 {
        seq![digit_char(n)]
    } else {
        decimal(n / 10).push(digit_char(n % 10))
    }
}

/// The decimal representation of `n` (as `format!("{}", n)` writes it).
pub fn decimal_string(n: u64) -> (r: Vec<char>)
    ensures
        r@ == decimal(n as nat),
    decreases n,
{
    let d = (n % 10) as u8;
    let c = (d + 48) as char;
    assert(c == digit_char((n % 10) as nat));
    if n < 10 {
        let v: Vec<char> = vec![c];
        assert(v@ =~= seq![c]);
        v
    } else {
        let mut v = decimal_string(n / 10);
        v.push(c);
        v
    }
}

} // verus!

verus! {

/// The string whose characters are `v[a..b]`.
pub fn range_to_string(v: &[char], a: usize, b: usize) -> (s: String)
    requires
        a <= b <= v@.len(),
    ensures
        s@ == v@.subrange(a as int, b as int),
{
    let mut s = String::new();
    let mut i: usize = a;
    while i < b
        invariant
            a <= i <= b <= v@.len(),
            s@ == v@.subrange(a as int, i as int),
        decreases b - i,
    {
        push_char(&mut s, v[i]);
        assert(v@.subrange(a as int, i + 1) == v@.subrange(a as int, i as int).push(v@[i as int]));
        i = i + 1;
    }
    s
}

} // verus!

verus! {

/// Whether two strings hold the same characters.
pub fn str_eq(a: &str, b: &str) -> (r: bool)
    ensures
        r == (a@ == b@),
{
    let x = str_to_chars(a);
    let y = str_to_chars(b);
    if x.len() != y.len() {
        assert(a@.len() != b@.len());
        return false;
    }
    let mut i: usize = 0;
    while i < x.len()
        invariant
            i <= x@.len() == y@.len(),
            x@ == a@,
            y@ == b@,
            forall|j: int| 0 <= j < i ==> x@[j] == y@[j],
        decreases x@.len() - i,
    {
        if x[i] != y[i] {
            return false;
        }
        i = i + 1;
    }
    assert(x@ =~= y@);
    true
}

} // verus!

verus! {

/// Spans moved right by `d`.
pub open spec fn shift_spans(v: Seq<(int, int)>, d: int) -> Seq<(int, int)> {
    v.map_values(|p: (int, int)| (p.0 + d, p.1 + d))
}

/// Mapping distributes over concatenation.
pub proof fn lemma_map_concat<A, B>(a: Seq<A>, b: Seq<A>, f: spec_fn(A) -> B)
    ensures
        (a + b).map_values(f) == a.map_values(f) + b.map_values(f),
{
    assert((a + b).map_values(f) =~= a.map_values(f) + b.map_values(f));
}

/// The word spans of `q + c + t` from index `|q| + 1 + j` on, the current
/// run having begun at `|q| + 1 + st`.
spec fn word_spans_cat_from(q: Seq<char>, c: char, t: Seq<char>, j: int, st: int) -> Seq<(int, int)> {
    word_spans_from(q + seq![c] + t, q.len() + 1 + j, q.len() + 1 + st)
}

proof fn lemma_word_spans_after_sep(q: Seq<char>, c: char, t: Seq<char>, j: int, st: int)
    requires
        0 <= st <= j <= t.len(),
    ensures
        word_spans_cat_from(q, c, t, j, st) == shift_spans(word_spans_from(t, j, st), q.len() + 1int),
    decreases t.len() - j,
{
    let s = q + seq![c] + t;
    let n = q.len() as int;
    let f = |p: (int, int)| (p.0 + n + 1, p.1 + n + 1);
    if j >= t.len() {
        if st < t.len() {
            assert(shift_spans(seq![(st, t.len() as int)], n + 1) =~= seq![(st + n + 1, s.len() as int)]);
        } else {
            assert(shift_spans(Seq::<(int, int)>::empty(), n + 1) =~= Seq::<(int, int)>::empty());
        }
    } else {
        assert(s[n + 1 + j] == t[j]);
        if spec_is_whitespace(t[j]) {
            lemma_word_spans_after_sep(q, c, t, j + 1, j + 1);
            let closed: Seq<(int, int)> = if st < j {
                seq![(st, j)]
            } else {
                seq![]
            };
            lemma_map_concat(closed, word_spans_from(t, j + 1, j + 1), f);
            if st < j {
                assert(closed.map_values(f) =~= seq![(st + n + 1, j + n + 1)]);
            } else {
                assert(closed.map_values(f) =~= Seq::<(int, int)>::empty());
            }
        } else {
            lemma_word_spans_after_sep(q, c, t, j + 1, st);
        }
    }
}

proof fn lemma_word_spans_of_cat(q: Seq<char>, c: char, t: Seq<char>, i: int, start: int)
    requires
        0 <= start <= i <= q.len(),
        spec_is_whitespace(c),
    ensures
        word_spans_from(q + seq![c] + t, i, start) == word_spans_from(q, i, start) + shift_spans(
            word_spans(t),
            q.len() + 1int,
        ),
    decreases q.len() - i,
{
    let s = q + seq![c] + t;
    let n = q.len() as int;
    let tail = shift_spans(word_spans(t), n + 1);
    if i == n {
        lemma_word_spans_after_sep(q, c, t, 0, 0);
        assert(s[n] == c);
    } else {
        assert(s[i] == q[i]);
        if spec_is_whitespace(q[i]) {
            lemma_word_spans_of_cat(q, c, t, i + 1, i + 1);
            let closed: Seq<(int, int)> = if start < i {
                seq![(start, i)]
            } else {
                seq![]
            };
            assert((closed + word_spans_from(q, i + 1, i + 1)) + tail =~= closed + (word_spans_from(q, i + 1, i + 1)
                + tail));
        } else {
            lemma_word_spans_of_cat(q, c, t, i + 1, start);
        }
    }
}

proof fn lemma_word_spans_bounded(x: Seq<char>, i: int, start: int)
    requires
        0 <= start <= i <= x.len(),
    ensures
        forall|k: int|
            0 <= k < word_spans_from(x, i, start).len() ==> start <= (#[trigger] word_spans_from(x, i, start)[k]).0
                <= word_spans_from(x, i, start)[k].1 <= x.len(),
    decreases x.len() - i,
{
    let r = word_spans_from(x, i, start);
    if i < x.len() {
        if spec_is_whitespace(x[i]) {
            lemma_word_spans_bounded(x, i + 1, i + 1);
            let closed: Seq<(int, int)> = if start < i {
                seq![(start, i)]
            } else {
                seq![]
            };
            let rest = word_spans_from(x, i + 1, i + 1);
            assert(r == closed + rest);
            assert forall|k: int| 0 <= k < r.len() implies start <= (#[trigger] r[k]).0 <= r[k].1 <= x.len() by {
                if k >= closed.len() {
                    assert(r[k] == rest[k - closed.len()]);
                }
            }
        } else {
            lemma_word_spans_bounded(x, i + 1, start);
            assert(r == word_spans_from(x, i + 1, start));
        }
    } else if start < x.len() {
        assert(r == seq![(start, x.len() as int)]);
        assert forall|k: int| 0 <= k < r.len() implies start <= (#[trigger] r[k]).0 <= r[k].1 <= x.len() by {
            assert(r[k] == (start, x.len() as int));
        }
    }
}

/// The words of `q`, a whitespace character, then `t` are the words of `q`
/// followed by those of `t`.
pub proof fn lemma_split_whitespace_of_cat(q: Seq<char>, c: char, t: Seq<char>)
    requires
        spec_is_whitespace(c),
    ensures
        split_whitespace(q + seq![c] + t) == split_whitespace(q) + split_whitespace(t),
{
    let s = q + seq![c] + t;
    let n = q.len() as int;
    let sq = word_spans(q);
    let st = word_spans(t);
    lemma_word_spans_of_cat(q, c, t, 0, 0);
    lemma_word_spans_bounded(q, 0, 0);
    lemma_word_spans_bounded(t, 0, 0);
    let fs = |sp: (int, int)| s.subrange(sp.0, sp.1);
    lemma_map_concat(sq, shift_spans(st, n + 1), fs);
    assert(sq.map_values(fs) =~= split_whitespace(q)) by {
        assert forall|k: int| 0 <= k < sq.len() implies sq.map_values(fs)[k] == split_whitespace(q)[k] by {
            assert(s.subrange(sq[k].0, sq[k].1) =~= q.subrange(sq[k].0, sq[k].1));
        }
    }
    assert(shift_spans(st, n + 1).map_values(fs) =~= split_whitespace(t)) by {
        assert forall|k: int| 0 <= k < st.len() implies shift_spans(st, n + 1).map_values(fs)[k] == split_whitespace(
            t,
        )[k] by {
            assert(s.subrange(st[k].0 + n + 1, st[k].1 + n + 1) =~= t.subrange(st[k].0, st[k].1));
        }
    }
}

} // verus!
