//! What a search keeps and the integer features it ranks by.
//!
//! A query that starts with `@` names a tag: `@infra web` keeps the
//! directories tagged `infra` whose path matches `web`. Any other query
//! keeps the directories whose path matches it. For each kept directory the
//! search reports how often and when it was last visited, and how often the
//! same query led to it before; turning these into a score is left to the
//! caller.

use vstd::prelude::*;
use crate::matcher;
use crate::models::{Directory, ProjectType, QueryMapping, Tag, VisitEvent};
use crate::text;

verus! {

broadcast use vstd::std_specs::hash::group_hash_axioms;

// ---------------------------------------------------------------------------
// Tag queries
// ---------------------------------------------------------------------------

/// The index of the first whitespace character of `s` at or after `i`, or
/// the length of `s`.
pub open spec fn first_whitespace_from(s: Seq<char>, i: int) -> int
    decreases s.len() - i,
{
    if i >= s.len() {
        s.len() as int
    } else if text::spec_is_whitespace(s[i]) {
        i
    } else {
        first_whitespace_from(s, i + 1)
    }
}

/// `s` without its leading `@` characters.
pub open spec fn strip_leading_ats(s: Seq<char>) -> Seq<char>
    decreases s.len(),
{
    if s.len() > 0 && s[0] == '@' {
        strip_leading_ats(s.drop_first())
    } else {
        s
    }
}

/// The tag a query names, if any, and the rest of the query. A query that
/// starts with `@` is split at its first whitespace character: the first
/// part without its leading `@`s is the tag (none if that leaves nothing),
/// the part after the whitespace character, trimmed, is the rest. Any other
/// query names no tag and is all rest.
pub open spec fn spec_split_tag_query(q: Seq<char>) -> (Option<Seq<char>>, Seq<char>) {
    if q.len() > 0 && q[0] == '@' {
        let i = first_whitespace_from(q, 0);
        let first = q.subrange(0, i);
        let rest = if i < q.len() {
            text::trim(q.subrange(i + 1, q.len() as int))
        } else {
            seq![]
        };
        let tag = strip_leading_ats(first);
        if tag.len() == 0 {
            (None, rest)
        } else {
            (Some(tag), rest)
        }
    } else {
        (None, q)
    }
}

/// The span of `q[0..i]` without its leading `@`s.
fn strip_ats_span(q: &[char], i: usize) -> (r: usize)
    requires
        i <= q@.len(),
    ensures
        r <= i,
        q@.subrange(r as int, i as int) == strip_leading_ats(q@.subrange(0, i as int)),
{
    let mut a: usize = 0;
    while a < i && q[a] == '@'
        invariant
            a <= i <= q@.len(),
            strip_leading_ats(q@.subrange(0, i as int)) == strip_leading_ats(q@.subrange(a as int, i as int)),
        decreases i - a,
    {
        assert(q@.subrange(a as int, i as int).drop_first() == q@.subrange(a + 1, i as int));
        a = a + 1;
    }
    a
}

/// The index of the first whitespace character of `q`, or its length.
fn first_whitespace(q: &[char]) -> (r: usize)
    ensures
        r == first_whitespace_from(q@, 0),
        r <= q@.len(),
{
    let mut i: usize = 0;
    while i < q.len() && !text::is_whitespace(q[i])
        invariant
            i <= q@.len(),
            first_whitespace_from(q@, 0) == first_whitespace_from(q@, i as int),
        decreases q@.len() - i,
    {
        i = i + 1;
    }
    i
}

/// The tag a query names, if any, and the rest of it (see
/// [`spec_split_tag_query`]).
pub fn split_tag_query(query: &str) -> (r: (Option<String>, String))
    ensures
        spec_split_tag_query(query@) == (
            match r.0 {
                Some(t) => Some(t@),
                None => None,
            },
            r.1@,
        ),
{
    let q = text::str_to_chars(query);
    if !(q.len() > 0 && q[0] == '@') {
        return (None, text::chars_to_string(q.as_slice()));
    }
    let i = first_whitespace(q.as_slice());
    let rest = if i < q.len() {
        let (a, b) = text::trim_span(q.as_slice(), i + 1, q.len());
        text::range_to_string(q.as_slice(), a, b)
    } else {
        String::new()
    };
    let a = strip_ats_span(q.as_slice(), i);
    if a == i {
        (None, rest)
    } else {
        (Some(text::range_to_string(q.as_slice(), a, i)), rest)
    }
}

// ---------------------------------------------------------------------------
// Features
// ---------------------------------------------------------------------------

/// The number of visits of the directory with id `id`.
pub open spec fn count_visits(vs: Seq<VisitEvent>, id: u64) -> nat
    decreases vs.len(),
{
    if vs.len() == 0 {
        0
    } else {
        count_visits(vs.drop_last(), id) + if vs.last().path_id == id {
            1nat
        } else {
            0nat
        }
    }
}

/// The time of the latest visit of the directory with id `id`, if any.
pub open spec fn last_visit(vs: Seq<VisitEvent>, id: u64) -> Option<i128>
    decreases vs.len(),
{
    if vs.len() == 0 {
        None
    } else {
        let prev = last_visit(vs.drop_last(), id);
        let v = vs.last();
        if v.path_id != id {
            prev
        } else {
            match prev {
                Some(t) => if v.timestamp > t {
                    Some(v.timestamp)
                } else {
                    Some(t)
                },
                None => Some(v.timestamp),
            }
        }
    }
}

/// `m` is the largest visit count of any visited directory, or 1 when
/// nothing was visited.
pub open spec fn is_max_visit_count(vs: Seq<VisitEvent>, m: u64) -> bool {
    if vs.len() == 0 {
        m == 1
    } else {
        &&& forall|i: int| 0 <= i < vs.len() ==> count_visits(vs, (#[trigger] vs[i]).path_id) <= m
        &&& exists|i: int| 0 <= i < vs.len() && count_visits(vs, (#[trigger] vs[i]).path_id) == m
    }
}

/// `m` is the largest count of any query mapping, or 1 when there is none.
pub open spec fn is_max_learned_count(ms: Seq<QueryMapping>, m: u64) -> bool {
    if ms.len() == 0 {
        m == 1
    } else {
        &&& forall|i: int| 0 <= i < ms.len() ==> (#[trigger] ms[i]).count <= m
        &&& exists|i: int| 0 <= i < ms.len() && (#[trigger] ms[i]).count == m
    }
}

/// The count of the first mapping of exactly this query to the directory
/// with id `id`, if any.
pub open spec fn first_learned_count(ms: Seq<QueryMapping>, query: Seq<char>, id: u64) -> Option<u64>
    decreases ms.len(),
{
    if ms.len() == 0 {
        None
    } else if ms[0].query@ == query && ms[0].path_id == id {
        Some(ms[0].count)
    } else {
        first_learned_count(ms.drop_first(), query, id)
    }
}

/// Some tag with this name is on the directory with id `id`.
pub open spec fn has_tag(tags: Seq<Tag>, name: Seq<char>, id: u64) -> bool {
    exists|i: int| 0 <= i < tags.len() && (#[trigger] tags[i]).name@ == name && tags[i].path_id == id
}

/// What is known of one kept directory.
pub struct Candidate {
    /// Its index among the directories searched.
    pub dir_index: usize,
    /// How often it was visited.
    pub visit_count: u64,
    /// When it was last visited.
    pub last_visit: Option<i128>,
    /// How often this exact query led to it, if ever recorded.
    pub learned_count: Option<u64>,
    /// It carries the tag the query names.
    pub is_tag_match: bool,
}

/// The kept directories and the maxima their counts are scaled by.
pub struct SearchFeatures {
    pub candidates: Vec<Candidate>,
    pub max_visit_count: u64,
    pub max_learned_count: u64,
}

/// The directory is kept by a search for `query`: with a tag, it must carry
/// the tag and match the rest of the query, if any; without, it must match
/// the query.
pub open spec fn search_keeps(d: Directory, tags: Seq<Tag>, query: Seq<char>) -> bool {
    let (tag, rest) = spec_split_tag_query(query);
    match tag {
        Some(t) => has_tag(tags, t, d.id) && (rest.len() == 0 || matcher::spec_match_path(
            d.path@,
            rest,
        )),
        None => matcher::spec_match_path(d.path@, query),
    }
}

/// The tag the picker looks for: the first word of a query starting with
/// `@`, without its leading `@`s.
pub open spec fn picker_tag(query: Seq<char>) -> Option<Seq<char>> {
    if query.len() > 0 && query[0] == '@' {
        Some(strip_leading_ats(query.subrange(0, first_whitespace_from(query, 0))))
    } else {
        None
    }
}

/// The directory is kept by the picker: its path matches the whole query.
pub open spec fn picker_keeps(d: Directory, tags: Seq<Tag>, query: Seq<char>) -> bool {
    matcher::spec_match_path(d.path@, query)
}

/// The indices, in order, of the first `n` directories that `keep` keeps.
pub open spec fn kept_indices(dirs: Seq<Directory>, keep: spec_fn(Directory) -> bool, n: int) -> Seq<int>
    decreases n,
{
    if n <= 0 {
        seq![]
    } else {
        kept_indices(dirs, keep, n - 1) + if keep(dirs[n - 1]) {
            seq![n - 1]
        } else {
            seq![]
        }
    }
}

/// The features describe the directories that `keep` keeps, in order, with
/// the given tag deciding tag matches.
pub open spec fn features_match(
    f: SearchFeatures,
    dirs: Seq<Directory>,
    visits: Seq<VisitEvent>,
    mappings: Seq<QueryMapping>,
    tags: Seq<Tag>,
    query: Seq<char>,
    keep: spec_fn(Directory) -> bool,
    tag: Option<Seq<char>>,
) -> bool {
    let kept = kept_indices(dirs, keep, dirs.len() as int);
    &&& f.candidates@.len() == kept.len()
    &&& forall|k: int|
        0 <= k < kept.len() ==> {
            let c = #[trigger] f.candidates@[k];
            let d = dirs[kept[k]];
            &&& c.dir_index == kept[k]
            &&& c.visit_count == count_visits(visits, d.id)
            &&& c.last_visit == last_visit(visits, d.id)
            &&& c.learned_count == first_learned_count(mappings, query, d.id)
            &&& c.is_tag_match == match tag {
                Some(t) => has_tag(tags, t, d.id),
                None => false,
            }
        }
    &&& is_max_visit_count(visits, f.max_visit_count)
    &&& is_max_learned_count(mappings, f.max_learned_count)
}

/// The directory earns the project bonus: its project type is known.
pub fn has_project_bonus(project_type: ProjectType) -> (r: bool)
    ensures
        r == (project_type != ProjectType::Unknown),
{
    match project_type {
        ProjectType::Unknown => false,
        _ => true,
    }
}

} // verus!

verus! {

/// The filter a search for `query` applies.
pub open spec fn search_filter(tags: Seq<Tag>, query: Seq<char>) -> spec_fn(Directory) -> bool {
    |d: Directory| search_keeps(d, tags, query)
}

/// The filter the picker applies for `query`.
pub open spec fn picker_filter(tags: Seq<Tag>, query: Seq<char>) -> spec_fn(Directory) -> bool {
    |d: Directory| picker_keeps(d, tags, query)
}

proof fn lemma_count_step(vs: Seq<VisitEvent>, i: int, id: u64)
    requires
        0 <= i < vs.len(),
    ensures
        count_visits(vs.take(i + 1), id) == count_visits(vs.take(i), id) + if vs[i].path_id == id {
            1nat
        } else {
            0nat
        },
        last_visit(vs.take(i + 1), id) == (if vs[i].path_id != id {
            last_visit(vs.take(i), id)
        } else {
            match last_visit(vs.take(i), id) {
                Some(t) => if vs[i].timestamp > t {
                    Some(vs[i].timestamp)
                } else {
                    Some(t)
                },
                None => Some(vs[i].timestamp),
            }
        }),
{
    assert(vs.take(i + 1).drop_last() == vs.take(i));
    assert(vs.take(i + 1).last() == vs[i]);
}

proof fn lemma_count_bound(vs: Seq<VisitEvent>, id: u64)
    ensures
        count_visits(vs, id) <= vs.len(),
    decreases vs.len(),
{
    if vs.len() > 0 {
        lemma_count_bound(vs.drop_last(), id);
    }
}

/// Visit counts, latest visit times, and the largest count.
fn visit_tables(visits: &Vec<VisitEvent>) -> (r: (
    std::collections::HashMap<u64, u64>,
    std::collections::HashMap<u64, i128>,
    u64,
))
    ensures
        forall|id: u64| #[trigger] r.0@.contains_key(id) <==> count_visits(visits@, id) > 0,
        forall|id: u64| r.0@.contains_key(id) ==> #[trigger] r.0@[id] == count_visits(visits@, id),
        forall|id: u64|
            #[trigger] r.1@.contains_key(id) <==> last_visit(visits@, id) is Some,
        forall|id: u64| r.1@.contains_key(id) ==> Some(#[trigger] r.1@[id]) == last_visit(visits@, id),
        is_max_visit_count(visits@, r.2),
{
    let mut counts: std::collections::HashMap<u64, u64> = std::collections::HashMap::new();
    let mut latest: std::collections::HashMap<u64, i128> = std::collections::HashMap::new();
    let mut mx: u64 = 0;
    let ghost vs = visits@;
    let mut i: usize = 0;
    assert(vs.take(0) =~= Seq::<VisitEvent>::empty());
    while i < visits.len()
        invariant
            i <= vs.len(),
            vs == visits@,
            forall|id: u64| #[trigger] counts@.contains_key(id) <==> count_visits(vs.take(i as int), id) > 0,
            forall|id: u64|
                counts@.contains_key(id) ==> #[trigger] counts@[id] == count_visits(vs.take(i as int), id),
            forall|id: u64|
                #[trigger] latest@.contains_key(id) <==> last_visit(vs.take(i as int), id) is Some,
            forall|id: u64|
                latest@.contains_key(id) ==> Some(#[trigger] latest@[id]) == last_visit(vs.take(i as int), id),
            forall|j: int| 0 <= j < i ==> count_visits(vs.take(i as int), (#[trigger] vs[j]).path_id) <= mx,
            i > 0 ==> exists|j: int| 0 <= j < i && count_visits(vs.take(i as int), (#[trigger] vs[j]).path_id) == mx,
            i == 0 ==> mx == 0,
        decreases vs.len() - i,
    {
        let v = &visits[i];
        let x = v.path_id;
        proof {
            assert forall|id: u64| true implies #[trigger] count_visits(vs.take(i + 1), id) == count_visits(vs.take(i as int), id) + if vs[i as int].path_id == id {
                1nat
            } else {
                0nat
            } by {
                lemma_count_step(vs, i as int, id);
            }
            assert forall|id: u64| true implies #[trigger] last_visit(vs.take(i + 1), id) == (if vs[i as int].path_id != id {
                last_visit(vs.take(i as int), id)
            } else {
                match last_visit(vs.take(i as int), id) {
                    Some(t) => if vs[i as int].timestamp > t {
                        Some(vs[i as int].timestamp)
                    } else {
                        Some(t)
                    },
                    None => Some(vs[i as int].timestamp),
                }
            }) by {
                lemma_count_step(vs, i as int, id);
            }
            lemma_count_bound(vs.take(i as int), x);
        }
        let c = match counts.get(&x) {
            Some(c) => *c,
            None => 0,
        };
        assert(c == count_visits(vs.take(i as int), x));
        let nc = c + 1;
        counts.insert(x, nc);
        let t = v.timestamp;
        match latest.get(&x) {
            Some(old) => {
                if t > *old {
                    latest.insert(x, t);
                }
            },
            None => {
                latest.insert(x, t);
            },
        }
        let ghost old_mx = mx;
        if nc > mx {
            mx = nc;
        }
        proof {
            let vs1 = vs.take(i + 1);
            assert forall|j: int| 0 <= j < i + 1 implies count_visits(vs1, (#[trigger] vs[j]).path_id) <= mx by {
                if vs[j].path_id == x {
                } else {
                    assert(count_visits(vs1, vs[j].path_id) == count_visits(vs.take(i as int), vs[j].path_id));
                }
            }
            if nc > old_mx {
                assert(count_visits(vs1, vs[i as int].path_id) == mx);
            } else {
                let j0 = choose|j: int| 0 <= j < i && count_visits(vs.take(i as int), (#[trigger] vs[j]).path_id) == old_mx;
                if vs[j0].path_id == x {
                    assert(false);
                }
                assert(count_visits(vs1, vs[j0].path_id) == mx);
            }
        }
        i = i + 1;
    }
    assert(vs.take(vs.len() as int) == vs);
    if visits.len() == 0 {
        mx = 1;
    }
    (counts, latest, mx)
}

} // verus!

verus! {

/// The largest count of any query mapping, or 1 when there is none.
fn max_learned_count(mappings: &Vec<QueryMapping>) -> (r: u64)
    ensures
        is_max_learned_count(mappings@, r),
{
    if mappings.len() == 0 {
        return 1;
    }
    let mut mx: u64 = mappings[0].count;
    let mut i: usize = 1;
    while i < mappings.len()
        invariant
            1 <= i <= mappings@.len(),
            forall|j: int| 0 <= j < i ==> (#[trigger] mappings@[j]).count <= mx,
            exists|j: int| 0 <= j < i && (#[trigger] mappings@[j]).count == mx,
        decreases mappings@.len() - i,
    {
        if mappings[i].count > mx {
            mx = mappings[i].count;
            assert(mappings@[i as int].count == mx);
        }
        i = i + 1;
    }
    mx
}

/// The count of the first mapping of exactly `query` to `id`, if any.
fn learned_count(mappings: &Vec<QueryMapping>, query: &str, id: u64) -> (r: Option<u64>)
    ensures
        r == first_learned_count(mappings@, query@, id),
{
    let mut i: usize = 0;
    assert(mappings@.skip(0) == mappings@);
    while i < mappings.len()
        invariant
            i <= mappings@.len(),
            first_learned_count(mappings@, query@, id) == first_learned_count(mappings@.skip(i as int), query@, id),
        decreases mappings@.len() - i,
    {
        let m = &mappings[i];
        assert(mappings@.skip(i as int)[0] == mappings@[i as int]);
        assert(mappings@.skip(i as int).drop_first() == mappings@.skip(i + 1));
        if m.path_id == id && text::str_eq(m.query.as_str(), query) {
            return Some(m.count);
        }
        i = i + 1;
    }
    None
}

/// Whether a tag named `name` is on the directory with id `id`.
fn has_tag_exec(tags: &Vec<Tag>, name: &str, id: u64) -> (r: bool)
    ensures
        r == has_tag(tags@, name@, id),
{
    let mut i: usize = 0;
    while i < tags.len()
        invariant
            i <= tags@.len(),
            forall|j: int| 0 <= j < i ==> !((#[trigger] tags@[j]).name@ == name@ && tags@[j].path_id == id),
        decreases tags@.len() - i,
    {
        if tags[i].path_id == id && text::str_eq(tags[i].name.as_str(), name) {
            return true;
        }
        i = i + 1;
    }
    false
}

/// The candidate for the `i`-th directory.
fn candidate_for(
    i: usize,
    d: &Directory,
    counts: &std::collections::HashMap<u64, u64>,
    latest: &std::collections::HashMap<u64, i128>,
    visits: &Vec<VisitEvent>,
    mappings: &Vec<QueryMapping>,
    query: &str,
    is_tag_match: bool,
) -> (c: Candidate)
    requires
        forall|id: u64| #[trigger] counts@.contains_key(id) <==> count_visits(visits@, id) > 0,
        forall|id: u64| counts@.contains_key(id) ==> #[trigger] counts@[id] == count_visits(visits@, id),
        forall|id: u64| #[trigger] latest@.contains_key(id) <==> last_visit(visits@, id) is Some,
        forall|id: u64| latest@.contains_key(id) ==> Some(#[trigger] latest@[id]) == last_visit(visits@, id),
    ensures
        c.dir_index == i,
        c.visit_count == count_visits(visits@, d.id),
        c.last_visit == last_visit(visits@, d.id),
        c.learned_count == first_learned_count(mappings@, query@, d.id),
        c.is_tag_match == is_tag_match,
{
    let visit_count = match counts.get(&d.id) {
        Some(c) => *c,
        None => 0,
    };
    let last = match latest.get(&d.id) {
        Some(t) => Some(*t),
        None => None,
    };
    Candidate {
        dir_index: i,
        visit_count,
        last_visit: last,
        learned_count: learned_count(mappings, query, d.id),
        is_tag_match,
    }
}

/// The directories a search for `query` keeps, in order, with their
/// features (see [`search_keeps`] and [`features_match`]).
pub fn search_candidates(
    dirs: &Vec<Directory>,
    visits: &Vec<VisitEvent>,
    mappings: &Vec<QueryMapping>,
    tags: &Vec<Tag>,
    query: &str,
) -> (f: SearchFeatures)
    ensures
        features_match(
            f,
            dirs@,
            visits@,
            mappings@,
            tags@,
            query@,
            search_filter(tags@, query@),
            spec_split_tag_query(query@).0,
        ),
{
    let (counts, latest, max_visits) = visit_tables(visits);
    let max_learned = max_learned_count(mappings);
    let (tag, rest) = split_tag_query(query);
    let ghost keep = search_filter(tags@, query@);
    let ghost tagv = spec_split_tag_query(query@).0;
    let mut candidates: Vec<Candidate> = Vec::new();
    let mut i: usize = 0;
    while i < dirs.len()
        invariant
            i <= dirs@.len(),
            keep == search_filter(tags@, query@),
            tagv == spec_split_tag_query(query@).0,
            spec_split_tag_query(query@) == (
                match tag {
                    Some(t) => Some(t@),
                    None => None,
                },
                rest@,
            ),
            forall|id: u64| #[trigger] counts@.contains_key(id) <==> count_visits(visits@, id) > 0,
            forall|id: u64| counts@.contains_key(id) ==> #[trigger] counts@[id] == count_visits(visits@, id),
            forall|id: u64| #[trigger] latest@.contains_key(id) <==> last_visit(visits@, id) is Some,
            forall|id: u64| latest@.contains_key(id) ==> Some(#[trigger] latest@[id]) == last_visit(visits@, id),
            candidates@.len() == kept_indices(dirs@, keep, i as int).len(),
            forall|k: int|
                0 <= k < candidates@.len() ==> {
                    let c = #[trigger] candidates@[k];
                    let kept = kept_indices(dirs@, keep, i as int);
                    let d = dirs@[kept[k]];
                    &&& c.dir_index == kept[k]
                    &&& c.visit_count == count_visits(visits@, d.id)
                    &&& c.last_visit == last_visit(visits@, d.id)
                    &&& c.learned_count == first_learned_count(mappings@, query@, d.id)
                    &&& c.is_tag_match == match tagv {
                        Some(t) => has_tag(tags@, t, d.id),
                        None => false,
                    }
                },
        decreases dirs@.len() - i,
    {
        let d = &dirs[i];
        let (kept, tag_match) = match &tag {
            Some(t) => {
                let tm = has_tag_exec(tags, t.as_str(), d.id);
                let k = tm && (rest.as_str().is_empty() || matcher::match_path(d.path.as_str(), rest.as_str()));
                (k, tm)
            },
            None => (matcher::match_path(d.path.as_str(), query), false),
        };
        assert(kept == keep(dirs@[i as int]));
        let ghost old_c = candidates@;
        if kept {
            let c = candidate_for(i, d, &counts, &latest, visits, mappings, query, tag_match);
            candidates.push(c);
        }
        proof {
            let k0 = kept_indices(dirs@, keep, i as int);
            let k1 = kept_indices(dirs@, keep, i + 1);
            assert(k1 == k0 + if keep(dirs@[i as int]) { seq![i as int] } else { seq![] });
            assert forall|k: int| 0 <= k < k0.len() implies k1[k] == k0[k] by {}
            if kept {
                assert(k1[k0.len() as int] == i);
                assert(candidates@[k0.len() as int] == candidates@.last());
            }
            assert forall|k: int| 0 <= k < old_c.len() implies candidates@[k] == old_c[k] by {}
        }
        i = i + 1;
    }
    SearchFeatures { candidates, max_visit_count: max_visits, max_learned_count: max_learned }
}

/// The tag the picker looks for (see [`picker_tag`]).
fn picker_tag_exec(query: &str) -> (r: Option<String>)
    ensures
        picker_tag(query@) == match r {
            Some(t) => Some(t@),
            None => None,
        },
{
    let q = text::str_to_chars(query);
    if !(q.len() > 0 && q[0] == '@') {
        return None;
    }
    let i = first_whitespace(q.as_slice());
    let a = strip_ats_span(q.as_slice(), i);
    Some(text::range_to_string(q.as_slice(), a, i))
}

/// The directories the interactive picker keeps for `query`, in order,
/// with their features (see [`picker_keeps`] and [`features_match`]). The
/// tag match it reports does not decide what is kept.
pub fn picker_candidates(
    dirs: &Vec<Directory>,
    visits: &Vec<VisitEvent>,
    mappings: &Vec<QueryMapping>,
    tags: &Vec<Tag>,
    query: &str,
) -> (f: SearchFeatures)
    ensures
        features_match(
            f,
            dirs@,
            visits@,
            mappings@,
            tags@,
            query@,
            picker_filter(tags@, query@),
            picker_tag(query@),
        ),
{
    let (counts, latest, max_visits) = visit_tables(visits);
    let max_learned = max_learned_count(mappings);
    let tag = picker_tag_exec(query);
    let ghost keep = picker_filter(tags@, query@);
    let ghost tagv = picker_tag(query@);
    let mut candidates: Vec<Candidate> = Vec::new();
    let mut i: usize = 0;
    while i < dirs.len()
        invariant
            i <= dirs@.len(),
            keep == picker_filter(tags@, query@),
            tagv == picker_tag(query@),
            picker_tag(query@) == match tag {
                Some(t) => Some(t@),
                None => None,
            },
            forall|id: u64| #[trigger] counts@.contains_key(id) <==> count_visits(visits@, id) > 0,
            forall|id: u64| counts@.contains_key(id) ==> #[trigger] counts@[id] == count_visits(visits@, id),
            forall|id: u64| #[trigger] latest@.contains_key(id) <==> last_visit(visits@, id) is Some,
            forall|id: u64| latest@.contains_key(id) ==> Some(#[trigger] latest@[id]) == last_visit(visits@, id),
            candidates@.len() == kept_indices(dirs@, keep, i as int).len(),
            forall|k: int|
                0 <= k < candidates@.len() ==> {
                    let c = #[trigger] candidates@[k];
                    let kept = kept_indices(dirs@, keep, i as int);
                    let d = dirs@[kept[k]];
                    &&& c.dir_index == kept[k]
                    &&& c.visit_count == count_visits(visits@, d.id)
                    &&& c.last_visit == last_visit(visits@, d.id)
                    &&& c.learned_count == first_learned_count(mappings@, query@, d.id)
                    &&& c.is_tag_match == match tagv {
                        Some(t) => has_tag(tags@, t, d.id),
                        None => false,
                    }
                },
        decreases dirs@.len() - i,
    {
        let d = &dirs[i];
        let kept = matcher::match_path(d.path.as_str(), query);
        let tag_match = match &tag {
            Some(t) => has_tag_exec(tags, t.as_str(), d.id),
            None => false,
        };
        assert(kept == keep(dirs@[i as int]));
        let ghost old_c = candidates@;
        if kept {
            let c = candidate_for(i, d, &counts, &latest, visits, mappings, query, tag_match);
            candidates.push(c);
        }
        proof {
            let k0 = kept_indices(dirs@, keep, i as int);
            let k1 = kept_indices(dirs@, keep, i + 1);
            assert(k1 == k0 + if keep(dirs@[i as int]) { seq![i as int] } else { seq![] });
            assert forall|k: int| 0 <= k < k0.len() implies k1[k] == k0[k] by {}
            if kept {
                assert(k1[k0.len() as int] == i);
                assert(candidates@[k0.len() as int] == candidates@.last());
            }
            assert forall|k: int| 0 <= k < old_c.len() implies candidates@[k] == old_c[k] by {}
        }
        i = i + 1;
    }
    SearchFeatures { candidates, max_visit_count: max_visits, max_learned_count: max_learned }
}

} // verus!

verus! {

proof fn lemma_kept_indices(dirs: Seq<Directory>, keep: spec_fn(Directory) -> bool, n: int)
    requires
        0 <= n <= dirs.len(),
    ensures
        forall|j: int|
            0 <= j < kept_indices(dirs, keep, n).len() ==> 0 <= #[trigger] kept_indices(dirs, keep, n)[j] < n
                && keep(dirs[kept_indices(dirs, keep, n)[j]]),
        forall|j1: int, j2: int|
            0 <= j1 < j2 < kept_indices(dirs, keep, n).len() ==> #[trigger] kept_indices(dirs, keep, n)[j1]
                < #[trigger] kept_indices(dirs, keep, n)[j2],
        forall|i: int|
            0 <= i < n && #[trigger] keep(dirs[i]) ==> exists|j: int|
                0 <= j < kept_indices(dirs, keep, n).len() && #[trigger] kept_indices(dirs, keep, n)[j] == i,
    decreases n,
{
    if n > 0 {
        lemma_kept_indices(dirs, keep, n - 1);
        let k0 = kept_indices(dirs, keep, n - 1);
        let k1 = kept_indices(dirs, keep, n);
        assert(k1 == k0 + if keep(dirs[n - 1]) { seq![n - 1] } else { seq![] });
        assert forall|j: int| 0 <= j < k0.len() implies k1[j] == k0[j] by {}
        assert forall|i: int| 0 <= i < n && #[trigger] keep(dirs[i]) implies exists|j: int|
            0 <= j < k1.len() && #[trigger] k1[j] == i by {
            if i == n - 1 {
                assert(k1[k0.len() as int] == i);
            } else {
                let j = choose|j: int| 0 <= j < k0.len() && #[trigger] k0[j] == i;
                assert(k1[j] == i);
            }
        }
    }
}

/// A search keeps exactly the directories its filter keeps, each once, in
/// their stored order.
pub proof fn law_search_keeps_exactly_the_matching_directories(
    f: SearchFeatures,
    dirs: Seq<Directory>,
    visits: Seq<VisitEvent>,
    mappings: Seq<QueryMapping>,
    tags: Seq<Tag>,
    query: Seq<char>,
)
    requires
        features_match(f, dirs, visits, mappings, tags, query, search_filter(tags, query), spec_split_tag_query(query).0),
    ensures
        forall|k: int|
            0 <= k < f.candidates@.len() ==> (#[trigger] f.candidates@[k]).dir_index < dirs.len() && search_keeps(
                dirs[f.candidates@[k].dir_index as int],
                tags,
                query,
            ),
        forall|k1: int, k2: int|
            0 <= k1 < k2 < f.candidates@.len() ==> (#[trigger] f.candidates@[k1]).dir_index
                < (#[trigger] f.candidates@[k2]).dir_index,
        forall|i: int|
            0 <= i < dirs.len() && #[trigger] search_keeps(dirs[i], tags, query) ==> exists|k: int|
                0 <= k < f.candidates@.len() && (#[trigger] f.candidates@[k]).dir_index == i,
{
    let keep = search_filter(tags, query);
    lemma_kept_indices(dirs, keep, dirs.len() as int);
    let kept = kept_indices(dirs, keep, dirs.len() as int);
    assert forall|k: int| 0 <= k < f.candidates@.len() implies (#[trigger] f.candidates@[k]).dir_index < dirs.len()
        && search_keeps(dirs[f.candidates@[k].dir_index as int], tags, query) by {
        assert(kept[k] < dirs.len() && keep(dirs[kept[k]]));
    }
    assert forall|k1: int, k2: int| 0 <= k1 < k2 < f.candidates@.len() implies (#[trigger] f.candidates@[k1]).dir_index
        < (#[trigger] f.candidates@[k2]).dir_index by {
        assert(kept[k1] < kept[k2]);
    }
    assert forall|i: int| 0 <= i < dirs.len() && #[trigger] search_keeps(dirs[i], tags, query) implies exists|k: int|
        0 <= k < f.candidates@.len() && (#[trigger] f.candidates@[k]).dir_index == i by {
        assert(keep(dirs[i]));
        let j = choose|j: int| 0 <= j < kept.len() && #[trigger] kept[j] == i;
        assert(f.candidates@[j].dir_index == i);
    }
}

/// A query naming a tag keeps only directories that carry the tag, and
/// reports each as a tag match.
pub proof fn law_tag_query_keeps_only_tagged_directories(
    f: SearchFeatures,
    dirs: Seq<Directory>,
    visits: Seq<VisitEvent>,
    mappings: Seq<QueryMapping>,
    tags: Seq<Tag>,
    query: Seq<char>,
    tag: Seq<char>,
)
    requires
        features_match(f, dirs, visits, mappings, tags, query, search_filter(tags, query), spec_split_tag_query(query).0),
        spec_split_tag_query(query).0 == Some(tag),
    ensures
        forall|k: int|
            0 <= k < f.candidates@.len() ==> (#[trigger] f.candidates@[k]).is_tag_match && has_tag(
                tags,
                tag,
                dirs[f.candidates@[k].dir_index as int].id,
            ),
{
    let keep = search_filter(tags, query);
    lemma_kept_indices(dirs, keep, dirs.len() as int);
    let kept = kept_indices(dirs, keep, dirs.len() as int);
    assert forall|k: int| 0 <= k < f.candidates@.len() implies (#[trigger] f.candidates@[k]).is_tag_match && has_tag(
        tags,
        tag,
        dirs[f.candidates@[k].dir_index as int].id,
    ) by {
        assert(keep(dirs[kept[k]]));
    }
}

} // verus!

verus! {

/// A search is deterministic: the same stored records and query give the
/// same kept directories, with the same features and the same maxima.
pub proof fn law_search_features_are_determined(
    f1: SearchFeatures,
    f2: SearchFeatures,
    dirs: Seq<Directory>,
    visits: Seq<VisitEvent>,
    mappings: Seq<QueryMapping>,
    tags: Seq<Tag>,
    query: Seq<char>,
)
    requires
        features_match(f1, dirs, visits, mappings, tags, query, search_filter(tags, query), spec_split_tag_query(query).0),
        features_match(f2, dirs, visits, mappings, tags, query, search_filter(tags, query), spec_split_tag_query(query).0),
    ensures
        f1.candidates@ == f2.candidates@,
        f1.max_visit_count == f2.max_visit_count,
        f1.max_learned_count == f2.max_learned_count,
{
    assert forall|k: int| 0 <= k < f1.candidates@.len() implies f1.candidates@[k] == f2.candidates@[k] by {
        let c1 = f1.candidates@[k];
        let c2 = f2.candidates@[k];
        assert(c1.dir_index == c2.dir_index);
        assert(c1.visit_count == c2.visit_count);
    }
    assert(f1.candidates@ =~= f2.candidates@);
    if visits.len() > 0 {
        let i1 = choose|i: int| 0 <= i < visits.len() && count_visits(visits, (#[trigger] visits[i]).path_id) == f1.max_visit_count;
        let i2 = choose|i: int| 0 <= i < visits.len() && count_visits(visits, (#[trigger] visits[i]).path_id) == f2.max_visit_count;
        assert(count_visits(visits, visits[i1].path_id) <= f2.max_visit_count);
        assert(count_visits(visits, visits[i2].path_id) <= f1.max_visit_count);
    }
    if mappings.len() > 0 {
        let j1 = choose|i: int| 0 <= i < mappings.len() && (#[trigger] mappings[i]).count == f1.max_learned_count;
        let j2 = choose|i: int| 0 <= i < mappings.len() && (#[trigger] mappings[i]).count == f2.max_learned_count;
        assert(mappings[j1].count <= f2.max_learned_count);
        assert(mappings[j2].count <= f1.max_learned_count);
    }
}

} // verus!

verus! {

proof fn lemma_first_whitespace_after_word(q: Seq<char>, w: int, i: int)
    requires
        0 <= i <= w <= q.len(),
        forall|k: int| 0 <= k < w ==> !text::spec_is_whitespace(#[trigger] q[k]),
        w < q.len() ==> text::spec_is_whitespace(q[w]),
    ensures
        first_whitespace_from(q, i) == w,
    decreases w - i,
{
    if i < w {
        lemma_first_whitespace_after_word(q, w, i + 1);
    }
}

/// How a query naming a tag splits: `@t` names the tag `t` with nothing
/// else, and `@t`, a whitespace character and `rest` name `t` with `rest`
/// trimmed; such a search keeps exactly the directories tagged `t` whose
/// path matches the trimmed rest, or all of them when it is blank.
pub proof fn law_tag_query_split(tags: Seq<Tag>, t: Seq<char>, c: char, rest: Seq<char>)
    requires
        t.len() > 0,
        t[0] != '@',
        forall|k: int| 0 <= k < t.len() ==> !text::spec_is_whitespace(#[trigger] t[k]),
        text::spec_is_whitespace(c),
    ensures
        spec_split_tag_query(seq!['@'] + t) == (Some(t), Seq::<char>::empty()),
        spec_split_tag_query(seq!['@'] + t + seq![c] + rest) == (Some(t), text::trim(rest)),
        forall|d: Directory|
            #[trigger] search_keeps(d, tags, seq!['@'] + t) <==> has_tag(tags, t, d.id),
        forall|d: Directory|
            #[trigger] search_keeps(d, tags, seq!['@'] + t + seq![c] + rest) <==> has_tag(tags, t, d.id) && (
            text::trim(rest).len() == 0 || matcher::spec_match_path(d.path@, text::trim(rest))),
{
    let w = t.len() as int + 1;
    let q1 = seq!['@'] + t;
    let q2 = seq!['@'] + t + seq![c] + rest;
    assert(text::spec_is_whitespace('@') == false);
    assert forall|k: int| 0 <= k < w implies !text::spec_is_whitespace(#[trigger] q1[k]) by {
        if k > 0 {
            assert(q1[k] == t[k - 1]);
        }
    }
    assert forall|k: int| 0 <= k < w implies !text::spec_is_whitespace(#[trigger] q2[k]) by {
        if k > 0 {
            assert(q2[k] == t[k - 1]);
        }
    }
    assert(q2[w] == c);
    lemma_first_whitespace_after_word(q1, w, 0);
    lemma_first_whitespace_after_word(q2, w, 0);
    assert(q1.subrange(0, w) =~= q1);
    assert(q2.subrange(0, w) =~= q1);
    assert(q2.subrange(w + 1, q2.len() as int) =~= rest);
    assert(q1.drop_first() =~= t);
    assert(strip_leading_ats(q1) == t) by {
        assert(strip_leading_ats(q1) == strip_leading_ats(q1.drop_first()));
        assert(strip_leading_ats(t) == t);
    }
}

} // verus!

verus! {

/// A query that names no tag keeps exactly the directories whose full path
/// matches it (ignoring case), each once, in stored order.
pub proof fn law_plain_query_keeps_directories_whose_path_matches(
    f: SearchFeatures,
    dirs: Seq<Directory>,
    visits: Seq<VisitEvent>,
    mappings: Seq<QueryMapping>,
    tags: Seq<Tag>,
    query: Seq<char>,
)
    requires
        features_match(f, dirs, visits, mappings, tags, query, search_filter(tags, query), spec_split_tag_query(query).0),
        spec_split_tag_query(query).0 is None,
    ensures
        forall|k: int|
            0 <= k < f.candidates@.len() ==> (#[trigger] f.candidates@[k]).dir_index < dirs.len()
                && matcher::spec_match_path(dirs[f.candidates@[k].dir_index as int].path@, query),
        forall|i: int|
            0 <= i < dirs.len() && #[trigger] matcher::spec_match_path(dirs[i].path@, query) ==> exists|k: int|
                0 <= k < f.candidates@.len() && (#[trigger] f.candidates@[k]).dir_index == i,
        forall|k: int| 0 <= k < f.candidates@.len() ==> !(#[trigger] f.candidates@[k]).is_tag_match,
{
    law_search_keeps_exactly_the_matching_directories(f, dirs, visits, mappings, tags, query);
    assert forall|i: int| 0 <= i < dirs.len() && #[trigger] matcher::spec_match_path(dirs[i].path@, query) implies exists|k: int|
        0 <= k < f.candidates@.len() && (#[trigger] f.candidates@[k]).dir_index == i by {
        assert(search_keeps(dirs[i], tags, query));
    }
    let keep = search_filter(tags, query);
    assert forall|k: int| 0 <= k < f.candidates@.len() implies !(#[trigger] f.candidates@[k]).is_tag_match by {
        let kept = kept_indices(dirs, keep, dirs.len() as int);
        assert(f.candidates@[k].is_tag_match == false);
    }
}

} // verus!

verus! {

/// The picker keeps exactly the directories whose full path matches the
/// whole query (ignoring case), each once, in stored order.
pub proof fn law_picker_keeps_directories_whose_path_matches(
    f: SearchFeatures,
    dirs: Seq<Directory>,
    visits: Seq<VisitEvent>,
    mappings: Seq<QueryMapping>,
    tags: Seq<Tag>,
    query: Seq<char>,
)
    requires
        features_match(f, dirs, visits, mappings, tags, query, picker_filter(tags, query), picker_tag(query)),
    ensures
        forall|k: int|
            0 <= k < f.candidates@.len() ==> (#[trigger] f.candidates@[k]).dir_index < dirs.len()
                && matcher::spec_match_path(dirs[f.candidates@[k].dir_index as int].path@, query),
        forall|k1: int, k2: int|
            0 <= k1 < k2 < f.candidates@.len() ==> (#[trigger] f.candidates@[k1]).dir_index
                < (#[trigger] f.candidates@[k2]).dir_index,
        forall|i: int|
            0 <= i < dirs.len() && #[trigger] matcher::spec_match_path(dirs[i].path@, query) ==> exists|k: int|
                0 <= k < f.candidates@.len() && (#[trigger] f.candidates@[k]).dir_index == i,
{
    let keep = picker_filter(tags, query);
    lemma_kept_indices(dirs, keep, dirs.len() as int);
    let kept = kept_indices(dirs, keep, dirs.len() as int);
    assert forall|k: int| 0 <= k < f.candidates@.len() implies (#[trigger] f.candidates@[k]).dir_index < dirs.len()
        && matcher::spec_match_path(dirs[f.candidates@[k].dir_index as int].path@, query) by {
        assert(kept[k] < dirs.len() && keep(dirs[kept[k]]));
    }
    assert forall|k1: int, k2: int| 0 <= k1 < k2 < f.candidates@.len() implies (#[trigger] f.candidates@[k1]).dir_index
        < (#[trigger] f.candidates@[k2]).dir_index by {
        assert(kept[k1] < kept[k2]);
    }
    assert forall|i: int| 0 <= i < dirs.len() && #[trigger] matcher::spec_match_path(dirs[i].path@, query) implies exists|k: int|
        0 <= k < f.candidates@.len() && (#[trigger] f.candidates@[k]).dir_index == i by {
        assert(keep(dirs[i]));
        let j = choose|j: int| 0 <= j < kept.len() && #[trigger] kept[j] == i;
        assert(f.candidates@[j].dir_index == i);
    }
}

} // verus!

verus! {

/// The visit count of a directory is the number of its visits.
pub proof fn law_visit_count_counts_visits(vs: Seq<VisitEvent>, id: u64)
    ensures
        count_visits(vs, id) == vs.filter(|v: VisitEvent| v.path_id == id).len(),
    decreases vs.len(),
{
    reveal(Seq::filter);
    if vs.len() > 0 {
        law_visit_count_counts_visits(vs.drop_last(), id);
    }
}

/// The latest visit of a directory is the time of one of its visits, no
/// visit of it is later, and there is none exactly when it was never
/// visited.
pub proof fn law_last_visit_is_the_latest(vs: Seq<VisitEvent>, id: u64)
    ensures
        last_visit(vs, id) is None <==> forall|i: int| 0 <= i < vs.len() ==> (#[trigger] vs[i]).path_id != id,
        last_visit(vs, id) matches Some(t) ==> (exists|i: int|
            0 <= i < vs.len() && (#[trigger] vs[i]).path_id == id && vs[i].timestamp == t) && (forall|i: int|
            0 <= i < vs.len() && (#[trigger] vs[i]).path_id == id ==> vs[i].timestamp <= t),
    decreases vs.len(),
{
    if vs.len() > 0 {
        let pre = vs.drop_last();
        law_last_visit_is_the_latest(pre, id);
        let n = vs.len() - 1;
        assert(vs[n] == vs.last());
        assert forall|i: int| 0 <= i < pre.len() implies #[trigger] pre[i] == vs[i] by {}
        if last_visit(vs, id) is None {
            assert forall|i: int| 0 <= i < vs.len() implies (#[trigger] vs[i]).path_id != id by {
                if i < n {
                    assert(pre[i] == vs[i]);
                }
            }
        }
        if forall|i: int| 0 <= i < vs.len() ==> (#[trigger] vs[i]).path_id != id {
            assert forall|i: int| 0 <= i < pre.len() implies (#[trigger] pre[i]).path_id != id by {
                assert(pre[i] == vs[i]);
            }
        }
        match last_visit(vs, id) {
            Some(t) => {
                if vs.last().path_id == id && last_visit(pre, id) is None {
                    assert(vs[n].timestamp == t);
                    assert forall|i: int| 0 <= i < vs.len() && (#[trigger] vs[i]).path_id == id implies vs[i].timestamp <= t by {
                        if i < n {
                            assert(pre[i] == vs[i]);
                        }
                    }
                } else if vs.last().path_id == id {
                    let t0 = last_visit(pre, id)->0;
                    let i0 = choose|i: int| 0 <= i < pre.len() && (#[trigger] pre[i]).path_id == id && pre[i].timestamp == t0;
                    assert(vs[i0] == pre[i0]);
                    assert forall|i: int| 0 <= i < vs.len() && (#[trigger] vs[i]).path_id == id implies vs[i].timestamp <= t by {
                        if i < n {
                            assert(pre[i] == vs[i]);
                        }
                    }
                } else {
                    let i0 = choose|i: int| 0 <= i < pre.len() && (#[trigger] pre[i]).path_id == id && pre[i].timestamp == t;
                    assert(vs[i0] == pre[i0]);
                    assert forall|i: int| 0 <= i < vs.len() && (#[trigger] vs[i]).path_id == id implies vs[i].timestamp <= t by {
                        if i < n {
                            assert(pre[i] == vs[i]);
                        }
                    }
                }
            },
            None => {},
        }
    }
}

} // verus!
