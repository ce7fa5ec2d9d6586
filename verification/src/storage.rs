//! The rules behind the stored records: keys, how query mappings count,
//! how directory records are made and refreshed, which records an index
//! run or a vanished path removes, and how old a visit is.

use vstd::prelude::*;
use crate::models::{Directory, ProjectType, QueryMapping, VisitEvent};
use crate::paths;
use crate::text;

verus! {

broadcast use vstd::std_specs::hash::group_hash_axioms;

// ---------------------------------------------------------------------------
// Keys
// ---------------------------------------------------------------------------

/// The last `k` base-256 digits of `n`, most significant first.
pub open spec fn big_endian(n: nat, k: nat) -> Seq<u8>
    decreases k,
{
    if k == 0 {
        seq![]
    } else {
        big_endian(n / 256, (k - 1) as nat).push((n % 256) as u8)
    }
}

fn big_endian_exec(n: u64, k: usize) -> (r: Vec<u8>)
    ensures
        r@ == big_endian(n as nat, k as nat),
    decreases k,
{
    if k == 0 {
        Vec::new()
    } else {
        let mut v = big_endian_exec(n / 256, k - 1);
        v.push((n % 256) as u8);
        v
    }
}

/// The key of a directory record, and of a visit record: the id's eight
/// bytes, most significant first (`u64::to_be_bytes`).
pub fn id_key(id: u64) -> (r: Vec<u8>)
    ensures
        r@ == big_endian(id as nat, 8),
        r@.len() == 8,
{
    let r = big_endian_exec(id, 8);
    proof {
        lemma_big_endian_len(id as nat, 8);
    }
    r
}

proof fn lemma_big_endian_len(n: nat, k: nat)
    ensures
        big_endian(n, k).len() == k,
    decreases k,
{
    if k > 0 {
        lemma_big_endian_len(n / 256, (k - 1) as nat);
    }
}

/// The key of a tag record: its name, `:`, and the directory id in decimal.
pub fn tag_key(name: &str, path_id: u64) -> (r: String)
    ensures
        r@ == name@ + seq![':'] + text::decimal(path_id as nat),
{
    let mut out = text::str_to_chars(name);
    out.push(':');
    let d = text::decimal_string(path_id);
    let mut i: usize = 0;
    let ghost start = out@;
    while i < d.len()
        invariant
            i <= d@.len(),
            out@ == start + d@.take(i as int),
        decreases d@.len() - i,
    {
        out.push(d[i]);
        assert(d@.take(i + 1) == d@.take(i as int).push(d@[i as int]));
        i = i + 1;
    }
    assert(d@.take(d@.len() as int) == d@);
    text::chars_to_string(out.as_slice())
}

// ---------------------------------------------------------------------------
// Query mappings
// ---------------------------------------------------------------------------

/// The mapping stored after `query` led to the directory `path_id`: the
/// stored one counted up if it points there too, otherwise a fresh one
/// with count 1 (a query remembers only its latest directory).
pub open spec fn spec_next_query_mapping(
    existing: Option<QueryMapping>,
    query: Seq<char>,
    path_id: u64,
) -> (Seq<char>, u64, u64) {
    match existing {
        Some(m) => if m.path_id == path_id {
            (m.query@, m.path_id, (m.count + 1) as u64)
        } else {
            (query, path_id, 1)
        },
        None => (query, path_id, 1),
    }
}

/// The mapping to store after `query` led to the directory `path_id` (see
/// [`spec_next_query_mapping`]). A stored count at the largest value cannot
/// be counted up.
pub fn next_query_mapping(existing: Option<QueryMapping>, query: &str, path_id: u64) -> (r: QueryMapping)
    requires
        existing is Some && existing->0.path_id == path_id ==> existing->0.count < u64::MAX,
    ensures
        (r.query@, r.path_id, r.count) == spec_next_query_mapping(existing, query@, path_id),
{
    match existing {
        Some(m) => {
            if m.path_id == path_id {
                QueryMapping { query: m.query, path_id: m.path_id, count: m.count + 1 }
            } else {
                QueryMapping { query: query.to_string(), path_id, count: 1 }
            }
        },
        None => QueryMapping { query: query.to_string(), path_id, count: 1 },
    }
}

// ---------------------------------------------------------------------------
// Directory records
// ---------------------------------------------------------------------------

/// Nanoseconds in a second.
pub const NANOS_PER_SECOND: i128 = 1_000_000_000;

/// A bound on the size of any time a clock reading gives: whole seconds in
/// an `i64` and a fraction below 2^32 nanoseconds.
pub const CLOCK_TIME_BOUND: i128 = 9_223_372_036_854_775_812_294_967_296;

/// The time is one a clock reading can give (see [`CLOCK_TIME_BOUND`]).
pub open spec fn is_clock_time(t: int) -> bool {
    -CLOCK_TIME_BOUND <= t <= CLOCK_TIME_BOUND
}

/// The current time as whole seconds since the Unix epoch and the
/// nanoseconds past them: `std::time::SystemTime::now()` turned into a
/// `chrono::DateTime<Utc>` by its `From<SystemTime>` impl, then
/// `DateTime::timestamp` and `DateTime::timestamp_subsec_nanos`.
///
/// The time is taken this way rather than with `chrono::Utc::now()`, which
/// panics when the clock reads before 1970; the `From` impl handles such a
/// reading. Its only remaining failure is a reading outside chrono's range
/// of about 262,000 years around the epoch, which the system clock does not
/// reach. The result depends on the clock, so nothing is stated of it.
#[verifier::external_body]
fn clock_parts() -> (r: (i64, u32)) {
    let t = chrono::DateTime::<chrono::Utc>::from(std::time::SystemTime::now());
    (t.timestamp(), t.timestamp_subsec_nanos())
}

/// The time, in nanoseconds since the Unix epoch, of `secs` whole seconds
/// and `subsec` nanoseconds.
pub fn nanos_from_parts(secs: i64, subsec: u32) -> (r: i128)
    ensures
        r == secs * NANOS_PER_SECOND + subsec,
        is_clock_time(r as int),
{
    (secs as i128) * NANOS_PER_SECOND + (subsec as i128)
}

/// The whole seconds (rounded down) and the nanoseconds past them of a time
/// in nanoseconds.
pub fn split_nanos(t: i128) -> (r: (i128, u32))
    ensures
        t == r.0 * NANOS_PER_SECOND + r.1,
        r.1 < NANOS_PER_SECOND,
{
    let rem = t % NANOS_PER_SECOND;
    let (secs, sub) = if rem < 0 {
        (t / NANOS_PER_SECOND - 1, rem + NANOS_PER_SECOND)
    } else {
        (t / NANOS_PER_SECOND, rem)
    };
    (secs, sub as u32)
}

/// The current time in nanoseconds since the Unix epoch, by the clock.
fn now_nanos() -> (r: i128)
    ensures
        is_clock_time(r as int),
{
    let (secs, subsec) = clock_parts();
    nanos_from_parts(secs, subsec)
}

/// A new record for the directory at `path`: its final name (or `/`), its
/// component count as depth, seen at `now`.
pub fn new_directory(id: u64, path: &str, project_type: ProjectType, now: i128) -> (r: Directory)
    ensures
        r.id == id,
        r.path@ == path@,
        r.name@ == paths::spec_directory_name(path@),
        r.depth == paths::components(path@).len(),
        r.last_seen == now,
        r.project_type == project_type,
{
    Directory {
        id,
        path: path.to_string(),
        name: paths::directory_name(path),
        depth: paths::component_count(path),
        last_seen: now,
        project_type,
    }
}

/// A known directory's record seen again at `now`, with its project type
/// judged anew.
pub fn refresh_directory(dir: Directory, project_type: ProjectType, now: i128) -> (r: Directory)
    ensures
        r.id == dir.id,
        r.path == dir.path,
        r.name == dir.name,
        r.depth == dir.depth,
        r.last_seen == now,
        r.project_type == project_type,
{
    Directory { last_seen: now, project_type, ..dir }
}

/// The record to store for the directory at `path` when it is seen now:
/// the known record refreshed, or a new one with id `new_id`. The time is
/// the clock's; everything else is as [`new_directory`] and
/// [`refresh_directory`] state.
pub fn upsert_record(existing: Option<Directory>, new_id: u64, path: &str, project_type: ProjectType) -> (r: Directory)
    ensures
        match existing {
            Some(d) => r.id == d.id && r.path == d.path && r.name == d.name && r.depth == d.depth,
            None => r.id == new_id && r.path@ == path@ && r.name@ == paths::spec_directory_name(path@)
                && r.depth == paths::components(path@).len(),
        },
        r.project_type == project_type,
{
    let now = now_nanos();
    match existing {
        Some(d) => refresh_directory(d, project_type, now),
        None => new_directory(new_id, path, project_type, now),
    }
}

/// A visit of the directory `path_id`, now.
pub fn visit_now(path_id: u64) -> (r: VisitEvent)
    ensures
        r.path_id == path_id,
        is_clock_time(r.timestamp as int),
{
    VisitEvent { path_id, timestamp: now_nanos() }
}

/// The first record whose path is `path`, compared component by component.
pub open spec fn first_with_path(dirs: Seq<Directory>, path: Seq<char>, i: int) -> Option<int>
    decreases dirs.len() - i,
{
    if i < 0 || i >= dirs.len() {
        None
    } else if paths::components(dirs[i].path@) == paths::components(path) {
        Some(i)
    } else {
        first_with_path(dirs, path, i + 1)
    }
}

/// The index of the first record whose path is `path`, if any.
pub fn position_of_path(dirs: &Vec<Directory>, path: &str) -> (r: Option<usize>)
    ensures
        match r {
            Some(i) => first_with_path(dirs@, path@, 0) == Some(i as int),
            None => first_with_path(dirs@, path@, 0) is None,
        },
{
    let mut i: usize = 0;
    while i < dirs.len()
        invariant
            i <= dirs@.len(),
            first_with_path(dirs@, path@, 0) == first_with_path(dirs@, path@, i as int),
        decreases dirs@.len() - i,
    {
        if paths::same_path(dirs[i].path.as_str(), path) {
            return Some(i);
        }
        i = i + 1;
    }
    None
}

/// The last record among the first `n` whose path is `path`, compared
/// component by component.
pub open spec fn last_with_path(dirs: Seq<Directory>, path: Seq<char>, n: int) -> Option<int>
    decreases n,
{
    if n <= 0 {
        None
    } else if paths::components(dirs[n - 1].path@) == paths::components(path) {
        Some(n - 1)
    } else {
        last_with_path(dirs, path, n - 1)
    }
}

/// The index of the last record whose path is `path`, if any: the record a
/// lookup table keyed by path keeps when several records share that path.
pub fn last_position_of_path(dirs: &Vec<Directory>, path: &str) -> (r: Option<usize>)
    ensures
        match r {
            Some(i) => last_with_path(dirs@, path@, dirs@.len() as int) == Some(i as int),
            None => last_with_path(dirs@, path@, dirs@.len() as int) is None,
        },
{
    let mut n: usize = dirs.len();
    while n > 0
        invariant
            n <= dirs@.len(),
            last_with_path(dirs@, path@, dirs@.len() as int) == last_with_path(dirs@, path@, n as int),
        decreases n,
    {
        if paths::same_path(dirs[n - 1].path.as_str(), path) {
            return Some(n - 1);
        }
        n = n - 1;
    }
    None
}

/// The first record whose path is either of two paths, compared component
/// by component.
pub open spec fn first_with_either(dirs: Seq<Directory>, a: Seq<char>, b: Seq<char>, i: int) -> Option<int>
    decreases dirs.len() - i,
{
    if i < 0 || i >= dirs.len() {
        None
    } else if paths::components(dirs[i].path@) == paths::components(a) || paths::components(dirs[i].path@)
        == paths::components(b) {
        Some(i)
    } else {
        first_with_either(dirs, a, b, i + 1)
    }
}

/// The index of the first record whose path is `a` or `b`, if any.
pub fn position_of_either(dirs: &Vec<Directory>, a: &str, b: &str) -> (r: Option<usize>)
    ensures
        match r {
            Some(i) => first_with_either(dirs@, a@, b@, 0) == Some(i as int),
            None => first_with_either(dirs@, a@, b@, 0) is None,
        },
{
    let mut i: usize = 0;
    while i < dirs.len()
        invariant
            i <= dirs@.len(),
            first_with_either(dirs@, a@, b@, 0) == first_with_either(dirs@, a@, b@, i as int),
        decreases dirs@.len() - i,
    {
        if paths::same_path(dirs[i].path.as_str(), a) || paths::same_path(dirs[i].path.as_str(), b) {
            return Some(i);
        }
        i = i + 1;
    }
    None
}

// ---------------------------------------------------------------------------
// Removal
// ---------------------------------------------------------------------------

/// The ids, in order, of the first `n` records that `pred` selects.
pub open spec fn selected_ids(dirs: Seq<Directory>, pred: spec_fn(Directory) -> bool, n: int) -> Seq<u64>
    decreases n,
{
    if n <= 0 {
        seq![]
    } else {
        selected_ids(dirs, pred, n - 1) + if pred(dirs[n - 1]) {
            seq![dirs[n - 1].id]
        } else {
            seq![]
        }
    }
}

/// The record lies under `path`, component by component.
pub open spec fn under_path(path: Seq<char>) -> spec_fn(Directory) -> bool {
    |d: Directory| paths::spec_path_starts_with(d.path@, path)
}

/// The ids of the records at or under `path`: what goes when the directory
/// at `path` has vanished.
pub fn ids_under_path(dirs: &Vec<Directory>, path: &str) -> (r: Vec<u64>)
    ensures
        r@ == selected_ids(dirs@, under_path(path@), dirs@.len() as int),
{
    let mut r: Vec<u64> = Vec::new();
    let mut i: usize = 0;
    while i < dirs.len()
        invariant
            i <= dirs@.len(),
            r@ == selected_ids(dirs@, under_path(path@), i as int),
        decreases dirs@.len() - i,
    {
        if paths::path_starts_with(dirs[i].path.as_str(), path) {
            r.push(dirs[i].id);
        }
        i = i + 1;
    }
    r
}

/// The record lies under one of the workspace roots and was not seen by
/// the scan.
pub open spec fn stale(workspaces: Seq<Seq<char>>, scanned: Set<u64>) -> spec_fn(Directory) -> bool {
    |d: Directory|
        (exists|w: int| 0 <= w < workspaces.len() && paths::spec_path_starts_with(d.path@, #[trigger] workspaces[w]))
            && !scanned.contains(d.id)
}

/// Whether `path` lies under one of the roots.
fn under_some_root(path: &str, roots: &Vec<String>) -> (r: bool)
    ensures
        r == exists|w: int| 0 <= w < roots@.len() && paths::spec_path_starts_with(path@, #[trigger] crate::cli::strings_view(roots@)[w]),
{
    let mut i: usize = 0;
    while i < roots.len()
        invariant
            i <= roots@.len(),
            forall|w: int| 0 <= w < i ==> !paths::spec_path_starts_with(path@, #[trigger] crate::cli::strings_view(roots@)[w]),
        decreases roots@.len() - i,
    {
        assert(crate::cli::strings_view(roots@)[i as int] == roots@[i as int]@);
        if paths::path_starts_with(path, roots[i].as_str()) {
            return true;
        }
        i = i + 1;
    }
    false
}

/// The ids of the records an index run removes: those under one of the
/// workspace roots whose ids the scan did not see.
pub fn stale_directory_ids(dirs: &Vec<Directory>, workspaces: &Vec<String>, scanned_ids: &Vec<u64>) -> (r: Vec<u64>)
    ensures
        r@ == selected_ids(dirs@, stale(crate::cli::strings_view(workspaces@), scanned_ids@.to_set()), dirs@.len() as int),
{
    let ghost pred = stale(crate::cli::strings_view(workspaces@), scanned_ids@.to_set());
    let mut seen: std::collections::HashSet<u64> = std::collections::HashSet::new();
    let mut j: usize = 0;
    while j < scanned_ids.len()
        invariant
            j <= scanned_ids@.len(),
            seen@ == scanned_ids@.take(j as int).to_set(),
        decreases scanned_ids@.len() - j,
    {
        seen.insert(scanned_ids[j]);
        proof {
            assert(scanned_ids@.take(j + 1) == scanned_ids@.take(j as int).push(scanned_ids@[j as int]));
            let s0 = scanned_ids@.take(j as int);
            let x = scanned_ids@[j as int];
            let s1 = s0.push(x);
            assert forall|a: u64| s1.contains(a) <==> (s0.contains(a) || a == x) by {
                if s1.contains(a) && a != x {
                    let k = choose|k: int| 0 <= k < s1.len() && s1[k] == a;
                    assert(k < s0.len());
                    assert(s0[k] == a);
                }
                if s0.contains(a) {
                    let k = choose|k: int| 0 <= k < s0.len() && s0[k] == a;
                    assert(s1[k] == a);
                }
                if a == x {
                    assert(s1[s0.len() as int] == x);
                }
            }
            assert(s1.to_set() =~= s0.to_set().insert(x));
        }
        j = j + 1;
    }
    assert(scanned_ids@.take(scanned_ids@.len() as int) == scanned_ids@);
    let mut r: Vec<u64> = Vec::new();
    let mut i: usize = 0;
    while i < dirs.len()
        invariant
            i <= dirs@.len(),
            seen@ == scanned_ids@.to_set(),
            pred == stale(crate::cli::strings_view(workspaces@), scanned_ids@.to_set()),
            r@ == selected_ids(dirs@, pred, i as int),
        decreases dirs@.len() - i,
    {
        let d = &dirs[i];
        if under_some_root(d.path.as_str(), workspaces) && !seen.contains(&d.id) {
            r.push(d.id);
        }
        i = i + 1;
    }
    r
}

// ---------------------------------------------------------------------------
// Visit age
// ---------------------------------------------------------------------------

/// Nanoseconds in an hour.
pub const NANOS_PER_HOUR: i128 = 3_600_000_000_000;

/// Whole hours from `then` to `now`, rounded toward zero
/// (`signed_duration_since(..).num_hours()`).
pub open spec fn spec_hours_between(now: int, then: int) -> int {
    let d = now - then;
    if d >= 0 {
        d / (NANOS_PER_HOUR as int)
    } else {
        -((-d) / (NANOS_PER_HOUR as int))
    }
}

/// Whole hours from `then` to `now`, two clock times (see
/// [`spec_hours_between`]).
pub fn hours_between(now: i128, then: i128) -> (r: i64)
    requires
        is_clock_time(now as int),
        is_clock_time(then as int),
    ensures
        r == spec_hours_between(now as int, then as int),
{
    let d: i128 = now - then;
    if d >= 0 {
        (d / NANOS_PER_HOUR) as i64
    } else {
        (-((-d) / NANOS_PER_HOUR)) as i64
    }
}

/// Whole hours since the last visit, by the clock, if there was one: the
/// hours from the visit to some instant that the clock gave.
pub fn hours_since_visit(last: Option<i128>) -> (r: Option<i64>)
    requires
        last matches Some(t) ==> is_clock_time(t as int),
    ensures
        r is Some <==> last is Some,
        last matches Some(t) ==> exists|now: int| is_clock_time(now) && r == Some(spec_hours_between(now, t as int) as i64),
{
    match last {
        Some(t) => Some(hours_between(now_nanos(), t)),
        None => None,
    }
}

} // verus!

verus! {

/// Some record among the first `n` that `pred` selects has id `id`.
pub open spec fn selected_record_has_id(dirs: Seq<Directory>, pred: spec_fn(Directory) -> bool, n: int, id: u64) -> bool {
    exists|i: int| 0 <= i < n && pred(dirs[i]) && #[trigger] dirs[i].id == id
}

proof fn lemma_selected_ids(dirs: Seq<Directory>, pred: spec_fn(Directory) -> bool, n: int)
    requires
        0 <= n <= dirs.len(),
    ensures
        forall|j: int|
            0 <= j < selected_ids(dirs, pred, n).len() ==> selected_record_has_id(dirs, pred, n, #[trigger] selected_ids(dirs, pred, n)[j]),
        forall|i: int| 0 <= i < n && pred(#[trigger] dirs[i]) ==> selected_ids(dirs, pred, n).contains(dirs[i].id),
    decreases n,
{
    if n > 0 {
        lemma_selected_ids(dirs, pred, n - 1);
        let s0 = selected_ids(dirs, pred, n - 1);
        let s1 = selected_ids(dirs, pred, n);
        assert(s1 == s0 + if pred(dirs[n - 1]) { seq![dirs[n - 1].id] } else { seq![] });
        assert forall|j: int| 0 <= j < s1.len() implies selected_record_has_id(dirs, pred, n, #[trigger] s1[j]) by {
            if j < s0.len() {
                assert(s1[j] == s0[j]);
                assert(selected_record_has_id(dirs, pred, n - 1, s0[j]));
                let i = choose|i: int| 0 <= i < n - 1 && pred(dirs[i]) && #[trigger] dirs[i].id == s0[j];
                assert(0 <= i < n && pred(dirs[i]) && dirs[i].id == s1[j]);
            } else {
                assert(s1[j] == dirs[n - 1].id);
                assert(0 <= n - 1 < n && pred(dirs[n - 1]) && dirs[n - 1].id == s1[j]);
            }
        }
        assert forall|i: int| 0 <= i < n && pred(#[trigger] dirs[i]) implies s1.contains(dirs[i].id) by {
            if i == n - 1 {
                assert(s1[s0.len() as int] == dirs[i].id);
            } else {
                let j = choose|j: int| 0 <= j < s0.len() && s0[j] == dirs[i].id;
                assert(s1[j] == dirs[i].id);
            }
        }
    }
}

/// An index run removes exactly the records that lie under a workspace
/// root and that the scan did not see: every removed id is the id of such a
/// record, every such record's id is removed, and no record the scan saw is
/// such a record.
pub proof fn law_index_cleanup_removes_exactly_unseen_records(
    dirs: Seq<Directory>,
    workspaces: Seq<Seq<char>>,
    scanned: Set<u64>,
)
    ensures
        forall|j: int|
            0 <= j < selected_ids(dirs, stale(workspaces, scanned), dirs.len() as int).len() ==> selected_record_has_id(
                dirs,
                stale(workspaces, scanned),
                dirs.len() as int,
                #[trigger] selected_ids(dirs, stale(workspaces, scanned), dirs.len() as int)[j],
            ),
        forall|i: int|
            0 <= i < dirs.len() && stale(workspaces, scanned)(#[trigger] dirs[i]) ==> selected_ids(
                dirs,
                stale(workspaces, scanned),
                dirs.len() as int,
            ).contains(dirs[i].id),
        forall|i: int|
            0 <= i < dirs.len() && scanned.contains(#[trigger] dirs[i].id) ==> !stale(workspaces, scanned)(dirs[i]),
{
    lemma_selected_ids(dirs, stale(workspaces, scanned), dirs.len() as int);
}

/// Cleaning up after a vanished directory removes exactly the records at or
/// under it: every removed id is the id of such a record, and every such
/// record's id is removed.
pub proof fn law_vanished_path_cleanup_removes_exactly_its_subtree(dirs: Seq<Directory>, path: Seq<char>)
    ensures
        forall|j: int|
            0 <= j < selected_ids(dirs, under_path(path), dirs.len() as int).len() ==> selected_record_has_id(
                dirs,
                under_path(path),
                dirs.len() as int,
                #[trigger] selected_ids(dirs, under_path(path), dirs.len() as int)[j],
            ),
        forall|i: int|
            0 <= i < dirs.len() && paths::spec_path_starts_with((#[trigger] dirs[i]).path@, path) ==> selected_ids(
                dirs,
                under_path(path),
                dirs.len() as int,
            ).contains(dirs[i].id),
{
    lemma_selected_ids(dirs, under_path(path), dirs.len() as int);
    assert forall|i: int|
        0 <= i < dirs.len() && paths::spec_path_starts_with((#[trigger] dirs[i]).path@, path) implies selected_ids(
            dirs,
            under_path(path),
            dirs.len() as int,
        ).contains(dirs[i].id) by {
        assert(under_path(path)(dirs[i]));
    }
}

/// `a` comes before `b` in byte order: at the first place where they
/// differ, `a` has the smaller byte.
pub open spec fn bytes_before(a: Seq<u8>, b: Seq<u8>) -> bool {
    exists|i: int| 0 <= i < a.len() && i < b.len() && a.take(i) == b.take(i) && #[trigger] a[i] < b[i]
}

/// `256` to the power `k`.
pub open spec fn radix_bound(k: nat) -> nat
    decreases k,
{
    if k == 0 {
        1
    } else {
        256 * radix_bound((k - 1) as nat)
    }
}

proof fn lemma_big_endian_ordered(n: nat, m: nat, k: nat)
    requires
        n < m < radix_bound(k),
    ensures
        bytes_before(big_endian(n, k), big_endian(m, k)),
    decreases k,
{
    if k == 0 {
        assert(false);
    } else {
        let k1 = (k - 1) as nat;
        let pn = big_endian(n / 256, k1);
        let pm = big_endian(m / 256, k1);
        lemma_big_endian_len(n / 256, k1);
        lemma_big_endian_len(m / 256, k1);
        let a = big_endian(n, k);
        let b = big_endian(m, k);
        assert(a == pn.push((n % 256) as u8));
        assert(b == pm.push((m % 256) as u8));
        if n / 256 < m / 256 {
            lemma_big_endian_ordered(n / 256, m / 256, k1);
            let i = choose|i: int| 0 <= i < pn.len() && i < pm.len() && pn.take(i) == pm.take(i) && #[trigger] pn[i] < pm[i];
            assert(a.take(i) == pn.take(i));
            assert(b.take(i) == pm.take(i));
            assert(a[i] == pn[i] && b[i] == pm[i]);
            assert(a.take(i) == b.take(i) && a[i] < b[i]);
        } else {
            assert(n / 256 == m / 256);
            let i = k1 as int;
            assert(a.take(i) == pn);
            assert(b.take(i) == pm);
            assert(a[i] == (n % 256) as u8 && b[i] == (m % 256) as u8);
            assert(a.take(i) == b.take(i) && a[i] < b[i]);
        }
    }
}

/// Record keys sort the way ids do: a smaller id has a key that comes
/// first in byte order, so records kept under these keys are listed in id
/// order.
pub proof fn law_id_keys_sort_like_ids(a: u64, b: u64)
    requires
        a < b,
    ensures
        bytes_before(big_endian(a as nat, 8), big_endian(b as nat, 8)),
{
    assert(radix_bound(8) == 0x1_0000_0000_0000_0000nat) by {
        reveal_with_fuel(radix_bound, 9);
    }
    lemma_big_endian_ordered(a as nat, b as nat, 8);
}

/// Choosing the same directory for a query again counts the mapping up by
/// one; choosing another starts it over at one.
pub proof fn law_repeated_choice_counts_up(m: QueryMapping, query: Seq<char>, path_id: u64)
    ensures
        m.path_id == path_id ==> spec_next_query_mapping(Some(m), query, path_id).2 == m.count + 1
            || m.count == u64::MAX,
        m.path_id != path_id ==> spec_next_query_mapping(Some(m), query, path_id) == (query, path_id, 1u64),
{
}

} // verus!

verus! {

/// Some record at or under `path`, component by component, has id `id`.
pub open spec fn id_of_record_under(dirs: Seq<Directory>, path: Seq<char>, id: u64) -> bool {
    exists|i: int| 0 <= i < dirs.len() && #[trigger] dirs[i].id == id && paths::spec_path_starts_with(dirs[i].path@, path)
}

/// Cleaning up after a vanished directory `path` removes the id of every
/// record at or under it and nothing else: each removed id belongs to a
/// record whose path starts with `path` component by component, and each
/// such record's id is removed.
pub proof fn law_vanished_path_cleanup_removes_only_its_subtree(dirs: Seq<Directory>, path: Seq<char>)
    ensures
        forall|j: int|
            0 <= j < selected_ids(dirs, under_path(path), dirs.len() as int).len() ==> id_of_record_under(
                dirs,
                path,
                #[trigger] selected_ids(dirs, under_path(path), dirs.len() as int)[j],
            ),
        forall|i: int|
            0 <= i < dirs.len() && paths::spec_path_starts_with((#[trigger] dirs[i]).path@, path) ==> selected_ids(
                dirs,
                under_path(path),
                dirs.len() as int,
            ).contains(dirs[i].id),
{
    law_vanished_path_cleanup_removes_exactly_its_subtree(dirs, path);
    let ids = selected_ids(dirs, under_path(path), dirs.len() as int);
    assert forall|j: int| 0 <= j < ids.len() implies id_of_record_under(dirs, path, #[trigger] ids[j]) by {
        assert(selected_record_has_id(dirs, under_path(path), dirs.len() as int, ids[j]));
        let i = choose|i: int| 0 <= i < dirs.len() as int && under_path(path)(dirs[i]) && #[trigger] dirs[i].id == ids[j];
        assert(paths::spec_path_starts_with(dirs[i].path@, path));
    }
}

} // verus!

verus! {

/// Some record with id `id` lies under one of the workspace roots and has
/// an id the scan did not see.
pub open spec fn id_of_unseen_record(dirs: Seq<Directory>, workspaces: Seq<Seq<char>>, scanned: Set<u64>, id: u64) -> bool {
    exists|i: int|
        0 <= i < dirs.len() && #[trigger] dirs[i].id == id && !scanned.contains(id) && exists|w: int|
            0 <= w < workspaces.len() && paths::spec_path_starts_with(dirs[i].path@, #[trigger] workspaces[w])
}

/// An index run removes only ids of records that lie under a workspace
/// root, component by component, and that the scan did not see; and it
/// removes the id of every such record.
pub proof fn law_index_cleanup_removes_only_unseen_records_under_roots(
    dirs: Seq<Directory>,
    workspaces: Seq<Seq<char>>,
    scanned: Set<u64>,
)
    ensures
        forall|j: int|
            0 <= j < selected_ids(dirs, stale(workspaces, scanned), dirs.len() as int).len() ==> id_of_unseen_record(
                dirs,
                workspaces,
                scanned,
                #[trigger] selected_ids(dirs, stale(workspaces, scanned), dirs.len() as int)[j],
            ),
        forall|i: int, w: int|
            0 <= i < dirs.len() && 0 <= w < workspaces.len() && paths::spec_path_starts_with(
                (#[trigger] dirs[i]).path@,
                #[trigger] workspaces[w],
            ) && !scanned.contains(dirs[i].id) ==> selected_ids(dirs, stale(workspaces, scanned), dirs.len() as int).contains(
                dirs[i].id,
            ),
{
    law_index_cleanup_removes_exactly_unseen_records(dirs, workspaces, scanned);
    let ids = selected_ids(dirs, stale(workspaces, scanned), dirs.len() as int);
    assert forall|j: int| 0 <= j < ids.len() implies id_of_unseen_record(dirs, workspaces, scanned, #[trigger] ids[j]) by {
        assert(selected_record_has_id(dirs, stale(workspaces, scanned), dirs.len() as int, ids[j]));
        let i = choose|i: int|
            0 <= i < dirs.len() as int && stale(workspaces, scanned)(dirs[i]) && #[trigger] dirs[i].id == ids[j];
        assert(stale(workspaces, scanned)(dirs[i]));
    }
    assert forall|i: int, w: int|
        0 <= i < dirs.len() && 0 <= w < workspaces.len() && paths::spec_path_starts_with(
            (#[trigger] dirs[i]).path@,
            #[trigger] workspaces[w],
        ) && !scanned.contains(dirs[i].id) implies ids.contains(dirs[i].id) by {
        assert(stale(workspaces, scanned)(dirs[i]));
    }
}

} // verus!

verus! {

/// The whole hours between two clock times are the difference divided by an
/// hour and rounded toward zero: a forward gap is at least that many hours
/// and less than one more, a backward gap likewise with the sign turned.
pub proof fn law_hours_round_toward_zero(now: i128, then: i128)
    ensures
        now >= then ==> spec_hours_between(now as int, then as int) >= 0 && spec_hours_between(now as int, then as int)
            * NANOS_PER_HOUR <= now - then < (spec_hours_between(now as int, then as int) + 1) * NANOS_PER_HOUR,
        now < then ==> spec_hours_between(now as int, then as int) <= 0 && (spec_hours_between(now as int, then as int)
            - 1) * NANOS_PER_HOUR < now - then <= spec_hours_between(now as int, then as int) * NANOS_PER_HOUR,
{
}

} // verus!
