use goto::models::{Directory, ProjectType, QueryMapping};
use goto::storage::{
    hours_between, id_key, ids_under_path, new_directory, next_query_mapping, position_of_either,
    position_of_path, refresh_directory, stale_directory_ids, tag_key,
};

fn dir(id: u64, path: &str) -> Directory {
    new_directory(id, path, ProjectType::Unknown, 0)
}

#[test]
fn keys_are_encoded() {
    assert_eq!(id_key(0x0102_0304_0506_0708), 0x0102_0304_0506_0708u64.to_be_bytes().to_vec());
    assert_eq!(id_key(7), 7u64.to_be_bytes().to_vec());
    assert_eq!(tag_key("tmp", 42), "tmp:42");
    assert_eq!(tag_key("", 0), ":0");
}

#[test]
fn query_mappings_count_repeated_choices() {
    let first = next_query_mapping(None, "web", 3);
    assert_eq!((first.query.as_str(), first.path_id, first.count), ("web", 3, 1));
    let again = next_query_mapping(Some(first), "web", 3);
    assert_eq!(again.count, 2);
    let other = next_query_mapping(Some(again), "web", 4);
    assert_eq!((other.path_id, other.count), (4, 1));
    let m = QueryMapping { query: "x".to_string(), path_id: 1, count: 9 };
    assert_eq!(next_query_mapping(Some(m), "x", 1).count, 10);
}

#[test]
fn directory_records() {
    let d = new_directory(5, "/srv/www", ProjectType::Node, 77);
    assert_eq!((d.id, d.path.as_str(), d.name.as_str(), d.depth, d.last_seen), (5, "/srv/www", "www", 3, 77));
    let r = refresh_directory(d, ProjectType::Git, 99);
    assert_eq!((r.id, r.last_seen, r.project_type), (5, 99, ProjectType::Git));
    let root = new_directory(1, "/", ProjectType::Unknown, 0);
    assert_eq!((root.name.as_str(), root.depth), ("/", 1));
}

#[test]
fn removal_selections() {
    let dirs = vec![dir(1, "/w/a"), dir(2, "/w/a/b"), dir(3, "/w/ab"), dir(4, "/x")];
    assert_eq!(ids_under_path(&dirs, "/w/a"), vec![1, 2]);
    assert_eq!(position_of_path(&dirs, "/w/ab"), Some(2));
    assert_eq!(position_of_path(&dirs, "/nope"), None);
    assert_eq!(position_of_either(&dirs, "/nope", "/x"), Some(3));
    let ws = vec!["/w".to_string()];
    assert_eq!(stale_directory_ids(&dirs, &ws, &vec![1, 3]), vec![2]);
    assert_eq!(stale_directory_ids(&dirs, &vec![], &vec![]), Vec::<u64>::new());
}

#[test]
fn hours_round_toward_zero() {
    let h = 3_600_000_000_000i128;
    assert_eq!(hours_between(h * 5 + 1, 0), 5);
    assert_eq!(hours_between(0, h * 2 - 1), -1);
    assert_eq!(hours_between(10, 10), 0);
    assert_eq!(hours_between(h - 1, 0), 0);
    assert_eq!(hours_between(h, 1), 0);
    let b = goto::storage::CLOCK_TIME_BOUND;
    assert_eq!(hours_between(b, -b), (2 * b / h) as i64);
}

#[test]
fn times_split_into_seconds_and_nanoseconds() {
    assert_eq!(goto::storage::nanos_from_parts(2, 5), 2_000_000_005);
    assert_eq!(goto::storage::nanos_from_parts(-1, 999_999_999), -1);
    assert_eq!(goto::storage::split_nanos(2_000_000_005), (2, 5));
    assert_eq!(goto::storage::split_nanos(-1), (-1, 999_999_999));
    assert_eq!(goto::storage::split_nanos(-1_000_000_000), (-1, 0));
    assert_eq!(goto::storage::split_nanos(0), (0, 0));
}

#[test]
fn keys_sort_like_ids() {
    let ids = [0u64, 1, 255, 256, 65_535, 65_536, 1 << 40, u64::MAX - 1, u64::MAX];
    for w in ids.windows(2) {
        assert!(id_key(w[0]) < id_key(w[1]));
    }
}

#[test]
fn hours_since_a_visit_follow_the_clock() {
    assert_eq!(goto::storage::hours_since_visit(None), None);
    let now = std::time::SystemTime::now()
        .duration_since(std::time::UNIX_EPOCH)
        .expect("clock after epoch")
        .as_nanos() as i128;
    let two_days_ago = now - 48 * 3_600_000_000_000i128;
    let h = goto::storage::hours_since_visit(Some(two_days_ago)).expect("a visit was given");
    assert!((48..=49).contains(&h));
    let just_under = now - 3_600_000_000_000i128 + 60_000_000_000;
    assert_eq!(goto::storage::hours_since_visit(Some(just_under)), Some(0));
}

#[test]
fn last_record_for_a_path_wins() {
    let dirs = vec![dir(1, "/w/a"), dir(2, "/x"), dir(3, "/w/a/")];
    assert_eq!(goto::storage::last_position_of_path(&dirs, "/w/a"), Some(2));
    assert_eq!(position_of_path(&dirs, "/w/a"), Some(0));
    assert_eq!(goto::storage::last_position_of_path(&dirs, "/y"), None);
}

#[test]
fn visits_are_stamped_with_the_clock() {
    let before = std::time::SystemTime::now()
        .duration_since(std::time::UNIX_EPOCH)
        .expect("clock after epoch")
        .as_nanos() as i128;
    let v = goto::storage::visit_now(9);
    let after = std::time::SystemTime::now()
        .duration_since(std::time::UNIX_EPOCH)
        .expect("clock after epoch")
        .as_nanos() as i128;
    assert_eq!(v.path_id, 9);
    assert!(before <= v.timestamp && v.timestamp <= after);
}
