use frecency::order::{entry_ranks_before, place_bytes, place_paths, same_path, Placement, SortKey};
use frecency::score::PathEntry;

fn row(path: &str, visit_count: u64, last_visit_millis: u64) -> PathEntry {
    PathEntry { path: path.to_string(), visit_count, last_visit_millis }
}

#[test]
fn bytes_are_placed_lexicographically() {
    assert_eq!(place_bytes(b"abc", b"abd"), Placement::Before);
    assert_eq!(place_bytes(b"abd", b"abc"), Placement::After);
    assert_eq!(place_bytes(b"abc", b"abc"), Placement::Same);
    assert_eq!(place_bytes(b"", b""), Placement::Same);
}

#[test]
fn a_prefix_comes_first() {
    assert_eq!(place_bytes(b"ab", b"abc"), Placement::Before);
    assert_eq!(place_bytes(b"abc", b"ab"), Placement::After);
    assert_eq!(place_bytes(b"", b"a"), Placement::Before);
}

#[test]
fn paths_are_placed_as_std_orders_strings() {
    let paths = ["", "/", "/a", "/a/b", "/ab", "/b", "/B", "/é", "/z", "/日本", "~"];
    for a in paths {
        for b in paths {
            let expected = match a.cmp(b) {
                std::cmp::Ordering::Less => Placement::Before,
                std::cmp::Ordering::Equal => Placement::Same,
                std::cmp::Ordering::Greater => Placement::After,
            };
            assert_eq!(place_paths(a, b), expected);
        }
    }
}

#[test]
fn paths_are_compared_byte_for_byte() {
    assert!(same_path("/home/user", "/home/user"));
    assert!(!same_path("/home/user", "/home/User"));
    assert!(!same_path("/home/user", "/home/user/"));
    assert!(same_path("", ""));
}

#[test]
fn by_score_the_higher_score_ranks_first() {
    let now = 10_000;
    let a = row("/a", 3, 1_000);
    let b = row("/b", 1, 9_000);
    assert!(entry_ranks_before(SortKey::Score, now, &a, &b));
    assert!(!entry_ranks_before(SortKey::Score, now, &b, &a));
}

#[test]
fn by_score_ties_go_to_the_more_recent_visit() {
    let now = 10_000;
    let a = row("/a", 2, 1_000);
    let b = row("/b", 2, 9_000);
    assert!(entry_ranks_before(SortKey::Score, now, &b, &a));
    assert!(!entry_ranks_before(SortKey::Score, now, &a, &b));
}

#[test]
fn by_score_full_ties_go_to_the_smaller_path() {
    let now = 10_000;
    let a = row("/a", 2, 1_000);
    let b = row("/b", 2, 1_000);
    assert!(entry_ranks_before(SortKey::Score, now, &a, &b));
    assert!(!entry_ranks_before(SortKey::Score, now, &b, &a));
    assert!(!entry_ranks_before(SortKey::Score, now, &a, &a));
}

#[test]
fn by_last_visit_the_more_recent_ranks_first() {
    let now = 10_000;
    let a = row("/a", 9, 1_000);
    let b = row("/b", 1, 9_000);
    assert!(entry_ranks_before(SortKey::LastVisit, now, &b, &a));
    assert!(!entry_ranks_before(SortKey::LastVisit, now, &a, &b));
}

#[test]
fn by_last_visit_ties_go_to_the_higher_score_then_the_smaller_path() {
    let now = 10_000;
    let a = row("/a", 1, 5_000);
    let b = row("/b", 4, 5_000);
    let c = row("/c", 4, 5_000);
    assert!(entry_ranks_before(SortKey::LastVisit, now, &b, &a));
    assert!(entry_ranks_before(SortKey::LastVisit, now, &b, &c));
    assert!(!entry_ranks_before(SortKey::LastVisit, now, &c, &b));
}
