use frecency::score::{record_visit, score, score_at, weight_at, PathEntry};
use frecency::score::{DAY_MILLIS, MONTH_MILLIS, WEEK_MILLIS};

fn entry(path: &str, visit_count: u64, last_visit_millis: u64) -> PathEntry {
    PathEntry { path: path.to_string(), visit_count, last_visit_millis }
}

#[test]
fn band_lengths_are_day_week_and_thirty_days() {
    assert_eq!(DAY_MILLIS, 24 * 60 * 60 * 1000);
    assert_eq!(WEEK_MILLIS, 7 * DAY_MILLIS);
    assert_eq!(MONTH_MILLIS, 30 * DAY_MILLIS);
}

#[test]
fn weight_is_eight_within_a_day() {
    assert_eq!(weight_at(1_000, 1_000), 8);
    assert_eq!(weight_at(0, DAY_MILLIS), 8);
}

#[test]
fn weight_is_four_within_a_week() {
    assert_eq!(weight_at(0, DAY_MILLIS + 1), 4);
    assert_eq!(weight_at(0, WEEK_MILLIS), 4);
}

#[test]
fn weight_is_two_within_thirty_days() {
    assert_eq!(weight_at(0, WEEK_MILLIS + 1), 2);
    assert_eq!(weight_at(0, MONTH_MILLIS), 2);
}

#[test]
fn weight_is_one_beyond_thirty_days() {
    assert_eq!(weight_at(0, MONTH_MILLIS + 1), 1);
    assert_eq!(weight_at(0, u64::MAX), 1);
}

#[test]
fn visit_from_the_future_counts_as_fresh() {
    assert_eq!(weight_at(5_000, 1_000), 8);
    assert_eq!(score_at(3, 5_000, 1_000), 24);
}

#[test]
fn score_is_count_times_weight() {
    assert_eq!(score_at(3, 3_000, 3_000), 24);
    assert_eq!(score_at(5, 0, DAY_MILLIS + 1), 20);
    assert_eq!(score_at(7, 0, WEEK_MILLIS + 1), 14);
    assert_eq!(score_at(9, 0, MONTH_MILLIS + 1), 9);
    assert_eq!(score(&entry("/a", 1, 1_000), 1_000), 8);
}

#[test]
fn score_of_the_largest_count_does_not_wrap() {
    assert_eq!(score_at(u64::MAX, 10, 10), (u64::MAX as u128) * 8);
}

#[test]
fn score_gives_the_same_value_twice() {
    let e = entry("/a", 4, 77);
    assert_eq!(score(&e, 1_000_000), score(&e, 1_000_000));
}

#[test]
fn more_visits_never_score_lower() {
    let now = 40 * DAY_MILLIS;
    for last in [0, 10 * DAY_MILLIS, 35 * DAY_MILLIS, now] {
        for fewer in 1..6u64 {
            for more in fewer..6u64 {
                assert!(score_at(fewer, last, now) <= score_at(more, last, now));
            }
        }
    }
}

#[test]
fn older_visits_never_score_higher() {
    let now = 40 * DAY_MILLIS;
    let times = [0, 9 * DAY_MILLIS, 10 * DAY_MILLIS, 33 * DAY_MILLIS, 39 * DAY_MILLIS, now];
    for (i, earlier) in times.iter().enumerate() {
        for later in &times[i..] {
            assert!(score_at(3, *earlier, now) <= score_at(3, *later, now));
        }
    }
}

#[test]
fn first_visit_starts_at_one() {
    let e = record_visit("/a", None, 1_000);
    assert_eq!(e.path, "/a");
    assert_eq!(e.visit_count, 1);
    assert_eq!(e.last_visit_millis, 1_000);
}

#[test]
fn later_visit_adds_one_and_replaces_the_time() {
    let prior = entry("/a", 4, 9_000);
    let e = record_visit("/a", Some(&prior), 2_000);
    assert_eq!(e.path, "/a");
    assert_eq!(e.visit_count, 5);
    assert_eq!(e.last_visit_millis, 2_000);
}

#[test]
fn duplicate_keeps_every_field() {
    let e = entry("/some/dir", 12, 34);
    let copy = e.duplicate();
    assert_eq!(copy.path, "/some/dir");
    assert_eq!(copy.visit_count, 12);
    assert_eq!(copy.last_visit_millis, 34);
}
