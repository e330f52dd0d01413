use frecency::clock::{millis_from_timestamp, now_millis};
use frecency::cmd::{decimal_text, run_add, run_add_at, run_fetch, run_fetch_at};
use frecency::cmd::{run_remove_not_exists, show_listing, show_only_path, show_with_score};
use frecency::cmd::{shown_text, stale_paths};
use frecency::cmd::{Add, Fetch};
use frecency::config::{Config, ConfigError};
use frecency::store::{add_visit, fetch_scores_at, FrecencyError, Store};
use frecency::CmdError;

fn example_store() -> Store {
    let mut store = Store::new();
    add_visit(&mut store, "/a", 1000).unwrap();
    add_visit(&mut store, "/b", 1000).unwrap();
    add_visit(&mut store, "/b", 2000).unwrap();
    add_visit(&mut store, "/b", 3000).unwrap();
    add_visit(&mut store, "/c", 2500).unwrap();
    add_visit(&mut store, "/c", 3500).unwrap();
    store
}

fn fetch(limit: Option<u64>, sort_by_last_visit: bool) -> Fetch {
    Fetch { limit, sort_by_last_visit, with_score: false, asc: false }
}

#[test]
fn timestamps_after_the_epoch_are_kept() {
    assert_eq!(millis_from_timestamp(0), 0);
    assert_eq!(millis_from_timestamp(1_444), 1_444);
    assert_eq!(millis_from_timestamp(i64::MAX), i64::MAX as u64);
}

#[test]
fn timestamps_before_the_epoch_wrap() {
    assert_eq!(millis_from_timestamp(-1), u64::MAX);
    assert_eq!(millis_from_timestamp(-1), -1i64 as u64);
    assert_eq!(millis_from_timestamp(i64::MIN), i64::MIN as u64);
    assert_eq!(millis_from_timestamp(-86_400_000), -86_400_000i64 as u64);
}

#[test]
fn the_clock_can_be_read() {
    let reading = now_millis();
    let stamped = millis_from_timestamp(reading as i64);
    assert_eq!(stamped, reading);
}

#[test]
fn numbers_are_written_in_decimal() {
    assert_eq!(decimal_text(0), "0");
    assert_eq!(decimal_text(7), "7");
    assert_eq!(decimal_text(10), "10");
    assert_eq!(decimal_text(1234567890), "1234567890");
    assert_eq!(decimal_text(u128::MAX), u128::MAX.to_string());
    assert_eq!(decimal_text((u64::MAX as u128) * 8), "147573952589676412920");
}

#[test]
fn a_path_alone_is_its_own_line() {
    assert_eq!(show_only_path("/home/user", 24), "/home/user");
    assert_eq!(show_only_path("", 0), "");
}

#[test]
fn a_score_stands_four_spaces_before_its_path() {
    assert_eq!(show_with_score("/home/user", 24), "24    /home/user");
    assert_eq!(show_with_score("/é", 0), "0    /é");
}

#[test]
fn listings_are_shown_first_rank_first_or_last_rank_first() {
    let listing = vec![("/b".to_string(), 24u128), ("/c".to_string(), 16), ("/a".to_string(), 8)];
    assert_eq!(show_listing(&listing, false, false), vec!["/b", "/c", "/a"]);
    assert_eq!(show_listing(&listing, false, true), vec!["/a", "/c", "/b"]);
    assert_eq!(show_listing(&listing, true, false), vec!["24    /b", "16    /c", "8    /a"]);
    assert_eq!(show_listing(&listing, true, true), vec!["8    /a", "16    /c", "24    /b"]);
    assert_eq!(show_listing(&vec![], true, true), Vec::<String>::new());
}

#[test]
fn add_records_a_visit() {
    let mut store = Store::new();
    let add = Add { path: "/a".to_string() };
    assert!(matches!(run_add_at(&mut store, &add, 1000), Ok(())));
    assert!(matches!(run_add_at(&mut store, &add, 2000), Ok(())));
    let a = store.lookup("/a").unwrap();
    assert_eq!((a.visit_count, a.last_visit_millis), (2, 2000));
}

#[test]
fn add_at_the_current_time_records_a_visit() {
    let mut store = Store::new();
    assert!(matches!(run_add(&mut store, &Add { path: "/a".to_string() }), Ok(())));
    assert!(matches!(run_add(&mut store, &Add { path: "/a".to_string() }), Ok(())));
    assert!(matches!(run_add(&mut store, &Add { path: "/b".to_string() }), Ok(())));
    assert!(store.ready());
    assert_eq!(store.lookup("/a").unwrap().visit_count, 2);
    assert_eq!(store.lookup("/b").unwrap().visit_count, 1);
    assert_eq!(store.len(), 2);
}

#[test]
fn add_refuses_an_empty_path() {
    let mut store = Store::new();
    let result = run_add_at(&mut store, &Add { path: String::new() }, 1000);
    assert!(matches!(result, Err(CmdError::FrecencyError(FrecencyError::InvalidInput))));
    let result = run_add(&mut store, &Add { path: String::new() });
    assert!(matches!(result, Err(CmdError::FrecencyError(FrecencyError::InvalidInput))));
    assert_eq!(store.len(), 0);
}

#[test]
fn fetch_orders_by_score_or_by_last_visit() {
    let store = example_store();
    let by_score = run_fetch_at(&store, &fetch(None, false), 4000).unwrap();
    assert_eq!(by_score, vec![("/b".to_string(), 24), ("/c".to_string(), 16), ("/a".to_string(), 8)]);
    let by_last = run_fetch_at(&store, &fetch(None, true), 4000).unwrap();
    assert_eq!(by_last, vec![("/c".to_string(), 16), ("/b".to_string(), 24), ("/a".to_string(), 8)]);
}

#[test]
fn fetch_applies_the_limit() {
    let store = example_store();
    let top = run_fetch_at(&store, &fetch(Some(1), false), 4000).unwrap();
    assert_eq!(top, vec![("/b".to_string(), 24)]);
    let top = run_fetch_at(&store, &fetch(Some(2), true), 4000).unwrap();
    assert_eq!(top, vec![("/c".to_string(), 16), ("/b".to_string(), 24)]);
}

#[test]
fn fetch_at_the_current_time_lists_every_path() {
    let mut store = Store::new();
    add_visit(&mut store, "/a", 1000).unwrap();
    add_visit(&mut store, "/b", 2000).unwrap();
    add_visit(&mut store, "/b", 3000).unwrap();
    let listing = run_fetch(&store, &fetch(None, false)).unwrap();
    let paths: Vec<&str> = listing.iter().map(|(p, _)| p.as_str()).collect();
    assert_eq!(paths, vec!["/b", "/a"]);
    let top = run_fetch(&store, &fetch(Some(1), true)).unwrap();
    assert_eq!(top.len(), 1);
    assert_eq!(top[0].0, "/b");
}

#[test]
fn fetch_fails_without_schema() {
    let store = Store::new();
    let result = run_fetch_at(&store, &fetch(None, false), 0);
    assert!(matches!(result, Err(CmdError::FrecencyError(FrecencyError::StorageError))));
    let result = run_fetch(&store, &fetch(None, true));
    assert!(matches!(result, Err(CmdError::FrecencyError(FrecencyError::StorageError))));
}

#[test]
fn stale_paths_are_those_found_missing() {
    let probed = vec![
        ("/a".to_string(), true),
        ("/gone".to_string(), false),
        ("/b".to_string(), true),
        ("/lost".to_string(), false),
    ];
    assert_eq!(stale_paths(&probed), vec!["/gone", "/lost"]);
    assert_eq!(stale_paths(&vec![]), Vec::<&str>::new());
}

#[test]
fn remove_not_exists_removes_the_missing_paths() {
    let mut store = example_store();
    let probed =
        vec![("/b".to_string(), true), ("/c".to_string(), false), ("/a".to_string(), false)];
    assert!(matches!(run_remove_not_exists(&mut store, &probed), Ok(())));
    assert_eq!(fetch_scores_at(&store, None, 4000).unwrap(), vec![("/b".to_string(), 24)]);
}

#[test]
fn remove_not_exists_keeps_what_still_exists() {
    let mut store = example_store();
    let before = fetch_scores_at(&store, None, 4000).unwrap();
    let probed = vec![("/b".to_string(), true), ("/c".to_string(), true), ("/a".to_string(), true)];
    assert!(matches!(run_remove_not_exists(&mut store, &probed), Ok(())));
    assert_eq!(store.len(), 3);
    assert_eq!(fetch_scores_at(&store, None, 4000).unwrap(), before);
    assert!(matches!(run_remove_not_exists(&mut store, &vec![]), Ok(())));
    assert_eq!(fetch_scores_at(&store, None, 4000).unwrap(), before);
}

#[test]
fn a_second_sweep_changes_nothing() {
    let mut store = example_store();
    let probed = vec![("/b".to_string(), true), ("/c".to_string(), false), ("/a".to_string(), true)];
    assert!(matches!(run_remove_not_exists(&mut store, &probed), Ok(())));
    let after_first = fetch_scores_at(&store, None, 4000).unwrap();
    assert!(matches!(run_remove_not_exists(&mut store, &probed), Ok(())));
    assert_eq!(fetch_scores_at(&store, None, 4000).unwrap(), after_first);
    assert_eq!(after_first, vec![("/b".to_string(), 24), ("/a".to_string(), 8)]);
}

#[test]
fn add_on_a_store_with_schema_keeps_every_other_row() {
    let mut store = example_store();
    frecency::store::ensure_schema(&mut store);
    assert!(matches!(run_add_at(&mut store, &Add { path: "/a".to_string() }, 9000), Ok(())));
    frecency::store::ensure_schema(&mut store);
    frecency::store::ensure_schema(&mut store);
    let a = store.lookup("/a").unwrap();
    let b = store.lookup("/b").unwrap();
    let c = store.lookup("/c").unwrap();
    assert_eq!((a.visit_count, a.last_visit_millis), (2, 9000));
    assert_eq!((b.visit_count, b.last_visit_millis), (3, 3000));
    assert_eq!((c.visit_count, c.last_visit_millis), (2, 3500));
    assert_eq!(store.len(), 3);
}

#[test]
fn shown_text_ends_every_line_with_one_newline() {
    assert_eq!(shown_text(&vec![]), "");
    assert_eq!(shown_text(&vec!["/a".to_string()]), "/a\n");
    assert_eq!(shown_text(&vec!["24    /b".to_string(), "8    /a".to_string()]), "24    /b\n8    /a\n");
    assert_eq!(shown_text(&vec![String::new(), "x".to_string()]), "\nx\n");
}

#[test]
fn remove_not_exists_fails_without_schema() {
    let mut store = Store::new();
    let result = run_remove_not_exists(&mut store, &vec![("/a".to_string(), false)]);
    assert!(matches!(result, Err(CmdError::FrecencyError(FrecencyError::StorageError))));
}

#[test]
fn given_location_wins() {
    let config = Config::new(Some("/tmp/x.db".to_string()), Some("/home/u".to_string())).unwrap();
    assert_eq!(config.dbpath, "/tmp/x.db");
    let config = Config::new(Some("rel.db".to_string()), None).unwrap();
    assert_eq!(config.dbpath, "rel.db");
}

#[test]
fn default_location_lies_below_home() {
    let config = Config::new(None, Some("/home/u".to_string())).unwrap();
    assert_eq!(config.dbpath, "/home/u/.frecency.db");
}

#[test]
fn empty_location_is_refused() {
    let result = Config::new(Some(String::new()), Some("/home/u".to_string()));
    assert_eq!(result.unwrap_err(), ConfigError::EmptyLocation);
}

#[test]
fn missing_home_is_refused() {
    assert_eq!(Config::new(None, None).unwrap_err(), ConfigError::HomeNotFound);
    assert_eq!(Config::new(None, Some(String::new())).unwrap_err(), ConfigError::HomeNotFound);
}

#[test]
fn config_errors_have_messages() {
    assert_eq!(ConfigError::EmptyLocation.message(), "the database location is empty");
    assert_eq!(
        ConfigError::HomeNotFound.message(),
        "no database location given and no home directory found"
    );
}

#[test]
fn command_errors_wrap_their_causes() {
    assert!(matches!(
        CmdError::from(FrecencyError::StorageUnavailable),
        CmdError::FrecencyError(FrecencyError::StorageUnavailable)
    ));
    assert!(matches!(
        CmdError::from(ConfigError::HomeNotFound),
        CmdError::ConfigError(ConfigError::HomeNotFound)
    ));
    let io = std::io::Error::new(std::io::ErrorKind::BrokenPipe, "closed");
    match CmdError::from(io) {
        CmdError::IOError(e) => assert_eq!(e.kind(), std::io::ErrorKind::BrokenPipe),
        _ => panic!("an i/o error stays an i/o error"),
    }
}
