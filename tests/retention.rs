use std::collections::HashSet;

use chrono::{TimeZone, Utc};
use tarsnap_lifespan::{keep_generations, select_snapshots_to_delete, Generation, Snapshot};

fn at(year: i32, month: u32, day: u32, hour: u32, min: u32, sec: u32) -> i64 {
    Utc.with_ymd_and_hms(year, month, day, hour, min, sec).unwrap().timestamp()
}

fn utc_midnight(year: i32, month: u32, day: u32) -> i64 {
    at(year, month, day, 0, 0, 0)
}

fn test_generations() -> Vec<Generation> {
    vec![
        Generation { interval: 24 * 3600, count: 6 },
        Generation { interval: 30 * 24 * 3600, count: 4 },
        Generation { interval: 365 * 24 * 3600, count: 1 },
    ]
}

fn snapshot(name: &str, ts: i64) -> Snapshot {
    Snapshot { name: name.to_string(), ts }
}

fn name_set(names: &[&str]) -> HashSet<String> {
    names.iter().map(|s| s.to_string()).collect()
}

fn as_set(v: Vec<String>) -> HashSet<String> {
    let n = v.len();
    let s: HashSet<String> = v.into_iter().collect();
    assert_eq!(s.len(), n, "names must not repeat");
    s
}

fn june_catalog_1() -> Vec<Snapshot> {
    vec![
        snapshot("two_years_ago", utc_midnight(2016, 6, 1)),
        snapshot("last_year", utc_midnight(2017, 6, 1)),
        snapshot("jan_1", utc_midnight(2018, 1, 1)),
        snapshot("feb_1", utc_midnight(2018, 2, 1)),
        snapshot("feb_27", utc_midnight(2018, 2, 27)),
        snapshot("feb_28", utc_midnight(2018, 2, 28)),
        snapshot("mar_1", utc_midnight(2018, 3, 1)),
        snapshot("apr_1", utc_midnight(2018, 4, 1)),
        snapshot("may_1", utc_midnight(2018, 5, 1)),
        snapshot("jun_1", utc_midnight(2018, 6, 1)),
        snapshot("jun_2", utc_midnight(2018, 6, 2)),
        snapshot("jun_3", utc_midnight(2018, 6, 3)),
        snapshot("jun_4", utc_midnight(2018, 6, 4)),
        snapshot("jun_5", utc_midnight(2018, 6, 5)),
        snapshot("jun_6", utc_midnight(2018, 6, 6)),
    ]
}

#[test]
fn generations_empty() {
    let snapshots = vec![];
    let now = at(2018, 8, 1, 12, 0, 0);

    let filtered = keep_generations(&snapshots, &test_generations(), now);
    assert_eq!(as_set(filtered), HashSet::new());
}

#[test]
fn generations_1() {
    let snapshots = june_catalog_1();
    let now = at(2018, 6, 6, 16, 0, 0);

    let expected = name_set(&[
        "last_year", "feb_1", "mar_1", "apr_1", "may_1", "jun_1", "jun_2", "jun_3", "jun_4",
        "jun_5", "jun_6",
    ]);

    let filtered = keep_generations(&snapshots, &test_generations(), now);
    assert_eq!(as_set(filtered), expected);
}

#[test]
fn generations_2() {
    let snapshots = vec![
        snapshot("two_years_ago", utc_midnight(2016, 6, 1)),
        snapshot("last_year", utc_midnight(2017, 6, 1)),
        snapshot("jan_1", utc_midnight(2018, 1, 1)),
        snapshot("feb_1", utc_midnight(2018, 2, 1)),
        snapshot("mar_1", utc_midnight(2018, 3, 1)),
        snapshot("apr_1", utc_midnight(2018, 4, 1)),
        snapshot("may_1", utc_midnight(2018, 5, 1)),
        snapshot("jun_6", utc_midnight(2018, 6, 6)),
        snapshot("jun_7", utc_midnight(2018, 6, 7)),
        snapshot("jun_8", utc_midnight(2018, 6, 8)),
        snapshot("jun_9", utc_midnight(2018, 6, 9)),
        snapshot("jun_10", utc_midnight(2018, 6, 10)),
        snapshot("jun_11", utc_midnight(2018, 6, 11)),
        snapshot("jun_12", utc_midnight(2018, 6, 12)),
    ];
    let now = at(2018, 6, 12, 16, 0, 0);

    let expected = name_set(&[
        "last_year", "feb_1", "mar_1", "apr_1", "may_1", "jun_7", "jun_8", "jun_9", "jun_10",
        "jun_11", "jun_12",
    ]);

    let filtered = keep_generations(&snapshots, &test_generations(), now);
    assert_eq!(as_set(filtered), expected);
}

#[test]
fn generations_3() {
    let snapshots = vec![
        snapshot("two_years_ago", utc_midnight(2016, 6, 1)),
        snapshot("last_year", utc_midnight(2017, 6, 1)),
        snapshot("jan_1", utc_midnight(2018, 1, 1)),
        snapshot("feb_1", utc_midnight(2018, 2, 1)),
        snapshot("mar_1", utc_midnight(2018, 3, 1)),
        snapshot("apr_1", utc_midnight(2018, 4, 1)),
        snapshot("may_1", utc_midnight(2018, 5, 1)),
        snapshot("jun_20", utc_midnight(2018, 6, 20)),
        snapshot("jun_21", utc_midnight(2018, 6, 21)),
        snapshot("jun_22", utc_midnight(2018, 6, 22)),
        snapshot("jun_23", utc_midnight(2018, 6, 23)),
        snapshot("jun_24", utc_midnight(2018, 6, 24)),
        snapshot("jun_25", utc_midnight(2018, 6, 25)),
        snapshot("jun_26", utc_midnight(2018, 6, 26)),
    ];
    let now = at(2018, 6, 26, 16, 0, 0);

    let expected = name_set(&[
        "last_year", "mar_1", "apr_1", "may_1", "jun_20", "jun_21", "jun_22", "jun_23", "jun_24",
        "jun_25", "jun_26",
    ]);

    let filtered = keep_generations(&snapshots, &test_generations(), now);
    assert_eq!(as_set(filtered), expected);
}

#[test]
fn generations_after_long_break() {
    let snapshots = vec![
        snapshot("jan_1", utc_midnight(2018, 1, 1)),
        snapshot("feb_1", utc_midnight(2018, 2, 1)),
        snapshot("mar_1", utc_midnight(2018, 3, 1)),
    ];
    let now = at(2018, 12, 1, 12, 0, 0);
    let expected = name_set(&["jan_1", "mar_1"]);

    let filtered = keep_generations(&snapshots, &test_generations(), now);
    assert_eq!(as_set(filtered), expected);
}

#[test]
fn multi_tier_delete_names() {
    let snapshots = june_catalog_1();
    let now = at(2018, 6, 6, 16, 0, 0);
    let deleted = select_snapshots_to_delete(&test_generations(), now, &snapshots);
    assert_eq!(deleted, vec!["two_years_ago", "jan_1", "feb_27", "feb_28"]);
}

#[test]
fn keep_and_delete_partition_the_names() {
    let snapshots = june_catalog_1();
    let now = at(2018, 6, 6, 16, 0, 0);
    let keep = as_set(keep_generations(&snapshots, &test_generations(), now));
    let delete = as_set(select_snapshots_to_delete(&test_generations(), now, &snapshots));
    let all: HashSet<String> = snapshots.iter().map(|s| s.name.clone()).collect();
    assert!(keep.is_disjoint(&delete));
    assert_eq!(keep.union(&delete).cloned().collect::<HashSet<_>>(), all);
}

#[test]
fn deletion_is_repeatable() {
    let snapshots = june_catalog_1();
    let now = at(2018, 6, 6, 16, 0, 0);
    let first = select_snapshots_to_delete(&test_generations(), now, &snapshots);
    let second = select_snapshots_to_delete(&test_generations(), now, &snapshots);
    assert_eq!(first, second);
}

#[test]
fn newest_is_kept_without_any_tier() {
    let snapshots = vec![
        snapshot("a", 10),
        snapshot("b", 30),
        snapshot("c", 20),
    ];
    assert_eq!(keep_generations(&snapshots, &vec![], 100), vec!["b"]);
    assert_eq!(select_snapshots_to_delete(&vec![], 100, &snapshots), vec!["a", "c"]);
}

#[test]
fn newest_tie_goes_to_last_listed() {
    let snapshots = vec![snapshot("first", 30), snapshot("second", 30), snapshot("old", 10)];
    assert_eq!(keep_generations(&snapshots, &vec![], 100), vec!["second"]);
}

#[test]
fn single_snapshot_is_always_kept() {
    let snapshots = vec![snapshot("only", utc_midnight(2018, 1, 1))];
    let now = utc_midnight(2030, 1, 1);
    assert_eq!(keep_generations(&snapshots, &test_generations(), now), vec!["only"]);
    assert!(select_snapshots_to_delete(&test_generations(), now, &snapshots).is_empty());
}

#[test]
fn empty_catalog_deletes_nothing() {
    let snapshots: Vec<Snapshot> = vec![];
    assert!(select_snapshots_to_delete(&test_generations(), 1_000_000, &snapshots).is_empty());
}

#[test]
fn zero_count_tier_changes_nothing() {
    let snapshots = june_catalog_1();
    let now = at(2018, 6, 6, 16, 0, 0);
    let mut gens = test_generations();
    let before = select_snapshots_to_delete(&gens, now, &snapshots);
    gens.push(Generation { interval: 3600, count: 0 });
    assert_eq!(select_snapshots_to_delete(&gens, now, &snapshots), before);
}

#[test]
fn repeated_names_are_listed_once() {
    let snapshots = vec![snapshot("x", 10), snapshot("x", 20), snapshot("y", 5), snapshot("y", 6)];
    assert_eq!(keep_generations(&snapshots, &vec![], 100), vec!["x"]);
    assert_eq!(select_snapshots_to_delete(&vec![], 100, &snapshots), vec!["y"]);
}
