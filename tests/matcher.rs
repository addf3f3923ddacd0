use chrono::{TimeZone, Utc};
use tarsnap_lifespan::{filter_by_generation, select_indices, Generation, Snapshot};

fn at(year: i32, month: u32, day: u32, hour: u32, min: u32, sec: u32) -> i64 {
    Utc.with_ymd_and_hms(year, month, day, hour, min, sec).unwrap().timestamp()
}

fn utc_midnight(year: i32, month: u32, day: u32) -> i64 {
    at(year, month, day, 0, 0, 0)
}

fn hour_generation(n: usize) -> Generation {
    Generation { interval: 3600, count: n }
}

fn day_generation(n: usize) -> Generation {
    Generation { interval: 24 * 3600, count: n }
}

fn month_generation(n: usize) -> Generation {
    Generation { interval: 30 * 24 * 3600, count: n }
}

fn snap(ts: i64) -> Snapshot {
    Snapshot { name: String::new(), ts }
}

fn stamps(v: &[&Snapshot]) -> Vec<i64> {
    v.iter().map(|s| s.ts).collect()
}

#[test]
fn filter_empty() {
    let snapshots: Vec<Snapshot> = vec![];
    let now = at(2018, 7, 14, 14, 0, 0);
    let filtered = filter_by_generation(&snapshots, &day_generation(6), now);

    assert!(filtered.is_empty());
}

#[test]
fn filter_one() {
    let snapshots = vec![snap(utc_midnight(2018, 7, 10))];
    let now = at(2018, 7, 14, 14, 0, 0);
    let filtered = filter_by_generation(&snapshots, &day_generation(6), now);

    assert_eq!(filtered, snapshots.iter().collect::<Vec<_>>());
}

#[test]
fn filter_even_intervals() {
    let snapshots = vec![
        snap(at(2018, 7, 13, 0, 0, 0)),
        snap(at(2018, 7, 13, 12, 0, 0)),
        snap(at(2018, 7, 14, 0, 0, 0)),
        snap(at(2018, 7, 14, 12, 0, 0)),
        snap(at(2018, 7, 15, 0, 0, 0)),
        snap(at(2018, 7, 15, 12, 0, 0)),
        snap(at(2018, 7, 16, 0, 0, 0)),
        snap(at(2018, 7, 16, 12, 0, 0)),
        snap(at(2018, 7, 17, 0, 0, 0)),
        snap(at(2018, 7, 17, 12, 0, 0)),
    ];
    let now = at(2018, 7, 17, 14, 0, 0);
    let expected = vec![
        at(2018, 7, 14, 12, 0, 0),
        at(2018, 7, 15, 12, 0, 0),
        at(2018, 7, 16, 12, 0, 0),
    ];

    let filtered = filter_by_generation(&snapshots, &day_generation(3), now);
    assert_eq!(stamps(&filtered), expected);
}

#[test]
fn filter_uneven_intervals() {
    let snapshots = vec![
        snap(utc_midnight(2018, 1, 1)),
        snap(utc_midnight(2018, 3, 1)),
        snap(utc_midnight(2018, 3, 18)),
        snap(utc_midnight(2018, 3, 27)),
        snap(utc_midnight(2018, 4, 1)),
    ];
    let now = utc_midnight(2018, 4, 5);
    let expected = vec![utc_midnight(2018, 1, 1), utc_midnight(2018, 3, 1)];

    let filtered = filter_by_generation(&snapshots, &month_generation(4), now);
    assert_eq!(stamps(&filtered), expected);
}

#[test]
fn filter_hourly_intervals() {
    let snapshots = vec![
        snap(at(2018, 1, 1, 0, 0, 0)),
        snap(at(2018, 1, 1, 2, 0, 0)),
        snap(at(2018, 4, 1, 13, 0, 0)),
        snap(at(2018, 4, 2, 0, 0, 0)),
        snap(at(2018, 4, 2, 0, 25, 0)),
        snap(at(2018, 4, 2, 1, 10, 0)),
        snap(at(2018, 4, 2, 2, 30, 0)),
        snap(at(2018, 4, 2, 2, 40, 0)),
        snap(at(2018, 4, 2, 3, 0, 0)),
        snap(at(2018, 4, 2, 3, 15, 0)),
        snap(at(2018, 4, 2, 3, 20, 0)),
        snap(at(2018, 4, 2, 6, 15, 0)),
    ];
    let now = at(2018, 4, 2, 10, 30, 0);
    let expected = vec![
        at(2018, 4, 1, 13, 0, 0),
        at(2018, 4, 2, 0, 0, 0),
        at(2018, 4, 2, 0, 25, 0),
        at(2018, 4, 2, 1, 10, 0),
        at(2018, 4, 2, 2, 30, 0),
        at(2018, 4, 2, 3, 20, 0),
        at(2018, 4, 2, 6, 15, 0),
    ];

    let filtered = filter_by_generation(&snapshots, &hour_generation(24), now);
    assert_eq!(stamps(&filtered), expected);
}

#[test]
fn generation_large_count() {
    let snapshots = vec![
        snap(utc_midnight(2018, 1, 1)),
        snap(utc_midnight(2018, 3, 1)),
        snap(utc_midnight(2018, 4, 1)),
    ];
    let generation = Generation { interval: 30 * 24 * 3600, count: 99 };
    let now = utc_midnight(2018, 4, 5);
    let expected = vec![utc_midnight(2018, 1, 1), utc_midnight(2018, 3, 1)];

    let filtered = filter_by_generation(&snapshots, &generation, now);
    assert_eq!(stamps(&filtered), expected);
}

#[test]
fn generation_uneven() {
    let snapshots = vec![
        snap(utc_midnight(2017, 10, 1)),
        snap(utc_midnight(2018, 1, 1)),
        snap(utc_midnight(2018, 3, 1)),
        snap(utc_midnight(2018, 3, 18)),
        snap(utc_midnight(2018, 3, 27)),
        snap(utc_midnight(2018, 4, 1)),
    ];
    let generation = Generation { interval: 30 * 24 * 3600, count: 3 };
    let now = utc_midnight(2018, 4, 5);
    let expected = vec![utc_midnight(2018, 1, 1), utc_midnight(2018, 3, 1)];

    let filtered = filter_by_generation(&snapshots, &generation, now);
    assert_eq!(stamps(&filtered), expected);
}

#[test]
fn zero_count_generation() {
    let snapshots = vec![
        snap(utc_midnight(2018, 3, 1)),
        snap(utc_midnight(2018, 4, 1)),
        snap(utc_midnight(2018, 5, 1)),
        snap(utc_midnight(2018, 6, 1)),
    ];
    let generation = Generation { interval: 30 * 24 * 3600, count: 0 };
    let now = at(2018, 8, 1, 12, 0, 0);

    let filtered = filter_by_generation(&snapshots, &generation, now);
    assert!(filtered.is_empty());
}

#[test]
fn nearest_tie_goes_to_first_listed() {
    let ts = vec![0i64, 200];
    let generation = Generation { interval: 100, count: 1 };
    assert_eq!(select_indices(&ts, &generation, 200), vec![0]);
    let ts = vec![200i64, 0];
    assert_eq!(select_indices(&ts, &generation, 200), vec![0]);
}

#[test]
fn selection_is_sorted_by_time_then_position() {
    // unsorted catalog; equal timestamps keep catalog order
    let ts = vec![300i64, 100, 200, 100];
    let generation = Generation { interval: 100, count: 3 };
    // targets 300, 200, 100 pick positions 0, 2, 1
    assert_eq!(select_indices(&ts, &generation, 400), vec![1, 2, 0]);
}

#[test]
fn far_targets_collapse_onto_oldest() {
    let ts = vec![1_000i64, 5_000, 9_000];
    let generation = Generation { interval: 1_000, count: 1_000_000 };
    assert_eq!(select_indices(&ts, &generation, 10_000), vec![0, 1, 2]);
}

#[test]
fn extreme_values_do_not_overflow() {
    let ts = vec![i64::MIN, 0, i64::MAX];
    let generation = Generation { interval: i64::MAX, count: usize::MAX };
    assert_eq!(select_indices(&ts, &generation, i64::MAX), vec![0, 1]);
}
