use std::collections::HashMap;

use turbo_gc_hmr::gc_roots::{gc_roots_refresh_and_age_out, roots_map_keys, ResidentTask, TtlCounter};

fn live() -> ResidentTask {
    ResidentTask { is_root: true, is_deleted: false }
}

fn resident_not_root() -> ResidentTask {
    ResidentTask { is_root: false, is_deleted: false }
}

fn deleted() -> ResidentTask {
    ResidentTask { is_root: true, is_deleted: true }
}

fn sorted(mut ids: Vec<u32>) -> Vec<u32> {
    ids.sort();
    ids
}

#[test]
fn live_root_is_promoted_to_most_recent() {
    let mut roots = HashMap::from([(1, TtlCounter::FirstStale(10)), (2, TtlCounter::MostRecent)]);
    let resident = HashMap::from([(1, live()), (2, live())]);
    let aged = gc_roots_refresh_and_age_out(&mut roots, &resident, 1_000, true, 0);
    assert!(aged.is_empty());
    assert_eq!(roots, HashMap::from([(1, TtlCounter::MostRecent), (2, TtlCounter::MostRecent)]));
}

#[test]
fn deleted_task_keeps_its_entry_on_the_not_live_path() {
    let mut roots = HashMap::from([(7, TtlCounter::FirstStale(1)), (8, TtlCounter::MostRecent)]);
    let resident = HashMap::from([(7, deleted()), (8, deleted())]);
    let aged = gc_roots_refresh_and_age_out(&mut roots, &resident, 1_000, true, 0);
    assert_eq!(aged, vec![7]);
    assert_eq!(roots, HashMap::from([(7, TtlCounter::FirstStale(1)), (8, TtlCounter::FirstStale(1_000))]));
}

#[test]
fn first_pass_demotes_and_later_passes_do_not() {
    let resident: HashMap<u32, ResidentTask> = HashMap::from([(3, resident_not_root())]);
    let mut first = HashMap::from([(3, TtlCounter::MostRecent), (4, TtlCounter::MostRecent)]);
    let aged = gc_roots_refresh_and_age_out(&mut first, &resident, 500, true, 0);
    assert!(aged.is_empty());
    assert_eq!(first, HashMap::from([(3, TtlCounter::FirstStale(500)), (4, TtlCounter::FirstStale(500))]));

    let mut later = HashMap::from([(3, TtlCounter::MostRecent), (4, TtlCounter::MostRecent)]);
    let aged = gc_roots_refresh_and_age_out(&mut later, &resident, 500, false, 0);
    assert!(aged.is_empty());
    assert_eq!(later, HashMap::from([(3, TtlCounter::MostRecent), (4, TtlCounter::MostRecent)]));
}

#[test]
fn stale_root_ages_out_only_past_the_ttl() {
    let resident: HashMap<u32, ResidentTask> = HashMap::new();
    let mut roots = HashMap::from([
        (1, TtlCounter::FirstStale(100)),
        (2, TtlCounter::FirstStale(150)),
        (3, TtlCounter::FirstStale(151)),
    ]);
    let aged = gc_roots_refresh_and_age_out(&mut roots, &resident, 200, false, 49);
    // 200 - 100 = 100 > 49 and 200 - 150 = 50 > 49, but 200 - 151 = 49 is not.
    assert_eq!(sorted(aged), vec![1, 2]);
    // Aged-out entries stay: only a collect removes them.
    assert_eq!(roots.len(), 3);
    assert_eq!(roots[&1], TtlCounter::FirstStale(100));
}

#[test]
fn clock_skew_never_ages_a_root_out() {
    let resident: HashMap<u32, ResidentTask> = HashMap::new();
    let mut roots = HashMap::from([(9, TtlCounter::FirstStale(5_000))]);
    let aged = gc_roots_refresh_and_age_out(&mut roots, &resident, 1_000, true, 0);
    assert!(aged.is_empty());
    assert_eq!(roots[&9], TtlCounter::FirstStale(5_000));
}

#[test]
fn abandoned_root_ages_out_on_the_second_pass_with_zero_ttl() {
    // Session 2, first pass: the abandoned root 2 only starts its clock; root 1 is live.
    let mut roots = HashMap::from([(1, TtlCounter::MostRecent), (2, TtlCounter::MostRecent)]);
    let resident = HashMap::from([(1, live())]);
    let aged = gc_roots_refresh_and_age_out(&mut roots, &resident, 1_000, true, 0);
    assert!(aged.is_empty());
    assert_eq!(roots[&2], TtlCounter::FirstStale(1_000));
    // A later pass, with the TTL at 0, hands it to collection.
    let aged = gc_roots_refresh_and_age_out(&mut roots, &resident, 1_001, false, 0);
    assert_eq!(aged, vec![2]);
    assert_eq!(roots[&1], TtlCounter::MostRecent);
}

#[test]
fn steady_state_map_is_unchanged() {
    let mut roots = HashMap::from([(1, TtlCounter::MostRecent), (2, TtlCounter::MostRecent)]);
    let before = roots.clone();
    let resident = HashMap::from([(1, live()), (2, live())]);
    let aged = gc_roots_refresh_and_age_out(&mut roots, &resident, 77, true, 0);
    assert!(aged.is_empty());
    assert_eq!(roots, before);
}

#[test]
fn resident_non_root_is_not_live() {
    let mut roots = HashMap::from([(5, TtlCounter::FirstStale(0))]);
    let resident = HashMap::from([(5, resident_not_root())]);
    let aged = gc_roots_refresh_and_age_out(&mut roots, &resident, 10, false, 5);
    assert_eq!(aged, vec![5]);
}

#[test]
fn keys_are_listed_once() {
    let roots = HashMap::from([(1, TtlCounter::MostRecent), (2, TtlCounter::FirstStale(3))]);
    assert_eq!(sorted(roots_map_keys(&roots)), vec![1, 2]);
}

#[test]
fn second_pass_in_a_session_changes_nothing_more() {
    let resident = HashMap::from([(1, live()), (2, resident_not_root()), (3, deleted())]);
    let mut roots = HashMap::from([
        (1, TtlCounter::FirstStale(4)),
        (2, TtlCounter::MostRecent),
        (3, TtlCounter::MostRecent),
        (4, TtlCounter::FirstStale(9)),
    ]);
    gc_roots_refresh_and_age_out(&mut roots, &resident, 100, true, 1_000);
    let after_first = roots.clone();
    assert_eq!(
        after_first,
        HashMap::from([
            (1, TtlCounter::MostRecent),
            (2, TtlCounter::FirstStale(100)),
            (3, TtlCounter::FirstStale(100)),
            (4, TtlCounter::FirstStale(9)),
        ])
    );
    gc_roots_refresh_and_age_out(&mut roots, &resident, 200, false, 1_000);
    assert_eq!(roots, after_first);
}
