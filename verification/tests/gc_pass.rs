use std::collections::HashMap;

use turbo_gc_hmr::gc_pass::{
    gc_aged_out_seeds, gc_cascade, gc_collect_finish, gc_collect_step, gc_pin, gc_roots_entries,
    gc_roots_equal, gc_roots_from_persisted, gc_seed_jobs, gc_unpin, CollectStep, GcJob, GcStats,
};
use turbo_gc_hmr::gc_roots::{gc_roots_refresh_and_age_out, TtlCounter};

fn stats(gc_roots: usize, collected: usize, edges_deleted: usize, aged_out_roots: usize) -> GcStats {
    GcStats { gc_roots, collected, edges_deleted, aged_out_roots }
}

fn fields(s: GcStats) -> (usize, usize, usize, usize) {
    (s.gc_roots, s.collected, s.edges_deleted, s.aged_out_roots)
}

#[test]
fn merge_adds_accumulated_counters_and_keeps_assigned_ones() {
    let merged = stats(1, 2, 3, 4).merge(stats(10, 20, 30, 40));
    assert_eq!(fields(merged), (1, 22, 33, 4));
}

#[test]
fn merge_is_associative() {
    let (a, b, c) = (stats(1, 2, 3, 0), stats(4, 5, 6, 0), stats(7, 8, 9, 0));
    assert_eq!(fields(a.merge(b).merge(c)), fields(a.merge(b.merge(c))));
    let (a, b) = (stats(0, 2, 3, 0), stats(0, 5, 6, 0));
    assert_eq!(fields(a.merge(b)), fields(b.merge(a)));
}

#[test]
fn merge_is_not_commutative_in_assigned_counters() {
    let (a, b) = (stats(0, 0, 0, 1), stats(0, 0, 0, 0));
    assert_ne!(fields(a.merge(b)), fields(b.merge(a)));
    let (a, b) = (stats(1, 0, 0, 0), stats(0, 0, 0, 0));
    assert_ne!(fields(a.merge(b)), fields(b.merge(a)));
}

#[test]
fn default_stats_are_zero_and_merge_as_identity() {
    let zero = GcStats::default();
    assert_eq!(fields(zero), (0, 0, 0, 0));
    assert_eq!(fields(stats(3, 4, 5, 6).merge(zero)), (3, 4, 5, 6));
}

#[test]
fn record_collected_counts_task_and_edges() {
    let mut s = GcStats::default();
    s.record_collected(4);
    s.record_collected(0);
    assert_eq!(fields(s), (0, 2, 4, 0));
}

#[test]
fn seed_jobs_scan_every_shard_then_collect_seeds() {
    let jobs = gc_seed_jobs(3, &vec![40, 41]);
    assert_eq!(
        jobs,
        vec![
            GcJob::ScanShard(0),
            GcJob::ScanShard(1),
            GcJob::ScanShard(2),
            GcJob::Collect(40),
            GcJob::Collect(41)
        ]
    );
    assert!(gc_seed_jobs(0, &vec![]).is_empty());
}

#[test]
fn aged_out_seeds_keep_collectible_ones_once() {
    let mut seeds = gc_aged_out_seeds(&vec![(1, true), (2, false), (1, true), (3, true)]);
    seeds.sort();
    assert_eq!(seeds, vec![1, 3]);
}

#[test]
fn collect_step_revalidates_under_the_guard() {
    assert_eq!(gc_collect_step(false, true), CollectStep::Skip);
    assert_eq!(gc_collect_step(false, false), CollectStep::Skip);
    assert_eq!(gc_collect_step(true, true), CollectStep::DeleteUnpersisted);
    assert_eq!(gc_collect_step(true, false), CollectStep::DeleteAndTombstone);
}

#[test]
fn cascade_spawns_collectible_and_records_anchored_children() {
    let cascade = gc_cascade(&vec![(1, true), (2, false), (3, true)], &vec![(4, false), (5, true)]);
    assert_eq!(cascade.spawn, vec![GcJob::Collect(1), GcJob::Collect(3), GcJob::Collect(5)]);
    assert_eq!(cascade.discovered_roots, vec![2]);
}

#[test]
fn persisted_roots_are_read_with_the_last_entry_winning() {
    let loaded: Result<Vec<(u32, TtlCounter)>, String> = Ok(vec![
        (1, TtlCounter::FirstStale(3)),
        (2, TtlCounter::MostRecent),
        (1, TtlCounter::MostRecent),
    ]);
    let roots = gc_roots_from_persisted(loaded);
    assert_eq!(roots, HashMap::from([(1, TtlCounter::MostRecent), (2, TtlCounter::MostRecent)]));
}

#[test]
fn unreadable_roots_start_empty() {
    let loaded: Result<Vec<(u32, TtlCounter)>, String> = Err("corrupt".to_string());
    assert!(gc_roots_from_persisted(loaded).is_empty());
}

#[test]
fn entries_list_every_root_once() {
    let roots = HashMap::from([(1, TtlCounter::MostRecent), (2, TtlCounter::FirstStale(9))]);
    let mut entries = gc_roots_entries(&roots);
    entries.sort_by_key(|e| e.0);
    assert_eq!(entries, vec![(1, TtlCounter::MostRecent), (2, TtlCounter::FirstStale(9))]);
}

#[test]
fn roots_equality_compares_entries() {
    let a = HashMap::from([(1, TtlCounter::MostRecent), (2, TtlCounter::FirstStale(9))]);
    let b = HashMap::from([(2, TtlCounter::FirstStale(9)), (1, TtlCounter::MostRecent)]);
    let c = HashMap::from([(1, TtlCounter::MostRecent), (2, TtlCounter::FirstStale(8))]);
    let d = HashMap::from([(1, TtlCounter::MostRecent)]);
    assert!(gc_roots_equal(&a, &b));
    assert!(!gc_roots_equal(&a, &c));
    assert!(!gc_roots_equal(&a, &d));
    assert!(!gc_roots_equal(&d, &a));
}

#[test]
fn finish_folds_in_observed_roots_and_drops_collected_ones() {
    let roots = HashMap::from([(1, TtlCounter::FirstStale(5)), (2, TtlCounter::FirstStale(6))]);
    let before = roots.clone();
    let outcome = gc_collect_finish(
        roots,
        &before,
        &vec![3],
        &vec![4, 2],
        &vec![1, 3],
        stats(0, 2, 7, 0),
        1,
    );
    assert_eq!(fields(outcome.stats), (2, 2, 7, 1));
    let mut entries = outcome.roots_to_persist.expect("the map changed");
    entries.sort_by_key(|e| e.0);
    assert_eq!(entries, vec![(2, TtlCounter::MostRecent), (4, TtlCounter::MostRecent)]);
}

#[test]
fn finish_skips_the_write_when_nothing_changed() {
    let roots = HashMap::from([(1, TtlCounter::MostRecent)]);
    let before = roots.clone();
    let outcome = gc_collect_finish(roots, &before, &vec![1], &vec![], &vec![], GcStats::default(), 0);
    assert!(outcome.roots_to_persist.is_none());
    assert_eq!(outcome.stats.gc_roots, 1);
}

#[test]
fn pin_and_unpin_adjust_the_count_unless_stopping() {
    assert_eq!(gc_pin(false, true), Some(1));
    assert_eq!(gc_unpin(false, true), Some(-1));
    assert_eq!(gc_pin(true, true), None);
    assert_eq!(gc_unpin(true, true), None);
    assert_eq!(gc_pin(false, false), None);
    assert_eq!(gc_unpin(false, false), None);
}

#[test]
fn aged_out_root_that_was_not_collected_keeps_its_entry() {
    let mut roots = HashMap::from([(1, TtlCounter::FirstStale(0)), (2, TtlCounter::FirstStale(0))]);
    let before = roots.clone();
    let aged = gc_roots_refresh_and_age_out(&mut roots, &HashMap::new(), 10, false, 0);
    assert_eq!(aged.len(), 2);
    // Only root 1 re-validated as collectible and was collected.
    let seeds = gc_aged_out_seeds(&vec![(1, true), (2, false)]);
    let outcome = gc_collect_finish(roots, &before, &vec![], &vec![], &vec![1], GcStats::default(), seeds.len());
    assert_eq!(outcome.stats.aged_out_roots, 1);
    assert_eq!(outcome.roots_to_persist, Some(vec![(2, TtlCounter::FirstStale(0))]));
}
