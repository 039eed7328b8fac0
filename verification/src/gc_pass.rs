//! The decisions of one garbage-collection pass: its statistics, the jobs it runs, what a collect
//! job does with what it finds, and how the roots map is reconciled and persisted at the end.
//!
//! The pass itself (the job pool, the task storage, the persistence commit) is driven from outside;
//! every decision it takes along the way is one of the functions here.
use crate::gc_roots::{aged_out_roots, refreshed_roots, roots_map_keys, ResidentTask, TtlCounter};
use std::collections::{HashMap, HashSet};
use vstd::prelude::*;

verus! {

broadcast use vstd::std_specs::hash::group_hash_axioms;

/// Observability counters for one GC pass.
#[derive(Clone, Copy, Debug)]
pub struct GcStats {
    /// Size of the reconciled GC roots map at the end of the pass.
    pub gc_roots: usize,
    /// Tasks collected (marked soft-deleted).
    pub collected: usize,
    /// Edges torn down across all collected tasks.
    pub edges_deleted: usize,
    /// Cross-session roots that aged out past the TTL and seeded collection this pass.
    pub aged_out_roots: usize,
}

impl Default for GcStats {
    fn default() -> (stats: Self)
        ensures
            stats == (GcStats { gc_roots: 0, collected: 0, edges_deleted: 0, aged_out_roots: 0 }),
    {
        GcStats { gc_roots: 0, collected: 0, edges_deleted: 0, aged_out_roots: 0 }
    }
}

/// Whether two sets of counters can be merged without overflow.
pub open spec fn mergeable(a: GcStats, b: GcStats) -> bool {
    &&& a.collected + b.collected <= usize::MAX
    &&& a.edges_deleted + b.edges_deleted <= usize::MAX
}

/// The merge of two drainers' counts: the accumulated counters (`collected`, `edges_deleted`) add
/// up; `gc_roots` and `aged_out_roots` are assigned once after the pool drains, so the merge
/// leaves them as the first one has them.
pub open spec fn merged_stats(a: GcStats, b: GcStats) -> GcStats {
    GcStats {
        gc_roots: a.gc_roots,
        collected: (a.collected + b.collected) as usize,
        edges_deleted: (a.edges_deleted + b.edges_deleted) as usize,
        aged_out_roots: a.aged_out_roots,
    }
}

impl GcStats {
    /// Combines two drainers' counts.
    pub fn merge(self, other: Self) -> (merged: Self)
        requires
            mergeable(self, other),
        ensures
            merged == merged_stats(self, other),
    {
        let mut merged = self;
        merged.collected = merged.collected + other.collected;
        merged.edges_deleted = merged.edges_deleted + other.edges_deleted;
        merged
    }

    /// Counts one collected task whose teardown removed `edges` edges.
    pub fn record_collected(&mut self, edges: usize)
        requires
            old(self).collected < usize::MAX,
            old(self).edges_deleted + edges <= usize::MAX,
        ensures
            final(self).collected == old(self).collected + 1,
            final(self).edges_deleted == old(self).edges_deleted + edges,
            final(self).gc_roots == old(self).gc_roots,
            final(self).aged_out_roots == old(self).aged_out_roots,
    {
        self.collected = self.collected + 1;
        self.edges_deleted = self.edges_deleted + edges;
    }
}

/// Merging counters is associative.
pub proof fn law_merge_associative(a: GcStats, b: GcStats, c: GcStats)
    requires
        mergeable(a, b),
        mergeable(b, c),
        mergeable(merged_stats(a, b), c),
    ensures
        mergeable(a, merged_stats(b, c)),
        merged_stats(merged_stats(a, b), c) == merged_stats(a, merged_stats(b, c)),
{
}

/// Merging counters is commutative on drainers that agree on `gc_roots` and `aged_out_roots`, the
/// counters that are assigned rather than accumulated.
pub proof fn law_merge_commutative(a: GcStats, b: GcStats)
    requires
        mergeable(a, b),
        a.gc_roots == b.gc_roots,
        a.aged_out_roots == b.aged_out_roots,
    ensures
        mergeable(b, a),
        merged_stats(a, b) == merged_stats(b, a),
{
}

/// Merging with fresh (all-zero) counters changes nothing.
pub proof fn law_merge_identity(a: GcStats)
    ensures
        mergeable(a, GcStats { gc_roots: 0, collected: 0, edges_deleted: 0, aged_out_roots: 0 }),
        merged_stats(
            a,
            GcStats { gc_roots: 0, collected: 0, edges_deleted: 0, aged_out_roots: 0 },
        ) == a,
{
}

/// One unit of GC work.
#[derive(Clone, Copy, PartialEq, Eq, Debug, Structural)]
pub enum GcJob {
    /// Scan one shard of the resident map and enqueue its candidates as `Collect`.
    ScanShard(usize),
    /// Tear down a single task.
    Collect(u32),
}

/// The jobs a pass is seeded with: one scan per shard, in shard order, then one collect per
/// aged-out seed, in the order given.
pub fn gc_seed_jobs(shard_count: usize, aged_out_seeds: &Vec<u32>) -> (jobs: Vec<GcJob>)
    requires
        shard_count + aged_out_seeds@.len() <= usize::MAX,
    ensures
        jobs@.len() == shard_count + aged_out_seeds@.len(),
        forall|i: int| 0 <= i < shard_count ==> #[trigger] jobs@[i] == GcJob::ScanShard(i as usize),
        forall|j: int|
            0 <= j < aged_out_seeds@.len() ==> #[trigger] jobs@[shard_count + j] == GcJob::Collect(
                aged_out_seeds@[j],
            ),
{
    let mut jobs: Vec<GcJob> = Vec::new();
    let mut i: usize = 0;
    while i < shard_count
        invariant
            0 <= i <= shard_count,
            jobs@.len() == i,
            forall|k: int| 0 <= k < i ==> #[trigger] jobs@[k] == GcJob::ScanShard(k as usize),
        decreases shard_count - i,
    {
        jobs.push(GcJob::ScanShard(i));
        i = i + 1;
    }
    let mut j: usize = 0;
    while j < aged_out_seeds.len()
        invariant
            0 <= j <= aged_out_seeds@.len(),
            shard_count + aged_out_seeds@.len() <= usize::MAX,
            jobs@.len() == shard_count + j,
            forall|k: int| 0 <= k < shard_count ==> #[trigger] jobs@[k] == GcJob::ScanShard(k as usize),
            forall|k: int|
                0 <= k < j ==> #[trigger] jobs@[shard_count + k] == GcJob::Collect(
                    aged_out_seeds@[k],
                ),
        decreases aged_out_seeds@.len() - j,
    {
        jobs.push(GcJob::Collect(aged_out_seeds[j]));
        j = j + 1;
    }
    jobs
}

/// The aged-out roots that re-validated as collectible, each once. `revalidated` pairs each
/// aged-out root with whether it is collectible now.
pub fn gc_aged_out_seeds(revalidated: &Vec<(u32, bool)>) -> (seeds: Vec<u32>)
    ensures
        seeds@.no_duplicates(),
        seeds@.to_set() == Set::new(
            |id: u32| exists|i: int| 0 <= i < revalidated@.len() && revalidated@[i] == (id, true),
        ),
{
    let mut seen: HashSet<u32> = HashSet::new();
    let mut seeds: Vec<u32> = Vec::new();
    let mut i: usize = 0;
    while i < revalidated.len()
        invariant
            0 <= i <= revalidated@.len(),
            seeds@.no_duplicates(),
            seen@ == seeds@.to_set(),
            seeds@.to_set() == Set::new(
                |id: u32| exists|k: int| 0 <= k < i && revalidated@[k] == (id, true),
            ),
        decreases revalidated@.len() - i,
    {
        let (id, collectible) = revalidated[i];
        let ghost before = seeds@;
        if collectible && !seen.contains(&id) {
            seen.insert(id);
            seeds.push(id);
            proof {
                before.lemma_push_to_set_commute(id);
                assert(!before.contains(id)) by {
                    if before.contains(id) {
                        assert(before.to_set().contains(id));
                    }
                }
            }
        }
        assert(seeds@.to_set() =~= Set::new(
            |x: u32| exists|k: int| 0 <= k < i + 1 && revalidated@[k] == (x, true),
        )) by {
            assert forall|x: u32|
                (exists|k: int| 0 <= k < i + 1 && revalidated@[k] == (x, true)) implies seeds@.to_set().contains(x) by {
                let k = choose|k: int| 0 <= k < i + 1 && revalidated@[k] == (x, true);
                if k < i {
                    assert(before.to_set().contains(x));
                }
            }
            assert forall|x: u32| seeds@.to_set().contains(x) implies (exists|k: int|
                0 <= k < i + 1 && revalidated@[k] == (x, true)) by {
                if before.to_set().contains(x) {
                    let k = choose|k: int| 0 <= k < i && revalidated@[k] == (x, true);
                    assert(0 <= k < i + 1);
                } else {
                    assert(revalidated@[i as int] == (x, true));
                }
            }
        }
        i = i + 1;
    }
    seeds
}

/// What a collect job does with its task once it holds the task's guard.
#[derive(Clone, Copy, PartialEq, Eq, Debug, Structural)]
pub enum CollectStep {
    /// The task is no longer collectible (a sibling job collected it, or it regained an anchor).
    Skip,
    /// Mark it deleted; it was never persisted, so drop it from the next snapshot altogether.
    DeleteUnpersisted,
    /// Mark it deleted and track a modification so the next snapshot tombstones its on-disk copy.
    DeleteAndTombstone,
}

/// The step a collect job takes, re-validated under the task's guard.
pub fn gc_collect_step(still_collectible: bool, new_task: bool) -> (step: CollectStep)
    ensures
        step == (if !still_collectible {
            CollectStep::Skip
        } else if new_task {
            CollectStep::DeleteUnpersisted
        } else {
            CollectStep::DeleteAndTombstone
        }),
{
    if !still_collectible {
        CollectStep::Skip
    } else if new_task {
        CollectStep::DeleteUnpersisted
    } else {
        CollectStep::DeleteAndTombstone
    }
}

/// The ids of the pairs whose flag is `flag`, in order.
pub open spec fn ids_flagged(pairs: Seq<(u32, bool)>, flag: bool) -> Seq<u32>
    decreases pairs.len(),
{
    if pairs.len() == 0 {
        Seq::empty()
    } else {
        let rest = ids_flagged(pairs.drop_last(), flag);
        if pairs.last().1 == flag {
            rest.push(pairs.last().0)
        } else {
            rest
        }
    }
}

/// The follow-up work of one collect job's edge cleanup.
pub struct Cascade {
    /// Tasks to collect next, as `Collect` jobs.
    pub spawn: Vec<GcJob>,
    /// Children that lost their last persistent parent but are not collectible: new roots.
    pub discovered_roots: Vec<u32>,
}

/// Splits the tasks an edge cleanup touched into follow-up collect jobs and newly discovered
/// roots. `parent_count_zeroed` pairs each child that lost its last persistent parent with
/// whether it is collectible; `edge_loss_candidates` does the same for tasks that lost their last
/// aggregation edge. A collectible zeroed child is spawned, a non-collectible one becomes a root;
/// a collectible edge-loss candidate is spawned after them, a non-collectible one is left alone.
pub fn gc_cascade(
    parent_count_zeroed: &Vec<(u32, bool)>,
    edge_loss_candidates: &Vec<(u32, bool)>,
) -> (cascade: Cascade)
    ensures
        cascade.spawn@ == (ids_flagged(parent_count_zeroed@, true) + ids_flagged(
            edge_loss_candidates@,
            true,
        )).map_values(|id: u32| GcJob::Collect(id)),
        cascade.discovered_roots@ == ids_flagged(parent_count_zeroed@, false),
{
    let mut spawned: Vec<u32> = Vec::new();
    let mut discovered: Vec<u32> = Vec::new();
    let mut i: usize = 0;
    while i < parent_count_zeroed.len()
        invariant
            0 <= i <= parent_count_zeroed@.len(),
            spawned@ == ids_flagged(parent_count_zeroed@.take(i as int), true),
            discovered@ == ids_flagged(parent_count_zeroed@.take(i as int), false),
        decreases parent_count_zeroed@.len() - i,
    {
        let (child, collectible) = parent_count_zeroed[i];
        assert(parent_count_zeroed@.take(i + 1).drop_last() =~= parent_count_zeroed@.take(i as int));
        if collectible {
            spawned.push(child);
        } else {
            discovered.push(child);
        }
        assert(spawned@ =~= ids_flagged(parent_count_zeroed@.take(i + 1), true));
        assert(discovered@ =~= ids_flagged(parent_count_zeroed@.take(i + 1), false));
        i = i + 1;
    }
    assert(parent_count_zeroed@.take(i as int) =~= parent_count_zeroed@);
    let ghost zeroed_spawn = spawned@;
    let mut j: usize = 0;
    while j < edge_loss_candidates.len()
        invariant
            0 <= j <= edge_loss_candidates@.len(),
            spawned@ == zeroed_spawn + ids_flagged(edge_loss_candidates@.take(j as int), true),
        decreases edge_loss_candidates@.len() - j,
    {
        let (candidate, collectible) = edge_loss_candidates[j];
        assert(edge_loss_candidates@.take(j + 1).drop_last() =~= edge_loss_candidates@.take(j as int));
        if collectible {
            spawned.push(candidate);
        }
        assert(spawned@ =~= zeroed_spawn + ids_flagged(edge_loss_candidates@.take(j + 1), true));
        j = j + 1;
    }
    assert(edge_loss_candidates@.take(j as int) =~= edge_loss_candidates@);
    let mut spawn: Vec<GcJob> = Vec::new();
    let mut k: usize = 0;
    while k < spawned.len()
        invariant
            0 <= k <= spawned@.len(),
            spawn@ == spawned@.take(k as int).map_values(|id: u32| GcJob::Collect(id)),
        decreases spawned@.len() - k,
    {
        spawn.push(GcJob::Collect(spawned[k]));
        assert(spawned@.take(k + 1) =~= spawned@.take(k as int).push(spawned@[k as int]));
        assert(spawn@ =~= spawned@.take(k + 1).map_values(|id: u32| GcJob::Collect(id)));
        k = k + 1;
    }
    assert(spawned@.take(k as int) =~= spawned@);
    Cascade { spawn, discovered_roots: discovered }
}

/// A cascade records every child that lost its last persistent parent exactly once: a
/// collectible one among the spawned jobs, any other one among the discovered roots.
pub proof fn law_cascade_partitions_children(pairs: Seq<(u32, bool)>, i: int)
    requires
        0 <= i < pairs.len(),
    ensures
        ids_flagged(pairs, pairs[i].1).contains(pairs[i].0),
        ids_flagged(pairs, true).len() + ids_flagged(pairs, false).len() == pairs.len(),
    decreases pairs.len(),
{
    let init = pairs.drop_last();
    if i < pairs.len() - 1 {
        law_cascade_partitions_children(init, i);
        assert(init[i] == pairs[i]);
        let flagged = ids_flagged(init, pairs[i].1);
        let j = choose|j: int| 0 <= j < flagged.len() && flagged[j] == pairs[i].0;
        assert(ids_flagged(pairs, pairs[i].1)[j] == pairs[i].0);
    } else {
        if init.len() > 0 {
            law_cascade_partitions_children(init, 0);
        }
        let last = ids_flagged(pairs, pairs[i].1);
        assert(last[last.len() - 1] == pairs[i].0);
    }
}

/// The roots map a sequence of persisted entries is read into: each entry in turn, so a later
/// entry for the same id wins.
pub open spec fn entries_to_map(entries: Seq<(u32, TtlCounter)>) -> Map<u32, TtlCounter>
    decreases entries.len(),
{
    if entries.len() == 0 {
        Map::empty()
    } else {
        entries_to_map(entries.drop_last()).insert(entries.last().0, entries.last().1)
    }
}

/// Reading persisted entries keeps every counter as it was persisted: exactly the ids of the
/// entries are roots, and each holds the counter of its last entry (its only one, where ids are
/// distinct).
pub proof fn law_loaded_roots_keep_their_counters(entries: Seq<(u32, TtlCounter)>)
    ensures
        forall|id: u32|
            #[trigger] entries_to_map(entries).contains_key(id) <==> exists|i: int|
                0 <= i < entries.len() && #[trigger] entries[i].0 == id,
        forall|i: int|
            0 <= i < entries.len() && (forall|j: int| i < j < entries.len() ==> #[trigger] entries[j].0 != entries[i].0)
                ==> #[trigger] entries_to_map(entries)[entries[i].0] == entries[i].1,
    decreases entries.len(),
{
    if entries.len() > 0 {
        let init = entries.drop_last();
        law_loaded_roots_keep_their_counters(init);
        let last = entries.last();
        assert forall|id: u32|
            #[trigger] entries_to_map(entries).contains_key(id) <==> exists|i: int|
                0 <= i < entries.len() && #[trigger] entries[i].0 == id by {
            if id == last.0 {
                assert(entries[entries.len() - 1].0 == id);
            } else {
                assert(entries_to_map(entries).contains_key(id) == entries_to_map(init).contains_key(id));
                if entries_to_map(init).contains_key(id) {
                    let i = choose|i: int| 0 <= i < init.len() && #[trigger] init[i].0 == id;
                    assert(entries[i] == init[i]);
                }
                if exists|i: int| 0 <= i < entries.len() && #[trigger] entries[i].0 == id {
                    let i = choose|i: int| 0 <= i < entries.len() && #[trigger] entries[i].0 == id;
                    assert(i < init.len());
                    assert(init[i] == entries[i]);
                    assert(entries_to_map(init).contains_key(init[i].0));
                }
            }
        }
        assert forall|i: int|
            0 <= i < entries.len() && (forall|j: int| i < j < entries.len() ==> #[trigger] entries[j].0 != entries[i].0)
                implies #[trigger] entries_to_map(entries)[entries[i].0] == entries[i].1 by {
            if i < entries.len() - 1 {
                assert(entries[entries.len() - 1].0 != entries[i].0);
                assert(init[i] == entries[i]);
                assert forall|j: int| i < j < init.len() implies #[trigger] init[j].0 != init[i].0 by {
                    assert(init[j] == entries[j]);
                    assert(entries[j].0 != entries[i].0);
                }
                assert(entries_to_map(init)[init[i].0] == init[i].1);
            }
        }
    }
}

/// The roots map a pass starts from: the persisted entries, or an empty map when they could not be
/// read (the scan then re-discovers the resident roots, and the changed map repairs the key).
pub fn gc_roots_from_persisted<E>(loaded: Result<Vec<(u32, TtlCounter)>, E>) -> (roots: HashMap<
    u32,
    TtlCounter,
>)
    ensures
        roots@ == (match loaded {
            Ok(entries) => entries_to_map(entries@),
            Err(_) => Map::empty(),
        }),
        match loaded {
            Ok(entries) => forall|i: int|
                0 <= i < entries@.len() && (forall|j: int|
                    i < j < entries@.len() ==> #[trigger] entries@[j].0 != entries@[i].0) ==> roots@.contains_key(
                    #[trigger] entries@[i].0,
                ) && roots@[entries@[i].0] == entries@[i].1,
            Err(_) => roots@.len() == 0,
        },
{
    proof {
        if loaded is Ok {
            law_loaded_roots_keep_their_counters(loaded->Ok_0@);
        }
    }
    let mut roots: HashMap<u32, TtlCounter> = HashMap::new();
    match loaded {
        Ok(entries) => {
            let mut i: usize = 0;
            while i < entries.len()
                invariant
                    0 <= i <= entries@.len(),
                    roots@ == entries_to_map(entries@.take(i as int)),
                decreases entries@.len() - i,
            {
                let (id, counter) = entries[i];
                roots.insert(id, counter);
                assert(entries@.take(i + 1).drop_last() =~= entries@.take(i as int));
                i = i + 1;
            }
            assert(entries@.take(i as int) =~= entries@);
        },
        Err(_) => {},
    }
    roots
}

/// The entries of a roots map, as persisted: every entry once, in no particular order.
pub open spec fn entries_of(entries: Seq<(u32, TtlCounter)>, roots: Map<u32, TtlCounter>) -> bool {
    &&& entries.len() == roots.len()
    &&& entries.map_values(|e: (u32, TtlCounter)| e.0).no_duplicates()
    &&& forall|i: int|
        0 <= i < entries.len() ==> roots.contains_key(#[trigger] entries[i].0) && roots[entries[i].0]
            == entries[i].1
    &&& forall|id: u32|
        roots.contains_key(id) ==> exists|i: int| 0 <= i < entries.len() && #[trigger] entries[i].0 == id
}

/// Lists the entries of a roots map.
pub fn gc_roots_entries(roots: &HashMap<u32, TtlCounter>) -> (entries: Vec<(u32, TtlCounter)>)
    ensures
        entries_of(entries@, roots@),
{
    let keys = roots_map_keys(roots);
    let mut entries: Vec<(u32, TtlCounter)> = Vec::new();
    let mut i: usize = 0;
    while i < keys.len()
        invariant
            0 <= i <= keys@.len(),
            keys@.no_duplicates(),
            keys@.to_set() == roots@.dom(),
            entries@.len() == i,
            forall|k: int| 0 <= k < i ==> (#[trigger] entries@[k]).0 == keys@[k],
            forall|k: int|
                0 <= k < i ==> roots@.contains_key(#[trigger] entries@[k].0) && roots@[entries@[k].0]
                    == entries@[k].1,
        decreases keys@.len() - i,
    {
        let k = keys[i];
        assert(keys@.to_set().contains(k)) by {
            assert(keys@[i as int] == k);
        }
        let counter: TtlCounter = *roots.get(&k).unwrap();
        entries.push((k, counter));
        i = i + 1;
    }
    let ghost ids = entries@.map_values(|e: (u32, TtlCounter)| e.0);
    assert(ids =~= keys@);
    proof { keys@.unique_seq_to_set(); }
    assert forall|id: u32| roots@.contains_key(id) implies exists|j: int|
        0 <= j < entries@.len() && #[trigger] entries@[j].0 == id by {
        assert(keys@.to_set().contains(id));
        let j = choose|j: int| 0 <= j < keys@.len() && keys@[j] == id;
        assert(entries@[j].0 == id);
    }
    entries
}

/// Whether two roots maps hold the same entries.
pub fn gc_roots_equal(a: &HashMap<u32, TtlCounter>, b: &HashMap<u32, TtlCounter>) -> (equal: bool)
    ensures
        equal == (a@ == b@),
{
    let a_keys = roots_map_keys(a);
    let mut i: usize = 0;
    while i < a_keys.len()
        invariant
            0 <= i <= a_keys@.len(),
            a_keys@.to_set() == a@.dom(),
            forall|k: int|
                0 <= k < i ==> b@.contains_key(#[trigger] a_keys@[k]) && b@[a_keys@[k]]
                    == a@[a_keys@[k]],
        decreases a_keys@.len() - i,
    {
        let k = a_keys[i];
        assert(a_keys@.to_set().contains(k)) by {
            assert(a_keys@[i as int] == k);
        }
        let va: TtlCounter = *a.get(&k).unwrap();
        match b.get(&k) {
            Some(vb) => {
                if *vb != va {
                    assert(a@[k] != b@[k]);
                    return false;
                }
            },
            None => {
                assert(!b@.contains_key(k));
                return false;
            },
        }
        i = i + 1;
    }
    let b_keys = roots_map_keys(b);
    let mut j: usize = 0;
    while j < b_keys.len()
        invariant
            0 <= j <= b_keys@.len(),
            b_keys@.to_set() == b@.dom(),
            forall|k: int| 0 <= k < j ==> a@.contains_key(#[trigger] b_keys@[k]),
        decreases b_keys@.len() - j,
    {
        let k = b_keys[j];
        assert(b_keys@.to_set().contains(k)) by {
            assert(b_keys@[j as int] == k);
        }
        if !a.contains_key(&k) {
            return false;
        }
        j = j + 1;
    }
    assert forall|id: u32| a@.contains_key(id) implies b@.contains_key(id) && b@[id] == a@[id] by {
        assert(a_keys@.to_set().contains(id));
        let k = choose|k: int| 0 <= k < a_keys@.len() && a_keys@[k] == id;
    }
    assert forall|id: u32| b@.contains_key(id) implies a@.contains_key(id) by {
        assert(b_keys@.to_set().contains(id));
        let k = choose|k: int| 0 <= k < b_keys@.len() && b_keys@[k] == id;
    }
    assert(a@ =~= b@);
    true
}

/// The roots map at the end of a pass: the roots the scans found and the roots the cascade
/// discovered were observed live, so they are (re)asserted `MostRecent`; the tasks the pass
/// collected lose their entries, whichever list also names them.
pub open spec fn final_roots(
    roots: Map<u32, TtlCounter>,
    scanned_roots: Seq<u32>,
    discovered_roots: Seq<u32>,
    collected: Seq<u32>,
) -> Map<u32, TtlCounter> {
    Map::new(
        |id: u32|
            (roots.contains_key(id) || scanned_roots.contains(id) || discovered_roots.contains(id))
                && !collected.contains(id),
        |id: u32|
            if scanned_roots.contains(id) || discovered_roots.contains(id) {
                TtlCounter::MostRecent
            } else {
                roots[id]
            },
    )
}

/// The outcome of a GC pass.
pub struct GcPassOutcome {
    /// The pass's counters.
    pub stats: GcStats,
    /// The reconciled roots map to persist, or `None` when it equals the map the pass started
    /// from and the write can be skipped.
    pub roots_to_persist: Option<Vec<(u32, TtlCounter)>>,
}

fn insert_all_most_recent(roots: &mut HashMap<u32, TtlCounter>, ids: &Vec<u32>)
    ensures
        final(roots)@ == Map::new(
            |id: u32| old(roots)@.contains_key(id) || ids@.contains(id),
            |id: u32| if ids@.contains(id) { TtlCounter::MostRecent } else { old(roots)@[id] },
        ),
{
    let ghost start = roots@;
    let mut i: usize = 0;
    while i < ids.len()
        invariant
            0 <= i <= ids@.len(),
            roots@ == Map::new(
                |id: u32| start.contains_key(id) || ids@.take(i as int).contains(id),
                |id: u32|
                    if ids@.take(i as int).contains(id) {
                        TtlCounter::MostRecent
                    } else {
                        start[id]
                    },
            ),
        decreases ids@.len() - i,
    {
        let id = ids[i];
        roots.insert(id, TtlCounter::MostRecent);
        proof {
            let before = ids@.take(i as int);
            let after = ids@.take(i + 1);
            assert(after =~= before.push(id));
            assert forall|x: u32| after.contains(x) <==> (before.contains(x) || x == id) by {
                if x == id {
                    assert(after[i as int] == x);
                }
                if after.contains(x) {
                    let j = choose|j: int| 0 <= j < after.len() && after[j] == x;
                    if j < i {
                        assert(before[j] == x);
                    }
                }
                if before.contains(x) {
                    let j = choose|j: int| 0 <= j < before.len() && before[j] == x;
                    assert(after[j] == x);
                }
            }
        }
        assert(roots@ =~= Map::new(
            |x: u32| start.contains_key(x) || ids@.take(i + 1).contains(x),
            |x: u32|
                if ids@.take(i + 1).contains(x) {
                    TtlCounter::MostRecent
                } else {
                    start[x]
                },
        ));
        i = i + 1;
    }
    assert(ids@.take(i as int) =~= ids@);
    assert(roots@ =~= Map::new(
        |id: u32| start.contains_key(id) || ids@.contains(id),
        |id: u32| if ids@.contains(id) { TtlCounter::MostRecent } else { start[id] },
    ));
}

fn remove_all(roots: &mut HashMap<u32, TtlCounter>, ids: &Vec<u32>)
    ensures
        final(roots)@ == old(roots)@.remove_keys(ids@.to_set()),
{
    let ghost start = roots@;
    let mut i: usize = 0;
    while i < ids.len()
        invariant
            0 <= i <= ids@.len(),
            roots@ == start.remove_keys(ids@.take(i as int).to_set()),
        decreases ids@.len() - i,
    {
        let id = ids[i];
        roots.remove(&id);
        proof {
            let before = ids@.take(i as int);
            assert(ids@.take(i + 1) =~= before.push(id));
            before.lemma_push_to_set_commute(id);
        }
        assert(roots@ =~= start.remove_keys(ids@.take(i + 1).to_set()));
        i = i + 1;
    }
    assert(ids@.take(i as int) =~= ids@);
}

/// Finishes a pass: folds the roots the scans found and the roots the cascade discovered into the
/// refreshed map, drops the tasks the pass collected, fills in the roots count and the number of
/// aged-out seeds, and decides whether the map has to be written back.
pub fn gc_collect_finish(
    roots: HashMap<u32, TtlCounter>,
    roots_before: &HashMap<u32, TtlCounter>,
    scanned_roots: &Vec<u32>,
    discovered_roots: &Vec<u32>,
    collected: &Vec<u32>,
    stats: GcStats,
    aged_out_seed_count: usize,
) -> (outcome: GcPassOutcome)
    ensures
        ({
            let fin = final_roots(roots@, scanned_roots@, discovered_roots@, collected@);
            &&& outcome.stats.gc_roots == fin.len()
            &&& outcome.stats.collected == stats.collected
            &&& outcome.stats.edges_deleted == stats.edges_deleted
            &&& outcome.stats.aged_out_roots == aged_out_seed_count
            &&& (outcome.roots_to_persist is None <==> fin == roots_before@)
            &&& (outcome.roots_to_persist matches Some(entries) ==> entries_of(entries@, fin))
        }),
{
    let ghost start = roots@;
    let mut roots = roots;
    insert_all_most_recent(&mut roots, scanned_roots);
    insert_all_most_recent(&mut roots, discovered_roots);
    remove_all(&mut roots, collected);
    let ghost fin = final_roots(start, scanned_roots@, discovered_roots@, collected@);
    assert(roots@ =~= fin);
    let mut stats = stats;
    stats.gc_roots = roots.len();
    stats.aged_out_roots = aged_out_seed_count;
    let roots_to_persist = if gc_roots_equal(&roots, roots_before) {
        None
    } else {
        Some(gc_roots_entries(&roots))
    };
    GcPassOutcome { stats, roots_to_persist }
}

/// A task the pass collected has no entry in the reconciled roots map, even when a scan or the
/// cascade also reported it as a root.
pub proof fn law_collected_leave_the_map(
    roots: Map<u32, TtlCounter>,
    scanned_roots: Seq<u32>,
    discovered_roots: Seq<u32>,
    collected: Seq<u32>,
    id: u32,
)
    requires
        collected.contains(id),
    ensures
        !final_roots(roots, scanned_roots, discovered_roots, collected).contains_key(id),
{
}

/// An entry that the pass did not collect survives it: an aged-out seed that was re-validated as
/// not collectible, or never reached, stays in the map and ages again next pass.
pub proof fn law_uncollected_entries_stay(
    roots: Map<u32, TtlCounter>,
    scanned_roots: Seq<u32>,
    discovered_roots: Seq<u32>,
    collected: Seq<u32>,
    id: u32,
)
    requires
        roots.contains_key(id),
        !collected.contains(id),
    ensures
        final_roots(roots, scanned_roots, discovered_roots, collected).contains_key(id),
        !scanned_roots.contains(id) && !discovered_roots.contains(id) ==> final_roots(
            roots,
            scanned_roots,
            discovered_roots,
            collected,
        )[id] == roots[id],
{
}

/// The roots map is never left without an entry it still needs: an aged-out root is only seeded
/// for collection, and keeps its entry through the pass unless the pass actually collected it.
pub proof fn law_aged_out_root_stays_until_collected(
    roots: Map<u32, TtlCounter>,
    resident: Map<u32, ResidentTask>,
    now: u64,
    first_pass_of_session: bool,
    ttl_ms: u64,
    scanned_roots: Seq<u32>,
    discovered_roots: Seq<u32>,
    collected: Seq<u32>,
    id: u32,
)
    requires
        aged_out_roots(roots, resident, now, ttl_ms).contains(id),
        !collected.contains(id),
    ensures
        final_roots(
            refreshed_roots(roots, resident, now, first_pass_of_session),
            scanned_roots,
            discovered_roots,
            collected,
        ).contains_key(id),
{
}

/// A root observed live by a scan or the cascade, and not collected, ends the pass as
/// `MostRecent`.
pub proof fn law_observed_roots_are_most_recent(
    roots: Map<u32, TtlCounter>,
    scanned_roots: Seq<u32>,
    discovered_roots: Seq<u32>,
    collected: Seq<u32>,
    id: u32,
)
    requires
        scanned_roots.contains(id) || discovered_roots.contains(id),
        !collected.contains(id),
    ensures
        final_roots(roots, scanned_roots, discovered_roots, collected).contains_key(id),
        final_roots(roots, scanned_roots, discovered_roots, collected)[id]
            == TtlCounter::MostRecent,
{
}

/// The change a pin makes to a task's transient reference count: one more, unless the backend is
/// stopping or the task has no resident entry.
pub open spec fn pin_delta(stopping: bool, resident: bool) -> Option<i32> {
    if !stopping && resident {
        Some(1i32)
    } else {
        None
    }
}

/// The change an unpin makes to a task's transient reference count: one less, under the same
/// conditions as a pin.
pub open spec fn unpin_delta(stopping: bool, resident: bool) -> Option<i32> {
    if !stopping && resident {
        Some(-1i32)
    } else {
        None
    }
}

/// A count after a change, where `None` leaves it alone.
pub open spec fn applied(count: int, delta: Option<i32>) -> int {
    match delta {
        Some(d) => count + d,
        None => count,
    }
}

/// Pins a task against collection: `Some(delta)` is the change to apply to its transient
/// reference count. Once the backend is stopping, or for a task with no resident entry, nothing
/// changes.
pub fn gc_pin(stopping: bool, resident: bool) -> (delta: Option<i32>)
    ensures
        delta == pin_delta(stopping, resident),
{
    if stopping {
        return None;
    }
    if resident {
        Some(1)
    } else {
        None
    }
}

/// Releases a pin: the unpin counterpart of [`gc_pin`].
pub fn gc_unpin(stopping: bool, resident: bool) -> (delta: Option<i32>)
    ensures
        delta == unpin_delta(stopping, resident),
{
    if stopping {
        return None;
    }
    if resident {
        Some(-1)
    } else {
        None
    }
}

/// A pin followed by its unpin, under the same conditions, leaves the transient reference count
/// as it was.
pub proof fn law_pin_then_unpin_balances(stopping: bool, resident: bool, count: int)
    ensures
        applied(applied(count, pin_delta(stopping, resident)), unpin_delta(stopping, resident))
            == count,
{
}

} // verus!
