//! The persisted map of GC roots and its per-pass reconciliation.
//!
//! A root is a task with no persistent parent that something outside the tracked graph holds on
//! to. The map records, for every known root, whether it was live in the most recent session or
//! since when it has been stale; a stale root is handed to collection once it has been stale for
//! longer than the TTL.
use std::collections::HashMap;
use vstd::prelude::*;
use vstd::std_specs::iter::IteratorSpec;

verus! {

broadcast use vstd::std_specs::hash::group_hash_axioms;

/// How long a GC root has gone without being observed live, as stored in the persisted roots map.
///
/// `MostRecent` is a stable value: a root that stays live re-encodes identically across passes
/// and sessions, so the TTL clock only starts once a root stops being live.
#[derive(Clone, Copy, PartialEq, Eq, Debug, Structural)]
pub enum TtlCounter {
    /// Observed live (a durable, anchored root) in the most recent session. Never ages out.
    MostRecent,
    /// The root was not live as of the first GC pass of some session; the value is that pass's
    /// wall-clock millis since the Unix epoch. The TTL runs from here.
    FirstStale(u64),
}

/// What the task storage reports, without restoring anything, of a resident task that a roots-map
/// entry names. A task with no resident entry is simply absent from the report.
#[derive(Clone, Copy, PartialEq, Eq, Debug, Structural)]
pub struct ResidentTask {
    /// No persistent parent and anchored (`transient_ref_count > 0`).
    pub is_root: bool,
    /// Already collected (soft-deleted, still resident until its tombstone is committed).
    pub is_deleted: bool,
}

/// How a roots-map entry is classified in a pass.
pub enum Liveness {
    /// Resident, not deleted, and still a root.
    Live,
    /// Resident but no longer a root or already deleted, or not resident at all.
    NotLive,
}

pub open spec fn liveness(resident: Map<u32, ResidentTask>, id: u32) -> Liveness {
    if resident.contains_key(id) && !resident[id].is_deleted && resident[id].is_root {
        Liveness::Live
    } else {
        Liveness::NotLive
    }
}

/// The counter an entry that is kept carries after a refresh.
pub open spec fn refreshed_counter(
    counter: TtlCounter,
    live: Liveness,
    now: u64,
    first_pass_of_session: bool,
) -> TtlCounter {
    match live {
        Liveness::Live => TtlCounter::MostRecent,
        _ => match counter {
            TtlCounter::MostRecent => if first_pass_of_session {
                TtlCounter::FirstStale(now)
            } else {
                TtlCounter::MostRecent
            },
            TtlCounter::FirstStale(since) => TtlCounter::FirstStale(since),
        },
    }
}

/// The roots map after a refresh: every entry is kept, with its refreshed counter.
pub open spec fn refreshed_roots(
    roots: Map<u32, TtlCounter>,
    resident: Map<u32, ResidentTask>,
    now: u64,
    first_pass_of_session: bool,
) -> Map<u32, TtlCounter> {
    Map::new(
        |id: u32| roots.contains_key(id),
        |id: u32| refreshed_counter(roots[id], liveness(resident, id), now, first_pass_of_session),
    )
}

/// `now - since`, or 0 when the clock went backwards.
pub open spec fn saturating_elapsed(now: u64, since: u64) -> int {
    if now >= since {
        now - since
    } else {
        0
    }
}

/// An entry is aged out when it is not live and was already stale for longer than the TTL.
pub open spec fn is_aged_out(counter: TtlCounter, live: Liveness, now: u64, ttl_ms: u64) -> bool {
    &&& live == Liveness::NotLive
    &&& counter matches TtlCounter::FirstStale(since)
    &&& saturating_elapsed(now, since) > ttl_ms
}

/// The ids a refresh hands to collection.
pub open spec fn aged_out_roots(
    roots: Map<u32, TtlCounter>,
    resident: Map<u32, ResidentTask>,
    now: u64,
    ttl_ms: u64,
) -> Set<u32> {
    Set::new(
        |id: u32|
            roots.contains_key(id) && is_aged_out(roots[id], liveness(resident, id), now, ttl_ms),
    )
}

/// The keys of a roots map, each once.
pub fn roots_map_keys(map: &HashMap<u32, TtlCounter>) -> (keys: Vec<u32>)
    ensures
        keys@.no_duplicates(),
        keys@.to_set() == map@.dom(),
{
    let mut keys: Vec<u32> = Vec::new();
    for k in it: map.keys()
        invariant
            keys@ == it.seq().take(it.index() as int).map_values(|r: &u32| *r),
            it.seq() == map.keys().remaining(),
    {
        keys.push(*k);
    }
    assert(keys@ =~= map.keys().remaining().unref());
    keys
}

/// The map as it stands after the entries in `done` were refreshed and the others left alone.
pub open spec fn partially_refreshed(
    roots: Map<u32, TtlCounter>,
    resident: Map<u32, ResidentTask>,
    now: u64,
    first_pass_of_session: bool,
    done: Set<u32>,
) -> Map<u32, TtlCounter> {
    Map::new(
        |id: u32| roots.contains_key(id),
        |id: u32|
            if done.contains(id) {
                refreshed_counter(roots[id], liveness(resident, id), now, first_pass_of_session)
            } else {
                roots[id]
            },
    )
}

/// Reconciles the carried-forward GC roots map and returns the ids of roots that have aged out.
///
/// Every entry is classified by `resident`, what storage reports of the resident tasks: a live
/// root (resident, not deleted, still a root) is (re)asserted `MostRecent`; any other entry is not
/// live: it starts its clock at `now`, but only on the first pass of a session, and an entry that
/// is already stale keeps its timestamp and is returned once it has been stale for longer than
/// `ttl_ms`. The map is monotone: no entry is removed or added here; only an actual collect
/// removes one.
pub fn gc_roots_refresh_and_age_out(
    map: &mut HashMap<u32, TtlCounter>,
    resident: &HashMap<u32, ResidentTask>,
    now: u64,
    first_pass_of_session: bool,
    ttl_ms: u64,
) -> (aged_out: Vec<u32>)
    ensures
        final(map)@ == refreshed_roots(old(map)@, resident@, now, first_pass_of_session),
        aged_out@.no_duplicates(),
        aged_out@.to_set() == aged_out_roots(old(map)@, resident@, now, ttl_ms),
{
    let ghost roots = map@;
    let ghost res = resident@;
    let keys = roots_map_keys(map);
    let mut aged_out: Vec<u32> = Vec::new();
    let mut i: usize = 0;
    while i < keys.len()
        invariant
            0 <= i <= keys@.len(),
            keys@.no_duplicates(),
            keys@.to_set() == roots.dom(),
            res == resident@,
            map@ == partially_refreshed(
                roots,
                res,
                now,
                first_pass_of_session,
                keys@.take(i as int).to_set(),
            ),
            aged_out@.no_duplicates(),
            aged_out@.to_set() == Set::new(
                |id: u32|
                    keys@.take(i as int).to_set().contains(id) && roots.contains_key(id)
                        && is_aged_out(roots[id], liveness(res, id), now, ttl_ms),
            ),
        decreases keys@.len() - i,
    {
        let k = keys[i];
        let ghost done = keys@.take(i as int).to_set();
        let ghost done_next = keys@.take(i + 1).to_set();
        assert(keys@.to_set().contains(k)) by {
            assert(keys@[i as int] == k);
        }
        assert(!done.contains(k)) by {
            if done.contains(k) {
                let j = choose|j: int| 0 <= j < i && keys@.take(i as int)[j] == k;
                assert(keys@[j] == keys@[i as int]);
            }
        }
        assert(done_next =~= done.insert(k)) by {
            assert(keys@.take(i + 1) =~= keys@.take(i as int).push(k));
            keys@.take(i as int).lemma_push_to_set_commute(k);
        }
        let counter: TtlCounter = *map.get(&k).unwrap();
        assert(counter == roots[k]);
        let status = resident.get(&k);
        let mut live = false;
        match status {
            Some(t) => {
                live = !t.is_deleted && t.is_root;
            },
            None => {},
        }
        assert(live <==> liveness(res, k) == Liveness::Live);
        let ghost aged_before = aged_out@;
        if live {
            map.insert(k, TtlCounter::MostRecent);
        } else {
            match counter {
                TtlCounter::MostRecent => {
                    if first_pass_of_session {
                        map.insert(k, TtlCounter::FirstStale(now));
                    }
                },
                TtlCounter::FirstStale(since) => {
                    if now.saturating_sub(since) > ttl_ms {
                        aged_out.push(k);
                    }
                },
            }
        }
        assert(map@ =~= partially_refreshed(roots, res, now, first_pass_of_session, done_next));
        proof {
            if aged_out@.len() > aged_before.len() {
                assert(aged_out@ == aged_before.push(k));
                aged_before.lemma_push_to_set_commute(k);
                assert(!aged_before.contains(k)) by {
                    if aged_before.contains(k) {
                        assert(aged_before.to_set().contains(k));
                    }
                }
            }
        }
        assert(aged_out@.to_set() =~= Set::new(
            |id: u32|
                done_next.contains(id) && roots.contains_key(id) && is_aged_out(
                    roots[id],
                    liveness(res, id),
                    now,
                    ttl_ms,
                ),
        ));
        i = i + 1;
    }
    assert(keys@.take(keys@.len() as int) =~= keys@);
    assert(map@ =~= refreshed_roots(roots, res, now, first_pass_of_session));
    assert(aged_out@.to_set() =~= aged_out_roots(roots, res, now, ttl_ms));
    aged_out
}

/// The map is monotone: a refresh removes no entry and adds none, whatever storage reports; an
/// entry only leaves the map when its task is collected.
pub proof fn law_refresh_keeps_every_entry(
    roots: Map<u32, TtlCounter>,
    resident: Map<u32, ResidentTask>,
    now: u64,
    first_pass_of_session: bool,
)
    ensures
        refreshed_roots(roots, resident, now, first_pass_of_session).dom() == roots.dom(),
{
    assert(refreshed_roots(roots, resident, now, first_pass_of_session).dom() =~= roots.dom());
}

/// A task that is already soft-deleted is not live: its entry stays and takes the not-live path,
/// starting its clock on the first pass of a session and aging out like any other stale root.
pub proof fn law_deleted_task_is_not_live(
    roots: Map<u32, TtlCounter>,
    resident: Map<u32, ResidentTask>,
    now: u64,
    first_pass_of_session: bool,
    id: u32,
)
    requires
        roots.contains_key(id),
        resident.contains_key(id),
        resident[id].is_deleted,
    ensures
        liveness(resident, id) == Liveness::NotLive,
        refreshed_roots(roots, resident, now, first_pass_of_session).contains_key(id),
        refreshed_roots(roots, resident, now, first_pass_of_session)[id] == refreshed_counter(
            roots[id],
            Liveness::NotLive,
            now,
            first_pass_of_session,
        ),
{
}

/// A resident, undeleted root is (re)asserted `MostRecent`, whatever its clock said: a root that
/// is requested again after a stale session gets its clock cleared.
pub proof fn law_live_root_is_most_recent(
    roots: Map<u32, TtlCounter>,
    resident: Map<u32, ResidentTask>,
    now: u64,
    first_pass_of_session: bool,
    id: u32,
)
    requires
        roots.contains_key(id),
        resident.contains_key(id),
        resident[id].is_root,
        !resident[id].is_deleted,
    ensures
        refreshed_roots(roots, resident, now, first_pass_of_session)[id] == TtlCounter::MostRecent,
{
}

/// Only the first pass of a session starts a root's clock: any later pass leaves every
/// `MostRecent` entry `MostRecent`.
pub proof fn law_only_first_pass_demotes(
    roots: Map<u32, TtlCounter>,
    resident: Map<u32, ResidentTask>,
    now: u64,
    id: u32,
)
    requires
        roots.contains_key(id),
        roots[id] == TtlCounter::MostRecent,
    ensures
        refreshed_roots(roots, resident, now, false)[id] == TtlCounter::MostRecent,
{
}

/// An entry that is already stale keeps the timestamp of the pass that first found it stale, so
/// the TTL clock keeps running across passes and sessions.
pub proof fn law_stale_clock_keeps_running(
    roots: Map<u32, TtlCounter>,
    resident: Map<u32, ResidentTask>,
    now: u64,
    first_pass_of_session: bool,
    id: u32,
    since: u64,
)
    requires
        roots.contains_key(id),
        roots[id] == TtlCounter::FirstStale(since),
        liveness(resident, id) == Liveness::NotLive,
    ensures
        refreshed_roots(roots, resident, now, first_pass_of_session)[id] == TtlCounter::FirstStale(
            since,
        ),
{
}

/// Steady state: when every root is still live and `MostRecent`, a pass leaves the map exactly as
/// it was and ages nothing out, so there is nothing to rewrite.
pub proof fn law_steady_state_is_unchanged(
    roots: Map<u32, TtlCounter>,
    resident: Map<u32, ResidentTask>,
    now: u64,
    first_pass_of_session: bool,
    ttl_ms: u64,
)
    requires
        forall|id: u32|
            #[trigger] roots.contains_key(id) ==> roots[id] == TtlCounter::MostRecent
                && liveness(resident, id) == Liveness::Live,
    ensures
        refreshed_roots(roots, resident, now, first_pass_of_session) == roots,
        aged_out_roots(roots, resident, now, ttl_ms) == Set::<u32>::empty(),
{
    assert(refreshed_roots(roots, resident, now, first_pass_of_session) =~= roots);
    assert(aged_out_roots(roots, resident, now, ttl_ms) =~= Set::<u32>::empty());
}

/// The pass that first notices a root is gone only starts its clock: a root is handed to
/// collection only if it was already stale before the pass.
pub proof fn law_demoting_pass_ages_nothing_out(
    roots: Map<u32, TtlCounter>,
    resident: Map<u32, ResidentTask>,
    now: u64,
    ttl_ms: u64,
    id: u32,
)
    requires
        aged_out_roots(roots, resident, now, ttl_ms).contains(id),
    ensures
        roots[id] is FirstStale,
        refreshed_roots(roots, resident, now, true).contains_key(id),
{
}

/// A later pass in the same session, seeing the same residency, changes nothing more: refreshing
/// is idempotent once the session's first pass has run.
pub proof fn law_refresh_is_idempotent_within_session(
    roots: Map<u32, TtlCounter>,
    resident: Map<u32, ResidentTask>,
    first_now: u64,
    later_now: u64,
    first_pass_of_session: bool,
)
    ensures
        refreshed_roots(
            refreshed_roots(roots, resident, first_now, first_pass_of_session),
            resident,
            later_now,
            false,
        ) == refreshed_roots(roots, resident, first_now, first_pass_of_session),
{
    assert(refreshed_roots(
        refreshed_roots(roots, resident, first_now, first_pass_of_session),
        resident,
        later_now,
        false,
    ) =~= refreshed_roots(roots, resident, first_now, first_pass_of_session));
}

/// A root that stays un-anchored is reclaimed in two steps: the first pass of a session demotes
/// it, starting its clock at that pass's `now`, and a later pass that finds it still not live once
/// more than the TTL has elapsed hands it to collection.
pub proof fn law_abandoned_root_ages_out(
    roots: Map<u32, TtlCounter>,
    first_resident: Map<u32, ResidentTask>,
    later_resident: Map<u32, ResidentTask>,
    first_now: u64,
    later_now: u64,
    ttl_ms: u64,
    id: u32,
)
    requires
        roots.contains_key(id),
        roots[id] == TtlCounter::MostRecent,
        liveness(first_resident, id) == Liveness::NotLive,
        liveness(later_resident, id) == Liveness::NotLive,
        later_now - first_now > ttl_ms,
    ensures
        refreshed_roots(roots, first_resident, first_now, true)[id] == TtlCounter::FirstStale(
            first_now,
        ),
        !aged_out_roots(roots, first_resident, first_now, ttl_ms).contains(id),
        aged_out_roots(
            refreshed_roots(roots, first_resident, first_now, true),
            later_resident,
            later_now,
            ttl_ms,
        ).contains(id),
{
}

/// Clock skew across sessions never ages a root out: a stale timestamp later than `now` counts as
/// not yet aged.
pub proof fn law_clock_skew_never_ages_out(
    roots: Map<u32, TtlCounter>,
    resident: Map<u32, ResidentTask>,
    now: u64,
    ttl_ms: u64,
    id: u32,
    since: u64,
)
    requires
        roots.contains_key(id),
        roots[id] == TtlCounter::FirstStale(since),
        now <= since,
    ensures
        !aged_out_roots(roots, resident, now, ttl_ms).contains(id),
{
}

} // verus!
