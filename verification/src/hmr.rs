//! Aggregation of per-entry hot-module-replacement updates into one update for a server session.
//!
//! Chunk paths are strings; the payloads (a chunk's update `C`, a merged module update `M`, a
//! version `V`) are carried through unchanged, and merged updates are told apart by their `==`.
use crate::ordered_map::{
    has_key, inserted_all, keys_of, last_value, law_inserted_all_twice_is_once,
    lemma_inserted_all_concat, lemma_inserted_all_len, lemma_inserted_all_lookup, lemma_last_value_present,
    lookup, pairs_view, position_of, unique_keys, OrderedMap,
};
use vstd::prelude::*;
use vstd::std_specs::cmp::PartialEqSpec;

verus! {

/// A chunk to aggregate: its path and a handle `X` on its versioned content.
pub struct HmrChunkWithContent<X> {
    pub path: String,
    pub content: X,
}

/// The chunks of an aggregate HMR session.
pub struct HmrChunksWithContent<X>(pub Vec<HmrChunkWithContent<X>>);

/// A chunk list's update: per-chunk updates keyed by chunk path, and merged module updates.
pub struct ChunkListUpdate<C, M> {
    pub chunks: Vec<(String, C)>,
    pub merged: Vec<M>,
}

/// An ECMAScript update instruction: a whole chunk list's update, or a bare merged update.
pub enum EcmascriptUpdateInstruction<C, M> {
    ChunkList(ChunkListUpdate<C, M>),
    Merged(M),
}

/// An update instruction as the aggregator sees it: an ECMAScript one, or one of another kind.
pub enum UpdateInstruction<C, M> {
    Ecmascript(EcmascriptUpdateInstruction<C, M>),
    Other,
}

/// Why an aggregation failed.
#[derive(Clone, Copy, PartialEq, Eq, Debug, Structural)]
pub enum HmrError {
    /// Aggregate HMR only accepts ECMAScript update instructions.
    NotEcmascriptInstruction,
}

impl HmrError {
    /// The error's message.
    pub fn message(&self) -> (text: &'static str)
        ensures
            text@ == "aggregate HMR only accepts ECMAScript update instructions"@,
    {
        match self {
            HmrError::NotEcmascriptInstruction => "aggregate HMR only accepts ECMAScript update instructions",
        }
    }
}

/// No merged update in the list is `==` to a later one.
pub open spec fn distinct_updates<M: PartialEq>(merged: Seq<M>) -> bool {
    forall|i: int, j: int|
        #![trigger merged[i], merged[j]]
        0 <= i < j < merged.len() ==> !merged[i].eq_spec(&merged[j])
}

/// Whether some merged update in the list is `==` to `update`.
pub open spec fn holds_update<M: PartialEq>(merged: Seq<M>, update: M) -> bool {
    exists|i: int| 0 <= i < merged.len() && (#[trigger] merged[i]).eq_spec(&update)
}

/// The merged updates after adding `update`: unchanged when an equal one is already there
/// (first seen wins), appended otherwise.
pub open spec fn with_merged<M: PartialEq>(merged: Seq<M>, update: M) -> Seq<M> {
    if holds_update(merged, update) {
        merged
    } else {
        merged.push(update)
    }
}

/// The merged updates after adding each of `updates` in turn.
pub open spec fn with_all_merged<M: PartialEq>(merged: Seq<M>, updates: Seq<M>) -> Seq<M>
    decreases updates.len(),
{
    if updates.len() == 0 {
        merged
    } else {
        with_merged(with_all_merged(merged, updates.drop_last()), updates.last())
    }
}

/// The abstract state of a builder: chunk updates in first-inserted order, merged updates in
/// first-seen order.
pub type BuilderState<C, M> = (Seq<(Seq<char>, C)>, Seq<M>);

/// The builder's state after an instruction, or `None` when the instruction is not an ECMAScript
/// one.
pub open spec fn after_instruction<C, M: PartialEq>(
    state: BuilderState<C, M>,
    instruction: UpdateInstruction<C, M>,
) -> Option<BuilderState<C, M>> {
    match instruction {
        UpdateInstruction::Other => None,
        UpdateInstruction::Ecmascript(EcmascriptUpdateInstruction::ChunkList(update)) => Some(
            (
                inserted_all(state.0, pairs_view(update.chunks@)),
                with_all_merged(state.1, update.merged@),
            ),
        ),
        UpdateInstruction::Ecmascript(EcmascriptUpdateInstruction::Merged(update)) => Some(
            (state.0, with_merged(state.1, update)),
        ),
    }
}

/// Aggregates per-entry HMR instructions into a single combined chunk list update.
pub struct ChunkListUpdateBuilder<C, M: PartialEq> {
    chunks: OrderedMap<C>,
    merged: Vec<M>,
}

impl<C, M: PartialEq> View for ChunkListUpdateBuilder<C, M> {
    type V = BuilderState<C, M>;

    closed spec fn view(&self) -> BuilderState<C, M> {
        (self.chunks@, self.merged@)
    }
}

impl<C, M: PartialEq> ChunkListUpdateBuilder<C, M> {
    #[verifier::type_invariant]
    closed spec fn keys_unique_and_merged_distinct(&self) -> bool {
        &&& unique_keys(self.chunks@)
        &&& distinct_updates(self.merged@)
    }

    /// An empty builder.
    pub fn new() -> (builder: Self)
        ensures
            builder@.0 == Seq::<(Seq<char>, C)>::empty(),
            builder@.1 == Seq::<M>::empty(),
            unique_keys(builder@.0),
            distinct_updates(builder@.1),
    {
        ChunkListUpdateBuilder { chunks: OrderedMap::new(), merged: Vec::new() }
    }

    /// Adds a merged update unless an `==` one is already there.
    fn push_merged(&mut self, update: M)
        requires
            M::obeys_eq_spec(),
        ensures
            final(self)@.0 == old(self)@.0,
            final(self)@.1 == with_merged(old(self)@.1, update),
    {
        proof {
            use_type_invariant(&*self);
        }
        let mut i: usize = 0;
        while i < self.merged.len()
            invariant
                0 <= i <= self.merged@.len(),
                M::obeys_eq_spec(),
                forall|j: int| 0 <= j < i ==> !(#[trigger] self.merged@[j]).eq_spec(&update),
            decreases self.merged@.len() - i,
        {
            if self.merged[i] == update {
                assert(holds_update(self.merged@, update));
                return;
            }
            i = i + 1;
        }
        assert(!holds_update(self.merged@, update));
        let mut merged: Vec<M> = Vec::new();
        std::mem::swap(&mut merged, &mut self.merged);
        merged.push(update);
        self.merged = merged;
    }

    fn push_all_merged(&mut self, updates: Vec<M>)
        requires
            M::obeys_eq_spec(),
        ensures
            final(self)@.0 == old(self)@.0,
            final(self)@.1 == with_all_merged(old(self)@.1, updates@),
    {
        let ghost start = self@;
        let ghost total = updates@;
        for update in it: updates.into_iter()
            invariant
                M::obeys_eq_spec(),
                it.seq() == total,
                self@.0 == start.0,
                self@.1 == with_all_merged(start.1, total.take(it.index() as int)),
        {
            let ghost i = it.index();
            assert(total.take(i + 1).drop_last() =~= total.take(i as int));
            self.push_merged(update);
        }
        assert(total.take(total.len() as int) =~= total);
    }

    fn insert_chunks(&mut self, pairs: Vec<(String, C)>)
        ensures
            final(self)@.0 == inserted_all(old(self)@.0, pairs_view(pairs@)),
            final(self)@.1 == old(self)@.1,
    {
        proof {
            use_type_invariant(&*self);
        }
        let mut chunks: OrderedMap<C> = OrderedMap::new();
        std::mem::swap(&mut chunks, &mut self.chunks);
        chunks.insert_all(pairs);
        self.chunks = chunks;
    }

    /// Adds one instruction: each chunk update of a chunk list replaces any earlier update of the
    /// same chunk (keeping that chunk's first position), and each merged update is kept once, in
    /// first-seen order. An instruction that is not an ECMAScript one is refused and changes
    /// nothing.
    pub fn add_instruction(&mut self, instruction: UpdateInstruction<C, M>) -> (result: Result<
        (),
        HmrError,
    >)
        requires
            M::obeys_eq_spec(),
        ensures
            match after_instruction(old(self)@, instruction) {
                Some(state) => result is Ok && final(self)@ == state,
                None => result == Err::<(), HmrError>(HmrError::NotEcmascriptInstruction)
                    && final(self)@ == old(self)@,
            },
            unique_keys(final(self)@.0),
            distinct_updates(final(self)@.1),
    {
        let result = match instruction {
            UpdateInstruction::Other => Err(HmrError::NotEcmascriptInstruction),
            UpdateInstruction::Ecmascript(EcmascriptUpdateInstruction::ChunkList(update)) => {
                let ChunkListUpdate { chunks, merged } = update;
                self.insert_chunks(chunks);
                self.push_all_merged(merged);
                Ok(())
            },
            UpdateInstruction::Ecmascript(EcmascriptUpdateInstruction::Merged(update)) => {
                self.push_merged(update);
                Ok(())
            },
        };
        proof {
            use_type_invariant(&*self);
        }
        result
    }

    /// Whether nothing has been added.
    pub fn is_empty(&self) -> (empty: bool)
        ensures
            empty == (self@.0.len() == 0 && self@.1.len() == 0),
            unique_keys(self@.0),
            distinct_updates(self@.1),
    {
        proof {
            use_type_invariant(self);
        }
        self.chunks.is_empty() && self.merged.len() == 0
    }

    /// The combined chunk list update.
    pub fn build(self) -> (update: ChunkListUpdate<C, M>)
        ensures
            pairs_view(update.chunks@) == self@.0,
            update.merged@ == self@.1,
            unique_keys(self@.0),
            distinct_updates(self@.1),
    {
        proof {
            use_type_invariant(&self);
        }
        let ChunkListUpdateBuilder { chunks, merged } = self;
        ChunkListUpdate { chunks: chunks.into_vec(), merged }
    }
}

/// A chunk's update against a previous version, as the aggregator sees it.
pub enum Update<I> {
    /// Nothing changed.
    Unchanged,
    /// The previous version is unknown; the chunk has to be reloaded.
    Missing,
    /// The chunk has to be replaced as a whole.
    Total,
    /// The chunk can be patched with an instruction.
    Partial(I),
}

/// Outcome of a server HMR pull: what the caller has to do, and the version to diff the next pull
/// against.
pub enum ServerHmrUpdate<V, C, M> {
    /// Nothing changed and there is no new version to remember.
    Nothing,
    /// Nothing to apply, but `to` has to be remembered so the next pull diffs against it.
    Version { to: V },
    /// Can't be applied incrementally; re-evaluate from disk.
    Restart { to: V },
    /// `instruction` patches the running module graph in place.
    Partial { to: V, instruction: ChunkListUpdate<C, M> },
}

/// Per-chunk updates computed against an aggregate version; `has_new_chunks` is true when the
/// current chunks include ones absent from that version.
pub struct DiffResult<U> {
    pub chunk_updates: Vec<(String, U)>,
    pub has_new_chunks: bool,
}

/// Where folding a batch of chunk updates ends.
pub enum Folded<C, M> {
    /// Some chunk needs a total update: the whole batch restarts.
    Restart,
    /// Some partial update carried an instruction that is not an ECMAScript one.
    Failed,
    /// Every partial instruction was added; the builder's state.
    Built(BuilderState<C, M>),
}

/// Folds a batch of chunk updates in order into a builder that starts empty: `Unchanged` is skipped, the
/// first `Missing` or `Total` restarts the batch, a `Partial` adds its instruction; the first
/// refusal or restart ends the fold.
pub open spec fn folded_updates<C, M: PartialEq>(updates: Seq<Update<UpdateInstruction<C, M>>>) -> Folded<
    C,
    M,
>
    decreases updates.len(),
{
    if updates.len() == 0 {
        Folded::Built((Seq::empty(), Seq::empty()))
    } else {
        match folded_updates(updates.drop_last()) {
            Folded::Built(state) => match updates.last() {
                Update::Unchanged => Folded::Built(state),
                Update::Missing => Folded::Restart,
                Update::Total => Folded::Restart,
                Update::Partial(instruction) => match after_instruction(state, instruction) {
                    Some(next) => Folded::Built(next),
                    None => Folded::Failed,
                },
            },
            stopped => stopped,
        }
    }
}

/// The updates of a diff, without their chunk paths.
pub open spec fn updates_of<U>(chunk_updates: Seq<(String, U)>) -> Seq<U> {
    chunk_updates.map_values(|p: (String, U)| p.1)
}

/// What a pull over `chunk_count` chunks hands back, given the new aggregate version `to` and the
/// diff against the previous one.
pub open spec fn pull_outcome<V, C, M: PartialEq>(
    result: Result<ServerHmrUpdate<V, C, M>, HmrError>,
    chunk_count: nat,
    to: V,
    diff: DiffResult<Update<UpdateInstruction<C, M>>>,
) -> bool {
    if chunk_count == 0 {
        result == Ok::<ServerHmrUpdate<V, C, M>, HmrError>(ServerHmrUpdate::Nothing)
    } else if diff.chunk_updates@.len() == 0 && !diff.has_new_chunks {
        result == Ok::<ServerHmrUpdate<V, C, M>, HmrError>(ServerHmrUpdate::Version { to })
    } else {
        match folded_updates(updates_of(diff.chunk_updates@)) {
            Folded::Restart => result == Ok::<ServerHmrUpdate<V, C, M>, HmrError>(
                ServerHmrUpdate::Restart { to },
            ),
            Folded::Failed => result == Err::<ServerHmrUpdate<V, C, M>, HmrError>(
                HmrError::NotEcmascriptInstruction,
            ),
            Folded::Built(state) => if state.0.len() == 0 && state.1.len() == 0 {
                result == Ok::<ServerHmrUpdate<V, C, M>, HmrError>(
                    if diff.has_new_chunks {
                        ServerHmrUpdate::Version { to }
                    } else {
                        ServerHmrUpdate::Nothing
                    },
                )
            } else {
                &&& result matches Ok(ServerHmrUpdate::Partial { to: t, instruction })
                &&& t == to
                &&& pairs_view(instruction.chunks@) == state.0
                &&& instruction.merged@ == state.1
            },
        }
    }
}

/// Folds the per-chunk updates of a pull into one server HMR update against the new aggregate
/// version `to`.
///
/// No chunks at all: nothing changed. A diff with no updates and no new chunks (the previous
/// version was not an aggregate one) only advances the version. Otherwise the updates are folded
/// in order: any chunk needing a `Missing` or `Total` update restarts the whole batch, a partial
/// instruction that is not an ECMAScript one fails the pull, and the other partial instructions
/// are combined. A combination that holds nothing still advances the version when new chunks
/// appeared, and reports nothing otherwise.
pub fn compute_server_hmr_update<X, V, C, M: PartialEq>(
    chunks: &Vec<HmrChunkWithContent<X>>,
    to: V,
    diff: DiffResult<Update<UpdateInstruction<C, M>>>,
) -> (result: Result<ServerHmrUpdate<V, C, M>, HmrError>)
    requires
        M::obeys_eq_spec(),
    ensures
        pull_outcome(result, chunks@.len(), to, diff),
{
    if chunks.len() == 0 {
        return Ok(ServerHmrUpdate::Nothing);
    }
    let DiffResult { chunk_updates, has_new_chunks } = diff;
    if chunk_updates.len() == 0 && !has_new_chunks {
        return Ok(ServerHmrUpdate::Version { to });
    }
    let ghost all = updates_of(chunk_updates@);
    let ghost total = chunk_updates@;
    let mut builder: ChunkListUpdateBuilder<C, M> = ChunkListUpdateBuilder::new();
    assert(updates_of(total.take(0)) =~= Seq::<Update<UpdateInstruction<C, M>>>::empty());
    for entry in it: chunk_updates.into_iter()
        invariant
            M::obeys_eq_spec(),
            chunks@.len() > 0,
            total == diff.chunk_updates@,
            has_new_chunks == diff.has_new_chunks,
            total.len() > 0 || has_new_chunks,
            it.seq() == total,
            all == updates_of(total),
            folded_updates(updates_of(total.take(it.index() as int))) == Folded::Built(builder@),
    {
        let ghost i = it.index();
        let ghost before = builder@;
        assert(updates_of(total.take(i + 1)).drop_last() =~= updates_of(total.take(i as int)));
        assert(updates_of(total.take(i + 1)).last() == entry.1);
        let (_path, update) = entry;
        match update {
            Update::Unchanged => {},
            Update::Missing => {
                proof {
                    lemma_fold_stops(all, i + 1);
                    assert(updates_of(total.take(i + 1)) =~= all.take(i + 1));
                }
                return Ok(ServerHmrUpdate::Restart { to });
            },
            Update::Total => {
                proof {
                    lemma_fold_stops(all, i + 1);
                    assert(updates_of(total.take(i + 1)) =~= all.take(i + 1));
                }
                return Ok(ServerHmrUpdate::Restart { to });
            },
            Update::Partial(instruction) => {
                let added = builder.add_instruction(instruction);
                if added.is_err() {
                    proof {
                        lemma_fold_stops(all, i + 1);
                        assert(updates_of(total.take(i + 1)) =~= all.take(i + 1));
                    }
                    return Err(HmrError::NotEcmascriptInstruction);
                }
            },
        }
    }
    assert(total.take(total.len() as int) =~= total);
    if builder.is_empty() {
        if has_new_chunks {
            Ok(ServerHmrUpdate::Version { to })
        } else {
            Ok(ServerHmrUpdate::Nothing)
        }
    } else {
        Ok(ServerHmrUpdate::Partial { to, instruction: builder.build() })
    }
}

/// Once a fold restarts or fails, the rest of the batch does not matter.
pub proof fn lemma_fold_stops<C, M: PartialEq>(updates: Seq<Update<UpdateInstruction<C, M>>>, n: int)
    requires
        0 <= n <= updates.len(),
        !(folded_updates(updates.take(n)) is Built),
    ensures
        folded_updates(updates) == folded_updates(updates.take(n)),
    decreases updates.len() - n,
{
    if n < updates.len() {
        assert(updates.take(n + 1).drop_last() =~= updates.take(n));
        lemma_fold_stops(updates, n + 1);
    } else {
        assert(updates.take(n) =~= updates);
    }
}

/// All-or-nothing restart: a batch in which some chunk needs a `Missing` or `Total` update, and
/// whose earlier partial instructions are all ECMAScript ones, restarts as a whole.
pub proof fn law_any_total_update_restarts_the_batch<C, M: PartialEq>(
    updates: Seq<Update<UpdateInstruction<C, M>>>,
    k: int,
)
    requires
        0 <= k < updates.len(),
        updates[k] is Missing || updates[k] is Total,
        forall|j: int|
            0 <= j < k ==> !(#[trigger] updates[j] matches Update::Partial(UpdateInstruction::Other)),
    ensures
        folded_updates(updates) == Folded::<C, M>::Restart,
    decreases updates.len(),
{
    if k < updates.len() - 1 {
        let init = updates.drop_last();
        law_any_total_update_restarts_the_batch(init, k);
        assert(folded_updates(init) == Folded::<C, M>::Restart);
    } else {
        lemma_fold_never_fails_before(updates.drop_last());
    }
}

/// A prefix whose partial instructions are all ECMAScript ones folds to a builder state or a
/// restart, never to a failure.
pub proof fn lemma_fold_never_fails_before<C, M: PartialEq>(updates: Seq<Update<UpdateInstruction<C, M>>>)
    requires
        forall|j: int|
            0 <= j < updates.len() ==> !(#[trigger] updates[j] matches Update::Partial(
                UpdateInstruction::Other,
            )),
    ensures
        !(folded_updates(updates) is Failed),
    decreases updates.len(),
{
    if updates.len() > 0 {
        let init = updates.drop_last();
        assert forall|j: int| 0 <= j < init.len() implies !(#[trigger] init[j] matches Update::Partial(
            UpdateInstruction::Other,
        )) by {
            assert(init[j] == updates[j]);
        }
        lemma_fold_never_fails_before(init);
        assert(!(updates[updates.len() - 1] matches Update::Partial(UpdateInstruction::Other)));
    }
}

/// Adding a merged update that is `==` to one already added changes nothing: the first one seen
/// keeps its place.
pub proof fn law_merged_updates_deduplicate_first_seen<M: PartialEq>(
    merged: Seq<M>,
    update: M,
    i: int,
)
    requires
        0 <= i < merged.len(),
        merged[i].eq_spec(&update),
    ensures
        with_merged(merged, update) == merged,
{
}

/// The merged updates stay distinct however many are added.
pub proof fn law_merged_updates_stay_distinct<M: PartialEq>(merged: Seq<M>, updates: Seq<M>)
    requires
        distinct_updates(merged),
    ensures
        distinct_updates(with_all_merged(merged, updates)),
    decreases updates.len(),
{
    if updates.len() > 0 {
        law_merged_updates_stay_distinct(merged, updates.drop_last());
        let before = with_all_merged(merged, updates.drop_last());
        let after = with_merged(before, updates.last());
        if !holds_update(before, updates.last()) {
            assert forall|i: int, j: int| 0 <= i < j < after.len() implies !after[i].eq_spec(
                &after[j],
            ) by {
                if j == before.len() {
                    assert(after[j] == updates.last());
                    assert(after[i] == before[i]);
                } else {
                    assert(after[i] == before[i] && after[j] == before[j]);
                }
            }
        }
    }
}

/// Per-chunk versions keyed by chunk path, in first-inserted order.
pub struct AggregateHmrVersion<V> {
    pub versions: OrderedMap<V>,
}

impl<V> AggregateHmrVersion<V> {
    /// The aggregate of the chunks' versions: a later chunk with the same path replaces an earlier
    /// one's version and keeps its position.
    pub fn from_chunks(chunks: Vec<(String, V)>) -> (aggregate: Self)
        ensures
            aggregate.versions@ == inserted_all(Seq::empty(), pairs_view(chunks@)),
    {
        let mut versions: OrderedMap<V> = OrderedMap::new();
        versions.insert_all(chunks);
        AggregateHmrVersion { versions }
    }
}

/// Each chunk's path paired with its version (`versions[i]` is the version of `chunks[i]`).
pub open spec fn chunk_versions<X, V>(chunks: Seq<HmrChunkWithContent<X>>, versions: Seq<V>) -> Seq<
    (Seq<char>, V),
> {
    Seq::new(versions.len(), |i: int| (chunks[i].path@, versions[i]))
}

/// A pull against the chunks' current versions, `versions[i]` being the version of `chunks[i]`:
/// the new aggregate version is built from the chunks' paths and those versions up front, so that
/// every outcome that hands a version back hands back that one, and `diff` is folded as in
/// [`compute_server_hmr_update`].
pub fn compute_server_hmr_update_from_versions<X, V, C, M: PartialEq>(
    chunks: &Vec<HmrChunkWithContent<X>>,
    versions: Vec<V>,
    diff: DiffResult<Update<UpdateInstruction<C, M>>>,
) -> (result: Result<ServerHmrUpdate<AggregateHmrVersion<V>, C, M>, HmrError>)
    requires
        M::obeys_eq_spec(),
        versions@.len() == chunks@.len(),
    ensures
        exists|to: AggregateHmrVersion<V>|
            {
                &&& to.versions@ == inserted_all(
                    Seq::empty(),
                    chunk_versions(chunks@, versions@),
                )
                &&& #[trigger] pull_outcome(result, chunks@.len(), to, diff)
            },
{
    let ghost total = versions@;
    let ghost expected = chunk_versions(chunks@, total);
    let mut pairs: Vec<(String, V)> = Vec::new();
    let n = chunks.len();
    let mut i: usize = 0;
    for version in it: versions.into_iter()
        invariant
            it.seq() == total,
            total.len() == chunks@.len(),
            n == chunks@.len(),
            expected == chunk_versions(chunks@, total),
            i == it.index(),
            pairs_view(pairs@) =~= expected.take(i as int),
    {
        assert(i < total.len());
        assert(version == total[i as int]);
        let path = chunks[i].path.clone();
        assert(path@ == chunks@[i as int].path@);
        let ghost before = pairs_view(pairs@);
        pairs.push((path, version));
        assert(pairs_view(pairs@) =~= before.push(expected[i as int]));
        assert(expected.take(i + 1) =~= expected.take(i as int).push(expected[i as int]));
        i = i + 1;
    }
    assert(expected.take(i as int) =~= expected);
    let to = AggregateHmrVersion::from_chunks(pairs);
    let ghost handed = to;
    let result = compute_server_hmr_update(chunks, to, diff);
    assert(pull_outcome(result, chunks@.len(), handed, diff));
    result
}

/// The plan of a diff: for each current chunk that the previous aggregate knows, in chunk order,
/// the chunk's index and the index of its previous version; and whether some chunk is new.
pub struct DiffPlan {
    pub to_diff: Vec<(usize, usize)>,
    pub has_new_chunks: bool,
}

/// The (chunk index, version index) pairs to diff, for the chunks whose path `versions` knows.
pub open spec fn diff_pairs<V>(paths: Seq<Seq<char>>, versions: Seq<(Seq<char>, V)>) -> Seq<
    (usize, usize),
>
    decreases paths.len(),
{
    if paths.len() == 0 {
        Seq::empty()
    } else {
        let rest = diff_pairs(paths.drop_last(), versions);
        if has_key(versions, paths.last()) {
            rest.push(((paths.len() - 1) as usize, position_of(versions, paths.last()) as usize))
        } else {
            rest
        }
    }
}

/// The paths of a list of chunks.
pub open spec fn paths_view<X>(chunks: Seq<HmrChunkWithContent<X>>) -> Seq<Seq<char>> {
    chunks.map_values(|c: HmrChunkWithContent<X>| c.path@)
}

/// Plans the diff of the current chunks against `from`. When `from` is not an aggregate version
/// (`None`) there is nothing meaningful to diff against: nothing is planned and no chunk counts as
/// new. Otherwise each chunk whose path the aggregate knows is diffed against its previous
/// version, and a chunk it does not know makes `has_new_chunks` true.
pub fn diff_chunks_against<X, V>(
    chunks: &Vec<HmrChunkWithContent<X>>,
    from: Option<&AggregateHmrVersion<V>>,
) -> (plan: DiffPlan)
    ensures
        match from {
            None => plan.to_diff@.len() == 0 && !plan.has_new_chunks,
            Some(aggregate) => {
                &&& plan.to_diff@ == diff_pairs(paths_view(chunks@), aggregate.versions@)
                &&& plan.has_new_chunks == exists|i: int|
                    0 <= i < chunks@.len() && !has_key(
                        aggregate.versions@,
                        #[trigger] chunks@[i].path@,
                    )
            },
        },
{
    match from {
        None => DiffPlan { to_diff: Vec::new(), has_new_chunks: false },
        Some(aggregate) => {
            let versions = &aggregate.versions;
            let ghost vs = versions@;
            let mut to_diff: Vec<(usize, usize)> = Vec::new();
            let mut has_new_chunks = false;
            let mut i: usize = 0;
            while i < chunks.len()
                invariant
                    0 <= i <= chunks@.len(),
                    vs == versions@,
                    to_diff@ == diff_pairs(paths_view(chunks@.take(i as int)), vs),
                    has_new_chunks == exists|k: int|
                        0 <= k < i && !has_key(vs, #[trigger] chunks@[k].path@),
                decreases chunks@.len() - i,
            {
                let path = &chunks[i].path;
                let ghost prefix = paths_view(chunks@.take(i + 1));
                assert(prefix.drop_last() =~= paths_view(chunks@.take(i as int)));
                assert(prefix.last() == path@);
                match versions.find(path) {
                    Some(j) => {
                        proof {
                            let p = position_of(vs, path@);
                            assert(has_key(vs, path@));
                            assert(vs[p].0 == path@ && vs[j as int].0 == path@);
                        }
                        to_diff.push((i, j));
                    },
                    None => {
                        has_new_chunks = true;
                    },
                }
                i = i + 1;
            }
            assert(chunks@.take(i as int) =~= chunks@);
            DiffPlan { to_diff, has_new_chunks }
        },
    }
}

/// A diff only ever pairs a chunk with the previous version of the same path, in chunk order, and
/// skips the chunks the previous aggregate does not know.
pub proof fn law_diff_pairs_match_paths<V>(
    paths: Seq<Seq<char>>,
    versions: Seq<(Seq<char>, V)>,
    k: int,
)
    requires
        0 <= k < diff_pairs(paths, versions).len(),
        paths.len() <= usize::MAX,
        versions.len() <= usize::MAX,
    ensures
        ({
            let (i, j) = diff_pairs(paths, versions)[k];
            &&& i < paths.len()
            &&& j < versions.len()
            &&& versions[j as int].0 == paths[i as int]
        }),
    decreases paths.len(),
{
    let init = paths.drop_last();
    let rest = diff_pairs(init, versions);
    if k < rest.len() {
        law_diff_pairs_match_paths(init, versions, k);
        let (i, j) = rest[k];
        assert(diff_pairs(paths, versions)[k] == rest[k]);
        assert(paths[i as int] == init[i as int]);
    } else {
        let p = position_of(versions, paths.last());
        assert(has_key(versions, paths.last()));
        assert(0 <= p < versions.len() && versions[p].0 == paths.last());
    }
}

/// Whether `==` on merged updates is reflexive, as an `Eq` type's is.
pub open spec fn eq_is_reflexive<M: PartialEq>() -> bool {
    forall|x: M| #[trigger] x.eq_spec(&x)
}

/// Adding updates only appends: what was there stays, in place.
pub proof fn lemma_with_all_merged_extends<M: PartialEq>(merged: Seq<M>, updates: Seq<M>)
    ensures
        with_all_merged(merged, updates).len() >= merged.len(),
        forall|j: int| 0 <= j < merged.len() ==> #[trigger] with_all_merged(merged, updates)[j] == merged[j],
    decreases updates.len(),
{
    if updates.len() > 0 {
        lemma_with_all_merged_extends(merged, updates.drop_last());
    }
}

/// With a reflexive `==`, every added update is held afterwards.
pub proof fn lemma_with_all_merged_holds_all<M: PartialEq>(merged: Seq<M>, updates: Seq<M>)
    requires
        eq_is_reflexive::<M>(),
    ensures
        forall|i: int|
            0 <= i < updates.len() ==> holds_update(with_all_merged(merged, updates), #[trigger] updates[i]),
    decreases updates.len(),
{
    if updates.len() > 0 {
        let init = updates.drop_last();
        let prev = with_all_merged(merged, init);
        let last = updates.last();
        lemma_with_all_merged_holds_all(merged, init);
        let after = with_merged(prev, last);
        assert forall|i: int| 0 <= i < updates.len() implies holds_update(after, #[trigger] updates[i]) by {
            if i < updates.len() - 1 {
                assert(init[i] == updates[i]);
                assert(holds_update(prev, updates[i]));
                let j = choose|j: int| 0 <= j < prev.len() && (#[trigger] prev[j]).eq_spec(&updates[i]);
                assert(after[j] == prev[j]);
            } else if !holds_update(prev, last) {
                assert(after[prev.len() as int] == last);
                assert(last.eq_spec(&last));
            }
        }
    }
}

/// Adding updates that are all held already changes nothing.
pub proof fn lemma_with_all_merged_held<M: PartialEq>(merged: Seq<M>, updates: Seq<M>)
    requires
        forall|i: int| 0 <= i < updates.len() ==> holds_update(merged, #[trigger] updates[i]),
    ensures
        with_all_merged(merged, updates) == merged,
    decreases updates.len(),
{
    if updates.len() > 0 {
        let init = updates.drop_last();
        assert forall|i: int| 0 <= i < init.len() implies holds_update(merged, #[trigger] init[i]) by {
            assert(init[i] == updates[i]);
        }
        lemma_with_all_merged_held(merged, init);
        assert(holds_update(merged, updates[updates.len() - 1]));
    }
}

/// Adding the same instruction a second time changes nothing: chunk updates already hold the last
/// value the instruction gives them, and merged updates are already held, provided `==` on merged
/// updates is reflexive.
pub proof fn law_add_instruction_twice_is_once<C, M: PartialEq>(
    state: BuilderState<C, M>,
    instruction: UpdateInstruction<C, M>,
)
    requires
        unique_keys(state.0),
        eq_is_reflexive::<M>(),
        after_instruction(state, instruction) is Some,
    ensures
        after_instruction(after_instruction(state, instruction)->Some_0, instruction)
            == after_instruction(state, instruction),
{
    match instruction {
        UpdateInstruction::Other => {},
        UpdateInstruction::Ecmascript(EcmascriptUpdateInstruction::ChunkList(update)) => {
            let pairs = pairs_view(update.chunks@);
            law_inserted_all_twice_is_once(state.0, pairs);
            lemma_with_all_merged_holds_all(state.1, update.merged@);
            lemma_with_all_merged_held(with_all_merged(state.1, update.merged@), update.merged@);
        },
        UpdateInstruction::Ecmascript(EcmascriptUpdateInstruction::Merged(update)) => {
            let once = with_merged(state.1, update);
            if !holds_update(state.1, update) {
                assert(once[state.1.len() as int] == update);
                assert(update.eq_spec(&update));
                assert(holds_update(once, update));
            }
        },
    }
}

/// Diffing the chunks against the aggregate version built from those same chunks finds no new
/// chunk and diffs every chunk, in order, against the version it handed in (the last one given
/// for its path).
pub proof fn law_diff_against_own_aggregate<V>(pairs: Seq<(Seq<char>, V)>)
    requires
        pairs.len() <= usize::MAX,
    ensures
        ({
            let versions = inserted_all(Seq::empty(), pairs);
            let paths = keys_of(pairs);
            let plan = diff_pairs(paths, versions);
            &&& forall|i: int| 0 <= i < paths.len() ==> has_key(versions, #[trigger] paths[i])
            &&& plan.len() == paths.len()
            &&& forall|k: int|
                0 <= k < plan.len() ==> {
                    &&& (#[trigger] plan[k]).0 == k
                    &&& plan[k].1 < versions.len()
                    &&& versions[plan[k].1 as int].0 == paths[k]
                    &&& Some(versions[plan[k].1 as int].1) == last_value(pairs, paths[k])
                }
        }),
{
    let versions = inserted_all(Seq::<(Seq<char>, V)>::empty(), pairs);
    let paths = keys_of(pairs);
    lemma_inserted_all_len(Seq::<(Seq<char>, V)>::empty(), pairs);
    lemma_inserted_all_lookup(Seq::<(Seq<char>, V)>::empty(), pairs, Seq::empty());
    assert forall|i: int| 0 <= i < paths.len() implies has_key(versions, #[trigger] paths[i]) && Some(
        lookup(versions, paths[i]),
    ) == last_value(pairs, paths[i]) by {
        assert(paths[i] == pairs[i].0);
        lemma_last_value_present(pairs, i);
        lemma_inserted_all_lookup(Seq::<(Seq<char>, V)>::empty(), pairs, pairs[i].0);
    }
    lemma_diff_pairs_all_known(paths, versions);
}

/// When every path is known, every chunk is planned, each against its own path's position.
pub proof fn lemma_diff_pairs_all_known<V>(paths: Seq<Seq<char>>, versions: Seq<(Seq<char>, V)>)
    requires
        paths.len() <= usize::MAX,
        versions.len() <= usize::MAX,
        unique_keys(versions),
        forall|i: int| 0 <= i < paths.len() ==> has_key(versions, #[trigger] paths[i]),
    ensures
        diff_pairs(paths, versions).len() == paths.len(),
        forall|k: int|
            0 <= k < paths.len() ==> {
                &&& (#[trigger] diff_pairs(paths, versions)[k]).0 == k
                &&& diff_pairs(paths, versions)[k].1 == position_of(versions, paths[k])
                &&& position_of(versions, paths[k]) < versions.len()
                &&& versions[position_of(versions, paths[k])].0 == paths[k]
            },
    decreases paths.len(),
{
    if paths.len() > 0 {
        let init = paths.drop_last();
        assert forall|i: int| 0 <= i < init.len() implies has_key(versions, #[trigger] init[i]) by {
            assert(init[i] == paths[i]);
        }
        lemma_diff_pairs_all_known(init, versions);
        assert(has_key(versions, paths[paths.len() - 1]));
        assert forall|k: int| 0 <= k < paths.len() implies {
            &&& (#[trigger] diff_pairs(paths, versions)[k]).0 == k
            &&& diff_pairs(paths, versions)[k].1 == position_of(versions, paths[k])
            &&& position_of(versions, paths[k]) < versions.len()
            &&& versions[position_of(versions, paths[k])].0 == paths[k]
        } by {
            assert(has_key(versions, paths[k]));
            let p = position_of(versions, paths[k]);
            assert(0 <= p < versions.len() && versions[p].0 == paths[k]);
            if k < paths.len() - 1 {
                assert(init[k] == paths[k]);
            }
        }
    }
}

/// Whether the batch has nothing that stops a fold: every update is unchanged or a partial
/// update with an ECMAScript instruction.
pub open spec fn applies_cleanly<C, M>(updates: Seq<Update<UpdateInstruction<C, M>>>) -> bool {
    forall|k: int|
        0 <= k < updates.len() ==> (#[trigger] updates[k] is Unchanged || updates[k] matches Update::Partial(
            UpdateInstruction::Ecmascript(_),
        ))
}

/// The chunk updates that the batch's chunk-list instructions carry, in order.
pub open spec fn carried_chunks<C, M>(updates: Seq<Update<UpdateInstruction<C, M>>>) -> Seq<
    (Seq<char>, C),
>
    decreases updates.len(),
{
    if updates.len() == 0 {
        Seq::empty()
    } else {
        carried_chunks(updates.drop_last()) + match updates.last() {
            Update::Partial(
                UpdateInstruction::Ecmascript(EcmascriptUpdateInstruction::ChunkList(update)),
            ) => pairs_view(update.chunks@),
            _ => Seq::empty(),
        }
    }
}

/// The merged updates that the batch's instructions carry, in order: those of each chunk-list
/// instruction, and each bare merged update.
pub open spec fn carried_merged<C, M>(updates: Seq<Update<UpdateInstruction<C, M>>>) -> Seq<M>
    decreases updates.len(),
{
    if updates.len() == 0 {
        Seq::empty()
    } else {
        carried_merged(updates.drop_last()) + match updates.last() {
            Update::Partial(
                UpdateInstruction::Ecmascript(EcmascriptUpdateInstruction::ChunkList(update)),
            ) => update.merged@,
            Update::Partial(UpdateInstruction::Ecmascript(EcmascriptUpdateInstruction::Merged(update))) => seq![update],
            _ => Seq::empty(),
        }
    }
}

/// Whether `merged` keeps `update`: it holds `update` itself or one `==` to it.
pub open spec fn keeps_update<M: PartialEq>(merged: Seq<M>, update: M) -> bool {
    exists|j: int| 0 <= j < merged.len() && (#[trigger] merged[j] == update || merged[j].eq_spec(&update))
}

/// Adding merged updates keeps what was there in place, keeps every added update (itself or one
/// `==` to it), and brings in nothing but the added updates.
pub proof fn law_with_all_merged_keeps_every_update<M: PartialEq>(merged: Seq<M>, updates: Seq<M>)
    ensures
        with_all_merged(merged, updates).len() >= merged.len(),
        forall|j: int| 0 <= j < merged.len() ==> #[trigger] with_all_merged(merged, updates)[j] == merged[j],
        forall|i: int| 0 <= i < updates.len() ==> keeps_update(with_all_merged(merged, updates), #[trigger] updates[i]),
        forall|j: int|
            merged.len() <= j < with_all_merged(merged, updates).len() ==> exists|i: int|
                0 <= i < updates.len() && #[trigger] with_all_merged(merged, updates)[j] == updates[i],
    decreases updates.len(),
{
    if updates.len() > 0 {
        let init = updates.drop_last();
        let last = updates.last();
        let prev = with_all_merged(merged, init);
        let after = with_merged(prev, last);
        law_with_all_merged_keeps_every_update(merged, init);
        assert forall|i: int| 0 <= i < updates.len() implies keeps_update(after, #[trigger] updates[i]) by {
            if i < updates.len() - 1 {
                assert(init[i] == updates[i]);
                let j = choose|j: int| 0 <= j < prev.len() && (#[trigger] prev[j] == init[i] || prev[j].eq_spec(&init[i]));
                assert(after[j] == prev[j]);
            } else if holds_update(prev, last) {
                let j = choose|j: int| 0 <= j < prev.len() && (#[trigger] prev[j]).eq_spec(&last);
            } else {
                assert(after[prev.len() as int] == last);
            }
        }
        assert forall|j: int| merged.len() <= j < after.len() implies exists|i: int|
            0 <= i < updates.len() && #[trigger] after[j] == updates[i] by {
            if j < prev.len() {
                let i = choose|i: int| 0 <= i < init.len() && #[trigger] prev[j] == init[i];
                assert(after[j] == prev[j]);
                assert(init[i] == updates[i]);
            } else {
                assert(after[j] == updates[updates.len() - 1]);
            }
        }
    }
}

/// Adding two lists of merged updates one after the other is adding their concatenation.
pub proof fn lemma_with_all_merged_concat<M: PartialEq>(merged: Seq<M>, first: Seq<M>, second: Seq<M>)
    ensures
        with_all_merged(with_all_merged(merged, first), second) == with_all_merged(merged, first + second),
    decreases second.len(),
{
    if second.len() == 0 {
        assert(first + second =~= first);
    } else {
        lemma_with_all_merged_concat(merged, first, second.drop_last());
        assert((first + second).drop_last() =~= first + second.drop_last());
        assert((first + second).last() == second.last());
    }
}

/// A batch that applies cleanly folds to the chunk updates and merged updates its instructions
/// carry: every chunk update inserted in order, every merged update added in order.
pub proof fn lemma_clean_fold_carries_every_instruction<C, M: PartialEq>(
    updates: Seq<Update<UpdateInstruction<C, M>>>,
)
    requires
        applies_cleanly(updates),
    ensures
        folded_updates(updates) == Folded::<C, M>::Built(
            (
                inserted_all(Seq::empty(), carried_chunks(updates)),
                with_all_merged(Seq::empty(), carried_merged(updates)),
            ),
        ),
    decreases updates.len(),
{
    if updates.len() > 0 {
        let init = updates.drop_last();
        assert forall|k: int| 0 <= k < init.len() implies (#[trigger] init[k] is Unchanged
            || init[k] matches Update::Partial(UpdateInstruction::Ecmascript(_))) by {
            assert(init[k] == updates[k]);
        }
        lemma_clean_fold_carries_every_instruction(init);
        let chunks = carried_chunks(init);
        let merged = carried_merged(init);
        let last = updates.last();
        assert(last == updates[updates.len() - 1]);
        match last {
            Update::Partial(
                UpdateInstruction::Ecmascript(EcmascriptUpdateInstruction::ChunkList(update)),
            ) => {
                lemma_inserted_all_concat(Seq::empty(), chunks, pairs_view(update.chunks@));
                lemma_with_all_merged_concat(Seq::empty(), merged, update.merged@);
                assert(carried_chunks(updates) == chunks + pairs_view(update.chunks@));
                assert(carried_merged(updates) == merged + update.merged@);
            },
            Update::Partial(UpdateInstruction::Ecmascript(EcmascriptUpdateInstruction::Merged(update))) => {
                assert(chunks + Seq::<(Seq<char>, C)>::empty() =~= chunks);
                lemma_with_all_merged_concat(Seq::empty(), merged, seq![update]);
                assert(seq![update].drop_last() =~= Seq::<M>::empty());
                assert(carried_chunks(updates) == chunks);
                assert(carried_merged(updates) == merged + seq![update]);
                let before = with_all_merged(Seq::<M>::empty(), merged);
                assert(with_all_merged(before, Seq::<M>::empty()) == before);
                assert(seq![update].last() == update);
                assert(with_all_merged(before, seq![update]) == with_merged(before, update));
            },
            _ => {
                assert(chunks + Seq::<(Seq<char>, C)>::empty() =~= chunks);
                assert(merged + Seq::<M>::empty() =~= merged);
                assert(carried_chunks(updates) == chunks);
                assert(carried_merged(updates) == merged);
            },
        }
    }
}

/// A pull whose updates apply cleanly and carry some chunk update or merged update returns a
/// partial update against `to`, whether or not new chunks appeared: each chunk carried is in the
/// instruction with the value of its last update, no other chunk is, every merged update carried
/// is kept, and no merged update comes from elsewhere.
pub proof fn law_clean_pull_applies_every_instruction<V, C, M: PartialEq>(
    result: Result<ServerHmrUpdate<V, C, M>, HmrError>,
    chunk_count: nat,
    to: V,
    diff: DiffResult<Update<UpdateInstruction<C, M>>>,
)
    requires
        pull_outcome(result, chunk_count, to, diff),
        chunk_count > 0,
        applies_cleanly(updates_of(diff.chunk_updates@)),
        carried_chunks(updates_of(diff.chunk_updates@)).len() > 0 || carried_merged(
            updates_of(diff.chunk_updates@),
        ).len() > 0,
    ensures
        result matches Ok(ServerHmrUpdate::Partial { to: t, instruction }) && t == to && {
            let chunks = pairs_view(instruction.chunks@);
            let carried = carried_chunks(updates_of(diff.chunk_updates@));
            let merged_carried = carried_merged(updates_of(diff.chunk_updates@));
            &&& forall|key: Seq<char>| #[trigger] has_key(chunks, key) <==> last_value(carried, key) is Some
            &&& forall|key: Seq<char>|
                #[trigger] last_value(carried, key) is Some ==> lookup(chunks, key) == last_value(
                    carried,
                    key,
                )->Some_0
            &&& forall|i: int|
                0 <= i < merged_carried.len() ==> keeps_update(instruction.merged@, #[trigger] merged_carried[i])
            &&& forall|j: int|
                0 <= j < instruction.merged@.len() ==> exists|i: int|
                    0 <= i < merged_carried.len() && #[trigger] instruction.merged@[j] == merged_carried[i]
        },
{
    let us = updates_of(diff.chunk_updates@);
    let carried = carried_chunks(us);
    let merged_carried = carried_merged(us);
    lemma_clean_fold_carries_every_instruction(us);
    let chunks = inserted_all(Seq::<(Seq<char>, C)>::empty(), carried);
    let merged = with_all_merged(Seq::<M>::empty(), merged_carried);
    law_with_all_merged_keeps_every_update(Seq::<M>::empty(), merged_carried);
    assert forall|key: Seq<char>| #[trigger] has_key(chunks, key) <==> last_value(carried, key) is Some by {
        lemma_inserted_all_lookup(Seq::<(Seq<char>, C)>::empty(), carried, key);
    }
    assert forall|key: Seq<char>| #[trigger] last_value(carried, key) is Some implies lookup(chunks, key)
        == last_value(carried, key)->Some_0 by {
        lemma_inserted_all_lookup(Seq::<(Seq<char>, C)>::empty(), carried, key);
    }
    if carried.len() > 0 {
        lemma_last_value_present(carried, 0);
        lemma_inserted_all_lookup(Seq::<(Seq<char>, C)>::empty(), carried, carried[0].0);
        assert(chunks.len() > 0);
    } else {
        assert(keeps_update(merged, merged_carried[0]));
        assert(merged.len() > 0);
    }
    if diff.chunk_updates@.len() == 0 {
        assert(us.len() == 0);
        assert(carried =~= Seq::<(Seq<char>, C)>::empty());
        assert(merged_carried =~= Seq::<M>::empty());
    }
}

/// A clean pull that carries nothing to apply reports the new version when new chunks appeared or
/// when nothing could be diffed, and nothing otherwise.
pub proof fn law_clean_empty_pull_reports_version_or_nothing<V, C, M: PartialEq>(
    result: Result<ServerHmrUpdate<V, C, M>, HmrError>,
    chunk_count: nat,
    to: V,
    diff: DiffResult<Update<UpdateInstruction<C, M>>>,
)
    requires
        pull_outcome(result, chunk_count, to, diff),
        chunk_count > 0,
        applies_cleanly(updates_of(diff.chunk_updates@)),
        carried_chunks(updates_of(diff.chunk_updates@)).len() == 0,
        carried_merged(updates_of(diff.chunk_updates@)).len() == 0,
    ensures
        result == Ok::<ServerHmrUpdate<V, C, M>, HmrError>(
            if diff.has_new_chunks || diff.chunk_updates@.len() == 0 {
                ServerHmrUpdate::Version { to }
            } else {
                ServerHmrUpdate::Nothing
            },
        ),
{
    let us = updates_of(diff.chunk_updates@);
    lemma_clean_fold_carries_every_instruction(us);
    assert(carried_chunks(us) =~= Seq::<(Seq<char>, C)>::empty());
    assert(carried_merged(us) =~= Seq::<M>::empty());
}

/// All-or-nothing restart, for the pull: once a chunk needs a `Missing` or `Total` update, and no
/// earlier partial instruction is a foreign one, the pull restarts against `to`, whether or not new
/// chunks appeared.
pub proof fn law_pull_restarts_on_any_total_update<V, C, M: PartialEq>(
    result: Result<ServerHmrUpdate<V, C, M>, HmrError>,
    chunk_count: nat,
    to: V,
    diff: DiffResult<Update<UpdateInstruction<C, M>>>,
    k: int,
)
    requires
        pull_outcome(result, chunk_count, to, diff),
        chunk_count > 0,
        0 <= k < diff.chunk_updates@.len(),
        diff.chunk_updates@[k].1 is Missing || diff.chunk_updates@[k].1 is Total,
        forall|j: int|
            0 <= j < k ==> !(#[trigger] diff.chunk_updates@[j].1 matches Update::Partial(
                UpdateInstruction::Other,
            )),
    ensures
        result == Ok::<ServerHmrUpdate<V, C, M>, HmrError>(ServerHmrUpdate::Restart { to }),
{
    let us = updates_of(diff.chunk_updates@);
    assert(us[k] == diff.chunk_updates@[k].1);
    assert forall|j: int| 0 <= j < k implies !(#[trigger] us[j] matches Update::Partial(
        UpdateInstruction::Other,
    )) by {
        assert(us[j] == diff.chunk_updates@[j].1);
    }
    law_any_total_update_restarts_the_batch(us, k);
}

/// A foreign instruction fails the pull when every update before it applies cleanly.
pub proof fn law_pull_fails_on_a_foreign_instruction<V, C, M: PartialEq>(
    result: Result<ServerHmrUpdate<V, C, M>, HmrError>,
    chunk_count: nat,
    to: V,
    diff: DiffResult<Update<UpdateInstruction<C, M>>>,
    k: int,
)
    requires
        pull_outcome(result, chunk_count, to, diff),
        chunk_count > 0,
        0 <= k < diff.chunk_updates@.len(),
        diff.chunk_updates@[k].1 matches Update::Partial(UpdateInstruction::Other),
        applies_cleanly(updates_of(diff.chunk_updates@).take(k)),
    ensures
        result == Err::<ServerHmrUpdate<V, C, M>, HmrError>(HmrError::NotEcmascriptInstruction),
{
    let us = updates_of(diff.chunk_updates@);
    lemma_clean_fold_carries_every_instruction(us.take(k));
    assert(us.take(k + 1).drop_last() =~= us.take(k));
    assert(us.take(k + 1).last() == us[k]);
    lemma_fold_stops(us, k + 1);
}

/// A pull over no chunks reports nothing, whatever the diff holds.
pub proof fn law_pull_without_chunks_reports_nothing<V, C, M: PartialEq>(
    result: Result<ServerHmrUpdate<V, C, M>, HmrError>,
    to: V,
    diff: DiffResult<Update<UpdateInstruction<C, M>>>,
)
    requires
        pull_outcome(result, 0, to, diff),
    ensures
        result == Ok::<ServerHmrUpdate<V, C, M>, HmrError>(ServerHmrUpdate::Nothing),
{
}

/// A diff misses no chunk the previous aggregate knows: each such chunk is paired with the
/// position of its path's previous version, and the pairs come in chunk order.
pub proof fn law_diff_pairs_cover_known_chunks<V>(
    paths: Seq<Seq<char>>,
    versions: Seq<(Seq<char>, V)>,
)
    requires
        paths.len() <= usize::MAX,
        versions.len() <= usize::MAX,
    ensures
        forall|i: int|
            0 <= i < paths.len() && has_key(versions, #[trigger] paths[i]) ==> exists|k: int|
                0 <= k < diff_pairs(paths, versions).len() && #[trigger] diff_pairs(paths, versions)[k]
                    == (i as usize, position_of(versions, paths[i]) as usize),
        forall|k1: int, k2: int|
            0 <= k1 < k2 < diff_pairs(paths, versions).len() ==> (#[trigger] diff_pairs(paths, versions)[k1]).0
                < (#[trigger] diff_pairs(paths, versions)[k2]).0,
        forall|k: int|
            0 <= k < diff_pairs(paths, versions).len() ==> (#[trigger] diff_pairs(paths, versions)[k]).0
                < paths.len(),
    decreases paths.len(),
{
    if paths.len() > 0 {
        let init = paths.drop_last();
        let rest = diff_pairs(init, versions);
        let all = diff_pairs(paths, versions);
        law_diff_pairs_cover_known_chunks(init, versions);
        assert forall|i: int|
            0 <= i < paths.len() && has_key(versions, #[trigger] paths[i]) implies exists|k: int|
                0 <= k < all.len() && #[trigger] all[k] == (i as usize, position_of(versions, paths[i]) as usize) by {
            if i < paths.len() - 1 {
                assert(init[i] == paths[i]);
                let k = choose|k: int|
                    0 <= k < rest.len() && #[trigger] rest[k] == (i as usize, position_of(versions, init[i]) as usize);
                assert(all[k] == rest[k]);
            } else {
                assert(all[rest.len() as int] == (i as usize, position_of(versions, paths[i]) as usize));
            }
        }
        assert forall|k: int| 0 <= k < all.len() implies (#[trigger] all[k]).0 < paths.len() by {
            if k < rest.len() {
                assert(all[k] == rest[k]);
            }
        }
        assert forall|k1: int, k2: int| 0 <= k1 < k2 < all.len() implies (#[trigger] all[k1]).0 < (
        #[trigger] all[k2]).0 by {
            assert(all[k1] == rest[k1]);
            if k2 < rest.len() {
                assert(all[k2] == rest[k2]);
            }
        }
    }
}

} // verus!
