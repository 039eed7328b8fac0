use turbo_gc_hmr::hmr::{
    compute_server_hmr_update, compute_server_hmr_update_from_versions, diff_chunks_against, AggregateHmrVersion, ChunkListUpdate,
    ChunkListUpdateBuilder, DiffResult, EcmascriptUpdateInstruction, HmrChunkWithContent,
    HmrError, ServerHmrUpdate, Update, UpdateInstruction,
};

fn chunks(paths: &[&str]) -> Vec<HmrChunkWithContent<u32>> {
    paths
        .iter()
        .enumerate()
        .map(|(i, p)| HmrChunkWithContent { path: p.to_string(), content: i as u32 })
        .collect()
}

fn some_chunks(n: usize) -> Vec<HmrChunkWithContent<u32>> {
    (0..n).map(|i| HmrChunkWithContent { path: format!("chunk{i}.js"), content: i as u32 }).collect()
}

#[derive(Clone, Debug, PartialEq)]
enum ChunkUpdate {
    Total,
    Added,
    Deleted,
}

#[derive(Clone, Debug, PartialEq)]
enum MergedChunkUpdate {
    Deleted { modules: Vec<String> },
}

#[derive(Clone, Debug, PartialEq)]
struct MergedUpdate {
    entries: Vec<(String, String)>,
    chunks: Vec<(String, MergedChunkUpdate)>,
}

fn merged(chunk_path: &str) -> MergedUpdate {
    MergedUpdate {
        entries: Default::default(),
        chunks: vec![(
            chunk_path.to_string(),
            MergedChunkUpdate::Deleted { modules: Default::default() },
        )],
    }
}

type Instruction = UpdateInstruction<ChunkUpdate, MergedUpdate>;

fn merged_instruction(update: MergedUpdate) -> Instruction {
    UpdateInstruction::Ecmascript(EcmascriptUpdateInstruction::Merged(update))
}

fn chunk_list_instruction(
    chunks: Vec<(&str, ChunkUpdate)>,
    merged: Vec<MergedUpdate>,
) -> Instruction {
    UpdateInstruction::Ecmascript(EcmascriptUpdateInstruction::ChunkList(ChunkListUpdate {
        chunks: chunks.into_iter().map(|(p, u)| (p.to_string(), u)).collect(),
        merged,
    }))
}

#[test]
fn deduplicates_merged_updates_in_first_seen_order() {
    let first = merged("first.js");
    let second = merged("second.js");
    let mut builder = ChunkListUpdateBuilder::<ChunkUpdate, MergedUpdate>::new();

    builder.add_instruction(merged_instruction(first.clone())).unwrap();
    builder.add_instruction(merged_instruction(second.clone())).unwrap();
    builder.add_instruction(merged_instruction(first.clone())).unwrap();

    assert_eq!(builder.build().merged, vec![first, second]);
}

#[test]
fn chunk_updates_use_last_writer_and_stable_order() {
    let mut builder = ChunkListUpdateBuilder::<ChunkUpdate, MergedUpdate>::new();
    let first = chunk_list_instruction(
        vec![("a.js", ChunkUpdate::Total), ("b.js", ChunkUpdate::Added)],
        vec![],
    );
    let second = chunk_list_instruction(
        vec![("a.js", ChunkUpdate::Deleted), ("c.js", ChunkUpdate::Total)],
        vec![],
    );

    builder.add_instruction(first).unwrap();
    builder.add_instruction(second).unwrap();

    let update = builder.build();
    assert_eq!(
        update.chunks.iter().map(|(path, _)| path.as_str()).collect::<Vec<_>>(),
        ["a.js", "b.js", "c.js"]
    );
    assert_eq!(update.chunks[0].1, ChunkUpdate::Deleted);
}

#[test]
fn non_ecmascript_instruction_is_refused_and_changes_nothing() {
    let mut builder = ChunkListUpdateBuilder::<ChunkUpdate, MergedUpdate>::new();
    assert_eq!(builder.add_instruction(UpdateInstruction::Other), Err(HmrError::NotEcmascriptInstruction));
    assert!(builder.is_empty());
    assert_eq!(
        HmrError::NotEcmascriptInstruction.message(),
        "aggregate HMR only accepts ECMAScript update instructions"
    );
}

#[test]
fn chunk_list_merged_updates_are_deduplicated_too() {
    let mut builder = ChunkListUpdateBuilder::<ChunkUpdate, MergedUpdate>::new();
    builder
        .add_instruction(chunk_list_instruction(
            vec![("x.js", ChunkUpdate::Added)],
            vec![merged("m.js"), merged("m.js"), merged("n.js")],
        ))
        .unwrap();
    assert!(!builder.is_empty());
    let update = builder.build();
    assert_eq!(update.merged, vec![merged("m.js"), merged("n.js")]);
    assert_eq!(update.chunks, vec![("x.js".to_string(), ChunkUpdate::Added)]);
}

fn diff(updates: Vec<Update<Instruction>>, has_new_chunks: bool) -> DiffResult<Update<Instruction>> {
    DiffResult {
        chunk_updates: updates
            .into_iter()
            .enumerate()
            .map(|(i, u)| (format!("chunk{i}.js"), u))
            .collect(),
        has_new_chunks,
    }
}

fn kind(result: Result<ServerHmrUpdate<u32, ChunkUpdate, MergedUpdate>, HmrError>) -> String {
    match result {
        Ok(ServerHmrUpdate::Nothing) => "nothing".to_string(),
        Ok(ServerHmrUpdate::Version { to }) => format!("version {to}"),
        Ok(ServerHmrUpdate::Restart { to }) => format!("restart {to}"),
        Ok(ServerHmrUpdate::Partial { to, instruction }) => format!(
            "partial {to} {} {}",
            instruction.chunks.len(),
            instruction.merged.len()
        ),
        Err(HmrError::NotEcmascriptInstruction) => "error".to_string(),
    }
}

#[test]
fn no_chunks_means_nothing_changed() {
    assert_eq!(kind(compute_server_hmr_update(&some_chunks(0), 7, diff(vec![Update::Total], true))), "nothing");
}

#[test]
fn undiffable_previous_version_only_advances() {
    assert_eq!(kind(compute_server_hmr_update(&some_chunks(2), 7, diff(vec![], false))), "version 7");
}

#[test]
fn any_total_or_missing_update_restarts_the_batch() {
    let updates = vec![
        Update::Partial(merged_instruction(merged("a.js"))),
        Update::Unchanged,
        Update::Total,
        Update::Partial(UpdateInstruction::Other),
    ];
    assert_eq!(kind(compute_server_hmr_update(&some_chunks(4), 7, diff(updates, false))), "restart 7");
    assert_eq!(kind(compute_server_hmr_update(&some_chunks(1), 8, diff(vec![Update::Missing], false))), "restart 8");
}

#[test]
fn a_foreign_instruction_before_a_restart_fails_the_pull() {
    let updates = vec![Update::Partial(UpdateInstruction::Other), Update::Total];
    assert_eq!(kind(compute_server_hmr_update(&some_chunks(2), 7, diff(updates, false))), "error");
}

#[test]
fn partial_updates_are_combined() {
    let updates = vec![
        Update::Partial(chunk_list_instruction(vec![("a.js", ChunkUpdate::Added)], vec![merged("m.js")])),
        Update::Unchanged,
        Update::Partial(merged_instruction(merged("m.js"))),
        Update::Partial(chunk_list_instruction(vec![("b.js", ChunkUpdate::Total)], vec![])),
    ];
    assert_eq!(kind(compute_server_hmr_update(&some_chunks(4), 9, diff(updates, false))), "partial 9 2 1");
}

#[test]
fn empty_combination_reports_new_chunks_as_a_version() {
    let updates = vec![Update::Unchanged, Update::Unchanged];
    assert_eq!(kind(compute_server_hmr_update(&some_chunks(3), 5, diff(updates, true))), "version 5");
    let updates = vec![Update::Unchanged];
    assert_eq!(kind(compute_server_hmr_update(&some_chunks(1), 5, diff(updates, false))), "nothing");
    assert_eq!(kind(compute_server_hmr_update(&some_chunks(1), 5, diff(vec![], true))), "version 5");
}

#[test]
fn aggregate_version_keeps_the_last_version_of_a_path() {
    let aggregate = AggregateHmrVersion::from_chunks(vec![
        ("a.js".to_string(), 1u32),
        ("b.js".to_string(), 2),
        ("a.js".to_string(), 3),
    ]);
    assert_eq!(aggregate.versions.len(), 2);
    assert_eq!(aggregate.versions.find(&"a.js".to_string()), Some(0));
    assert_eq!(*aggregate.versions.value_at(0), 3);
    assert_eq!(*aggregate.versions.value_at(1), 2);
}

#[test]
fn diff_plans_known_chunks_and_flags_new_ones() {
    let aggregate = AggregateHmrVersion::from_chunks(vec![
        ("a.js".to_string(), 10u32),
        ("b.js".to_string(), 20),
    ]);
    let paths = chunks(&["b.js", "new.js", "a.js"]);
    let plan = diff_chunks_against(&paths, Some(&aggregate));
    assert_eq!(plan.to_diff, vec![(0, 1), (2, 0)]);
    assert!(plan.has_new_chunks);

    let plan = diff_chunks_against(&chunks(&["b.js"]), Some(&aggregate));
    assert_eq!(plan.to_diff, vec![(0, 1)]);
    assert!(!plan.has_new_chunks);

    let plan = diff_chunks_against::<u32, u32>(&paths, None);
    assert!(plan.to_diff.is_empty());
    assert!(!plan.has_new_chunks);

    let plan = diff_chunks_against(&chunks(&[]), Some(&aggregate));
    assert!(plan.to_diff.is_empty());
    assert!(!plan.has_new_chunks);
}

#[test]
fn adding_the_same_instruction_twice_is_adding_it_once() {
    let make = || {
        chunk_list_instruction(
            vec![("a.js", ChunkUpdate::Added), ("b.js", ChunkUpdate::Total), ("a.js", ChunkUpdate::Deleted)],
            vec![merged("m.js"), merged("n.js")],
        )
    };
    let mut once = ChunkListUpdateBuilder::<ChunkUpdate, MergedUpdate>::new();
    once.add_instruction(make()).unwrap();
    let mut twice = ChunkListUpdateBuilder::<ChunkUpdate, MergedUpdate>::new();
    twice.add_instruction(make()).unwrap();
    twice.add_instruction(make()).unwrap();
    let (once, twice) = (once.build(), twice.build());
    assert_eq!(once.chunks, twice.chunks);
    assert_eq!(once.merged, twice.merged);
}

#[test]
fn diffing_against_the_own_aggregate_plans_every_chunk() {
    let current = chunks(&["a.js", "b.js", "a.js"]);
    let aggregate = AggregateHmrVersion::from_chunks(
        current.iter().map(|c| (c.path.clone(), c.content)).collect(),
    );
    let plan = diff_chunks_against(&current, Some(&aggregate));
    assert!(!plan.has_new_chunks);
    assert_eq!(plan.to_diff, vec![(0, 0), (1, 1), (2, 0)]);
    assert_eq!(*aggregate.versions.value_at(0), 2);
}

fn handed_versions(
    result: Result<ServerHmrUpdate<AggregateHmrVersion<u32>, ChunkUpdate, MergedUpdate>, HmrError>,
) -> Option<(String, Vec<(String, u32)>)> {
    let (kind, to) = match result {
        Ok(ServerHmrUpdate::Nothing) | Err(_) => return None,
        Ok(ServerHmrUpdate::Version { to }) => ("version", to),
        Ok(ServerHmrUpdate::Restart { to }) => ("restart", to),
        Ok(ServerHmrUpdate::Partial { to, .. }) => ("partial", to),
    };
    Some((kind.to_string(), to.versions.into_vec()))
}

#[test]
fn a_pull_hands_back_the_aggregate_of_the_current_versions() {
    let current = chunks(&["a.js", "b.js", "a.js"]);
    let handed = handed_versions(compute_server_hmr_update_from_versions(
        &current,
        vec![1, 2, 3],
        diff(vec![], false),
    ));
    assert_eq!(
        handed,
        Some(("version".to_string(), vec![("a.js".to_string(), 3), ("b.js".to_string(), 2)]))
    );

    let handed = handed_versions(compute_server_hmr_update_from_versions(
        &chunks(&["x.js"]),
        vec![5],
        diff(vec![Update::Total], false),
    ));
    assert_eq!(handed, Some(("restart".to_string(), vec![("x.js".to_string(), 5)])));

    let handed = handed_versions(compute_server_hmr_update_from_versions(
        &chunks(&[]),
        vec![],
        diff(vec![Update::Total], true),
    ));
    assert_eq!(handed, None);
}
