use orbit_wars::keyed_items::{dedup_generation_win_rate_items, dedup_metric_records, latest_by_key};
use orbit_wars::replay_chunks::{
    merge_replay_chunk_items, replay_chunk_artifact_items, replay_chunks_json_preserving_existing,
};
use orbit_wars::generation_log::{distinct_game_count, generation_log_json};
use orbit_wars::replay_history::{prune_replay_history, replay_chunk_records_from_replay_games};
use orbit_wars::reproduction::model_selected;
use orbit_wars::stats::ReplayChunkRecord;

fn record(generation: usize) -> ReplayChunkRecord {
    ReplayChunkRecord { generation, game_count: 8, actual_game_count: 2 }
}

fn bytes(text: &str) -> Vec<u8> {
    text.as_bytes().to_vec()
}

fn text(bytes: &[u8]) -> String {
    String::from_utf8(bytes.to_vec()).unwrap()
}

#[test]
fn replay_history_keeps_retained_generations() {
    let mut history = vec![record(1), record(2), record(3), record(2), record(5)];
    let removed = prune_replay_history(&mut history, &[5, 2]);
    assert_eq!(history, vec![record(2), record(2), record(5)]);
    assert_eq!(removed, vec![1, 3]);
}

#[test]
fn replay_history_removed_generations_are_sorted_and_distinct() {
    let mut history = vec![record(9), record(4), record(9), record(7)];
    let removed = prune_replay_history(&mut history, &[]);
    assert!(history.is_empty());
    assert_eq!(removed, vec![4, 7, 9]);
}

#[test]
fn artifact_items_skip_excluded_generations() {
    let items = replay_chunk_artifact_items(b"r", &[1, 2, 3], &[2]);
    assert_eq!(
        items,
        vec![
            bytes("{\"generation\":1,\"path\":\"/telemetry/replays_r_generation_1.json\",\"gameCount\":40,\"actualGameCount\":10}"),
            bytes("{\"generation\":3,\"path\":\"/telemetry/replays_r_generation_3.json\",\"gameCount\":40,\"actualGameCount\":10}"),
        ]
    );
}

#[test]
fn merge_keeps_first_item_of_each_generation() {
    let json = merge_replay_chunk_items(
        vec![bytes("{\"generation\":1,\"a\":1}")],
        &[
            bytes("{\"generation\":1,\"b\":1}"),
            bytes("{\"x\":1}"),
            bytes("{\"generation\":4}"),
            bytes("{\"generation\":4,\"c\":1}"),
        ],
        bytes("{\"generation\":9}"),
    );
    assert_eq!(
        text(&json),
        "{\"generation\":1,\"a\":1},{\"x\":1},{\"generation\":4},{\"generation\":9}"
    );
    assert_eq!(text(&merge_replay_chunk_items(Vec::new(), &[], Vec::new())), "");
}

#[test]
fn replay_chunks_preserve_earlier_generations() {
    let telemetry = vec![
        bytes("{\"generation\":0,\"old\":true}"),
        bytes("{\"generation\":2,\"old\":true}"),
    ];
    let json = replay_chunks_json_preserving_existing(b"r", &[0, 2], &telemetry, &[record(2)]);
    assert_eq!(
        text(&json),
        "{\"generation\":0,\"path\":\"/telemetry/replays_r_generation_0.json\",\"gameCount\":40,\"actualGameCount\":10},{\"generation\":2,\"path\":\"/telemetry/replays_r_generation_2.json\",\"gameCount\":8,\"actualGameCount\":2}"
    );
}

#[test]
fn latest_entry_of_each_key_in_key_order() {
    let items = latest_by_key(&[
        ((2, 1), bytes("a")),
        ((1, 5), bytes("b")),
        ((2, 1), bytes("c")),
        ((1, 0), bytes("d")),
    ]);
    assert_eq!(items, vec![bytes("d"), bytes("b"), bytes("c")]);
}

#[test]
fn metric_records_dedup_by_generation() {
    let items = dedup_metric_records(
        &[(2, bytes("b")), (1, bytes("a")), (2, bytes("c")), (3, bytes("d"))],
        &[3],
    );
    assert_eq!(items, vec![bytes("a"), bytes("c")]);
}

#[test]
fn win_rate_records_override_earlier_items() {
    let existing = vec![
        bytes("{\"validationGeneration\":2,\"evaluatedGeneration\":1,\"winRate\":0.5}"),
        bytes("{\"validationGeneration\":3,\"evaluatedGeneration\":0,\"winRate\":0.1}"),
        bytes("{\"foo\":1}"),
    ];
    let items = dedup_generation_win_rate_items(
        &existing,
        &[((1, 1), bytes("r11")), ((2, 1), bytes("r21"))],
    );
    assert_eq!(
        items,
        vec![
            bytes("r11"),
            bytes("r21"),
            bytes("{\"validationGeneration\":3,\"evaluatedGeneration\":0,\"winRate\":0.1}"),
        ]
    );
}

#[test]
fn replay_chunk_records_count_views_and_games() {
    let records = replay_chunk_records_from_replay_games(&[(3, 0), (1, 5), (3, 0), (3, 2), (1, 5)]);
    assert_eq!(
        records,
        vec![
            ReplayChunkRecord { generation: 1, game_count: 2, actual_game_count: 1 },
            ReplayChunkRecord { generation: 3, game_count: 3, actual_game_count: 2 },
        ]
    );
    assert!(replay_chunk_records_from_replay_games(&[]).is_empty());
}

#[test]
fn generation_log_lists_top_models() {
    assert_eq!(distinct_game_count(&[4, 1, 4, 4, 2]), 3);
    let log = generation_log_json(b"run", 5, b"{\"m\":1}", &[0, 0, 1], &[(7, 3), (2, -1), (0, 0)], 2);
    assert_eq!(
        text(&log),
        "{\n  \"runId\": \"run\",\n  \"generation\": 5,\n  \"metric\": {\"m\":1},\n  \"replayChunkPath\": \"/telemetry/replays_run_generation_5.json\",\n  \"replayGameCount\": 3,\n  \"actualReplayGameCount\": 2,\n  \"topModelsPath\": \"/telemetry/generation_models/run/generation_5_top4.owmodels\",\n  \"topModels\": [{\"modelIndex\":7,\"modelId\":\"M-007\",\"reward\":3},{\"modelIndex\":2,\"modelId\":\"M-002\",\"reward\":-1}]\n}\n"
    );
}

#[test]
fn model_selection_looks_at_the_elites_only() {
    assert!(model_selected(&[4, 2, 9], 2, 2));
    assert!(!model_selected(&[4, 2, 9], 2, 9));
    assert!(!model_selected(&[4, 2, 9], 0, 4));
    assert!(model_selected(&[4], 5, 4));
}

fn generation_validation_item(
    validation_generation: usize,
    evaluated_generation: usize,
    model_count: usize,
    games: usize,
    wins: usize,
    draws: usize,
    losses: usize,
    win_rate: f32,
) -> Vec<u8> {
    format!(
        "{{\"validationGeneration\":{validation_generation},\"evaluatedGeneration\":{evaluated_generation},\"modelCount\":{model_count},\"games\":{games},\"wins\":{wins},\"draws\":{draws},\"losses\":{losses},\"winRate\":{win_rate:.6}}}"
    )
    .into_bytes()
}

#[test]
fn generation_win_rate_json_dedups_by_validation_and_evaluated_generation() {
    const VALIDATION_GENERATION: usize = 32;
    const FIRST_EVALUATED_GENERATION: usize = 31;
    const SECOND_EVALUATED_GENERATION: usize = 32;
    const TEST_MODEL_COUNT: usize = 4;
    const TEST_GAME_COUNT: usize = 40;
    const OLD_WIN_COUNT: usize = 4;
    const NEW_WIN_COUNT: usize = 30;
    const DRAW_COUNT: usize = 0;
    const OLD_LOSS_COUNT: usize = 36;
    const NEW_LOSS_COUNT: usize = 10;
    const SECOND_WIN_COUNT: usize = 14;
    const SECOND_LOSS_COUNT: usize = 26;
    const UPDATED_WIN_RATE: f32 = 0.75;

    let existing_items = vec![
        format!(
            "{{\"validationGeneration\":{VALIDATION_GENERATION},\"evaluatedGeneration\":{FIRST_EVALUATED_GENERATION},\"modelCount\":{TEST_MODEL_COUNT},\"games\":{TEST_GAME_COUNT},\"wins\":{OLD_WIN_COUNT},\"draws\":{DRAW_COUNT},\"losses\":{OLD_LOSS_COUNT},\"winRate\":0.100000}}"
        )
        .into_bytes(),
        format!(
            "{{\"validationGeneration\":{VALIDATION_GENERATION},\"evaluatedGeneration\":{FIRST_EVALUATED_GENERATION},\"modelCount\":{TEST_MODEL_COUNT},\"games\":{TEST_GAME_COUNT},\"wins\":{OLD_WIN_COUNT},\"draws\":{DRAW_COUNT},\"losses\":{OLD_LOSS_COUNT},\"winRate\":0.100000}}"
        )
        .into_bytes(),
        format!(
            "{{\"validationGeneration\":{VALIDATION_GENERATION},\"evaluatedGeneration\":{SECOND_EVALUATED_GENERATION},\"modelCount\":{TEST_MODEL_COUNT},\"games\":{TEST_GAME_COUNT},\"wins\":{SECOND_WIN_COUNT},\"draws\":{DRAW_COUNT},\"losses\":{SECOND_LOSS_COUNT},\"winRate\":0.350000}}"
        )
        .into_bytes(),
    ];
    let records = vec![(
        (VALIDATION_GENERATION, FIRST_EVALUATED_GENERATION),
        generation_validation_item(
            VALIDATION_GENERATION,
            FIRST_EVALUATED_GENERATION,
            TEST_MODEL_COUNT,
            TEST_GAME_COUNT,
            NEW_WIN_COUNT,
            DRAW_COUNT,
            NEW_LOSS_COUNT,
            UPDATED_WIN_RATE,
        ),
    )];

    let deduped = dedup_generation_win_rate_items(&existing_items, &records);
    let joined = deduped
        .iter()
        .map(|item| String::from_utf8(item.clone()).unwrap())
        .collect::<Vec<_>>()
        .join(",");

    assert_eq!(deduped.len(), 2);
    assert_eq!(
        joined
            .matches(&format!("\"evaluatedGeneration\":{FIRST_EVALUATED_GENERATION}"))
            .count(),
        1
    );
    assert!(joined.contains("\"winRate\":0.750000"));
    assert!(!joined.contains("\"winRate\":0.100000"));
}
