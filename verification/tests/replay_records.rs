use orbit_wars::live_replay::{live_replay_header_record, LiveReplayError, LiveReplayField};
use orbit_wars::replay_frame::{
    live_replay_frame_record, push_replay_frame_binary, FrameCometGroup, FrameFleet, FramePlanet,
    ReplayFrameBits,
};
use orbit_wars::live_compaction::{compact_live_replay, indexed_replay_games_json, replay_chunk_json};
use orbit_wars::replay_games::{replay_actual_games, replay_games_from_evaluation, ReplayGameEntry};
use orbit_wars::replay_history::replay_chunk_records_from_replay_games;
use orbit_wars::schedule::{game_assignments, GameAssignment};
use orbit_wars::stats::{replay_chunk_record_game_count, ReplayChunkRecord};
use orbit_wars::telemetry::replay_chunks_json;
use std::collections::BTreeMap;

fn u32_le(value: u32) -> Vec<u8> {
    value.to_le_bytes().to_vec()
}

fn i32_le(value: i32) -> Vec<u8> {
    value.to_le_bytes().to_vec()
}

fn f32_le(value: f32) -> Vec<u8> {
    value.to_le_bytes().to_vec()
}

fn string(text: &str) -> Vec<u8> {
    let mut bytes = u32_le(text.len() as u32);
    bytes.extend_from_slice(text.as_bytes());
    bytes
}

#[test]
fn header_names_captured_games_and_opponents() {
    let assignments = [
        GameAssignment { model_indices: [0, 3, 9, 9] },
        GameAssignment { model_indices: [1, 2, 9, 9] },
        GameAssignment { model_indices: [4, 5, 9, 9] },
    ];
    let header = live_replay_header_record(7, &assignments, 2, 2).unwrap();
    let mut expected = b"OWLIVE1\n".to_vec();
    expected.push(1);
    expected.extend(u32_le(7));
    expected.extend(u32_le(2));
    expected.extend(u32_le(2));
    for (game, (first, second)) in [(0u32, (0u32, 3u32)), (1, (1, 2))] {
        expected.extend(u32_le(game));
        expected.extend(u32_le(2));
        expected.extend(u32_le(first));
        expected.extend(string(&format!("M-{second:03}")));
        expected.extend(u32_le(second));
        expected.extend(string(&format!("M-{first:03}")));
    }
    assert_eq!(header, expected);
}

#[test]
fn header_captures_at_most_the_games_there_are() {
    let assignments = [GameAssignment { model_indices: [0, 1, 2, 3] }];
    let header = live_replay_header_record(0, &assignments, 5, 4).unwrap();
    let label = "M-001/M-002/M-003";
    assert!(header.windows(label.len()).any(|window| window == label.as_bytes()));
    assert_eq!(&header[17..21], &u32_le(1)[..]);
}

#[test]
fn header_refuses_values_beyond_u32() {
    if usize::BITS > 32 {
        let big = u32::MAX as usize + 1;
        assert_eq!(
            live_replay_header_record(big, &[], 0, 2),
            Err(LiveReplayError::Overflow(LiveReplayField::Generation))
        );
        let assignments = [GameAssignment { model_indices: [big, 0, 0, 0] }];
        assert_eq!(
            live_replay_header_record(1, &assignments, 1, 2),
            Err(LiveReplayError::Overflow(LiveReplayField::ModelIndex))
        );
    }
}

fn sample_frame() -> ReplayFrameBits {
    ReplayFrameBits {
        step: 12,
        planets: vec![FramePlanet {
            id: 3,
            owner: -1,
            x: 10.5f32.to_bits(),
            y: 20.0f32.to_bits(),
            radius: 1.0f32.to_bits(),
            ships: 7.0f32.to_bits(),
            production: 2.0f32.to_bits(),
        }],
        fleets: vec![FrameFleet {
            id: 4,
            owner: 1,
            x: 1.0f32.to_bits(),
            y: 2.0f32.to_bits(),
            angle: 0.5f32.to_bits(),
            ships: 9.0f32.to_bits(),
        }],
        comet_groups: vec![FrameCometGroup {
            planet_ids: vec![100, 101],
            paths: vec![vec![(3.0f32.to_bits(), 4.0f32.to_bits())], vec![]],
            path_index: -1,
        }],
    }
}

#[test]
fn frame_binary_layout() {
    let mut bytes = Vec::new();
    push_replay_frame_binary(&mut bytes, &sample_frame()).unwrap();
    let mut expected = Vec::new();
    expected.extend(u32_le(12));
    expected.extend(u32_le(1));
    expected.extend(i32_le(3));
    expected.extend(i32_le(-1));
    for value in [10.5f32, 20.0, 1.0, 7.0, 2.0] {
        expected.extend(f32_le(value));
    }
    expected.extend(u32_le(1));
    expected.extend(i32_le(4));
    expected.extend(i32_le(1));
    for value in [1.0f32, 2.0, 0.5, 9.0] {
        expected.extend(f32_le(value));
    }
    expected.extend(u32_le(1));
    expected.extend(u32_le(2));
    expected.extend(i32_le(100));
    expected.extend(i32_le(101));
    expected.extend(u32_le(2));
    expected.extend(u32_le(1));
    expected.extend(f32_le(3.0));
    expected.extend(f32_le(4.0));
    expected.extend(u32_le(0));
    expected.extend(i32_le(-1));
    assert_eq!(bytes, expected);
}

#[test]
fn frame_record_checks_game_index() {
    let record = live_replay_frame_record(1, 2, &sample_frame()).unwrap();
    assert_eq!(record[0], 2);
    assert_eq!(&record[1..5], &u32_le(1)[..]);
    assert_eq!(
        live_replay_frame_record(2, 2, &sample_frame()).err(),
        Some(LiveReplayError::GameIndexOutOfRange(2))
    );
}

#[test]
fn frame_refuses_path_index_beyond_i32() {
    let mut frame = sample_frame();
    frame.comet_groups[0].path_index = i32::MAX as isize + 1;
    let mut bytes = Vec::new();
    if isize::BITS > 32 {
        assert_eq!(
            push_replay_frame_binary(&mut bytes, &frame),
            Err(LiveReplayError::Overflow(LiveReplayField::CometPathIndex))
        );
        // Everything before the path index was written.
        let mut whole = Vec::new();
        let mut fitting = sample_frame();
        fitting.comet_groups[0].path_index = 0;
        push_replay_frame_binary(&mut whole, &fitting).unwrap();
        assert_eq!(bytes, whole[..whole.len() - 4].to_vec());
    }
}

fn entry(generation: usize, game_index: usize, model_index: usize, label: &str, reward: i32) -> ReplayGameEntry {
    ReplayGameEntry {
        generation,
        game_index,
        model_index,
        opponent_label: label.as_bytes().to_vec(),
        reward,
    }
}

#[test]
fn replay_views_group_by_game_in_order() {
    let entries = vec![
        entry(2, 1, 5, "M-003", 1),
        entry(1, 7, 3, "M-005", -1),
        entry(2, 1, 3, "M-005", -1),
        entry(2, 0, 8, "M-001", 0),
        entry(1, 7, 5, "M-003", 1),
        entry(2, 1, 4, "M-003", 0),
    ];
    assert_eq!(replay_actual_games(&entries), vec![vec![4, 1], vec![3], vec![5, 0, 2]]);
    assert!(replay_actual_games(&[]).is_empty());
}

fn entry_fields(entry: &ReplayGameEntry) -> (usize, usize, usize, String, i32) {
    (
        entry.generation,
        entry.game_index,
        entry.model_index,
        String::from_utf8(entry.opponent_label.clone()).unwrap(),
        entry.reward,
    )
}

#[test]
fn evaluation_views_one_entry_per_captured_seat() {
    let assignments = [
        GameAssignment { model_indices: [0, 3, 9, 9] },
        GameAssignment { model_indices: [1, 2, 9, 9] },
        GameAssignment { model_indices: [4, 5, 9, 9] },
    ];
    let rewards = [[1, -1, 0, 0], [-1, 1, 0, 0]];
    let entries = replay_games_from_evaluation(6, &assignments, &rewards, 2, 5);
    let fields: Vec<_> = entries.iter().map(entry_fields).collect();
    assert_eq!(
        fields,
        vec![
            (6, 0, 0, "M-003".to_string(), 1),
            (6, 0, 3, "M-000".to_string(), -1),
            (6, 1, 1, "M-002".to_string(), -1),
            (6, 1, 2, "M-001".to_string(), 1),
        ]
    );
    let four = replay_games_from_evaluation(1, &[GameAssignment { model_indices: [7, 8, 10, 11] }], &[[0, 1, -1, 0]], 4, 1);
    assert_eq!(four.len(), 4);
    assert_eq!(four[2].opponent_label, b"M-007/M-008/M-011".to_vec());
    assert_eq!(four[2].reward, -1);
    assert!(replay_games_from_evaluation(1, &assignments, &rewards, 2, 0).is_empty());
}

#[test]
fn compaction_writes_header_frames_and_results() {
    let entries = vec![entry(4, 2, 1, "M-000", -1), entry(4, 2, 0, "M-001", 1)];
    let frames = vec![vec![sample_frame()], vec![]];
    let bytes = compact_live_replay(4, 2, &entries, &frames).unwrap().unwrap();
    let mut expected = b"OWLIVE1\n".to_vec();
    expected.push(1);
    expected.extend(u32_le(4));
    expected.extend(u32_le(2));
    expected.extend(u32_le(1));
    expected.extend(u32_le(2));
    expected.extend(u32_le(2));
    expected.extend(u32_le(1));
    expected.extend(string("M-000"));
    expected.extend(u32_le(0));
    expected.extend(string("M-001"));
    expected.push(2);
    expected.extend(u32_le(2));
    let mut frame = Vec::new();
    push_replay_frame_binary(&mut frame, &sample_frame()).unwrap();
    expected.extend(frame);
    expected.push(3);
    expected.extend(u32_le(2));
    expected.extend(u32_le(2));
    expected.extend(i32_le(-1));
    expected.extend(i32_le(1));
    assert_eq!(bytes, expected);
    assert_eq!(compact_live_replay(4, 2, &[], &[]), Ok(None));
}

#[test]
fn indexed_replay_games_list_paths_and_participants() {
    let entries = vec![entry(4, 2, 1, "M-000", -1), entry(4, 2, 0, "M-001", 1), entry(4, 3, 7, "M-002/M-005", 0)];
    let groups = vec![vec![0, 1], vec![], vec![2]];
    let json = indexed_replay_games_json(b"run", 4, &entries, &groups, &[12, 12, 5]);
    assert_eq!(
        String::from_utf8(json).unwrap(),
        "{\"generation\":4,\"gameIndex\":2,\"path\":\"/telemetry/replay_games/run/generation_4_game_2.json\",\"frameCount\":12,\"participants\":[{\"modelId\":\"M-001\",\"opponentId\":\"M-000\",\"reward\":-1},{\"modelId\":\"M-000\",\"opponentId\":\"M-001\",\"reward\":1}]},{\"generation\":4,\"gameIndex\":3,\"path\":\"/telemetry/replay_games/run/generation_4_game_3.json\",\"frameCount\":5,\"participants\":[{\"modelId\":\"M-007\",\"opponentId\":\"M-002/M-005\",\"reward\":0}]}"
    );
}

#[test]
fn replay_chunk_indexes_games_or_lists_none() {
    let entries = vec![entry(4, 3, 7, "M-002", 0), entry(4, 2, 1, "M-000", -1), entry(4, 2, 0, "M-001", 1)];
    let chunk = replay_chunk_json(b"run", 4, &entries, &[5, 12, 12]);
    assert_eq!(
        String::from_utf8(chunk).unwrap(),
        "{\n  \"generation\": 4,\n  \"format\": \"indexed_replay_v1\",\n  \"actualGameCount\": 2,\n  \"gameCount\": 3,\n  \"games\": [{\"generation\":4,\"gameIndex\":2,\"path\":\"/telemetry/replay_games/run/generation_4_game_2.json\",\"frameCount\":12,\"participants\":[{\"modelId\":\"M-001\",\"opponentId\":\"M-000\",\"reward\":-1},{\"modelId\":\"M-000\",\"opponentId\":\"M-001\",\"reward\":1}]},{\"generation\":4,\"gameIndex\":3,\"path\":\"/telemetry/replay_games/run/generation_4_game_3.json\",\"frameCount\":5,\"participants\":[{\"modelId\":\"M-007\",\"opponentId\":\"M-002\",\"reward\":0}]}]\n}\n"
    );
    assert_eq!(
        String::from_utf8(replay_chunk_json(b"run", 9, &[], &[])).unwrap(),
        "{\n  \"generation\": 9,\n  \"format\": \"compact_replay_v2\",\n  \"games\": []\n}\n"
    );
}

const FIRST_GENERATION: usize = 1;
const PLAYER_COUNT_FOUR: usize = 4;
const SMOKE_POPULATION_SIZE: usize = 8;
const SMOKE_GAMES_PER_MODEL: usize = 4;
const REWARD_WIN: i32 = 1;

fn smoke_assignments() -> Vec<GameAssignment> {
    game_assignments(SMOKE_POPULATION_SIZE, SMOKE_GAMES_PER_MODEL, PLAYER_COUNT_FOUR, 4).unwrap()
}

#[test]
fn replay_games_expose_every_participant_model() {
    let assignments = smoke_assignments();
    let rewards = vec![[REWARD_WIN; 4]; assignments.len()];
    let replay_games =
        replay_games_from_evaluation(FIRST_GENERATION, &assignments, &rewards, PLAYER_COUNT_FOUR, assignments.len());
    assert_eq!(replay_games.len(), SMOKE_POPULATION_SIZE * SMOKE_GAMES_PER_MODEL);

    let mut replay_counts = vec![0usize; SMOKE_POPULATION_SIZE];
    for replay_game in replay_games {
        let self_label = format!("M-{:03}", replay_game.model_index);
        let opponent_label = String::from_utf8(replay_game.opponent_label).unwrap();
        assert!(!opponent_label.contains(&self_label));
        replay_counts[replay_game.model_index] += 1;
    }
    assert!(replay_counts.iter().all(|count| *count == SMOKE_GAMES_PER_MODEL));
}

#[test]
fn replay_games_limit_actual_games_per_generation() {
    const CAPTURED_ACTUAL_GAMES: usize = 2;
    let assignments = smoke_assignments();
    let rewards = vec![[REWARD_WIN; 4]; assignments.len()];
    let replay_games =
        replay_games_from_evaluation(FIRST_GENERATION, &assignments, &rewards, PLAYER_COUNT_FOUR, CAPTURED_ACTUAL_GAMES);
    assert_eq!(replay_games.len(), CAPTURED_ACTUAL_GAMES * PLAYER_COUNT_FOUR);
    let mut game_view_counts = BTreeMap::<usize, usize>::new();
    for replay_game in replay_games {
        *game_view_counts.entry(replay_game.game_index).or_default() += 1;
    }
    assert_eq!(game_view_counts.len(), CAPTURED_ACTUAL_GAMES);
    assert!(game_view_counts.values().all(|count| *count == PLAYER_COUNT_FOUR));
}

#[test]
fn replay_chunk_records_keep_counts_without_frame_payloads() {
    const CAPTURED_ACTUAL_GAMES: usize = 2;
    let assignments = smoke_assignments();
    let rewards = vec![[REWARD_WIN; 4]; assignments.len()];
    let replay_games =
        replay_games_from_evaluation(FIRST_GENERATION, &assignments, &rewards, PLAYER_COUNT_FOUR, CAPTURED_ACTUAL_GAMES);
    let games = replay_games
        .iter()
        .map(|game| (game.generation, game.game_index))
        .collect::<Vec<_>>();
    let records = replay_chunk_records_from_replay_games(&games);

    assert_eq!(
        records,
        vec![ReplayChunkRecord {
            generation: FIRST_GENERATION,
            game_count: CAPTURED_ACTUAL_GAMES * PLAYER_COUNT_FOUR,
            actual_game_count: CAPTURED_ACTUAL_GAMES,
        }]
    );
    assert_eq!(
        String::from_utf8(replay_chunks_json(b"test_run", &records)).unwrap(),
        "{\"generation\":1,\"path\":\"/telemetry/replays_test_run_generation_1.json\",\"gameCount\":8,\"actualGameCount\":2}"
    );
    assert_eq!(replay_chunk_record_game_count(&records), CAPTURED_ACTUAL_GAMES * PLAYER_COUNT_FOUR);
}
