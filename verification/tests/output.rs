use orbit_wars::decimal::{push_decimal, push_padded_decimal, push_signed_decimal};
use orbit_wars::live_replay::{
    live_replay_result_record, opponent_label_for_slot, push_i32, push_isize_as_i32,
    push_string, push_usize_as_u32, LiveReplayError, LiveReplayField,
};
use orbit_wars::paths::{
    generation_log_path, generation_top_models_path, generation_top_models_public_path, json_bool,
    legacy_live_replay_slot_file_path, live_replay_file_path, live_replay_public_path,
    replay_chunk_path, replay_game_file_path, replay_game_public_path,
};
use orbit_wars::schedule::GameAssignment;
use orbit_wars::stats::{PlayerStats, ReplayChunkRecord};
use orbit_wars::telemetry::{models_json, progress_models_json, replay_chunks_json};
use orbit_wars::text::parse_usize_bytes;

#[test]
fn decimal_rendering_matches_format() {
    for value in [0usize, 7, 10, 99, 100, 12345, usize::MAX] {
        let mut buffer = Vec::new();
        push_decimal(&mut buffer, value);
        assert_eq!(buffer, format!("{value}").into_bytes());
        assert_eq!(parse_usize_bytes(&buffer), Some(value));
    }
    let mut padded = Vec::new();
    push_padded_decimal(&mut padded, 7, 3);
    push_padded_decimal(&mut padded, 1234, 3);
    assert_eq!(padded, b"0071234".to_vec());
    for value in [0i64, -1, 42, i64::MIN, i64::MAX] {
        let mut buffer = Vec::new();
        push_signed_decimal(&mut buffer, value);
        assert_eq!(buffer, format!("{value}").into_bytes());
    }
}

#[test]
fn artifact_paths_follow_the_dashboard_layout() {
    assert_eq!(
        generation_log_path(b"run", 12),
        b"dashboard/public/telemetry/generation_logs/run/generation_12.json".to_vec()
    );
    assert_eq!(replay_chunk_path(b"r", 3), b"dashboard/public/telemetry/replays_r_generation_3.json".to_vec());
    assert_eq!(
        replay_game_file_path(b"r", 3, 14),
        b"dashboard/public/telemetry/replay_games/r/generation_3_game_14.json".to_vec()
    );
    assert_eq!(replay_game_public_path(b"r", 3, 14), b"/telemetry/replay_games/r/generation_3_game_14.json".to_vec());
    assert_eq!(live_replay_file_path(b"r", 0), b"dashboard/public/telemetry/live_r_generation_0.owlive".to_vec());
    assert_eq!(live_replay_public_path(b"r", 0), b"/telemetry/live_r_generation_0.owlive".to_vec());
    assert_eq!(
        legacy_live_replay_slot_file_path(b"r", 5),
        b"dashboard/public/telemetry/live_r_generation_5.owslot".to_vec()
    );
    assert_eq!(
        generation_top_models_path(b"r", 5),
        b"dashboard/public/telemetry/generation_models/r/generation_5_top4.owmodels".to_vec()
    );
    assert_eq!(
        generation_top_models_public_path(b"r", 5),
        b"/telemetry/generation_models/r/generation_5_top4.owmodels".to_vec()
    );
    assert_eq!(json_bool(true), "true");
    assert_eq!(json_bool(false), "false");
}

#[test]
fn replay_chunks_json_lists_each_record() {
    let records = [
        ReplayChunkRecord { generation: 1, game_count: 4, actual_game_count: 1 },
        ReplayChunkRecord { generation: 2, game_count: 6, actual_game_count: 2 },
    ];
    let expected = r#"{"generation":1,"path":"/telemetry/replays_run_generation_1.json","gameCount":4,"actualGameCount":1},{"generation":2,"path":"/telemetry/replays_run_generation_2.json","gameCount":6,"actualGameCount":2}"#;
    assert_eq!(replay_chunks_json(b"run", &records), expected.as_bytes().to_vec());
    assert!(replay_chunks_json(b"run", &[]).is_empty());
}

#[test]
fn progress_models_json_marks_first_model_selected() {
    let json = String::from_utf8(progress_models_json(2)).unwrap();
    assert!(json.starts_with(r#"{"id":"M-000","parent":"pending","rating":600,"#));
    assert!(json.contains(r#""selected":true},{"id":"M-001""#));
    assert!(json.ends_with(r#""selected":false}"#));
    assert!(progress_models_json(0).is_empty());
}

#[test]
fn models_json_reports_arena_totals() {
    let stats = [PlayerStats {
        wins: 2,
        draws: 1,
        losses: 5,
        launch_actions: 4,
        launched_ships: 40,
        captures: 3,
        fleet_hits: 2,
        hit_ships: -7,
        sun_destroyed_fleets: 1,
        sun_destroyed_ships: 9,
    }];
    let json = String::from_utf8(models_json(&stats, b"base")).unwrap();
    assert_eq!(
        json,
        r#"{"id":"P-0","parent":"base","rating":570,"wins":2,"draws":1,"losses":5,"games":8,"captures":3,"fleetHits":2,"hitShips":-7,"sunDestroyedFleets":1,"sunDestroyedShips":9,"outOfBoundsFleets":0,"outOfBoundsShips":0,"launchActions":4,"launchedShips":40,"avgFleetSize":0.0,"mutation":"none","selected":true}"#
    );
}

#[test]
fn live_replay_numbers_are_little_endian() {
    let mut buffer = Vec::new();
    assert_eq!(push_usize_as_u32(&mut buffer, 258, LiveReplayField::GameIndex), Ok(()));
    push_i32(&mut buffer, -2);
    assert_eq!(push_isize_as_i32(&mut buffer, 5, LiveReplayField::CometPathIndex), Ok(()));
    assert_eq!(push_string(&mut buffer, b"ab", LiveReplayField::OpponentLabel), Ok(()));
    assert_eq!(buffer, vec![2, 1, 0, 0, 0xfe, 0xff, 0xff, 0xff, 5, 0, 0, 0, 2, 0, 0, 0, b'a', b'b']);
    let before = buffer.clone();
    assert_eq!(
        push_usize_as_u32(&mut buffer, 1usize << 40, LiveReplayField::ModelIndex),
        Err(LiveReplayError::Overflow(LiveReplayField::ModelIndex))
    );
    assert_eq!(
        push_isize_as_i32(&mut buffer, -(1isize << 40), LiveReplayField::CometPathIndex),
        Err(LiveReplayError::Overflow(LiveReplayField::CometPathIndex))
    );
    assert_eq!(buffer, before);
}

#[test]
fn live_replay_result_record_keeps_shared_players() {
    let record = live_replay_result_record(1, 3, &[5, -5, 7, 9], 4, 2).unwrap();
    assert_eq!(record, vec![3, 1, 0, 0, 0, 2, 0, 0, 0, 5, 0, 0, 0, 0xfb, 0xff, 0xff, 0xff]);
    assert_eq!(
        live_replay_result_record(3, 3, &[0; 4], 2, 2).err(),
        Some(LiveReplayError::GameIndexOutOfRange(3))
    );
}

#[test]
fn opponent_labels_name_the_other_models() {
    let assignment = GameAssignment { model_indices: [3, 12, 7, 0] };
    assert_eq!(opponent_label_for_slot(&assignment, 3, 1), b"M-003/M-007".to_vec());
    assert_eq!(opponent_label_for_slot(&assignment, 2, 0), b"M-012".to_vec());
    assert_eq!(opponent_label_for_slot(&assignment, 4, 3), b"M-003/M-012/M-007".to_vec());
}
