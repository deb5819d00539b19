use orbit_wars::reproduction::reproduction_child_parent_sequence;
use orbit_wars::schedule::{
    assignment_permutation_stride, captures_generation_replay, captures_live_replay,
    chunk_size_for_workers, decode_sample_index, expected_self_play_game_count, game_assignments,
    greatest_common_divisor, grouped_tournament_schedule, live_replay_capture_count,
    require_population_for_player_count, scheduled_generation, should_write_live_replay,
    tournament_schedule, validate_active_player_count, worker_count_for_len, ScheduleError,
};

#[test]
fn decode_sample_index_offsets_from_first_recorded_sample() {
    const FIRST_RECORDED_SAMPLE: usize = 10;
    const THIRD_REQUEST_INDEX: usize = 2;

    assert_eq!(
        decode_sample_index(Some(FIRST_RECORDED_SAMPLE), THIRD_REQUEST_INDEX),
        Some(FIRST_RECORDED_SAMPLE + THIRD_REQUEST_INDEX)
    );
    assert_eq!(decode_sample_index(None, THIRD_REQUEST_INDEX), None);
}

#[test]
fn game_assignments_count_participations_not_focus_games() {
    let population_size = 16;
    let games_per_model = 20;
    let players_per_game = 4;
    let assignments = game_assignments(population_size, games_per_model, players_per_game, 4).unwrap();
    let expected_game_count = population_size * games_per_model / players_per_game;
    assert_eq!(assignments.len(), expected_game_count);

    let mut participation_counts = vec![0usize; population_size];
    for assignment in assignments {
        for player_slot in 0..players_per_game {
            let model_index = assignment.model_indices[player_slot];
            assert!(!assignment.model_indices[..player_slot].contains(&model_index));
            participation_counts[model_index] += 1;
        }
    }
    assert!(participation_counts.iter().all(|count| *count == games_per_model));
}

#[test]
fn game_assignments_seat_every_model_once_per_round() {
    let assignments = game_assignments(6, 3, 2, 4).unwrap();
    assert_eq!(assignments.len(), 9);
    for round in 0..3 {
        let mut seen = vec![0usize; 6];
        for game in &assignments[round * 3..round * 3 + 3] {
            seen[game.model_indices[0]] += 1;
            seen[game.model_indices[1]] += 1;
            assert_eq!(game.model_indices[2], 0);
            assert_eq!(game.model_indices[3], 0);
        }
        assert!(seen.iter().all(|count| *count == 1));
    }
    // stride 5 for six models in two-player games: rank * 5 + round, modulo 6
    assert_eq!(assignments[0].model_indices, [0, 5, 0, 0]);
    assert_eq!(assignments[1].model_indices, [4, 3, 0, 0]);
    assert_eq!(assignments[3].model_indices, [1, 0, 0, 0]);
}

#[test]
fn game_assignments_report_each_refusal() {
    assert_eq!(game_assignments(8, 1, 4, 3).err(), Some(ScheduleError::RequiresFourOwnerSlots));
    assert_eq!(game_assignments(8, 1, 3, 4).err(), Some(ScheduleError::InvalidPlayersPerGame(3)));
    assert_eq!(
        game_assignments(2, 1, 4, 4).err(),
        Some(ScheduleError::PopulationLessThanPlayers { population: 2, players: 4 })
    );
    assert_eq!(
        game_assignments(6, 1, 4, 4).err(),
        Some(ScheduleError::PopulationNotDivisible { population: 6, players: 4 })
    );
    assert_eq!(
        game_assignments(1 << (usize::BITS - 1), 4, 2, 4).err(),
        Some(ScheduleError::ParticipationOverflow)
    );
}

#[test]
fn expected_game_count_matches_schedule() {
    assert_eq!(expected_self_play_game_count(8, 3, 4), Ok(6));
    assert_eq!(expected_self_play_game_count(8, 3, 3), Err(ScheduleError::InvalidPlayersPerGame(3)));
    assert_eq!(game_assignments(8, 3, 4, 4).unwrap().len(), 6);
}

#[test]
fn player_count_and_population_checks() {
    assert!(validate_active_player_count(2).is_ok());
    assert!(validate_active_player_count(4).is_ok());
    assert_eq!(validate_active_player_count(1), Err(ScheduleError::InvalidPlayersPerGame(1)));
    assert!(require_population_for_player_count(4, 4).is_ok());
    assert_eq!(
        require_population_for_player_count(3, 4),
        Err(ScheduleError::PopulationLessThanPlayers { population: 3, players: 4 })
    );
}

#[test]
fn gcd_and_permutation_stride() {
    assert_eq!(greatest_common_divisor(12, 18), 6);
    assert_eq!(greatest_common_divisor(7, 0), 7);
    assert_eq!(greatest_common_divisor(0, 5), 5);
    assert_eq!(assignment_permutation_stride(8, 4), Ok(5));
    assert_eq!(assignment_permutation_stride(6, 2), Ok(5));
    assert_eq!(
        assignment_permutation_stride(0, 2),
        Err(ScheduleError::CoprimeStrideMissing { population: 0, players: 2 })
    );
    assert_eq!(assignment_permutation_stride(usize::MAX, 2), Err(ScheduleError::StrideSearchOverflow));
}

#[test]
fn reproduction_deals_children_round_robin() {
    assert_eq!(reproduction_child_parent_sequence(&[3, 1, 2]), Ok(vec![0, 2, 0]));
    assert_eq!(reproduction_child_parent_sequence(&[1, 1]), Ok(vec![]));
    assert_eq!(reproduction_child_parent_sequence(&[4, 3]), Ok(vec![0, 1, 0, 1, 0]));
    assert_eq!(
        reproduction_child_parent_sequence(&[2, 0, 1]),
        Err(ScheduleError::ParentSlotBelowEliteCopy)
    );
}

#[test]
fn reproduction_gives_each_parent_its_slots_minus_one() {
    let slots = [5usize, 2, 1, 3];
    let sequence = reproduction_child_parent_sequence(&slots).unwrap();
    assert_eq!(sequence.len(), 4 + 1 + 0 + 2);
    for (parent, slot) in slots.iter().enumerate() {
        assert_eq!(sequence.iter().filter(|p| **p == parent).count(), slot - 1);
    }
}

#[test]
fn tournament_schedule_rotates_and_reverses() {
    assert_eq!(tournament_schedule(5, 2, 2), vec![vec![0, 1], vec![2, 3], vec![1, 0], vec![4, 3]]);
    assert!(tournament_schedule(0, 2, 2).is_empty());
    assert!(tournament_schedule(3, 4, 2).is_empty());
    for game in tournament_schedule(7, 3, 5) {
        assert_ne!(game[0], game[1]);
        assert_ne!(game[1], game[2]);
        assert_ne!(game[0], game[2]);
    }
}

#[test]
fn grouped_tournament_keeps_groups_together() {
    assert_eq!(
        grouped_tournament_schedule(4, 2, 3),
        vec![vec![0, 1], vec![0, 1], vec![0, 1], vec![2, 3], vec![2, 3], vec![2, 3]]
    );
    assert_eq!(
        grouped_tournament_schedule(3, 3, 2),
        vec![vec![0, 1, 2], vec![0, 2, 1]]
    );
    assert!(grouped_tournament_schedule(4, 0, 3).is_empty());
}

#[test]
fn worker_and_chunk_sizes() {
    assert_eq!(worker_count_for_len(0), 1);
    assert_eq!(worker_count_for_len(5), 5);
    assert_eq!(worker_count_for_len(100), 12);
    assert_eq!(chunk_size_for_workers(10, 3), 4);
    assert_eq!(chunk_size_for_workers(9, 3), 3);
    assert_eq!(chunk_size_for_workers(0, 0), 1);
    assert_eq!(chunk_size_for_workers(7, 0), 7);
}

#[test]
fn replay_capture_rules() {
    assert!(scheduled_generation(10, 5));
    assert!(!scheduled_generation(11, 5));
    assert_eq!(live_replay_capture_count(10, true, 4), 4);
    assert_eq!(live_replay_capture_count(3, true, 4), 3);
    assert_eq!(live_replay_capture_count(10, false, 4), 0);
    assert!(captures_live_replay(2, 3));
    assert!(!captures_live_replay(3, 3));
    assert!(captures_generation_replay(0, 1));
    assert!(!captures_generation_replay(1, 1));
    assert!(should_write_live_replay(1, 10, 5));
    assert!(!should_write_live_replay(0, 10, 5));
    assert!(!should_write_live_replay(1, 11, 5));
    assert!(!should_write_live_replay(0, 11, 0));
}

#[test]
fn generation_tournament_uses_twenty_participations_per_champion_model() {
    const EXPECTED_TOURNAMENT_PARTICIPATIONS_PER_MODEL: usize = 20;
    const VALIDATION_GAMES_PER_MODEL: usize = 20;
    const VALIDATION_MAX_MODELS: usize = 16;
    const PLAYER_COUNT_FOUR: usize = 4;
    assert_eq!(VALIDATION_GAMES_PER_MODEL, EXPECTED_TOURNAMENT_PARTICIPATIONS_PER_MODEL);
    let assignments =
        game_assignments(VALIDATION_MAX_MODELS, VALIDATION_GAMES_PER_MODEL, PLAYER_COUNT_FOUR, 4).unwrap();
    let expected_game_count = VALIDATION_MAX_MODELS * VALIDATION_GAMES_PER_MODEL / PLAYER_COUNT_FOUR;
    assert_eq!(assignments.len(), expected_game_count);
}
