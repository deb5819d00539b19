use orbit_wars::events::{PlayerStepEvents, SimulationStepEvents};
use orbit_wars::game_state::{alive_players, is_terminal, player_has_owned_planet};
use orbit_wars::map_rng::{
    home_planets, map_seed, HomePlanetError, MapRng, MapSeedError, MAP_RNG_INCREMENT, MAP_RNG_MULTIPLIER,
    MAP_SEED_BASE,
};
use orbit_wars::schedule::GameAssignment;
use orbit_wars::stats::{
    add_stats, compare_step_stats, replay_chunk_record_game_count, winner_index,
    OrbitWarsCudaSimStats, PipelineStats, PlayerStats, ReplayChunkRecord,
};
use orbit_wars::types::{comet_order, AmountClass, EncodedState, PlayerScore};

#[test]
fn amount_class_from_index_covers_sixteen_classes() {
    assert_eq!(AmountClass::from_index(0), Some(AmountClass::AllIn));
    assert_eq!(AmountClass::from_index(3), Some(AmountClass::Percent67));
    assert_eq!(AmountClass::from_index(15), Some(AmountClass::Ships2000));
    assert_eq!(AmountClass::from_index(16), None);
}

#[test]
fn active_rows_skip_empty_rows() {
    let state = EncodedState { row_planet_ids: vec![4, -1, 0, -1, 9] };
    assert_eq!(state.active_row_indices(), vec![0, 2, 4]);
    assert!(EncodedState { row_planet_ids: vec![-1, -1] }.active_row_indices().is_empty());
}

#[test]
fn comet_order_ranks_comets_after_planets() {
    assert_eq!(comet_order(7, &[3, 7, 9]), 1);
    assert_eq!(comet_order(5, &[3, 7, 9]), 3);
    assert_eq!(comet_order(3, &[3, 3]), 0);
}

#[test]
fn step_events_default_to_zero_counters() {
    let mut events = SimulationStepEvents::default();
    assert_eq!(events.player(2), PlayerStepEvents::default());
    let mut counters = events.player(2);
    counters.launched_fleet_count += 1;
    counters.launched_ship_count += 10;
    events.set_player(2, counters);
    assert_eq!(events.player(2).launched_fleet_count, 1);
    assert_eq!(events.player(2).launched_ship_count, 10);
    assert_eq!(events.player(1), PlayerStepEvents::default());
}

#[test]
fn terminal_when_only_one_player_alive() {
    assert!(is_terminal(3, 500, &[0, -1, -1, 0], &[0]));
    assert!(!is_terminal(3, 500, &[0, 1, -1], &[]));
    assert!(is_terminal(500, 500, &[0, 1], &[2]));
    assert!(!is_terminal(3, 500, &[0, -1], &[1]));
    let alive = alive_players(&[2, -1, 0], &[2, 3]);
    assert_eq!(alive.into_iter().collect::<Vec<_>>(), vec![0, 2, 3]);
    assert!(player_has_owned_planet(&[1, 2], 2));
    assert!(!player_has_owned_planet(&[1, 2], 0));
}

#[test]
fn winner_index_requires_a_unique_leader() {
    let scores = [
        PlayerScore { player: 0, ships: 10 },
        PlayerScore { player: 1, ships: 30 },
        PlayerScore { player: 2, ships: 30 },
    ];
    assert_eq!(winner_index(&scores, 2), Some(1));
    assert_eq!(winner_index(&scores, 3), None);
    assert_eq!(winner_index(&scores, 1), Some(0));
    assert_eq!(winner_index(&[], 2), None);
}

#[test]
fn add_stats_sums_every_counter() {
    let mut target = PlayerStats {
        wins: 1,
        draws: 2,
        losses: 3,
        launch_actions: 4,
        launched_ships: -5,
        captures: 6,
        fleet_hits: 7,
        hit_ships: 8,
        sun_destroyed_fleets: 9,
        sun_destroyed_ships: 10,
    };
    let source = target;
    add_stats(&mut target, &source);
    assert_eq!(target.wins, 2);
    assert_eq!(target.launched_ships, -10);
    assert_eq!(target.sun_destroyed_ships, 20);
}

#[test]
fn compare_step_stats_reports_first_mismatch() {
    let mut events = SimulationStepEvents::default();
    let mut counters = PlayerStepEvents::default();
    counters.captured_planet_count = 1;
    events.set_player(1, counters);
    let mut gpu = vec![OrbitWarsCudaSimStats::default(); 2];
    assert_eq!(compare_step_stats(&events, &gpu, 2), Err(1));
    gpu[1].captured_planet_count = 1;
    gpu[1].overflow_fleet_count = 5;
    assert_eq!(compare_step_stats(&events, &gpu, 2), Ok(()));
    assert_eq!(compare_step_stats(&events, &gpu[..1], 2), Err(1));
}

#[test]
fn pipeline_stats_merge_counts_and_maxima() {
    let mut stats = PipelineStats { inference_batch_call_count: 1, max_inference_batch_size: 4, simultaneous_game_count: 2 };
    stats.record_batch(9);
    assert_eq!(stats.inference_batch_call_count, 2);
    assert_eq!(stats.max_inference_batch_size, 9);
    stats.add(PipelineStats { inference_batch_call_count: 3, max_inference_batch_size: 2, simultaneous_game_count: 8 });
    assert_eq!(stats, PipelineStats { inference_batch_call_count: 5, max_inference_batch_size: 9, simultaneous_game_count: 8 });
}

#[test]
fn replay_game_count_sums_records() {
    let records = [
        ReplayChunkRecord { generation: 1, game_count: 4, actual_game_count: 1 },
        ReplayChunkRecord { generation: 2, game_count: 6, actual_game_count: 2 },
    ];
    assert_eq!(replay_chunk_record_game_count(&records), 10);
    assert_eq!(replay_chunk_record_game_count(&[]), 0);
}

#[test]
fn map_seed_mixes_generation_and_game() {
    assert_eq!(map_seed(1, 2), Ok(MAP_SEED_BASE ^ 1_000_003 ^ (2 * 9_176)));
    assert_eq!(map_seed(0, 0), Ok(MAP_SEED_BASE));
    assert_eq!(map_seed(usize::MAX, 0), Err(MapSeedError::GenerationSeedOverflow));
    assert_eq!(map_seed(0, usize::MAX), Err(MapSeedError::GameSeedOverflow));
}

#[test]
fn map_rng_is_a_linear_congruential_generator() {
    let mut rng = MapRng::new(0);
    assert_eq!(rng.next_u64(), MAP_RNG_INCREMENT);
    let expected = MAP_RNG_INCREMENT
        .wrapping_mul(6_364_136_223_846_793_005)
        .wrapping_add(MAP_RNG_INCREMENT);
    assert_eq!(rng.next_u64(), expected);
    let mut ranged = MapRng::new(42);
    for _ in 0..100 {
        let value = ranged.range_usize(5, 9);
        assert!((5..=9).contains(&value));
    }
    let mut same = MapRng::new(7);
    let mut again = MapRng::new(7);
    assert_eq!(same.range_usize(1, 30), again.range_usize(1, 30));
}

#[test]
fn game_assignment_is_plain_data() {
    let assignment = GameAssignment { model_indices: [3, 12, 7, 0] };
    let copy = assignment;
    assert_eq!(copy.model_indices, [3, 12, 7, 0]);
}

#[test]
fn home_planets_come_from_one_drawn_group() {
    let seed = 41u64;
    let drawn = seed.wrapping_mul(MAP_RNG_MULTIPLIER).wrapping_add(MAP_RNG_INCREMENT);
    let base = (drawn as usize % 5) * 4;

    let mut rng = MapRng::new(seed);
    assert_eq!(home_planets(20, 2, &mut rng), Ok(vec![(base, 0), (base + 3, 1)]));
    assert_eq!(rng.state, drawn);

    let mut rng = MapRng::new(seed);
    assert_eq!(
        home_planets(20, 4, &mut rng),
        Ok(vec![(base, 0), (base + 1, 1), (base + 2, 2), (base + 3, 3)])
    );

    let mut rng = MapRng::new(seed);
    assert_eq!(home_planets(18, 2, &mut rng), Err(HomePlanetError::GroupUnavailable));
    assert_eq!(home_planets(0, 2, &mut rng), Err(HomePlanetError::GroupUnavailable));
    assert_eq!(rng.state, seed);

    let mut rng = MapRng::new(seed);
    assert_eq!(home_planets(20, 3, &mut rng), Err(HomePlanetError::InvalidActivePlayerCount(3)));
    assert_eq!(rng.state, drawn);
}
