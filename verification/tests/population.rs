use orbit_wars::checkpoint::GenerationChampion;
use orbit_wars::crossover::{hash_weight_position, CROSSOVER_HASH_ROW, CROSSOVER_LEFT_THRESHOLD};
use orbit_wars::shapes::ModelError;
use orbit_wars::elites::{crossover_plan, elite_archive, elite_parents, EliteError};
use orbit_wars::evaluation::{
    generation_validation_tallies, model_gameplay_totals, model_reward_gameplay,
    model_reward_totals, rank_by_reward, ValidationTally,
};
use orbit_wars::events::{PlayerStepEvents, SimulationStepEvents};
use orbit_wars::gameplay::{apply_step_events_to_gameplay, GameplayStats};
use orbit_wars::rewards::RewardValues;
use orbit_wars::schedule::GameAssignment;
use orbit_wars::shapes::{True2DConfig, True2DTransformer, True2DTransformerShape};
use orbit_wars::top_models::{generation_top_models_bytes, TopModelsError};

const VALUES: RewardValues = RewardValues { win: 1, draw: 0, loss: -1 };

fn seats(indices: [usize; 4]) -> GameAssignment {
    GameAssignment { model_indices: indices }
}

fn test_model(offset: f32) -> True2DTransformer {
    let config = True2DConfig {
        internal_rows: 2,
        matrix_layer_planes: 12,
        attention_heads: 1,
        action_targets_per_source: 2,
    };
    let shape = True2DTransformerShape { layers: 1, row_count: 2 };
    let count = shape.parameter_count(&config).unwrap();
    let weights = (0..count).map(|index| (index as f32 + offset).to_bits()).collect();
    True2DTransformer::from_weights(shape, weights, &config).unwrap()
}

#[test]
fn reward_totals_and_ranking() {
    let assignments = [seats([0, 1, 9, 9]), seats([1, 2, 9, 9]), seats([2, 0, 9, 9])];
    let rewards = [[1, -1, 0, 0], [1, -1, 0, 0], [0, 0, 0, 0]];
    let totals = model_reward_totals(3, &assignments, &rewards, 2);
    assert_eq!(totals, vec![1, 0, -1]);
    assert_eq!(rank_by_reward(&totals), vec![0, 1, 2]);
    assert_eq!(rank_by_reward(&[3, 5, 3, -2]), vec![1, 0, 2, 3]);
    // Only games with both a seating and a result count.
    assert_eq!(model_reward_totals(3, &assignments, &rewards[..1], 2), vec![1, -1, 0]);
}

#[test]
fn reward_gameplay_counts_results() {
    let assignments = [seats([0, 1, 9, 9]), seats([1, 0, 9, 9])];
    let rewards = [[1, -1, 0, 0], [0, 0, 0, 0]];
    let gameplay = model_reward_gameplay(2, &assignments, &rewards, 2, VALUES);
    assert_eq!(gameplay[0].game_count, 2);
    assert_eq!(gameplay[0].win_count, 1);
    assert_eq!(gameplay[0].draw_count, 1);
    assert_eq!(gameplay[1].loss_count, 1);
    assert_eq!(gameplay[1].draw_count, 1);
}

#[test]
fn gameplay_totals_add_seat_records() {
    let mut first = GameplayStats::default();
    first.capture_count = 2;
    first.launched_ship_count = 40;
    let mut second = GameplayStats::default();
    second.capture_count = 1;
    second.hit_ship_count = -3;
    let empty = GameplayStats::default();
    let assignments = [seats([1, 0, 9, 9]), seats([1, 0, 9, 9])];
    let records = [[first, second, empty, empty], [first, empty, empty, empty]];
    let totals = model_gameplay_totals(2, &assignments, &records, 2);
    assert_eq!(totals[1].capture_count, 4);
    assert_eq!(totals[1].launched_ship_count, 80);
    assert_eq!(totals[0].capture_count, 1);
    assert_eq!(totals[0].hit_ship_count, -3);
}

#[test]
fn validation_tallies_by_generation() {
    // Champions 0 and 1 come from generation 4, champion 2 from generation 2.
    let generations = [4, 4, 2];
    let assignments = [seats([0, 2, 9, 9]), seats([2, 1, 9, 9])];
    let rewards = [[1, -1, 0, 0], [0, 0, 0, 0]];
    let tallies = generation_validation_tallies(&generations, &assignments, &rewards, 2, VALUES);
    assert_eq!(
        tallies,
        vec![
            (2, ValidationTally { model_count: 1, game_count: 2, win_count: 0, draw_count: 1, loss_count: 1 }),
            (4, ValidationTally { model_count: 2, game_count: 2, win_count: 1, draw_count: 1, loss_count: 0 }),
        ]
    );
}

#[test]
fn step_events_go_to_their_seats() {
    let mut events = SimulationStepEvents::default();
    let mut counters = PlayerStepEvents::default();
    counters.captured_planet_count = 2;
    counters.launched_fleet_count = 3;
    events.set_player(1, counters);
    events.set_player(3, counters);
    let mut gameplay = [GameplayStats::default(); 4];
    apply_step_events_to_gameplay(&mut gameplay, &events, 2);
    assert_eq!(gameplay[1].capture_count, 2);
    assert_eq!(gameplay[1].launch_action_count, 3);
    assert_eq!(gameplay[0], GameplayStats::default());
    assert_eq!(gameplay[3], GameplayStats::default());
}

#[test]
fn gameplay_records_add_up() {
    let mut total = GameplayStats::default();
    total.add_reward(1, VALUES);
    total.add_reward(-1, VALUES);
    total.add_reward(7, VALUES);
    let mut counters = PlayerStepEvents::default();
    counters.sun_destroyed_fleet_count = 1;
    counters.sun_destroyed_ship_count = 12;
    total.add_step_events(counters);
    let mut other = GameplayStats::default();
    other.game_count = 2;
    other.win_count = 2;
    total.add_gameplay(other);
    assert_eq!(total.game_count, 5);
    assert_eq!(total.win_count, 3);
    assert_eq!(total.loss_count, 1);
    assert_eq!(total.draw_count, 1);
    assert_eq!(total.sun_destroyed_ship_count, 12);
}

#[test]
fn elites_take_the_top_of_the_ranking() {
    let population = vec![test_model(0.0), test_model(1.0), test_model(2.0)];
    let parents = elite_parents(&population, &[2, 0, 1], 2).unwrap();
    assert_eq!(parents.len(), 2);
    assert_eq!(parents[0].weights, population[2].weights);
    assert_eq!(parents[1].weights, population[0].weights);
    assert_eq!(
        elite_parents(&population, &[2], 2).err(),
        Some(EliteError::EliteCountExceedsRanked { elite_count: 2, ranked: 1 })
    );
}

#[test]
fn elite_archive_keeps_elites_and_their_generations() {
    let archive = vec![
        GenerationChampion { generation: 5, model: test_model(0.0) },
        GenerationChampion { generation: 3, model: test_model(1.0) },
        GenerationChampion { generation: 5, model: test_model(2.0) },
    ];
    let (kept, retained) = elite_archive(&archive, &[2, 1, 0], 2).unwrap();
    assert_eq!(kept.iter().map(|c| c.generation).collect::<Vec<_>>(), vec![5, 3]);
    assert_eq!(kept[0].model.weights, archive[2].model.weights);
    assert_eq!(retained, vec![3, 5]);
}

#[test]
fn crossover_plan_pairs_each_child() {
    assert_eq!(
        crossover_plan(&[0, 1, 2, 0], 3, 6),
        Ok(vec![(0, 1), (1, 0), (2, 2)])
    );
    assert_eq!(crossover_plan(&[0, 0], 1, 3), Ok(vec![(0, 0), (0, 0)]));
    assert_eq!(
        crossover_plan(&[0], 2, 5),
        Err(EliteError::PopulationMismatch { found: 3, expected: 5 })
    );
}

fn model_bytes(model: &True2DTransformer) -> Vec<u8> {
    let mut bytes = Vec::new();
    bytes.extend((model.shape.layers as u64).to_le_bytes());
    bytes.extend((model.shape.row_count as u64).to_le_bytes());
    bytes.extend((model.weights.len() as u64).to_le_bytes());
    for weight in &model.weights {
        bytes.extend(weight.to_le_bytes());
    }
    bytes
}

#[test]
fn top_models_artifact_lists_best_models_first() {
    let population = vec![test_model(0.0), test_model(10.0), test_model(20.0)];
    let rewards = [4, -2, 7];
    let ranked = [2, 0, 1];
    let bytes = generation_top_models_bytes(9, &ranked, &rewards, &population, 2).unwrap();
    let mut expected = b"OWTOP4_1".to_vec();
    expected.extend(9u64.to_le_bytes());
    expected.extend(2u64.to_le_bytes());
    expected.extend(2u64.to_le_bytes());
    expected.extend(7i32.to_le_bytes());
    expected.extend(model_bytes(&population[2]));
    expected.extend(0u64.to_le_bytes());
    expected.extend(4i32.to_le_bytes());
    expected.extend(model_bytes(&population[0]));
    assert_eq!(bytes, expected);
    assert_eq!(
        generation_top_models_bytes(9, &ranked, &rewards, &population, 4),
        Err(TopModelsError::CountExceedsEvaluated { model_count: 4, evaluated: 3 })
    );
}

#[test]
fn generation_validation_accumulator_counts_champion_models() {
    const FIRST_TEST_GENERATION: usize = 2;
    const SECOND_TEST_GENERATION: usize = 4;
    const PLAYER_COUNT_TWO: usize = 2;
    let archive_generations = [
        FIRST_TEST_GENERATION,
        FIRST_TEST_GENERATION,
        SECOND_TEST_GENERATION,
        SECOND_TEST_GENERATION,
    ];
    let accumulators = generation_validation_tallies(&archive_generations, &[], &[], 4, VALUES);
    let model_count = |generation: usize| {
        accumulators
            .iter()
            .find(|(evaluated, _)| *evaluated == generation)
            .unwrap()
            .1
            .model_count
    };
    assert_eq!(model_count(FIRST_TEST_GENERATION), PLAYER_COUNT_TWO);
    assert_eq!(model_count(SECOND_TEST_GENERATION), PLAYER_COUNT_TWO);
}

/// The hash scaled to `[-1, 1]` as the models' generator scales it.
fn scaled_hash(hash: u64) -> f32 {
    let normalized = (hash as f64 / u64::MAX as f64) as f32;
    normalized * 2.0 - 1.0
}

#[test]
fn crossover_threshold_is_where_the_scaled_hash_turns_non_negative() {
    assert!(scaled_hash(CROSSOVER_LEFT_THRESHOLD) >= 0.0);
    assert!(scaled_hash(CROSSOVER_LEFT_THRESHOLD - 1) < 0.0);
    for offset in 0..4096u64 {
        assert!(scaled_hash(CROSSOVER_LEFT_THRESHOLD + offset) >= 0.0);
        assert!(scaled_hash(CROSSOVER_LEFT_THRESHOLD - 1 - offset) < 0.0);
    }
    for seed in 0..64u64 {
        for index in 0..64u64 {
            let hash = hash_weight_position(seed, CROSSOVER_HASH_ROW, index);
            assert_eq!(hash >= CROSSOVER_LEFT_THRESHOLD, scaled_hash(hash) >= 0.0);
        }
    }
}

#[test]
fn true_2d_crossover_preserves_shape_and_takes_each_weight_from_a_parent() {
    let left = test_model(0.0);
    let right = test_model(1000.0);
    let child = True2DTransformer::crossover(&left, &right, 3).unwrap();
    assert_eq!(child.shape, left.shape);
    assert_eq!(child.weights.len(), left.weights.len());
    for (index, weight) in child.weights.iter().enumerate() {
        let hash = hash_weight_position(3, CROSSOVER_HASH_ROW, index as u64);
        let expected = if scaled_hash(hash) >= 0.0 { left.weights[index] } else { right.weights[index] };
        assert_eq!(*weight, expected);
    }
    assert!(child.weights.iter().zip(&left.weights).any(|(child, left)| child == left));
    assert!(child.weights.iter().zip(&right.weights).any(|(child, right)| child == right));
    let itself = True2DTransformer::crossover(&left, &left, 9).unwrap();
    assert_eq!(itself.weights, left.weights);
    let mut short = right.clone();
    short.weights.pop();
    assert_eq!(True2DTransformer::crossover(&left, &short, 3).err(), Some(ModelError::InvalidWeightCount));
}

#[test]
fn weight_hash_mixes_seed_row_and_column() {
    fn reference(seed: u64, row: u64, column: u64) -> u64 {
        let mut x = seed ^ row.wrapping_mul(0x9E37_79B9_7F4A_7C15) ^ column.wrapping_mul(0xBF58_476D_1CE4_E5B9);
        x ^= x >> 30;
        x = x.wrapping_mul(0xBF58_476D_1CE4_E5B9);
        x ^= x >> 27;
        x = x.wrapping_mul(0x94D0_49BB_1331_11EB);
        x ^= x >> 31;
        x
    }
    assert_eq!(hash_weight_position(0, 0, 0), 0);
    for (seed, row, column) in [(1, 1, 0), (3, 1, 7), (u64::MAX, 2, 12345)] {
        assert_eq!(hash_weight_position(seed, row, column), reference(seed, row, column));
    }
    assert_ne!(hash_weight_position(3, 1, 7), hash_weight_position(3, 1, 8));
}
