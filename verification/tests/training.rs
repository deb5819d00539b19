use orbit_wars::archive::{archive_generation_champions, prune_generation_archive, ArchiveError};
use orbit_wars::checkpoint::GenerationChampion;
use orbit_wars::events::{
    events_launch_count, events_launched_ships, LaunchedFleetEvent, PlayerStepEvents, SimulationStepEvents,
    SunDestroyedFleetEvent,
};
use orbit_wars::fleet_traces::{
    apply_fleet_trace_events, record_launched_fleet_traces, retain_active_fleet_traces,
    take_sun_destroyed_traces, ActionTrace, FleetTraceError,
};
use orbit_wars::reproduction_slots::{
    distribute_reproduction_slots, reproduction_slot_bounds, ReproductionSlotError, SlotBounds,
};
use orbit_wars::schedule::replay_frame_is_recorded;
use std::collections::BTreeMap;
use orbit_wars::shapes::{True2DConfig, True2DTransformer, True2DTransformerShape};
use orbit_wars::training::{
    training_sample_capacity, training_sample_input_stride, training_sample_output_stride,
    training_sun_target_penalty_stride, validate_population, PopulationError, TrainingSizeError,
};

fn test_config() -> True2DConfig {
    True2DConfig {
        internal_rows: 2,
        matrix_layer_planes: 12,
        attention_heads: 1,
        action_targets_per_source: 2,
    }
}

fn test_shape() -> True2DTransformerShape {
    True2DTransformerShape { layers: 1, row_count: 2 }
}

fn test_model(offset: f32) -> True2DTransformer {
    let count = test_shape().parameter_count(&test_config()).unwrap();
    let weights = (0..count).map(|index| (index as f32 * 0.5 + offset).to_bits()).collect();
    True2DTransformer::from_weights(test_shape(), weights, &test_config()).unwrap()
}

fn generations(archive: &[GenerationChampion]) -> Vec<usize> {
    archive.iter().map(|champion| champion.generation).collect()
}

#[test]
fn slot_bounds_for_an_even_population() {
    assert_eq!(
        reproduction_slot_bounds(4, 4, 16, 2, 8),
        Ok(SlotBounds { min_slots: 2, max_slots: 8, remaining: 8 })
    );
    // The minimum is lowered to the even share of the population.
    assert_eq!(
        reproduction_slot_bounds(4, 4, 8, 5, 8),
        Ok(SlotBounds { min_slots: 2, max_slots: 8, remaining: 0 })
    );
}

#[test]
fn slot_bounds_errors() {
    assert_eq!(
        reproduction_slot_bounds(3, 4, 16, 2, 8),
        Err(ReproductionSlotError::ParentCountMismatch { found: 3, expected: 4 })
    );
    assert_eq!(
        reproduction_slot_bounds(4, 4, 3, 2, 8),
        Err(ReproductionSlotError::MinimumSlotsExceedPopulation { minimum: 4, population: 3 })
    );
    assert_eq!(
        reproduction_slot_bounds(2, 2, 10, 1, 4),
        Err(ReproductionSlotError::MaximumSlotsBelowPopulation { maximum: 8, population: 10 })
    );
    assert_eq!(
        reproduction_slot_bounds(2, 2, 10, 1, usize::MAX),
        Err(ReproductionSlotError::MaximumPopulationOverflow)
    );
}

#[test]
fn slots_are_dealt_round_robin_in_order() {
    assert_eq!(distribute_reproduction_slots(2, 5, 6, &[1, 0, 2], &[2, 0, 1]), Ok(vec![4, 3, 5]));
    // A full parent is skipped on the second pass.
    assert_eq!(distribute_reproduction_slots(1, 4, 5, &[0, 2], &[1, 0]), Ok(vec![3, 4]));
    assert_eq!(distribute_reproduction_slots(1, 4, 2, &[1, 1], &[0, 1]), Ok(vec![2, 2]));
}

#[test]
fn slot_dealing_errors() {
    assert_eq!(
        distribute_reproduction_slots(2, 5, 5, &[3, 3, 0], &[0, 1, 2]),
        Err(ReproductionSlotError::RemainingSlotsUnderflow)
    );
    assert_eq!(
        distribute_reproduction_slots(2, 5, 10, &[0, 0, 0], &[1, 0, 2]),
        Err(ReproductionSlotError::SlotsCappedBeforePopulationFilled)
    );
}

#[test]
fn training_buffer_sizes() {
    assert_eq!(training_sample_input_stride(64, 7), Ok(448));
    assert_eq!(training_sample_output_stride(64, 3), Ok(192));
    assert_eq!(training_sun_target_penalty_stride(64, 4), Ok(256));
    assert_eq!(training_sample_capacity(10, 4, 500), Ok(20_000));
    assert_eq!(
        training_sample_input_stride(usize::MAX, 2),
        Err(TrainingSizeError::InputStrideOverflow)
    );
    assert_eq!(
        training_sample_output_stride(usize::MAX, 2),
        Err(TrainingSizeError::OutputStrideOverflow)
    );
    assert_eq!(
        training_sun_target_penalty_stride(usize::MAX, 2),
        Err(TrainingSizeError::SunTargetPenaltyStrideOverflow)
    );
    assert_eq!(
        training_sample_capacity(usize::MAX, 2, 1),
        Err(TrainingSizeError::SampleCapacityOverflow)
    );
}

#[test]
fn population_validation() {
    let config = test_config();
    let count = test_shape().parameter_count(&config).unwrap();
    let population = vec![test_model(0.0), test_model(1.0)];
    assert_eq!(validate_population(&population, &config), Ok((test_shape(), count)));
    assert_eq!(validate_population(&Vec::new(), &config), Err(PopulationError::Empty));
    let mut short = test_model(2.0);
    short.weights.pop();
    let population = vec![test_model(0.0), short];
    assert_eq!(
        validate_population(&population, &config),
        Err(PopulationError::WeightCountMismatch(1))
    );
    let mut other = test_model(2.0);
    other.shape = True2DTransformerShape { layers: 2, row_count: 2 };
    let population = vec![test_model(0.0), other];
    assert_eq!(validate_population(&population, &config), Err(PopulationError::ShapeMismatch(1)));
}

#[test]
fn replay_frames_follow_stride_and_limit() {
    assert!(replay_frame_is_recorded(0, 5, 3, 10));
    assert!(!replay_frame_is_recorded(1, 5, 3, 10));
    assert!(replay_frame_is_recorded(1, 6, 3, 10));
    assert!(!replay_frame_is_recorded(10, 6, 3, 10));
}

#[test]
fn archive_keeps_recent_generations_within_cap() {
    let population = vec![test_model(0.0), test_model(1.0), test_model(2.0)];
    let mut archive = Vec::new();
    for generation in 0..4 {
        archive_generation_champions(&mut archive, generation, &[2, 0, 1], &population, 2, 5, 3)
            .unwrap();
    }
    // Generations 1 to 3 remain, and at most five champions.
    assert_eq!(generations(&archive), vec![1, 2, 2, 3, 3]);
    assert_eq!(archive[3].model.weights, population[2].weights);
    assert_eq!(archive[4].model.weights, population[0].weights);
}

#[test]
fn archiving_a_generation_again_replaces_its_champions() {
    let population = vec![test_model(0.0), test_model(1.0)];
    let mut archive = Vec::new();
    archive_generation_champions(&mut archive, 7, &[0, 1], &population, 2, 8, 4).unwrap();
    archive_generation_champions(&mut archive, 7, &[1, 0], &population, 1, 8, 4).unwrap();
    assert_eq!(generations(&archive), vec![7]);
    assert_eq!(archive[0].model.weights, population[1].weights);
}

#[test]
fn archive_errors_leave_it_unchanged() {
    let population = vec![test_model(0.0), test_model(1.0)];
    let mut archive = Vec::new();
    archive_generation_champions(&mut archive, 1, &[0], &population, 1, 8, 4).unwrap();
    assert_eq!(
        archive_generation_champions(&mut archive, 2, &[0], &population, 2, 8, 4),
        Err(ArchiveError::ChampionCountExceedsEvaluated { champion_count: 2, evaluated: 1 })
    );
    assert_eq!(
        archive_generation_champions(&mut archive, 2, &[0, 1], &population, 1, 1, 4),
        Err(ArchiveError::PopulationExceedsValidationCap { population: 2, cap: 1 })
    );
    assert_eq!(generations(&archive), vec![1]);
}

#[test]
fn pruning_drops_old_generations_then_oldest_entries() {
    let model = test_model(0.0);
    let mut archive: Vec<GenerationChampion> = [0usize, 1, 2, 3, 3, 4]
        .iter()
        .map(|generation| GenerationChampion { generation: *generation, model: model.clone() })
        .collect();
    prune_generation_archive(&mut archive, 4, 3, 3);
    assert_eq!(generations(&archive), vec![3, 3, 4]);
}

#[test]
fn launch_totals_sum_over_players() {
    let mut events = SimulationStepEvents::default();
    let mut first = PlayerStepEvents::default();
    first.launched_fleet_count = 2;
    first.launched_ship_count = 30;
    let mut second = PlayerStepEvents::default();
    second.launched_fleet_count = 1;
    second.launched_ship_count = 12;
    events.set_player(1, second);
    events.set_player(0, first);
    assert_eq!(events_launch_count(&events), 3);
    assert_eq!(events_launched_ships(&events), 42);
    assert_eq!(events_launch_count(&SimulationStepEvents::default()), 0);
}

fn trace(sample_index: usize, source_row: usize) -> ActionTrace {
    ActionTrace { sample_index, source_row, target_slot: 1, target_row: 2 }
}

fn launch(player: i32, fleet_id: i32) -> LaunchedFleetEvent {
    LaunchedFleetEvent { player, fleet_id, ship_count: 5 }
}

fn lost(fleet_id: i32) -> SunDestroyedFleetEvent {
    SunDestroyedFleetEvent { player: 0, fleet_id, ship_count: 5 }
}

#[test]
fn launches_take_their_players_actions_in_order() {
    let by_player = vec![vec![trace(0, 0), trace(0, 1)], vec![trace(1, 3)]];
    let mut traces = BTreeMap::new();
    let launched = [launch(0, 10), launch(1, 11), launch(0, 12)];
    assert_eq!(record_launched_fleet_traces(&mut traces, &launched, &by_player, 2), Ok(()));
    assert_eq!(traces.get(&10), Some(&trace(0, 0)));
    assert_eq!(traces.get(&11), Some(&trace(1, 3)));
    assert_eq!(traces.get(&12), Some(&trace(0, 1)));

    let mut traces = BTreeMap::new();
    let too_many = [launch(1, 20), launch(1, 21)];
    assert_eq!(
        record_launched_fleet_traces(&mut traces, &too_many, &by_player, 2),
        Err(FleetTraceError::TraceMissing { player_slot: 1, trace: 1 })
    );
    assert_eq!(traces.len(), 1);
    assert_eq!(
        record_launched_fleet_traces(&mut BTreeMap::new(), &[launch(-1, 1)], &by_player, 2),
        Err(FleetTraceError::NegativePlayer(-1))
    );
    assert_eq!(
        record_launched_fleet_traces(&mut BTreeMap::new(), &[launch(2, 1)], &by_player, 2),
        Err(FleetTraceError::PlayerOutOfRange(2))
    );
}

#[test]
fn sun_losses_are_charged_once_and_idle_traces_dropped() {
    let mut traces = BTreeMap::from([(1, trace(0, 0)), (2, trace(0, 1)), (3, trace(1, 2))]);
    let charged = take_sun_destroyed_traces(&mut traces, &[lost(2), lost(9), lost(2)]);
    assert_eq!(charged, vec![trace(0, 1)]);
    assert_eq!(traces.keys().copied().collect::<Vec<_>>(), vec![1, 3]);
    retain_active_fleet_traces(&mut traces, &[3, 4]);
    assert_eq!(traces.keys().copied().collect::<Vec<_>>(), vec![3]);

    let by_player = vec![vec![trace(5, 0)], vec![]];
    let mut traces = BTreeMap::from([(1, trace(0, 0)), (2, trace(0, 1))]);
    let charged =
        apply_fleet_trace_events(&mut traces, &[launch(0, 7)], &[lost(1), lost(7)], &by_player, 2, true, &[2]);
    assert_eq!(charged, Ok(vec![trace(0, 0), trace(5, 0)]));
    assert_eq!(traces.keys().copied().collect::<Vec<_>>(), vec![2]);

    let mut traces = BTreeMap::from([(1, trace(0, 0))]);
    let charged = apply_fleet_trace_events(&mut traces, &[], &[lost(1)], &by_player, 2, false, &[1]);
    assert_eq!(charged, Ok(vec![]));
    assert_eq!(traces.get(&1), Some(&trace(0, 0)));
}
