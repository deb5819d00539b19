//! Counters kept by the arena and the trainer, and the check that the GPU simulator
//! reports the same step events as the reference simulator.
use vstd::prelude::*;

use crate::events::{player_events, PlayerStepEvents, SimulationStepEvents};
use crate::types::PlayerScore;

verus! {

/// Per-model totals of the arena.
#[derive(Clone, Copy, Debug, PartialEq, Eq, Structural)]
pub struct PlayerStats {
    pub wins: usize,
    pub draws: usize,
    pub losses: usize,
    pub launch_actions: usize,
    pub launched_ships: i64,
    pub captures: usize,
    pub fleet_hits: usize,
    pub hit_ships: i64,
    pub sun_destroyed_fleets: usize,
    pub sun_destroyed_ships: i64,
}

/// Field by field sum of two totals.
pub open spec fn stats_sum(target: PlayerStats, source: PlayerStats) -> PlayerStats {
    PlayerStats {
        wins: (target.wins + source.wins) as usize,
        draws: (target.draws + source.draws) as usize,
        losses: (target.losses + source.losses) as usize,
        launch_actions: (target.launch_actions + source.launch_actions) as usize,
        launched_ships: (target.launched_ships + source.launched_ships) as i64,
        captures: (target.captures + source.captures) as usize,
        fleet_hits: (target.fleet_hits + source.fleet_hits) as usize,
        hit_ships: (target.hit_ships + source.hit_ships) as i64,
        sun_destroyed_fleets: (target.sun_destroyed_fleets + source.sun_destroyed_fleets) as usize,
        sun_destroyed_ships: (target.sun_destroyed_ships + source.sun_destroyed_ships) as i64,
    }
}

/// The sums fit their fields.
pub open spec fn stats_sum_fits(target: PlayerStats, source: PlayerStats) -> bool {
    &&& target.wins + source.wins <= usize::MAX
    &&& target.draws + source.draws <= usize::MAX
    &&& target.losses + source.losses <= usize::MAX
    &&& target.launch_actions + source.launch_actions <= usize::MAX
    &&& i64::MIN <= target.launched_ships + source.launched_ships <= i64::MAX
    &&& target.captures + source.captures <= usize::MAX
    &&& target.fleet_hits + source.fleet_hits <= usize::MAX
    &&& i64::MIN <= target.hit_ships + source.hit_ships <= i64::MAX
    &&& target.sun_destroyed_fleets + source.sun_destroyed_fleets <= usize::MAX
    &&& i64::MIN <= target.sun_destroyed_ships + source.sun_destroyed_ships <= i64::MAX
}

/// Adds the totals of `source` to `target`.
pub fn add_stats(target: &mut PlayerStats, source: &PlayerStats)
    requires
        stats_sum_fits(*old(target), *source),
    ensures
        *final(target) == stats_sum(*old(target), *source),
{
    target.wins += source.wins;
    target.draws += source.draws;
    target.losses += source.losses;
    target.launch_actions += source.launch_actions;
    target.launched_ships += source.launched_ships;
    target.captures += source.captures;
    target.fleet_hits += source.fleet_hits;
    target.hit_ships += source.hit_ships;
    target.sun_destroyed_fleets += source.sun_destroyed_fleets;
    target.sun_destroyed_ships += source.sun_destroyed_ships;
}

/// Adding totals in either order gives the same totals.
pub proof fn law_stats_sum_commutes(left: PlayerStats, right: PlayerStats)
    ensures
        stats_sum(left, right) == stats_sum(right, left),
{
}

/// The most ships among the scores, or zero when there are none.
pub open spec fn best_ships(scores: Seq<PlayerScore>) -> int
    decreases scores.len(),
{
    if scores.len() == 0 {
        0
    } else {
        let rest = best_ships(scores.drop_last());
        if scores.len() == 1 || scores.last().ships > rest {
            scores.last().ships as int
        } else {
            rest
        }
    }
}

/// The players whose ships reach `best`, in order.
pub open spec fn leaders(scores: Seq<PlayerScore>, best: int) -> Seq<usize>
    decreases scores.len(),
{
    if scores.len() == 0 {
        Seq::empty()
    } else if scores.last().ships == best {
        leaders(scores.drop_last(), best).push(scores.last().player as usize)
    } else {
        leaders(scores.drop_last(), best)
    }
}

/// The player the scores single out: the one with the most ships among the first
/// `player_count`, when no other player ties it.
pub open spec fn winner(scores: Seq<PlayerScore>, player_count: int) -> Option<usize> {
    let counted = if player_count < scores.len() {
        scores.take(player_count)
    } else {
        scores
    };
    let top = leaders(counted, best_ships(counted));
    if top.len() == 1 {
        Some(top[0])
    } else {
        None
    }
}

/// The winner of a finished game, or none on a tie.
pub fn winner_index(scores: &[PlayerScore], player_count: usize) -> (winner_player: Option<usize>)
    ensures
        winner_player == winner(scores@, player_count as int),
{
    let count = if player_count < scores.len() {
        player_count
    } else {
        scores.len()
    };
    let ghost counted = if player_count < scores@.len() {
        scores@.take(player_count as int)
    } else {
        scores@
    };
    proof {
        assert(counted =~= scores@.take(count as int));
    }
    let mut best: i32 = 0;
    let mut index: usize = 0;
    while index < count
        invariant
            count <= scores.len(),
            counted == scores@.take(count as int),
            index <= count,
            best == best_ships(scores@.take(index as int)),
        decreases count - index,
    {
        proof {
            assert(scores@.take(index + 1).drop_last() =~= scores@.take(index as int));
        }
        if index == 0 || scores[index].ships > best {
            best = scores[index].ships;
        }
        index += 1;
    }
    let mut winners: Vec<usize> = Vec::new();
    let mut index: usize = 0;
    while index < count
        invariant
            count <= scores.len(),
            counted == scores@.take(count as int),
            best == best_ships(counted),
            index <= count,
            winners@ == leaders(scores@.take(index as int), best as int),
        decreases count - index,
    {
        proof {
            assert(scores@.take(index + 1).drop_last() =~= scores@.take(index as int));
        }
        if scores[index].ships == best {
            winners.push(scores[index].player as usize);
        }
        index += 1;
    }
    if winners.len() == 1 {
        Some(winners[0])
    } else {
        None
    }
}

/// Step counters as the GPU simulator reports them, one record per player.
#[derive(Clone, Copy, Debug, PartialEq, Eq, Structural)]
pub struct OrbitWarsCudaSimStats {
    pub launched_fleet_count: i32,
    pub launched_ship_count: i32,
    pub hit_fleet_count: i32,
    pub hit_ship_count: i32,
    pub sun_destroyed_fleet_count: i32,
    pub sun_destroyed_ship_count: i32,
    pub out_of_bounds_destroyed_fleet_count: i32,
    pub out_of_bounds_destroyed_ship_count: i32,
    pub captured_planet_count: i32,
    pub overflow_fleet_count: i32,
}

pub open spec fn no_gpu_stats() -> OrbitWarsCudaSimStats {
    OrbitWarsCudaSimStats {
        launched_fleet_count: 0,
        launched_ship_count: 0,
        hit_fleet_count: 0,
        hit_ship_count: 0,
        sun_destroyed_fleet_count: 0,
        sun_destroyed_ship_count: 0,
        out_of_bounds_destroyed_fleet_count: 0,
        out_of_bounds_destroyed_ship_count: 0,
        captured_planet_count: 0,
        overflow_fleet_count: 0,
    }
}

impl Default for OrbitWarsCudaSimStats {
    fn default() -> (stats: OrbitWarsCudaSimStats)
        ensures
            stats == no_gpu_stats(),
    {
        OrbitWarsCudaSimStats {
            launched_fleet_count: 0,
            launched_ship_count: 0,
            hit_fleet_count: 0,
            hit_ship_count: 0,
            sun_destroyed_fleet_count: 0,
            sun_destroyed_ship_count: 0,
            out_of_bounds_destroyed_fleet_count: 0,
            out_of_bounds_destroyed_ship_count: 0,
            captured_planet_count: 0,
            overflow_fleet_count: 0,
        }
    }
}

/// The reference counters and the GPU counters agree, each reference counter taken as
/// an `i32` the way the comparison casts it.
pub open spec fn step_stats_agree(cpu: PlayerStepEvents, gpu: OrbitWarsCudaSimStats) -> bool {
    &&& cpu.launched_fleet_count as i32 == gpu.launched_fleet_count
    &&& cpu.launched_ship_count as i32 == gpu.launched_ship_count
    &&& cpu.hit_fleet_count as i32 == gpu.hit_fleet_count
    &&& cpu.hit_ship_count as i32 == gpu.hit_ship_count
    &&& cpu.sun_destroyed_fleet_count as i32 == gpu.sun_destroyed_fleet_count
    &&& cpu.sun_destroyed_ship_count as i32 == gpu.sun_destroyed_ship_count
    &&& cpu.out_of_bounds_destroyed_fleet_count as i32 == gpu.out_of_bounds_destroyed_fleet_count
    &&& cpu.out_of_bounds_destroyed_ship_count as i32 == gpu.out_of_bounds_destroyed_ship_count
    &&& cpu.captured_planet_count as i32 == gpu.captured_planet_count
}

/// The GPU record of `player`, or zeros past the end of the list.
pub open spec fn gpu_player_stats(gpu_stats: Seq<OrbitWarsCudaSimStats>, player: int) -> OrbitWarsCudaSimStats {
    if 0 <= player < gpu_stats.len() {
        gpu_stats[player]
    } else {
        no_gpu_stats()
    }
}

/// The first player whose counters differ, if any.
pub open spec fn first_stats_mismatch(
    by_player: Map<i32, PlayerStepEvents>,
    gpu_stats: Seq<OrbitWarsCudaSimStats>,
    player_count: int,
    player: int,
) -> bool {
    &&& 0 <= player < player_count
    &&& !step_stats_agree(player_events(by_player, player as i32), gpu_player_stats(gpu_stats, player))
    &&& forall|earlier: int|
        0 <= earlier < player ==> step_stats_agree(
            player_events(by_player, earlier as i32),
            #[trigger] gpu_player_stats(gpu_stats, earlier),
        )
}

fn cast_usize(value: usize) -> (cast: i32)
    ensures
        cast == value as i32,
{
    value as i32
}

fn cast_i64(value: i64) -> (cast: i32)
    ensures
        cast == value as i32,
{
    value as i32
}

fn stats_agree(cpu: PlayerStepEvents, gpu: OrbitWarsCudaSimStats) -> (agree: bool)
    ensures
        agree == step_stats_agree(cpu, gpu),
{
    cast_usize(cpu.launched_fleet_count) == gpu.launched_fleet_count && cast_i64(
        cpu.launched_ship_count,
    ) == gpu.launched_ship_count && cast_usize(cpu.hit_fleet_count) == gpu.hit_fleet_count
        && cast_i64(cpu.hit_ship_count) == gpu.hit_ship_count && cast_usize(
        cpu.sun_destroyed_fleet_count,
    ) == gpu.sun_destroyed_fleet_count && cast_i64(cpu.sun_destroyed_ship_count)
        == gpu.sun_destroyed_ship_count && cast_usize(cpu.out_of_bounds_destroyed_fleet_count)
        == gpu.out_of_bounds_destroyed_fleet_count && cast_i64(
        cpu.out_of_bounds_destroyed_ship_count,
    ) == gpu.out_of_bounds_destroyed_ship_count && cast_usize(cpu.captured_planet_count)
        == gpu.captured_planet_count
}

/// Checks the GPU step counters of the first `player_count` players against the
/// reference simulator's events; reports the first player that differs.
pub fn compare_step_stats(
    cpu_events: &SimulationStepEvents,
    gpu_stats: &[OrbitWarsCudaSimStats],
    player_count: usize,
) -> (result: Result<(), usize>)
    requires
        player_count <= i32::MAX + 1,
    ensures
        match result {
            Ok(()) => forall|player: int|
                0 <= player < player_count ==> step_stats_agree(
                    player_events(cpu_events.by_player@, player as i32),
                    #[trigger] gpu_player_stats(gpu_stats@, player),
                ),
            Err(player) => first_stats_mismatch(
                cpu_events.by_player@,
                gpu_stats@,
                player_count as int,
                player as int,
            ),
        },
{
    let mut player: usize = 0;
    while player < player_count
        invariant
            player <= player_count <= i32::MAX + 1,
            forall|earlier: int|
                0 <= earlier < player ==> step_stats_agree(
                    player_events(cpu_events.by_player@, earlier as i32),
                    #[trigger] gpu_player_stats(gpu_stats@, earlier),
                ),
        decreases player_count - player,
    {
        let cpu = cpu_events.player(player as i32);
        let gpu = if player < gpu_stats.len() {
            gpu_stats[player]
        } else {
            OrbitWarsCudaSimStats::default()
        };
        if !stats_agree(cpu, gpu) {
            return Err(player);
        }
        player += 1;
    }
    Ok(())
}

/// Inference batching counters of the trainer.
#[derive(Clone, Copy, Debug, PartialEq, Eq, Structural)]
pub struct PipelineStats {
    pub inference_batch_call_count: usize,
    pub max_inference_batch_size: usize,
    pub simultaneous_game_count: usize,
}

pub open spec fn larger(a: usize, b: usize) -> usize {
    if a >= b {
        a
    } else {
        b
    }
}

impl PipelineStats {
    /// Merges the counters of another batch run: calls add up, maxima take the larger.
    pub fn add(&mut self, stats: PipelineStats)
        requires
            old(self).inference_batch_call_count + stats.inference_batch_call_count <= usize::MAX,
        ensures
            final(self).inference_batch_call_count == old(self).inference_batch_call_count
                + stats.inference_batch_call_count,
            final(self).max_inference_batch_size == larger(
                old(self).max_inference_batch_size,
                stats.max_inference_batch_size,
            ),
            final(self).simultaneous_game_count == larger(
                old(self).simultaneous_game_count,
                stats.simultaneous_game_count,
            ),
    {
        self.inference_batch_call_count += stats.inference_batch_call_count;
        if stats.max_inference_batch_size > self.max_inference_batch_size {
            self.max_inference_batch_size = stats.max_inference_batch_size;
        }
        if stats.simultaneous_game_count > self.simultaneous_game_count {
            self.simultaneous_game_count = stats.simultaneous_game_count;
        }
    }

    /// Counts one inference call of `batch_size` requests.
    pub fn record_batch(&mut self, batch_size: usize)
        requires
            old(self).inference_batch_call_count < usize::MAX,
        ensures
            final(self).inference_batch_call_count == old(self).inference_batch_call_count + 1,
            final(self).max_inference_batch_size == larger(
                old(self).max_inference_batch_size,
                batch_size,
            ),
            final(self).simultaneous_game_count == old(self).simultaneous_game_count,
    {
        self.inference_batch_call_count += 1;
        if batch_size > self.max_inference_batch_size {
            self.max_inference_batch_size = batch_size;
        }
    }
}

/// Replay files written for one generation.
#[derive(Clone, Copy, Debug, PartialEq, Eq, Structural)]
pub struct ReplayChunkRecord {
    pub generation: usize,
    pub game_count: usize,
    pub actual_game_count: usize,
}

pub open spec fn replay_game_total(records: Seq<ReplayChunkRecord>) -> int
    decreases records.len(),
{
    if records.len() == 0 {
        0
    } else {
        replay_game_total(records.drop_last()) + records.last().game_count
    }
}

proof fn lemma_replay_game_total_prefix(records: Seq<ReplayChunkRecord>, k: int)
    requires
        0 <= k <= records.len(),
    ensures
        0 <= replay_game_total(records.take(k)) <= replay_game_total(records),
    decreases records.len(),
{
    if k == records.len() {
        assert(records.take(k) =~= records);
        if k > 0 {
            lemma_replay_game_total_prefix(records.drop_last(), k - 1);
            assert(records.drop_last().take(k - 1) =~= records.drop_last());
        }
    } else {
        lemma_replay_game_total_prefix(records.drop_last(), k);
        assert(records.drop_last().take(k) =~= records.take(k));
    }
}

/// Games recorded over the replay history.
pub fn replay_chunk_record_game_count(replay_history: &[ReplayChunkRecord]) -> (count: usize)
    requires
        replay_game_total(replay_history@) <= usize::MAX,
    ensures
        count == replay_game_total(replay_history@),
{
    let mut total: usize = 0;
    let mut index: usize = 0;
    while index < replay_history.len()
        invariant
            index <= replay_history.len(),
            replay_game_total(replay_history@) <= usize::MAX,
            total == replay_game_total(replay_history@.take(index as int)),
        decreases replay_history.len() - index,
    {
        proof {
            assert(replay_history@.take(index + 1).drop_last() =~= replay_history@.take(
                index as int,
            ));
            lemma_replay_game_total_prefix(replay_history@, index + 1);
        }
        total = total + replay_history[index].game_count;
        index += 1;
    }
    proof {
        assert(replay_history@.take(replay_history@.len() as int) =~= replay_history@);
    }
    total
}

/// Adding totals that are all zero leaves totals unchanged, so each total of a sum comes
/// from the totals of the same name.
pub proof fn law_stats_sum_adds_totals_of_the_same_name(a: PlayerStats)
    ensures
        stats_sum(
            a,
            PlayerStats {
                wins: 0,
                draws: 0,
                losses: 0,
                launch_actions: 0,
                launched_ships: 0,
                captures: 0,
                fleet_hits: 0,
                hit_ships: 0,
                sun_destroyed_fleets: 0,
                sun_destroyed_ships: 0,
            },
        ) == a,
{
}

} // verus!
