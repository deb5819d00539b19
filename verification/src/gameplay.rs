//! Gameplay counters of a model over the games it played: results and what its fleets
//! did. The average fleet size is floating-point and kept by the caller beside these.
use vstd::prelude::*;

use crate::events::{player_events, PlayerStepEvents, SimulationStepEvents};
use crate::rewards::RewardValues;

verus! {

#[derive(Clone, Copy, Debug, Default, PartialEq, Eq, Structural)]
pub struct GameplayStats {
    pub game_count: usize,
    pub win_count: usize,
    pub draw_count: usize,
    pub loss_count: usize,
    pub capture_count: usize,
    pub fleet_hit_count: usize,
    pub hit_ship_count: i64,
    pub sun_destroyed_fleet_count: usize,
    pub sun_destroyed_ship_count: i64,
    pub out_of_bounds_destroyed_fleet_count: usize,
    pub out_of_bounds_destroyed_ship_count: i64,
    pub launch_action_count: usize,
    pub launched_ship_count: i64,
    pub fleet_observation_count: usize,
}

pub open spec fn fits_usize(value: int) -> bool {
    0 <= value <= usize::MAX
}

pub open spec fn fits_i64(value: int) -> bool {
    i64::MIN <= value <= i64::MAX
}

/// Field by field sum of two records.
pub open spec fn gameplay_sum(a: GameplayStats, b: GameplayStats) -> GameplayStats {
    GameplayStats {
        game_count: (a.game_count + b.game_count) as usize,
        win_count: (a.win_count + b.win_count) as usize,
        draw_count: (a.draw_count + b.draw_count) as usize,
        loss_count: (a.loss_count + b.loss_count) as usize,
        capture_count: (a.capture_count + b.capture_count) as usize,
        fleet_hit_count: (a.fleet_hit_count + b.fleet_hit_count) as usize,
        hit_ship_count: (a.hit_ship_count + b.hit_ship_count) as i64,
        sun_destroyed_fleet_count: (a.sun_destroyed_fleet_count + b.sun_destroyed_fleet_count) as usize,
        sun_destroyed_ship_count: (a.sun_destroyed_ship_count + b.sun_destroyed_ship_count) as i64,
        out_of_bounds_destroyed_fleet_count: (a.out_of_bounds_destroyed_fleet_count
            + b.out_of_bounds_destroyed_fleet_count) as usize,
        out_of_bounds_destroyed_ship_count: (a.out_of_bounds_destroyed_ship_count
            + b.out_of_bounds_destroyed_ship_count) as i64,
        launch_action_count: (a.launch_action_count + b.launch_action_count) as usize,
        launched_ship_count: (a.launched_ship_count + b.launched_ship_count) as i64,
        fleet_observation_count: (a.fleet_observation_count + b.fleet_observation_count) as usize,
    }
}

/// Every sum of two records fits its field.
pub open spec fn gameplay_sum_fits(a: GameplayStats, b: GameplayStats) -> bool {
    &&& fits_usize(a.game_count + b.game_count)
    &&& fits_usize(a.win_count + b.win_count)
    &&& fits_usize(a.draw_count + b.draw_count)
    &&& fits_usize(a.loss_count + b.loss_count)
    &&& fits_usize(a.capture_count + b.capture_count)
    &&& fits_usize(a.fleet_hit_count + b.fleet_hit_count)
    &&& fits_i64(a.hit_ship_count + b.hit_ship_count)
    &&& fits_usize(a.sun_destroyed_fleet_count + b.sun_destroyed_fleet_count)
    &&& fits_i64(a.sun_destroyed_ship_count + b.sun_destroyed_ship_count)
    &&& fits_usize(a.out_of_bounds_destroyed_fleet_count + b.out_of_bounds_destroyed_fleet_count)
    &&& fits_i64(a.out_of_bounds_destroyed_ship_count + b.out_of_bounds_destroyed_ship_count)
    &&& fits_usize(a.launch_action_count + b.launch_action_count)
    &&& fits_i64(a.launched_ship_count + b.launched_ship_count)
    &&& fits_usize(a.fleet_observation_count + b.fleet_observation_count)
}

/// A record holding the counters of one step's events.
pub open spec fn step_events_as_gameplay(events: PlayerStepEvents) -> GameplayStats {
    GameplayStats {
        game_count: 0,
        win_count: 0,
        draw_count: 0,
        loss_count: 0,
        capture_count: events.captured_planet_count,
        fleet_hit_count: events.hit_fleet_count,
        hit_ship_count: events.hit_ship_count,
        sun_destroyed_fleet_count: events.sun_destroyed_fleet_count,
        sun_destroyed_ship_count: events.sun_destroyed_ship_count,
        out_of_bounds_destroyed_fleet_count: events.out_of_bounds_destroyed_fleet_count,
        out_of_bounds_destroyed_ship_count: events.out_of_bounds_destroyed_ship_count,
        launch_action_count: events.launched_fleet_count,
        launched_ship_count: events.launched_ship_count,
        fleet_observation_count: 0,
    }
}

/// A record of one game with `reward`: a win, a loss or else a draw.
pub open spec fn reward_as_gameplay(reward: i32, values: RewardValues) -> GameplayStats {
    GameplayStats {
        game_count: 1,
        win_count: if reward == values.win {
            1
        } else {
            0
        },
        draw_count: if reward != values.win && reward != values.loss {
            1
        } else {
            0
        },
        loss_count: if reward != values.win && reward == values.loss {
            1
        } else {
            0
        },
        capture_count: 0,
        fleet_hit_count: 0,
        hit_ship_count: 0,
        sun_destroyed_fleet_count: 0,
        sun_destroyed_ship_count: 0,
        out_of_bounds_destroyed_fleet_count: 0,
        out_of_bounds_destroyed_ship_count: 0,
        launch_action_count: 0,
        launched_ship_count: 0,
        fleet_observation_count: 0,
    }
}

impl GameplayStats {
    /// Adds another record's counters.
    pub fn add_gameplay(&mut self, gameplay: GameplayStats)
        requires
            gameplay_sum_fits(*old(self), gameplay),
        ensures
            *final(self) == gameplay_sum(*old(self), gameplay),
    {
        self.game_count += gameplay.game_count;
        self.win_count += gameplay.win_count;
        self.draw_count += gameplay.draw_count;
        self.loss_count += gameplay.loss_count;
        self.capture_count += gameplay.capture_count;
        self.fleet_hit_count += gameplay.fleet_hit_count;
        self.hit_ship_count += gameplay.hit_ship_count;
        self.sun_destroyed_fleet_count += gameplay.sun_destroyed_fleet_count;
        self.sun_destroyed_ship_count += gameplay.sun_destroyed_ship_count;
        self.out_of_bounds_destroyed_fleet_count += gameplay.out_of_bounds_destroyed_fleet_count;
        self.out_of_bounds_destroyed_ship_count += gameplay.out_of_bounds_destroyed_ship_count;
        self.launch_action_count += gameplay.launch_action_count;
        self.launched_ship_count += gameplay.launched_ship_count;
        self.fleet_observation_count += gameplay.fleet_observation_count;
    }

    /// Adds the counters of one step's events.
    pub fn add_step_events(&mut self, events: PlayerStepEvents)
        requires
            gameplay_sum_fits(*old(self), step_events_as_gameplay(events)),
        ensures
            *final(self) == gameplay_sum(*old(self), step_events_as_gameplay(events)),
    {
        self.capture_count += events.captured_planet_count;
        self.fleet_hit_count += events.hit_fleet_count;
        self.hit_ship_count += events.hit_ship_count;
        self.sun_destroyed_fleet_count += events.sun_destroyed_fleet_count;
        self.sun_destroyed_ship_count += events.sun_destroyed_ship_count;
        self.out_of_bounds_destroyed_fleet_count += events.out_of_bounds_destroyed_fleet_count;
        self.out_of_bounds_destroyed_ship_count += events.out_of_bounds_destroyed_ship_count;
        self.launch_action_count += events.launched_fleet_count;
        self.launched_ship_count += events.launched_ship_count;
    }

    /// Counts a finished game by its reward.
    pub fn add_reward(&mut self, reward: i32, values: RewardValues)
        requires
            gameplay_sum_fits(*old(self), reward_as_gameplay(reward, values)),
        ensures
            *final(self) == gameplay_sum(*old(self), reward_as_gameplay(reward, values)),
    {
        self.game_count += 1;
        if reward == values.win {
            self.win_count += 1;
        } else if reward == values.loss {
            self.loss_count += 1;
        } else {
            self.draw_count += 1;
        }
    }
}

/// Adds each seat's counters of a step to that seat's record; seat `s` is player `s`.
pub fn apply_step_events_to_gameplay(
    gameplay: &mut [GameplayStats; 4],
    events: &SimulationStepEvents,
    active_player_count: usize,
)
    requires
        forall|seat: int|
            0 <= seat < active_player_count && seat < 4 ==> gameplay_sum_fits(
                #[trigger] old(gameplay)@[seat],
                step_events_as_gameplay(player_events(events.by_player@, seat as i32)),
            ),
    ensures
        forall|seat: int|
            0 <= seat < 4 ==> #[trigger] final(gameplay)@[seat] == if seat < active_player_count {
                gameplay_sum(
                    old(gameplay)@[seat],
                    step_events_as_gameplay(player_events(events.by_player@, seat as i32)),
                )
            } else {
                old(gameplay)@[seat]
            },
{
    let ghost start = gameplay@;
    let count = if active_player_count < 4 {
        active_player_count
    } else {
        4
    };
    let mut seat: usize = 0;
    while seat < count
        invariant
            count <= 4,
            count <= active_player_count,
            count == active_player_count || count == 4,
            seat <= count,
            forall|s: int|
                0 <= s < active_player_count && s < 4 ==> gameplay_sum_fits(
                    #[trigger] start[s],
                    step_events_as_gameplay(player_events(events.by_player@, s as i32)),
                ),
            forall|s: int|
                0 <= s < 4 ==> #[trigger] gameplay@[s] == if s < seat {
                    gameplay_sum(
                        start[s],
                        step_events_as_gameplay(player_events(events.by_player@, s as i32)),
                    )
                } else {
                    start[s]
                },
        decreases count - seat,
    {
        let player_counters = events.player(seat as i32);
        let mut record = gameplay[seat];
        record.add_step_events(player_counters);
        gameplay.set(seat, record);
        seat += 1;
    }
}

/// Adding records in either order gives the same record.
pub proof fn law_gameplay_sum_commutes(a: GameplayStats, b: GameplayStats)
    ensures
        gameplay_sum(a, b) == gameplay_sum(b, a),
{
}

/// Adding a step's events grows each counter of the record by the event counter of the
/// same name (launches by the launched fleets), and leaves the game results and fleet
/// observations as they were.
pub proof fn law_step_events_grow_their_own_counters(stats: GameplayStats, events: PlayerStepEvents)
    requires
        gameplay_sum_fits(stats, step_events_as_gameplay(events)),
    ensures
        ({
            let after = gameplay_sum(stats, step_events_as_gameplay(events));
            &&& after.capture_count == stats.capture_count + events.captured_planet_count
            &&& after.fleet_hit_count == stats.fleet_hit_count + events.hit_fleet_count
            &&& after.hit_ship_count == stats.hit_ship_count + events.hit_ship_count
            &&& after.sun_destroyed_fleet_count == stats.sun_destroyed_fleet_count
                + events.sun_destroyed_fleet_count
            &&& after.sun_destroyed_ship_count == stats.sun_destroyed_ship_count
                + events.sun_destroyed_ship_count
            &&& after.out_of_bounds_destroyed_fleet_count == stats.out_of_bounds_destroyed_fleet_count
                + events.out_of_bounds_destroyed_fleet_count
            &&& after.out_of_bounds_destroyed_ship_count == stats.out_of_bounds_destroyed_ship_count
                + events.out_of_bounds_destroyed_ship_count
            &&& after.launch_action_count == stats.launch_action_count + events.launched_fleet_count
            &&& after.launched_ship_count == stats.launched_ship_count + events.launched_ship_count
            &&& after.game_count == stats.game_count
            &&& after.win_count == stats.win_count
            &&& after.draw_count == stats.draw_count
            &&& after.loss_count == stats.loss_count
            &&& after.fleet_observation_count == stats.fleet_observation_count
        }),
{
}

/// A finished game adds one game and exactly one of a win, a draw or a loss: a win when
/// the reward is the win reward, a loss when it is the loss reward, a draw otherwise.
pub proof fn law_reward_counts_one_result(stats: GameplayStats, reward: i32, values: RewardValues)
    requires
        gameplay_sum_fits(stats, reward_as_gameplay(reward, values)),
    ensures
        ({
            let after = gameplay_sum(stats, reward_as_gameplay(reward, values));
            &&& after.game_count == stats.game_count + 1
            &&& (after.win_count - stats.win_count) + (after.draw_count - stats.draw_count) + (
            after.loss_count - stats.loss_count) == 1
            &&& (after.win_count == stats.win_count + 1 <==> reward == values.win)
            &&& (after.loss_count == stats.loss_count + 1 <==> (reward != values.win && reward
                == values.loss))
            &&& after.capture_count == stats.capture_count
            &&& after.sun_destroyed_fleet_count == stats.sun_destroyed_fleet_count
        }),
{
}

/// Adding a record with every counter zero leaves a record unchanged, so each counter of
/// a sum comes from the counters of the same name.
pub proof fn law_gameplay_sum_adds_counters_of_the_same_name(a: GameplayStats)
    ensures
        gameplay_sum(
            a,
            GameplayStats {
                game_count: 0,
                win_count: 0,
                draw_count: 0,
                loss_count: 0,
                capture_count: 0,
                fleet_hit_count: 0,
                hit_ship_count: 0,
                sun_destroyed_fleet_count: 0,
                sun_destroyed_ship_count: 0,
                out_of_bounds_destroyed_fleet_count: 0,
                out_of_bounds_destroyed_ship_count: 0,
                launch_action_count: 0,
                launched_ship_count: 0,
                fleet_observation_count: 0,
            },
        ) == a,
{
}

} // verus!
