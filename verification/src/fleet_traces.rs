//! Which action launched each fleet in flight. A player's launches in a step follow its
//! recorded actions in order; a fleet that the sun destroys is charged to the action
//! that sent it, and fleets no longer in flight are forgotten.
use std::collections::BTreeMap;
use vstd::prelude::*;

use crate::events::{LaunchedFleetEvent, SunDestroyedFleetEvent};

verus! {

/// The training sample, source row and target of an action.
#[derive(Clone, Copy, Debug, PartialEq, Eq, Structural)]
pub struct ActionTrace {
    pub sample_index: usize,
    pub source_row: usize,
    pub target_slot: usize,
    pub target_row: usize,
}

#[derive(Clone, Copy, Debug, PartialEq, Eq, Structural)]
pub enum FleetTraceError {
    NegativePlayer(i32),
    PlayerOutOfRange(usize),
    /// A player launched more fleets than it has recorded actions.
    TraceMissing { player_slot: usize, trace: usize },
}

pub open spec fn traces_view(traces_by_player: Seq<Vec<ActionTrace>>) -> Seq<Seq<ActionTrace>> {
    traces_by_player.map_values(|traces: Vec<ActionTrace>| traces@)
}

/// How many of the first `k` launches are `player`'s.
pub open spec fn launches_before(launched: Seq<LaunchedFleetEvent>, player: i32, k: int) -> nat
    decreases k,
{
    if k <= 0 {
        0
    } else if launched[k - 1].player == player {
        launches_before(launched, player, k - 1) + 1
    } else {
        launches_before(launched, player, k - 1)
    }
}

/// The traces after the first `k` launches, and the error that stopped them if one did:
/// each launch maps its fleet to the next unused action of its player.
pub open spec fn launch_outcome(
    traces: Map<i32, ActionTrace>,
    launched: Seq<LaunchedFleetEvent>,
    by_player: Seq<Seq<ActionTrace>>,
    active_player_count: int,
    k: int,
) -> (Map<i32, ActionTrace>, Option<FleetTraceError>)
    decreases k,
{
    if k <= 0 {
        (traces, None)
    } else {
        let (before, error) = launch_outcome(traces, launched, by_player, active_player_count, k - 1);
        let launch = launched[k - 1];
        let slot = launch.player as int;
        let trace = launches_before(launched, launch.player, k - 1) as int;
        if error is Some {
            (before, error)
        } else if launch.player < 0 {
            (before, Some(FleetTraceError::NegativePlayer(launch.player)))
        } else if slot >= active_player_count {
            (before, Some(FleetTraceError::PlayerOutOfRange(slot as usize)))
        } else if slot >= by_player.len() || trace >= by_player[slot].len() {
            (
                before,
                Some(
                    FleetTraceError::TraceMissing { player_slot: slot as usize, trace: trace as usize },
                ),
            )
        } else {
            (before.insert(launch.fleet_id, by_player[slot][trace]), None)
        }
    }
}

proof fn lemma_launches_before_bound(launched: Seq<LaunchedFleetEvent>, player: i32, k: int)
    requires
        0 <= k,
    ensures
        launches_before(launched, player, k) <= k,
    decreases k,
{
    if k > 0 {
        lemma_launches_before_bound(launched, player, k - 1);
    }
}

/// Maps each launched fleet to the action that sent it: the launches of a player take its
/// recorded actions in order. Stops at the first launch of a negative or inactive player,
/// or of a player with no action left; the fleets before it stay mapped.
pub fn record_launched_fleet_traces(
    traces: &mut BTreeMap<i32, ActionTrace>,
    launched: &[LaunchedFleetEvent],
    traces_by_player: &[Vec<ActionTrace>],
    active_player_count: usize,
) -> (result: Result<(), FleetTraceError>)
    ensures
        ({
            let (after, error) = launch_outcome(
                old(traces)@,
                launched@,
                traces_view(traces_by_player@),
                active_player_count as int,
                launched@.len() as int,
            );
            &&& final(traces)@ == after
            &&& match error {
                Some(e) => result == Err::<(), FleetTraceError>(e),
                None => result == Ok::<(), FleetTraceError>(()),
            }
        }),
{
    let ghost by_player = traces_view(traces_by_player@);
    let mut counters: Vec<usize> = Vec::new();
    while counters.len() < active_player_count
        invariant
            counters.len() <= active_player_count,
            forall|s: int| 0 <= s < counters.len() ==> #[trigger] counters@[s] == 0,
        decreases active_player_count - counters.len(),
    {
        counters.push(0);
    }
    let mut k: usize = 0;
    while k < launched.len()
        invariant
            k <= launched.len(),
            counters.len() == active_player_count,
            by_player == traces_view(traces_by_player@),
            forall|s: int|
                0 <= s < active_player_count && s <= i32::MAX ==> #[trigger] counters@[s]
                    == launches_before(launched@, s as i32, k as int),
            launch_outcome(old(traces)@, launched@, by_player, active_player_count as int, k as int)
                == (traces@, None::<FleetTraceError>),
        decreases launched.len() - k,
    {
        let launch = launched[k];
        let ghost before = traces@;
        if launch.player < 0 {
            proof {
                lemma_outcome_stops(old(traces)@, launched@, by_player, active_player_count as int, k as int + 1);
            }
            return Err(FleetTraceError::NegativePlayer(launch.player));
        }
        let slot = launch.player as usize;
        if slot >= active_player_count {
            proof {
                lemma_outcome_stops(old(traces)@, launched@, by_player, active_player_count as int, k as int + 1);
            }
            return Err(FleetTraceError::PlayerOutOfRange(slot));
        }
        let trace = counters[slot];
        proof {
            assert(counters@[slot as int] == launches_before(launched@, slot as i32, k as int));
            assert(slot as i32 == launch.player);
        }
        if slot >= traces_by_player.len() || trace >= traces_by_player[slot].len() {
            proof {
                if slot < traces_by_player.len() {
                    assert(by_player[slot as int] == traces_by_player@[slot as int]@);
                }
                lemma_outcome_stops(old(traces)@, launched@, by_player, active_player_count as int, k as int + 1);
            }
            return Err(FleetTraceError::TraceMissing { player_slot: slot, trace });
        }
        let action = traces_by_player[slot][trace];
        proof {
            assert(by_player[slot as int] == traces_by_player@[slot as int]@);
            lemma_launches_before_bound(launched@, launch.player, k as int);
        }
        traces.insert(launch.fleet_id, action);
        counters.set(slot, trace + 1);
        proof {
            assert forall|s: int| 0 <= s < active_player_count && s <= i32::MAX implies #[trigger] counters@[s]
                == launches_before(launched@, s as i32, k + 1) by {
                assert((s as i32) as int == s);
                if s != slot as int {
                    assert(s as i32 != launch.player);
                }
            }
        }
        k += 1;
    }
    Ok(())
}

/// Once the launches stop at an error, later launches change nothing.
proof fn lemma_outcome_stops(
    traces: Map<i32, ActionTrace>,
    launched: Seq<LaunchedFleetEvent>,
    by_player: Seq<Seq<ActionTrace>>,
    active_player_count: int,
    k: int,
)
    requires
        1 <= k <= launched.len(),
        launch_outcome(traces, launched, by_player, active_player_count, k).1 is Some,
    ensures
        launch_outcome(traces, launched, by_player, active_player_count, launched.len() as int)
            == launch_outcome(traces, launched, by_player, active_player_count, k),
    decreases launched.len() - k,
{
    if k < launched.len() {
        lemma_outcome_stops(traces, launched, by_player, active_player_count, k + 1);
    }
}

/// The traces after the first `k` sun losses, and the actions charged for them: a lost
/// fleet that has a trace gives it up.
pub open spec fn loss_outcome(
    traces: Map<i32, ActionTrace>,
    destroyed: Seq<SunDestroyedFleetEvent>,
    k: int,
) -> (Map<i32, ActionTrace>, Seq<ActionTrace>)
    decreases k,
{
    if k <= 0 {
        (traces, Seq::empty())
    } else {
        let (before, charged) = loss_outcome(traces, destroyed, k - 1);
        let fleet = destroyed[k - 1].fleet_id;
        if before.contains_key(fleet) {
            (before.remove(fleet), charged.push(before[fleet]))
        } else {
            (before, charged)
        }
    }
}

proof fn lemma_loss_outcome(traces: Map<i32, ActionTrace>, destroyed: Seq<SunDestroyedFleetEvent>, k: int)
    requires
        0 <= k <= destroyed.len(),
    ensures
        forall|j: int|
            0 <= j < k ==> !loss_outcome(traces, destroyed, k).0.contains_key(
                #[trigger] destroyed[j].fleet_id,
            ),
        loss_outcome(traces, destroyed, k).1.len() <= k,
        loss_outcome(traces, destroyed, k).0.dom().subset_of(traces.dom()),
        traces.dom().finite() ==> loss_outcome(traces, destroyed, k).1.len() + loss_outcome(
            traces,
            destroyed,
            k,
        ).0.dom().len() == traces.dom().len(),
    decreases k,
{
    if k > 0 {
        lemma_loss_outcome(traces, destroyed, k - 1);
        let (before, charged) = loss_outcome(traces, destroyed, k - 1);
        if traces.dom().finite() {
            vstd::set_lib::lemma_len_subset(before.dom(), traces.dom());
        }
        let fleet = destroyed[k - 1].fleet_id;
        if before.contains_key(fleet) {
            assert(before.remove(fleet).dom() =~= before.dom().remove(fleet));
        }
    }
}

/// Charging the sun's losses leaves no destroyed fleet with a trace, and every trace
/// charged was taken out: the traces charged and the traces left together are as many
/// as there were.
pub proof fn law_lost_fleets_keep_no_trace(
    traces: Map<i32, ActionTrace>,
    destroyed: Seq<SunDestroyedFleetEvent>,
)
    requires
        traces.dom().finite(),
    ensures
        forall|j: int|
            0 <= j < destroyed.len() ==> !loss_outcome(traces, destroyed, destroyed.len() as int).0.contains_key(
                #[trigger] destroyed[j].fleet_id,
            ),
        loss_outcome(traces, destroyed, destroyed.len() as int).0.dom().subset_of(traces.dom()),
        loss_outcome(traces, destroyed, destroyed.len() as int).1.len() + loss_outcome(
            traces,
            destroyed,
            destroyed.len() as int,
        ).0.dom().len() == traces.dom().len(),
{
    lemma_loss_outcome(traces, destroyed, destroyed.len() as int);
}

/// Removes the traces of the fleets the sun destroyed and returns them, in order of loss.
pub fn take_sun_destroyed_traces(
    traces: &mut BTreeMap<i32, ActionTrace>,
    destroyed: &[SunDestroyedFleetEvent],
) -> (charged: Vec<ActionTrace>)
    ensures
        (final(traces)@, charged@) == loss_outcome(old(traces)@, destroyed@, destroyed@.len() as int),
{
    let mut charged: Vec<ActionTrace> = Vec::new();
    let mut k: usize = 0;
    while k < destroyed.len()
        invariant
            k <= destroyed.len(),
            (traces@, charged@) == loss_outcome(old(traces)@, destroyed@, k as int),
        decreases destroyed.len() - k,
    {
        let fleet = destroyed[k].fleet_id;
        let ghost before = traces@;
        match traces.remove(&fleet) {
            Some(trace) => {
                charged.push(trace);
            },
            None => {},
        }
        proof {
            assert(traces@ =~= loss_outcome(old(traces)@, destroyed@, k + 1).0);
        }
        k += 1;
    }
    charged
}

/// Keeps only the traces of the fleets in `active_fleet_ids`.
pub fn retain_active_fleet_traces(traces: &mut BTreeMap<i32, ActionTrace>, active_fleet_ids: &[i32])
    ensures
        final(traces)@ == old(traces)@.restrict(active_fleet_ids@.to_set()),
{
    let mut kept: BTreeMap<i32, ActionTrace> = BTreeMap::new();
    let mut i: usize = 0;
    while i < active_fleet_ids.len()
        invariant
            i <= active_fleet_ids.len(),
            *traces == *old(traces),
            kept@ == traces@.restrict(active_fleet_ids@.take(i as int).to_set()),
        decreases active_fleet_ids.len() - i,
    {
        let id = active_fleet_ids[i];
        let ghost before = kept@;
        match traces.get(&id) {
            Some(trace) => {
                kept.insert(id, *trace);
            },
            None => {},
        }
        proof {
            assert(active_fleet_ids@.take(i + 1) =~= active_fleet_ids@.take(i as int).push(id));
            active_fleet_ids@.take(i as int).lemma_push_to_set_commute(id);
            assert(kept@ =~= traces@.restrict(active_fleet_ids@.take(i + 1).to_set()));
        }
        i += 1;
    }
    proof {
        assert(active_fleet_ids@.take(active_fleet_ids@.len() as int) =~= active_fleet_ids@);
    }
    *traces = kept;
}

/// One step of the fleet traces: the step's launches are mapped to their actions, then,
/// when `charge_sun_losses` holds, the traces of the fleets the sun destroyed are taken
/// and returned, and the traces of fleets no longer in flight are dropped. A launch that
/// cannot be mapped stops the step with its error.
pub fn apply_fleet_trace_events(
    traces: &mut BTreeMap<i32, ActionTrace>,
    launched: &[LaunchedFleetEvent],
    destroyed: &[SunDestroyedFleetEvent],
    traces_by_player: &[Vec<ActionTrace>],
    active_player_count: usize,
    charge_sun_losses: bool,
    active_fleet_ids: &[i32],
) -> (result: Result<Vec<ActionTrace>, FleetTraceError>)
    ensures
        ({
            let (mapped, error) = launch_outcome(
                old(traces)@,
                launched@,
                traces_view(traces_by_player@),
                active_player_count as int,
                launched@.len() as int,
            );
            let (remaining, charged) = if charge_sun_losses {
                loss_outcome(mapped, destroyed@, destroyed@.len() as int)
            } else {
                (mapped, Seq::empty())
            };
            match error {
                Some(e) => {
                    &&& result == Err::<Vec<ActionTrace>, FleetTraceError>(e)
                    &&& final(traces)@ == mapped
                },
                None => {
                    &&& result is Ok
                    &&& result->Ok_0@ == charged
                    &&& final(traces)@ == remaining.restrict(active_fleet_ids@.to_set())
                },
            }
        }),
{
    record_launched_fleet_traces(traces, launched, traces_by_player, active_player_count)?;
    let charged = if charge_sun_losses {
        take_sun_destroyed_traces(traces, destroyed)
    } else {
        Vec::new()
    };
    retain_active_fleet_traces(traces, active_fleet_ids);
    Ok(charged)
}

} // verus!
