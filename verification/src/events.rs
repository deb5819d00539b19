//! What happened to each player during one simulation step.
use std::collections::BTreeMap;
use vstd::prelude::*;

verus! {

/// Counters of one player for one step.
#[derive(Clone, Copy, Debug, PartialEq, Eq, Structural)]
pub struct PlayerStepEvents {
    pub launched_fleet_count: usize,
    pub launched_ship_count: i64,
    pub hit_fleet_count: usize,
    pub hit_ship_count: i64,
    pub sun_destroyed_fleet_count: usize,
    pub sun_destroyed_ship_count: i64,
    pub out_of_bounds_destroyed_fleet_count: usize,
    pub out_of_bounds_destroyed_ship_count: i64,
    pub captured_planet_count: usize,
}

/// The counters of a player to whom nothing happened.
pub open spec fn no_player_events() -> PlayerStepEvents {
    PlayerStepEvents {
        launched_fleet_count: 0,
        launched_ship_count: 0,
        hit_fleet_count: 0,
        hit_ship_count: 0,
        sun_destroyed_fleet_count: 0,
        sun_destroyed_ship_count: 0,
        out_of_bounds_destroyed_fleet_count: 0,
        out_of_bounds_destroyed_ship_count: 0,
        captured_planet_count: 0,
    }
}

impl Default for PlayerStepEvents {
    fn default() -> (events: PlayerStepEvents)
        ensures
            events == no_player_events(),
    {
        PlayerStepEvents {
            launched_fleet_count: 0,
            launched_ship_count: 0,
            hit_fleet_count: 0,
            hit_ship_count: 0,
            sun_destroyed_fleet_count: 0,
            sun_destroyed_ship_count: 0,
            out_of_bounds_destroyed_fleet_count: 0,
            out_of_bounds_destroyed_ship_count: 0,
            captured_planet_count: 0,
        }
    }
}

#[derive(Clone, Copy, Debug, PartialEq, Eq, Structural)]
pub struct LaunchedFleetEvent {
    pub player: i32,
    pub fleet_id: i32,
    pub ship_count: i32,
}

#[derive(Clone, Copy, Debug, PartialEq, Eq, Structural)]
pub struct SunDestroyedFleetEvent {
    pub player: i32,
    pub fleet_id: i32,
    pub ship_count: i32,
}

#[derive(Clone, Copy, Debug, PartialEq, Eq, Structural)]
pub enum SimulationError {
    InvalidConfig,
    InvalidPlayerActionCount,
    LaunchFromMissingPlanet(i32),
    LaunchFromForeignPlanet(i32),
    LaunchNonPositiveShips(i32),
    LaunchOverdraft(i32),
    NonFiniteAction,
    CometPathPlanetMismatch,
}

/// The events of one step: per-player counters, the fleets launched and the fleets
/// that flew into the sun.
#[derive(Debug)]
pub struct SimulationStepEvents {
    pub by_player: BTreeMap<i32, PlayerStepEvents>,
    pub launched_fleets: Vec<LaunchedFleetEvent>,
    pub sun_destroyed_fleets: Vec<SunDestroyedFleetEvent>,
}

/// The counters recorded for `player`, or zeros when none were.
pub open spec fn player_events(by_player: Map<i32, PlayerStepEvents>, player: i32) -> PlayerStepEvents {
    if by_player.contains_key(player) {
        by_player[player]
    } else {
        no_player_events()
    }
}

impl Default for SimulationStepEvents {
    fn default() -> (events: SimulationStepEvents)
        ensures
            events.by_player@ == Map::<i32, PlayerStepEvents>::empty(),
            events.launched_fleets@ == Seq::<LaunchedFleetEvent>::empty(),
            events.sun_destroyed_fleets@ == Seq::<SunDestroyedFleetEvent>::empty(),
    {
        SimulationStepEvents {
            by_player: BTreeMap::new(),
            launched_fleets: Vec::new(),
            sun_destroyed_fleets: Vec::new(),
        }
    }
}

impl SimulationStepEvents {
    /// The counters of `player` in this step.
    pub fn player(&self, player: i32) -> (events: PlayerStepEvents)
        ensures
            events == player_events(self.by_player@, player),
    {
        match self.by_player.get(&player) {
            Some(events) => *events,
            None => PlayerStepEvents::default(),
        }
    }

    /// Replaces the counters of `player`.
    pub fn set_player(&mut self, player: i32, events: PlayerStepEvents)
        ensures
            final(self).by_player@ == old(self).by_player@.insert(player, events),
            final(self).launched_fleets@ == old(self).launched_fleets@,
            final(self).sun_destroyed_fleets@ == old(self).sun_destroyed_fleets@,
    {
        self.by_player.insert(player, events);
    }
}

/// Writing a player's counters and reading them back gives what was written; the other
/// players' counters do not change.
pub proof fn law_player_reads_back_what_was_set(
    by_player: Map<i32, PlayerStepEvents>,
    player: i32,
    other: i32,
    events: PlayerStepEvents,
)
    ensures
        player_events(by_player.insert(player, events), player) == events,
        other != player ==> player_events(by_player.insert(player, events), other)
            == player_events(by_player, other),
{
}

/// `keys` lists the players of `by_player` in increasing order.
pub open spec fn is_player_listing(keys: Seq<i32>, by_player: Map<i32, PlayerStepEvents>) -> bool {
    &&& forall|a: int, b: int| 0 <= a < b < keys.len() ==> #[trigger] keys[a] < #[trigger] keys[b]
    &&& keys.to_set() == by_player.dom()
}

/// Fleets launched by the players of `keys`.
pub open spec fn launched_fleet_total(keys: Seq<i32>, by_player: Map<i32, PlayerStepEvents>) -> int
    decreases keys.len(),
{
    if keys.len() == 0 {
        0
    } else {
        launched_fleet_total(keys.drop_last(), by_player) + by_player[keys.last()].launched_fleet_count
    }
}

/// Ships launched by the players of `keys`.
pub open spec fn launched_ship_total(keys: Seq<i32>, by_player: Map<i32, PlayerStepEvents>) -> int
    decreases keys.len(),
{
    if keys.len() == 0 {
        0
    } else {
        launched_ship_total(keys.drop_last(), by_player) + by_player[keys.last()].launched_ship_count
    }
}

proof fn lemma_fleet_total_prefix(keys: Seq<i32>, by_player: Map<i32, PlayerStepEvents>, k: int)
    requires
        0 <= k <= keys.len(),
    ensures
        0 <= launched_fleet_total(keys.take(k), by_player) <= launched_fleet_total(keys, by_player),
    decreases keys.len() - k,
{
    if k < keys.len() {
        lemma_fleet_total_prefix(keys, by_player, k + 1);
        assert(keys.take(k + 1).drop_last() =~= keys.take(k));
        lemma_fleet_total_nonneg(keys.take(k), by_player);
    } else {
        assert(keys.take(k) =~= keys);
        lemma_fleet_total_nonneg(keys, by_player);
    }
}

proof fn lemma_fleet_total_nonneg(keys: Seq<i32>, by_player: Map<i32, PlayerStepEvents>)
    ensures
        0 <= launched_fleet_total(keys, by_player),
    decreases keys.len(),
{
    if keys.len() > 0 {
        lemma_fleet_total_nonneg(keys.drop_last(), by_player);
    }
}

/// The players of the map in increasing order, as the map's value iterator visits them.
proof fn lemma_values_listing(m: &BTreeMap<i32, PlayerStepEvents>, keys: Seq<i32>)
    requires
        vstd::std_specs::btree::increasing_seq(keys),
        keys.to_set() == m@.dom(),
    ensures
        is_player_listing(keys, m@),
{
    broadcast use vstd::std_specs::btree::axiom_increasing_seq_meaning;
    assert(vstd::laws_cmp::obeys_cmp::<i32>());
    assert forall|a: int, b: int| 0 <= a < b < keys.len() implies #[trigger] keys[a]
        < #[trigger] keys[b] by {
        assert(vstd::std_specs::cmp::OrdSpec::cmp_spec(&keys[a], &keys[b]) is Less);
    }
}

/// Fleets launched in the step, over all players.
pub fn events_launch_count(events: &SimulationStepEvents) -> (count: usize)
    requires
        forall|keys: Seq<i32>|
            is_player_listing(keys, events.by_player@) ==> #[trigger] launched_fleet_total(
                keys,
                events.by_player@,
            ) <= usize::MAX,
    ensures
        exists|keys: Seq<i32>|
            is_player_listing(keys, events.by_player@) && count == #[trigger] launched_fleet_total(
                keys,
                events.by_player@,
            ),
{
    let ghost m = events.by_player@;
    let values = events.by_player.values();
    let ghost keys = choose|keys: Seq<i32>|
        {
            &&& vstd::std_specs::btree::increasing_seq(keys)
            &&& keys.to_set() == m.dom()
            &&& keys.no_duplicates()
            &&& vstd::std_specs::iter::IteratorSpec::remaining(&values) == keys.map(|i: int, k: i32| &m[k])
        };
    proof {
        lemma_values_listing(&events.by_player, keys);
        lemma_fleet_total_prefix(keys, m, 0);
    }
    let mut total: usize = 0;
    for player_events in it: values
        invariant
            is_player_listing(keys, m),
            launched_fleet_total(keys, m) <= usize::MAX,
            it.seq() == keys.map(|i: int, k: i32| &m[k]),
            total == launched_fleet_total(keys.take(it.index()), m),
    {
        proof {
            let t = it.index();
            lemma_fleet_total_prefix(keys, m, t + 1);
            assert(keys.take(t + 1).drop_last() =~= keys.take(t));
        }
        total = total + player_events.launched_fleet_count;
    }
    proof {
        assert(keys.take(keys.len() as int) =~= keys);
    }
    total
}

/// Ships launched in the step, over all players.
pub fn events_launched_ships(events: &SimulationStepEvents) -> (ships: i64)
    requires
        forall|keys: Seq<i32>, k: int|
            is_player_listing(keys, events.by_player@) && 0 <= k <= keys.len() ==> i64::MIN
                <= #[trigger] launched_ship_total(keys.take(k), events.by_player@) <= i64::MAX,
    ensures
        exists|keys: Seq<i32>|
            is_player_listing(keys, events.by_player@) && ships == #[trigger] launched_ship_total(
                keys,
                events.by_player@,
            ),
{
    let ghost m = events.by_player@;
    let values = events.by_player.values();
    let ghost keys = choose|keys: Seq<i32>|
        {
            &&& vstd::std_specs::btree::increasing_seq(keys)
            &&& keys.to_set() == m.dom()
            &&& keys.no_duplicates()
            &&& vstd::std_specs::iter::IteratorSpec::remaining(&values) == keys.map(|i: int, k: i32| &m[k])
        };
    proof {
        lemma_values_listing(&events.by_player, keys);
        assert(keys.take(0) =~= Seq::<i32>::empty());
    }
    let mut total: i64 = 0;
    for player_events in it: values
        invariant
            is_player_listing(keys, m),
            forall|k: int|
                0 <= k <= keys.len() ==> i64::MIN <= #[trigger] launched_ship_total(keys.take(k), m)
                    <= i64::MAX,
            it.seq() == keys.map(|i: int, k: i32| &m[k]),
            total == launched_ship_total(keys.take(it.index()), m),
    {
        proof {
            let t = it.index();
            assert(keys.take(t + 1).drop_last() =~= keys.take(t));
            assert(i64::MIN <= launched_ship_total(keys.take(t + 1), m) <= i64::MAX);
        }
        total = total + player_events.launched_ship_count;
    }
    proof {
        assert(keys.take(keys.len() as int) =~= keys);
    }
    total
}

} // verus!
