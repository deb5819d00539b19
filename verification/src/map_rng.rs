//! Seeds and the linear congruential generator behind the generated maps, and the
//! choice of the players' home planets.
use vstd::prelude::*;

use crate::schedule::{PLAYER_COUNT_FOUR, PLAYER_COUNT_TWO};

verus! {

pub const MAP_SEED_BASE: u64 = 0x4f_57_4d_41_50;

pub const MAP_GENERATION_SEED_FACTOR: u64 = 1_000_003;

pub const MAP_GAME_SEED_FACTOR: u64 = 9_176;

pub const MAP_RNG_MULTIPLIER: u64 = 6_364_136_223_846_793_005;

pub const MAP_RNG_INCREMENT: u64 = 1_442_695_040_888_963_407;

#[derive(Clone, Copy, Debug, PartialEq, Eq, Structural)]
pub enum MapSeedError {
    GenerationSeedOverflow,
    GameSeedOverflow,
}

/// The seed of the map of game `game_index` in `generation`.
pub fn map_seed(generation: usize, game_index: usize) -> (seed: Result<u64, MapSeedError>)
    ensures
        generation * MAP_GENERATION_SEED_FACTOR > u64::MAX ==> seed == Err::<u64, MapSeedError>(
            MapSeedError::GenerationSeedOverflow,
        ),
        generation * MAP_GENERATION_SEED_FACTOR <= u64::MAX && game_index * MAP_GAME_SEED_FACTOR
            > u64::MAX ==> seed == Err::<u64, MapSeedError>(MapSeedError::GameSeedOverflow),
        generation * MAP_GENERATION_SEED_FACTOR <= u64::MAX && game_index * MAP_GAME_SEED_FACTOR
            <= u64::MAX ==> seed == Ok::<u64, MapSeedError>(
            MAP_SEED_BASE ^ ((generation * MAP_GENERATION_SEED_FACTOR) as u64) ^ ((game_index
                * MAP_GAME_SEED_FACTOR) as u64),
        ),
{
    let generation_part = match (generation as u64).checked_mul(MAP_GENERATION_SEED_FACTOR) {
        Some(part) => part,
        None => {
            return Err(MapSeedError::GenerationSeedOverflow);
        },
    };
    let game_part = match (game_index as u64).checked_mul(MAP_GAME_SEED_FACTOR) {
        Some(part) => part,
        None => {
            return Err(MapSeedError::GameSeedOverflow);
        },
    };
    Ok(MAP_SEED_BASE ^ generation_part ^ game_part)
}

/// The state that follows `state`: `state * multiplier + increment` modulo 2^64.
pub open spec fn next_state(state: u64) -> u64 {
    ((state * MAP_RNG_MULTIPLIER + MAP_RNG_INCREMENT) % 0x1_0000_0000_0000_0000) as u64
}

/// A linear congruential generator over `u64`.
#[derive(Clone, Copy, Debug)]
pub struct MapRng {
    pub state: u64,
}

impl MapRng {
    pub fn new(seed: u64) -> (rng: MapRng)
        ensures
            rng.state == seed,
    {
        MapRng { state: seed }
    }

    /// Advances the generator and returns the new state.
    pub fn next_u64(&mut self) -> (value: u64)
        ensures
            final(self).state == next_state(old(self).state),
            value == final(self).state,
    {
        let product = self.state.wrapping_mul(MAP_RNG_MULTIPLIER);
        self.state = product.wrapping_add(MAP_RNG_INCREMENT);
        proof {
            let s = old(self).state as int;
            let m = MAP_RNG_MULTIPLIER as int;
            let i = MAP_RNG_INCREMENT as int;
            let w = 0x1_0000_0000_0000_0000int;
            assert(product == (s * m) % w);
            assert(self.state == (product + i) % w);
            vstd::arithmetic::div_mod::lemma_add_mod_noop(s * m, i, w);
            vstd::arithmetic::div_mod::lemma_mod_twice(i, w);
            vstd::arithmetic::div_mod::lemma_small_mod(i as nat, w as nat);
        }
        self.state
    }

    /// A value in `min..=max` from the next state.
    pub fn range_usize(&mut self, min: usize, max: usize) -> (value: usize)
        requires
            min <= max,
            max - min < usize::MAX,
        ensures
            final(self).state == next_state(old(self).state),
            value == min + (final(self).state as usize) % ((max - min + 1) as usize),
            min <= value <= max,
    {
        let span = max - min + 1;
        let drawn = self.next_u64() as usize;
        min + drawn % span
    }
}

/// Planets are generated in groups of this many, one planet per quadrant.
pub const MAP_GROUP_SIZE: usize = 4;

#[derive(Clone, Copy, Debug, PartialEq, Eq, Structural)]
pub enum HomePlanetError {
    /// The planets do not form whole groups, or form none.
    GroupUnavailable,
    InvalidActivePlayerCount(usize),
}

/// The home planets of the group that starts at `base`, with their owners: two players
/// take opposite planets of the group, four players take one planet each.
pub open spec fn home_seats(base: int, active_player_count: int) -> Seq<(usize, i32)> {
    if active_player_count == PLAYER_COUNT_TWO {
        seq![(base as usize, 0i32), ((base + 3) as usize, 1i32)]
    } else {
        Seq::new(4, |k: int| ((base + k) as usize, k as i32))
    }
}

/// Each active player gets one home planet, and it is theirs: the homes are distinct
/// planets of the drawn group, and the player of seat `k` is player `k`.
pub proof fn law_home_planets_are_distinct_and_owned(planet_count: usize, group: int, active_player_count: int)
    requires
        planet_count % MAP_GROUP_SIZE == 0,
        0 <= group < planet_count / MAP_GROUP_SIZE,
        active_player_count == PLAYER_COUNT_TWO || active_player_count == PLAYER_COUNT_FOUR,
    ensures
        ({
            let homes = home_seats(group * MAP_GROUP_SIZE, active_player_count);
            &&& homes.len() == active_player_count
            &&& forall|k: int| 0 <= k < homes.len() ==> #[trigger] homes[k].1 == k
            &&& forall|k: int|
                0 <= k < homes.len() ==> group * MAP_GROUP_SIZE <= #[trigger] homes[k].0 < (group + 1)
                    * MAP_GROUP_SIZE
            &&& forall|k: int| 0 <= k < homes.len() ==> #[trigger] homes[k].0 < planet_count
            &&& forall|j: int, k: int|
                0 <= j < k < homes.len() ==> #[trigger] homes[j].0 != #[trigger] homes[k].0
        }),
{
    assert((group + 1) * MAP_GROUP_SIZE <= planet_count) by (nonlinear_arith)
        requires
            group < planet_count / MAP_GROUP_SIZE,
            planet_count % MAP_GROUP_SIZE == 0,
            MAP_GROUP_SIZE == 4,
    {
        vstd::arithmetic::div_mod::lemma_fundamental_div_mod(planet_count as int, 4);
    }
}

/// Draws the group of the home planets among the `planet_count / 4` groups and gives
/// its planets to the players, as (planet index, owner) pairs.
pub fn home_planets(planet_count: usize, active_player_count: usize, rng: &mut MapRng) -> (result: Result<
    Vec<(usize, i32)>,
    HomePlanetError,
>)
    ensures
        planet_count < MAP_GROUP_SIZE || planet_count % MAP_GROUP_SIZE != 0 ==> {
            &&& result == Err::<Vec<(usize, i32)>, HomePlanetError>(HomePlanetError::GroupUnavailable)
            &&& final(rng).state == old(rng).state
        },
        planet_count >= MAP_GROUP_SIZE && planet_count % MAP_GROUP_SIZE == 0 ==> {
            let group = (final(rng).state as usize) % (planet_count / MAP_GROUP_SIZE);
            &&& final(rng).state == next_state(old(rng).state)
            &&& if active_player_count == PLAYER_COUNT_TWO || active_player_count == PLAYER_COUNT_FOUR {
                result is Ok && result->Ok_0@ == home_seats(
                    group * MAP_GROUP_SIZE,
                    active_player_count as int,
                )
            } else {
                result == Err::<Vec<(usize, i32)>, HomePlanetError>(
                    HomePlanetError::InvalidActivePlayerCount(active_player_count),
                )
            }
        },
{
    if planet_count < MAP_GROUP_SIZE || planet_count % MAP_GROUP_SIZE != 0 {
        return Err(HomePlanetError::GroupUnavailable);
    }
    let group_count = planet_count / MAP_GROUP_SIZE;
    let home_group = rng.range_usize(0, group_count - 1);
    assert(home_group * MAP_GROUP_SIZE <= planet_count - MAP_GROUP_SIZE) by (nonlinear_arith)
        requires
            home_group < group_count,
            group_count == planet_count / MAP_GROUP_SIZE,
            planet_count >= MAP_GROUP_SIZE,
    ;
    let base = home_group * MAP_GROUP_SIZE;
    if active_player_count == PLAYER_COUNT_TWO {
        let homes = vec![(base, 0i32), (base + 3, 1i32)];
        proof {
            assert(homes@ =~= home_seats(base as int, 2));
        }
        Ok(homes)
    } else if active_player_count == PLAYER_COUNT_FOUR {
        let mut homes: Vec<(usize, i32)> = Vec::new();
        let mut slot: usize = 0;
        while slot < PLAYER_COUNT_FOUR
            invariant
                slot <= PLAYER_COUNT_FOUR,
                base + MAP_GROUP_SIZE <= planet_count,
                homes@ == Seq::new(slot as nat, |k: int| ((base + k) as usize, k as i32)),
            decreases PLAYER_COUNT_FOUR - slot,
        {
            homes.push((base + slot, slot as i32));
            proof {
                assert(homes@ =~= Seq::new((slot + 1) as nat, |k: int| ((base + k) as usize, k as i32)));
            }
            slot += 1;
        }
        proof {
            assert(homes@ =~= home_seats(base as int, 4));
        }
        Ok(homes)
    } else {
        Err(HomePlanetError::InvalidActivePlayerCount(active_player_count))
    }
}

} // verus!
