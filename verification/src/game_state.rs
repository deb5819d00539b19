//! Who is still in a game, read from the owners of its planets and fleets.
use std::collections::BTreeSet;
use vstd::prelude::*;

verus! {

/// The players that own a planet or a fleet; negative owners are neutral.
pub open spec fn alive_owners(planet_owners: Seq<i32>, fleet_owners: Seq<i32>) -> Set<i32> {
    Set::new(
        |owner: i32| owner >= 0 && (planet_owners.contains(owner) || fleet_owners.contains(owner)),
    )
}

fn insert_owners(players: &mut BTreeSet<i32>, owners: &[i32])
    ensures
        final(players)@ == old(players)@.union(
            Set::new(|owner: i32| owner >= 0 && owners@.contains(owner)),
        ),
{
    let ghost start = players@;
    let mut i: usize = 0;
    while i < owners.len()
        invariant
            i <= owners.len(),
            players@ == start.union(
                Set::new(|owner: i32| owner >= 0 && owners@.take(i as int).contains(owner)),
            ),
        decreases owners.len() - i,
    {
        let owner = owners[i];
        if owner >= 0 {
            players.insert(owner);
        }
        proof {
            let before = owners@.take(i as int);
            let after = owners@.take(i + 1);
            assert(after =~= before.push(owner));
            assert forall|o: i32| #[trigger] after.contains(o) <==> before.contains(o) || o == owner by {
                if after.contains(o) {
                    let k = choose|k: int| 0 <= k < after.len() && after[k] == o;
                    if k < i {
                        assert(before[k] == o);
                    }
                }
                if before.contains(o) {
                    let k = choose|k: int| 0 <= k < before.len() && before[k] == o;
                    assert(after[k] == o);
                }
                if o == owner {
                    assert(after[i as int] == o);
                }
            }
            assert(players@ =~= start.union(
                Set::new(|o: i32| o >= 0 && after.contains(o)),
            ));
        }
        i += 1;
    }
    proof {
        assert(owners@.take(owners@.len() as int) =~= owners@);
    }
}

/// The players still in the game.
pub fn alive_players(planet_owners: &[i32], fleet_owners: &[i32]) -> (players: BTreeSet<i32>)
    ensures
        players@ == alive_owners(planet_owners@, fleet_owners@),
{
    let mut players: BTreeSet<i32> = BTreeSet::new();
    insert_owners(&mut players, planet_owners);
    insert_owners(&mut players, fleet_owners);
    assert(players@ =~= alive_owners(planet_owners@, fleet_owners@));
    players
}

/// A game ends at the step limit, or when at most one player is left.
pub fn is_terminal(step: usize, episode_steps: usize, planet_owners: &[i32], fleet_owners: &[i32]) -> (terminal: bool)
    ensures
        terminal == (step >= episode_steps || alive_owners(planet_owners@, fleet_owners@).len()
            <= 1),
{
    let players = alive_players(planet_owners, fleet_owners);
    step >= episode_steps || players.len() <= 1
}

/// `player` owns at least one planet.
pub fn player_has_owned_planet(planet_owners: &[i32], player_id: i32) -> (owns: bool)
    ensures
        owns == planet_owners@.contains(player_id),
{
    let mut i: usize = 0;
    while i < planet_owners.len()
        invariant
            i <= planet_owners.len(),
            forall|k: int| 0 <= k < i ==> planet_owners@[k] != player_id,
        decreases planet_owners.len() - i,
    {
        if planet_owners[i] == player_id {
            proof {
                assert(planet_owners@[i as int] == player_id);
            }
            return true;
        }
        i += 1;
    }
    false
}

} // verus!
