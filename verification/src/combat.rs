use vstd::prelude::*;

verus! {

/// Ships of one owner that reach a planet during a turn.
#[derive(Clone, Copy, Debug, PartialEq, Eq, Structural)]
pub struct Arrival {
    pub owner: i32,
    pub ships: i32,
}

/// Owner and garrison of a planet after the arrivals of a turn are resolved.
#[derive(Clone, Copy, Debug, PartialEq, Eq, Structural)]
pub struct CombatResult {
    pub owner: i32,
    pub ships: i32,
}

/// Total ships that `owner` brings in `arrivals`.
pub open spec fn force(arrivals: Seq<Arrival>, owner: i32) -> int
    decreases arrivals.len(),
{
    if arrivals.len() == 0 {
        0
    } else {
        force(arrivals.drop_last(), owner) + if arrivals.last().owner == owner {
            arrivals.last().ships as int
        } else {
            0
        }
    }
}

/// `owner` sends at least one arrival.
pub open spec fn present(arrivals: Seq<Arrival>, owner: i32) -> bool {
    exists|i: int| 0 <= i < arrivals.len() && #[trigger] arrivals[i].owner == owner
}

/// `owner` has the largest force; among equal largest forces, the lowest owner id wins.
pub open spec fn is_strongest(arrivals: Seq<Arrival>, owner: i32) -> bool {
    &&& present(arrivals, owner)
    &&& forall|other: i32|
        present(arrivals, other) ==> (force(arrivals, other) < force(arrivals, owner) || (force(
            arrivals,
            other,
        ) == force(arrivals, owner) && owner <= other))
}

/// `ships` is the largest force among the owners other than `leader`, or 0 when there is none.
pub open spec fn is_runner_up_force(arrivals: Seq<Arrival>, leader: i32, ships: int) -> bool {
    ||| (forall|other: i32| present(arrivals, other) ==> other == leader) && ships == 0
    ||| (exists|other: i32|
        present(arrivals, other) && other != leader && force(arrivals, other) == ships) && (forall|
        other: i32,
    | present(arrivals, other) && other != leader ==> force(arrivals, other) <= ships)
}

pub open spec fn strongest_owner(arrivals: Seq<Arrival>) -> i32 {
    choose|owner: i32| is_strongest(arrivals, owner)
}

pub open spec fn runner_up_force(arrivals: Seq<Arrival>) -> int {
    choose|ships: int| is_runner_up_force(arrivals, strongest_owner(arrivals), ships)
}

/// The outcome of combat at a planet, given the strongest attacker and the runner-up force.
pub open spec fn combat_outcome(
    planet_owner: i32,
    planet_ships: int,
    arrivals: Seq<Arrival>,
) -> (int, int) {
    if arrivals.len() == 0 {
        (planet_owner as int, planet_ships)
    } else {
        let leader = strongest_owner(arrivals);
        let largest = force(arrivals, leader);
        let second = runner_up_force(arrivals);
        let surviving = largest - second;
        if largest == second {
            (planet_owner as int, planet_ships)
        } else if leader == planet_owner {
            (planet_owner as int, planet_ships + surviving)
        } else if surviving > planet_ships {
            (leader as int, surviving - planet_ships)
        } else {
            (planet_owner as int, planet_ships - surviving)
        }
    }
}

pub open spec fn fits_i32(value: int) -> bool {
    i32::MIN <= value <= i32::MAX
}

/// Every running total of an owner's arrivals fits in an `i32`, and so does each value
/// that the combat rule computes on the branch it takes.
pub open spec fn combat_in_range(planet_owner: i32, planet_ships: i32, arrivals: Seq<Arrival>) -> bool {
    &&& forall|k: int, owner: i32| 0 <= k <= arrivals.len() ==> fits_i32(
        #[trigger] force(arrivals.take(k), owner),
    )
    &&& arrivals.len() > 0 ==> {
        let leader = strongest_owner(arrivals);
        let largest = force(arrivals, leader);
        let surviving = largest - runner_up_force(arrivals);
        surviving != 0 ==> {
            &&& fits_i32(surviving)
            &&& leader == planet_owner ==> fits_i32(planet_ships + surviving)
            &&& leader != planet_owner && surviving > planet_ships ==> fits_i32(
                surviving - planet_ships,
            )
            &&& leader != planet_owner && surviving <= planet_ships ==> fits_i32(
                planet_ships - surviving,
            )
        }
    }
}

proof fn lemma_force_step(arrivals: Seq<Arrival>, k: int, owner: i32)
    requires
        0 <= k < arrivals.len(),
    ensures
        force(arrivals.take(k + 1), owner) == force(arrivals.take(k), owner) + if arrivals[k].owner
            == owner {
            arrivals[k].ships as int
        } else {
            0
        },
{
    assert(arrivals.take(k + 1).drop_last() =~= arrivals.take(k));
}

proof fn lemma_force_absent(arrivals: Seq<Arrival>, owner: i32)
    requires
        !present(arrivals, owner),
    ensures
        force(arrivals, owner) == 0,
    decreases arrivals.len(),
{
    if arrivals.len() > 0 {
        let prefix = arrivals.drop_last();
        assert(!present(prefix, owner)) by {
            if present(prefix, owner) {
                let i = choose|i: int| 0 <= i < prefix.len() && #[trigger] prefix[i].owner == owner;
                assert(arrivals[i].owner == owner);
            }
        }
        lemma_force_absent(prefix, owner);
        assert(arrivals[arrivals.len() - 1].owner != owner);
    }
}

/// Resolves the fleets arriving at a planet in one turn, or gives `None` when a sum
/// that the rule computes does not fit in an `i32`.
pub fn try_resolve_planet_combat(planet_owner: i32, planet_ships: i32, arrivals: &[Arrival]) -> (result:
    Option<CombatResult>)
    ensures
        match result {
            None => !combat_in_range(planet_owner, planet_ships, arrivals@),
            Some(r) => combat_in_range(planet_owner, planet_ships, arrivals@) && (
                r.owner as int,
                r.ships as int,
            ) == combat_outcome(planet_owner, planet_ships as int, arrivals@),
        },
{
    let ghost a = arrivals@;
    let mut totals: Vec<(i32, i32)> = Vec::new();
    let mut i: usize = 0;
    while i < arrivals.len()
        invariant
            i <= arrivals.len(),
            a == arrivals@,
            forall|k: int, o: i32| 0 <= k <= i ==> fits_i32(#[trigger] force(a.take(k), o)),
            forall|j: int, k: int|
                0 <= j < k < totals.len() ==> #[trigger] totals[j].0 != #[trigger] totals[k].0,
            forall|j: int|
                0 <= j < totals.len() ==> #[trigger] totals[j].1 == force(
                    a.take(i as int),
                    totals[j].0,
                ),
            forall|o: i32|
                present(a.take(i as int), o) <==> exists|j: int|
                    0 <= j < totals.len() && #[trigger] totals[j].0 == o,
        decreases arrivals.len() - i,
    {
        let arrival = arrivals[i];
        proof {
            assert forall|o: i32| #[trigger]
                force(a.take(i + 1), o) == force(a.take(i as int), o) + if a[i as int].owner
                    == o {
                    a[i as int].ships as int
                } else {
                    0
                } by {
                lemma_force_step(a, i as int, o);
            }
        }
        let mut j: usize = 0;
        while j < totals.len() && totals[j].0 != arrival.owner
            invariant
                j <= totals.len(),
                forall|k: int| 0 <= k < j ==> #[trigger] totals[k].0 != arrival.owner,
            decreases totals.len() - j,
        {
            j += 1;
        }
        let ghost old_totals = totals@;
        if j < totals.len() {
            let updated = match totals[j].1.checked_add(arrival.ships) {
                Some(sum) => sum,
                None => {
                    proof {
                        assert(!fits_i32(force(a.take(i + 1), arrival.owner)));
                    }
                    return None;
                },
            };
            totals.set(j, (arrival.owner, updated));
        } else {
            proof {
                if present(a.take(i as int), arrival.owner) {
                    let w = choose|w: int| 0 <= w < old_totals.len() && #[trigger] old_totals[w].0
                        == arrival.owner;
                    assert(false);
                }
                lemma_force_absent(a.take(i as int), arrival.owner);
            }
            totals.push((arrival.owner, arrival.ships));
        }
        assert(forall|w: int| 0 <= w < old_totals.len() ==> #[trigger] totals[w].0 == old_totals[w].0);
        proof {
            assert forall|o: i32| fits_i32(#[trigger] force(a.take(i + 1), o)) by {
                if o == arrival.owner {
                    assert(totals[j as int].0 == o);
                } else if exists|w: int| 0 <= w < old_totals.len() && #[trigger] old_totals[w].0 == o {
                    let w = choose|w: int| 0 <= w < old_totals.len() && #[trigger] old_totals[w].0 == o;
                    assert(totals[w].1 == old_totals[w].1);
                } else {
                    assert(!present(a.take(i as int), o));
                    lemma_force_absent(a.take(i as int), o);
                }
            }
            assert forall|k: int, o: i32| 0 <= k <= i + 1 implies fits_i32(#[trigger] force(a.take(k), o)) by {
                if k == i + 1 {
                    assert(fits_i32(force(a.take(i + 1), o)));
                }
            }
        }
        proof {
            let next = a.take(i + 1);
            assert forall|o: i32|
                present(next, o) <==> exists|w: int|
                    0 <= w < totals.len() && #[trigger] totals[w].0 == o by {
                if present(next, o) {
                    let x = choose|x: int| 0 <= x < next.len() && #[trigger] next[x].owner == o;
                    if x < i {
                        assert(a.take(i as int)[x].owner == o);
                        assert(present(a.take(i as int), o));
                        let w = choose|w: int| 0 <= w < old_totals.len() && #[trigger] old_totals[w].0
                            == o;
                        assert(totals[w].0 == o);
                    } else {
                        assert(o == arrival.owner);
                        assert(totals[j as int].0 == o);
                    }
                }
                if exists|w: int| 0 <= w < totals.len() && #[trigger] totals[w].0 == o {
                    let w = choose|w: int| 0 <= w < totals.len() && #[trigger] totals[w].0 == o;
                    if w < old_totals.len() && old_totals[w].0 == o {
                        assert(present(a.take(i as int), o));
                        let x = choose|x: int|
                            0 <= x < i && #[trigger] a.take(i as int)[x].owner == o;
                        assert(next[x].owner == o);
                    } else {
                        assert(next[i as int].owner == o);
                    }
                }
            }
        }
        i += 1;
    }
    proof {
        assert(a.take(a.len() as int) =~= a);
    }
    if totals.len() == 0 {
        proof {
            if a.len() > 0 {
                assert(present(a, a[0].owner));
            }
        }
        return Some(CombatResult { owner: planet_owner, ships: planet_ships });
    }
    // The strongest force: largest total, lowest owner id among equal totals.

    let mut best: usize = 0;
    let mut k: usize = 1;
    while k < totals.len()
        invariant
            1 <= k <= totals.len(),
            best < k,
            forall|m: int|
                0 <= m < k ==> (#[trigger] totals[m].1 < totals[best as int].1 || (totals[m].1
                    == totals[best as int].1 && totals[best as int].0 <= totals[m].0)),
        decreases totals.len() - k,
    {
        if totals[k].1 > totals[best].1 || (totals[k].1 == totals[best].1 && totals[k].0
            < totals[best].0) {
            best = k;
        }
        k += 1;
    }
    let leader = totals[best].0;
    let largest = totals[best].1;
    // The largest force among the other owners, 0 when there is none.
    let mut second: i32 = 0;
    let mut seen_other = false;
    let mut m: usize = 0;
    while m < totals.len()
        invariant
            m <= totals.len(),
            best < totals.len(),
            !seen_other ==> second == 0 && (m == 0 || (m == 1 && best == 0)),
            seen_other ==> (exists|q: int| 0 <= q < m && q != best && #[trigger] totals[q].1 == second)
                && forall|q: int| 0 <= q < m && q != best ==> #[trigger] totals[q].1 <= second,
        decreases totals.len() - m,
    {
        if m != best {
            if !seen_other || totals[m].1 > second {
                second = totals[m].1;
            }
            seen_other = true;
        }
        m += 1;
    }
    proof {
        // Relate the scanned totals to the specification.
        assert(present(a, leader)) by {
            assert(exists|j: int| 0 <= j < totals.len() && #[trigger] totals[j].0 == leader) by {
                assert(totals[best as int].0 == leader);
            }
        }
        assert(is_strongest(a, leader)) by {
            assert forall|other: i32| present(a, other) implies (force(a, other) < force(a, leader)
                || (force(a, other) == force(a, leader) && leader <= other)) by {
                let j = choose|j: int| 0 <= j < totals.len() && #[trigger] totals[j].0 == other;
                assert(totals[j].1 == force(a, other));
            }
        }
        assert forall|o: i32| is_strongest(a, o) implies o == leader by {
            assert(force(a, o) == force(a, leader));
        }
        assert(strongest_owner(a) == leader);
        assert(is_runner_up_force(a, leader, second as int)) by {
            if seen_other {
                let q = choose|q: int| 0 <= q < totals.len() && q != best && #[trigger] totals[q].1
                    == second;
                assert(totals[q].0 != leader);
                assert(present(a, totals[q].0));
                assert forall|other: i32| present(a, other) && other != leader implies force(
                    a,
                    other,
                ) <= second by {
                    let j = choose|j: int| 0 <= j < totals.len() && #[trigger] totals[j].0 == other;
                    assert(j != best);
                    assert(totals[j].1 <= second);
                }
            } else {
                assert forall|other: i32| present(a, other) implies other == leader by {
                    let j = choose|j: int| 0 <= j < totals.len() && #[trigger] totals[j].0 == other;
                    assert(j == best);
                }
            }
        }
        assert forall|s: int| is_runner_up_force(a, leader, s) implies s == second by {
            if seen_other {
                let q = choose|q: int| 0 <= q < totals.len() && q != best && #[trigger] totals[q].1
                    == second;
                assert(present(a, totals[q].0));
            } else {
            }
        }
        assert(runner_up_force(a) == second);
        assert(force(a, leader) == largest);
    }
    if largest == second {
        return Some(CombatResult { owner: planet_owner, ships: planet_ships });
    }
    let surviving = match largest.checked_sub(second) {
        Some(value) => value,
        None => {
            return None;
        },
    };
    if leader == planet_owner {
        return match planet_ships.checked_add(surviving) {
            Some(ships) => Some(CombatResult { owner: planet_owner, ships }),
            None => None,
        };
    }
    if surviving > planet_ships {
        match surviving.checked_sub(planet_ships) {
            Some(ships) => Some(CombatResult { owner: leader, ships }),
            None => None,
        }
    } else {
        match planet_ships.checked_sub(surviving) {
            Some(ships) => Some(CombatResult { owner: planet_owner, ships }),
            None => None,
        }
    }
}

/// Resolves the fleets arriving at a planet in one turn.
///
/// Each owner's arrivals are summed. The largest force (the lowest owner id among
/// equal largest forces) loses as many ships as the second largest force brings,
/// and all other attackers are destroyed. A tie between the two largest forces
/// destroys all attackers. Surviving ships of the planet's owner reinforce it;
/// surviving ships of another owner fight the garrison and capture the planet
/// when they exceed it.
pub fn resolve_planet_combat(planet_owner: i32, planet_ships: i32, arrivals: &[Arrival]) -> (result:
    CombatResult)
    requires
        combat_in_range(planet_owner, planet_ships, arrivals@),
    ensures
        (result.owner as int, result.ships as int) == combat_outcome(
            planet_owner,
            planet_ships as int,
            arrivals@,
        ),
{
    match try_resolve_planet_combat(planet_owner, planet_ships, arrivals) {
        Some(result) => result,
        None => CombatResult { owner: planet_owner, ships: planet_ships },
    }
}

/// With no arrivals the planet keeps its owner and garrison.
pub proof fn law_no_arrivals_keep_planet(planet_owner: i32, planet_ships: int)
    ensures
        combat_outcome(planet_owner, planet_ships, Seq::<Arrival>::empty()) == (
            planet_owner as int,
            planet_ships,
        ),
{
}

pub open spec fn beats(arrivals: Seq<Arrival>, owner: i32, other: i32) -> bool {
    force(arrivals, other) < force(arrivals, owner) || (force(arrivals, other) == force(
        arrivals,
        owner,
    ) && owner <= other)
}

pub open spec fn beats_prefix(arrivals: Seq<Arrival>, j: int, k: int) -> bool {
    forall|m: int| 0 <= m < k ==> beats(arrivals, arrivals[j].owner, #[trigger] arrivals[m].owner)
}

proof fn lemma_best_in_prefix(arrivals: Seq<Arrival>, k: int)
    requires
        1 <= k <= arrivals.len(),
    ensures
        exists|j: int| 0 <= j < k && #[trigger] beats_prefix(arrivals, j, k),
    decreases k,
{
    if k == 1 {
        assert(beats_prefix(arrivals, 0, 1));
    } else {
        lemma_best_in_prefix(arrivals, k - 1);
        let j = choose|j: int| 0 <= j < k - 1 && #[trigger] beats_prefix(arrivals, j, k - 1);
        if beats(arrivals, arrivals[j].owner, arrivals[k - 1].owner) {
            assert(beats_prefix(arrivals, j, k));
        } else {
            assert forall|m: int| 0 <= m < k implies beats(
                arrivals,
                arrivals[k - 1].owner,
                #[trigger] arrivals[m].owner,
            ) by {
                if m < k - 1 {
                    assert(beats(arrivals, arrivals[j].owner, arrivals[m].owner));
                }
            }
            assert(beats_prefix(arrivals, k - 1, k));
        }
    }
}

/// Whenever a fleet arrives, exactly one owner is the strongest.
pub proof fn lemma_strongest_exists(arrivals: Seq<Arrival>)
    requires
        arrivals.len() > 0,
    ensures
        is_strongest(arrivals, strongest_owner(arrivals)),
        forall|owner: i32| is_strongest(arrivals, owner) ==> owner == strongest_owner(arrivals),
{
    lemma_best_in_prefix(arrivals, arrivals.len() as int);
    let j = choose|j: int| 0 <= j < arrivals.len() && #[trigger] beats_prefix(arrivals, j, arrivals.len() as int);
    let w = arrivals[j].owner;
    assert(is_strongest(arrivals, w)) by {
        assert forall|other: i32| present(arrivals, other) implies beats(arrivals, w, other) by {
            let i = choose|i: int| 0 <= i < arrivals.len() && #[trigger] arrivals[i].owner == other;
            assert(beats(arrivals, w, arrivals[i].owner));
        }
    }
    let leader = strongest_owner(arrivals);
    assert forall|owner: i32| is_strongest(arrivals, owner) implies owner == leader by {
        assert(force(arrivals, owner) == force(arrivals, leader));
    }
}

/// When the two largest forces are equal, every attacker is destroyed and the
/// planet keeps its owner and garrison.
pub proof fn law_tied_forces_keep_planet(
    planet_owner: i32,
    planet_ships: int,
    arrivals: Seq<Arrival>,
    first: i32,
    second: i32,
)
    requires
        first != second,
        present(arrivals, first),
        present(arrivals, second),
        force(arrivals, first) == force(arrivals, second),
        forall|other: i32| present(arrivals, other) ==> force(arrivals, other) <= force(arrivals, first),
    ensures
        combat_outcome(planet_owner, planet_ships, arrivals) == (planet_owner as int, planet_ships),
{
    assert(arrivals.len() > 0) by {
        let i = choose|i: int| 0 <= i < arrivals.len() && #[trigger] arrivals[i].owner == first;
    }
    lemma_strongest_exists(arrivals);
    let leader = strongest_owner(arrivals);
    assert(force(arrivals, leader) == force(arrivals, first)) by {
        assert(beats(arrivals, leader, first));
    }
    let top = force(arrivals, first);
    assert(is_runner_up_force(arrivals, leader, top)) by {
        if first != leader {
            assert(present(arrivals, first) && first != leader && force(arrivals, first) == top);
        } else {
            assert(present(arrivals, second) && second != leader && force(arrivals, second) == top);
        }
    }
    let s = runner_up_force(arrivals);
    assert(s == top) by {
        assert(is_runner_up_force(arrivals, leader, s));
        if forall|other: i32| present(arrivals, other) ==> other == leader {
            if first != leader {
            } else {
                assert(second == leader);
            }
        }
    }
}

/// Arrivals that all belong to the planet's owner reinforce its garrison by their total.
pub proof fn law_own_arrivals_reinforce(planet_owner: i32, planet_ships: int, arrivals: Seq<Arrival>)
    requires
        arrivals.len() > 0,
        forall|i: int| 0 <= i < arrivals.len() ==> #[trigger] arrivals[i].owner == planet_owner,
    ensures
        combat_outcome(planet_owner, planet_ships, arrivals) == (
            planet_owner as int,
            planet_ships + force(arrivals, planet_owner),
        ),
{
    assert(present(arrivals, planet_owner)) by {
        assert(arrivals[0].owner == planet_owner);
    }
    assert(is_strongest(arrivals, planet_owner)) by {
        assert forall|other: i32| present(arrivals, other) implies other == planet_owner by {
            let i = choose|i: int| 0 <= i < arrivals.len() && #[trigger] arrivals[i].owner == other;
        }
    }
    let leader = strongest_owner(arrivals);
    assert(leader == planet_owner) by {
        assert(present(arrivals, leader));
        let i = choose|i: int| 0 <= i < arrivals.len() && #[trigger] arrivals[i].owner == leader;
    }
    assert(is_runner_up_force(arrivals, leader, 0)) by {
        assert forall|other: i32| present(arrivals, other) implies other == leader by {
            let i = choose|i: int| 0 <= i < arrivals.len() && #[trigger] arrivals[i].owner == other;
        }
    }
    let s = runner_up_force(arrivals);
    assert(s == 0) by {
        if exists|other: i32| present(arrivals, other) && other != leader && force(arrivals, other) == s {
            let other = choose|other: i32| present(arrivals, other) && other != leader && force(arrivals, other) == s;
            let i = choose|i: int| 0 <= i < arrivals.len() && #[trigger] arrivals[i].owner == other;
        }
    }
}

/// A single attacking owner captures a planet exactly when its ships exceed the
/// garrison, and then holds the difference.
pub proof fn law_single_attacker_capture(
    planet_owner: i32,
    planet_ships: int,
    arrivals: Seq<Arrival>,
    attacker: i32,
)
    requires
        arrivals.len() > 0,
        attacker != planet_owner,
        forall|i: int| 0 <= i < arrivals.len() ==> #[trigger] arrivals[i].owner == attacker,
        force(arrivals, attacker) != 0,
    ensures
        force(arrivals, attacker) > planet_ships ==> combat_outcome(
            planet_owner,
            planet_ships,
            arrivals,
        ) == (attacker as int, force(arrivals, attacker) - planet_ships),
        force(arrivals, attacker) <= planet_ships ==> combat_outcome(
            planet_owner,
            planet_ships,
            arrivals,
        ) == (planet_owner as int, planet_ships - force(arrivals, attacker)),
{
    assert(present(arrivals, attacker)) by {
        assert(arrivals[0].owner == attacker);
    }
    assert(is_strongest(arrivals, attacker)) by {
        assert forall|other: i32| present(arrivals, other) implies other == attacker by {
            let i = choose|i: int| 0 <= i < arrivals.len() && #[trigger] arrivals[i].owner == other;
        }
    }
    let leader = strongest_owner(arrivals);
    assert(leader == attacker) by {
        assert(present(arrivals, leader));
        let i = choose|i: int| 0 <= i < arrivals.len() && #[trigger] arrivals[i].owner == leader;
    }
    assert(is_runner_up_force(arrivals, leader, 0)) by {
        assert forall|other: i32| present(arrivals, other) implies other == leader by {
            let i = choose|i: int| 0 <= i < arrivals.len() && #[trigger] arrivals[i].owner == other;
        }
    }
    let s = runner_up_force(arrivals);
    assert(s == 0) by {
        if exists|other: i32| present(arrivals, other) && other != leader && force(arrivals, other) == s {
            let other = choose|other: i32| present(arrivals, other) && other != leader && force(arrivals, other) == s;
            let i = choose|i: int| 0 <= i < arrivals.len() && #[trigger] arrivals[i].owner == other;
        }
    }
}

/// Arrival `j` is of an owner other than `leader`, and no such arrival among the first
/// `k` brings a larger force.
pub open spec fn tops_others(arrivals: Seq<Arrival>, leader: i32, j: int, k: int) -> bool {
    &&& arrivals[j].owner != leader
    &&& forall|m: int|
        0 <= m < k && arrivals[m].owner != leader ==> force(arrivals, #[trigger] arrivals[m].owner)
            <= force(arrivals, arrivals[j].owner)
}

proof fn lemma_best_other_in_prefix(arrivals: Seq<Arrival>, leader: i32, k: int)
    requires
        0 <= k <= arrivals.len(),
        exists|m: int| 0 <= m < k && #[trigger] arrivals[m].owner != leader,
    ensures
        exists|j: int| 0 <= j < k && #[trigger] tops_others(arrivals, leader, j, k),
    decreases k,
{
    if arrivals[k - 1].owner != leader && !(exists|m: int|
        0 <= m < k - 1 && #[trigger] arrivals[m].owner != leader) {
        assert(tops_others(arrivals, leader, k - 1, k));
    } else if arrivals[k - 1].owner == leader {
        let m0 = choose|m: int| 0 <= m < k && #[trigger] arrivals[m].owner != leader;
        assert(m0 < k - 1);
        lemma_best_other_in_prefix(arrivals, leader, k - 1);
        let j = choose|j: int| 0 <= j < k - 1 && #[trigger] tops_others(arrivals, leader, j, k - 1);
        assert(tops_others(arrivals, leader, j, k));
    } else {
        lemma_best_other_in_prefix(arrivals, leader, k - 1);
        let j = choose|j: int| 0 <= j < k - 1 && #[trigger] tops_others(arrivals, leader, j, k - 1);
        if force(arrivals, arrivals[k - 1].owner) <= force(arrivals, arrivals[j].owner) {
            assert(tops_others(arrivals, leader, j, k));
        } else {
            assert(tops_others(arrivals, leader, k - 1, k));
        }
    }
}

/// There is exactly one runner-up force for any leader.
proof fn lemma_runner_up_unique(arrivals: Seq<Arrival>, leader: i32)
    ensures
        exists|s: int| is_runner_up_force(arrivals, leader, s),
        forall|s: int, t: int|
            is_runner_up_force(arrivals, leader, s) && is_runner_up_force(arrivals, leader, t) ==> s
                == t,
{
    if exists|m: int| 0 <= m < arrivals.len() && #[trigger] arrivals[m].owner != leader {
        lemma_best_other_in_prefix(arrivals, leader, arrivals.len() as int);
        let j = choose|j: int|
            0 <= j < arrivals.len() && #[trigger] tops_others(arrivals, leader, j, arrivals.len() as int);
        let o = arrivals[j].owner;
        assert(present(arrivals, o));
        assert forall|other: i32| present(arrivals, other) && other != leader implies force(
            arrivals,
            other,
        ) <= force(arrivals, o) by {
            let i = choose|i: int| 0 <= i < arrivals.len() && #[trigger] arrivals[i].owner == other;
            assert(arrivals[i].owner != leader);
        }
        assert(is_runner_up_force(arrivals, leader, force(arrivals, o)));
    } else {
        assert forall|other: i32| present(arrivals, other) implies other == leader by {
            let i = choose|i: int| 0 <= i < arrivals.len() && #[trigger] arrivals[i].owner == other;
        }
        assert(is_runner_up_force(arrivals, leader, 0));
    }
}

proof fn lemma_runner_up_transfers(from: Seq<Arrival>, to: Seq<Arrival>, leader: i32, s: int)
    requires
        forall|owner: i32| #[trigger] present(from, owner) == present(to, owner),
        forall|owner: i32| #[trigger] force(from, owner) == force(to, owner),
        is_runner_up_force(from, leader, s),
    ensures
        is_runner_up_force(to, leader, s),
{
    if (forall|other: i32| present(from, other) ==> other == leader) && s == 0 {
        assert forall|other: i32| present(to, other) implies other == leader by {
            assert(present(from, other));
        }
    } else {
        let other = choose|other: i32|
            present(from, other) && other != leader && force(from, other) == s;
        assert(present(to, other) && force(to, other) == s);
        assert forall|o: i32| present(to, o) && o != leader implies force(to, o) <= s by {
            assert(present(from, o));
            assert(force(from, o) == force(to, o));
        }
    }
}

/// The outcome of combat depends on the arrivals only through which owners arrive and
/// the total each of them brings: the order of the arrivals and how an owner's ships are
/// split among them do not matter.
pub proof fn law_combat_depends_only_on_owner_totals(
    planet_owner: i32,
    planet_ships: int,
    arrivals: Seq<Arrival>,
    regrouped: Seq<Arrival>,
)
    requires
        forall|owner: i32| #[trigger] present(arrivals, owner) == present(regrouped, owner),
        forall|owner: i32| #[trigger] force(arrivals, owner) == force(regrouped, owner),
    ensures
        combat_outcome(planet_owner, planet_ships, arrivals) == combat_outcome(
            planet_owner,
            planet_ships,
            regrouped,
        ),
{
    if arrivals.len() > 0 {
        assert(present(arrivals, arrivals[0].owner));
        assert(present(regrouped, arrivals[0].owner));
    }
    if regrouped.len() > 0 {
        assert(present(regrouped, regrouped[0].owner));
        assert(present(arrivals, regrouped[0].owner));
    }
    if arrivals.len() > 0 && regrouped.len() > 0 {
        lemma_strongest_exists(arrivals);
        lemma_strongest_exists(regrouped);
        let leader = strongest_owner(arrivals);
        assert(is_strongest(regrouped, leader)) by {
            assert(present(regrouped, leader));
            assert forall|other: i32| present(regrouped, other) implies (force(regrouped, other) < force(
                regrouped,
                leader,
            ) || (force(regrouped, other) == force(regrouped, leader) && leader <= other)) by {
                assert(present(arrivals, other));
                assert(force(arrivals, other) == force(regrouped, other));
                assert(force(arrivals, leader) == force(regrouped, leader));
            }
        }
        assert(strongest_owner(regrouped) == leader);
        lemma_runner_up_unique(arrivals, leader);
        lemma_runner_up_unique(regrouped, leader);
        let s = runner_up_force(arrivals);
        let t = runner_up_force(regrouped);
        assert(is_runner_up_force(arrivals, leader, s));
        assert(is_runner_up_force(regrouped, leader, t));
        lemma_runner_up_transfers(arrivals, regrouped, leader, s);
        lemma_runner_up_transfers(regrouped, arrivals, leader, t);
    }
}

proof fn lemma_force_concat(first: Seq<Arrival>, second: Seq<Arrival>, owner: i32)
    ensures
        force(first + second, owner) == force(first, owner) + force(second, owner),
    decreases second.len(),
{
    if second.len() == 0 {
        assert(first + second =~= first);
    } else {
        lemma_force_concat(first, second.drop_last(), owner);
        assert((first + second).drop_last() =~= first + second.drop_last());
    }
}

proof fn lemma_present_concat(first: Seq<Arrival>, second: Seq<Arrival>, owner: i32)
    ensures
        present(first + second, owner) == (present(first, owner) || present(second, owner)),
{
    let both = first + second;
    if present(both, owner) {
        let i = choose|i: int| 0 <= i < both.len() && #[trigger] both[i].owner == owner;
        if i < first.len() {
            assert(first[i].owner == owner);
        } else {
            assert(second[i - first.len()].owner == owner);
        }
    }
    if present(first, owner) {
        let i = choose|i: int| 0 <= i < first.len() && #[trigger] first[i].owner == owner;
        assert(both[i].owner == owner);
    }
    if present(second, owner) {
        let i = choose|i: int| 0 <= i < second.len() && #[trigger] second[i].owner == owner;
        assert(both[first.len() + i].owner == owner);
    }
}

/// Arrivals resolve the same in either order: the fleets of `first` then `second` give
/// the outcome of the fleets of `second` then `first`.
pub proof fn law_combat_ignores_arrival_order(
    planet_owner: i32,
    planet_ships: int,
    first: Seq<Arrival>,
    second: Seq<Arrival>,
)
    ensures
        combat_outcome(planet_owner, planet_ships, first + second) == combat_outcome(
            planet_owner,
            planet_ships,
            second + first,
        ),
{
    assert forall|owner: i32| #[trigger] present(first + second, owner) == present(second + first, owner) by {
        lemma_present_concat(first, second, owner);
        lemma_present_concat(second, first, owner);
    }
    assert forall|owner: i32| #[trigger] force(first + second, owner) == force(second + first, owner) by {
        lemma_force_concat(first, second, owner);
        lemma_force_concat(second, first, owner);
    }
    law_combat_depends_only_on_owner_totals(planet_owner, planet_ships, first + second, second + first);
}

/// Ships of one owner arriving as one fleet or split into two fleets resolve the same.
pub proof fn law_combat_ignores_fleet_splitting(
    planet_owner: i32,
    planet_ships: int,
    others: Seq<Arrival>,
    owner: i32,
    first_ships: i32,
    second_ships: i32,
)
    requires
        fits_i32(first_ships + second_ships),
    ensures
        combat_outcome(
            planet_owner,
            planet_ships,
            others + seq![Arrival { owner, ships: (first_ships + second_ships) as i32 }],
        ) == combat_outcome(
            planet_owner,
            planet_ships,
            others + seq![Arrival { owner, ships: first_ships }, Arrival { owner, ships: second_ships }],
        ),
{
    let whole = seq![Arrival { owner, ships: (first_ships + second_ships) as i32 }];
    let split = seq![Arrival { owner, ships: first_ships }, Arrival { owner, ships: second_ships }];
    assert forall|o: i32| #[trigger] present(others + whole, o) == present(others + split, o) by {
        lemma_present_concat(others, whole, o);
        lemma_present_concat(others, split, o);
        if present(whole, o) {
            assert(split[0].owner == o);
        }
        if present(split, o) {
            assert(whole[0].owner == o);
        }
    }
    assert forall|o: i32| #[trigger] force(others + whole, o) == force(others + split, o) by {
        lemma_force_concat(others, whole, o);
        lemma_force_concat(others, split, o);
        reveal_with_fuel(force, 3);
        assert(whole.drop_last() =~= Seq::<Arrival>::empty());
        assert(split.drop_last() =~= seq![Arrival { owner, ships: first_ships }]);
        assert(split.drop_last().drop_last() =~= Seq::<Arrival>::empty());
    }
    law_combat_depends_only_on_owner_totals(planet_owner, planet_ships, others + whole, others + split);
}

} // verus!
