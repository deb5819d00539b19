use orbit_wars::combat::{resolve_planet_combat, try_resolve_planet_combat, Arrival, CombatResult};

#[test]
fn combat_captures_planet_when_survivor_exceeds_garrison() {
    let result = resolve_planet_combat(0, 5, &[Arrival { owner: 1, ships: 8 }]);
    assert_eq!(result, CombatResult { owner: 1, ships: 3 });
}

#[test]
fn combat_attacker_tie_destroys_attackers() {
    let result = resolve_planet_combat(
        0,
        5,
        &[
            Arrival { owner: 1, ships: 8 },
            Arrival { owner: 2, ships: 8 },
        ],
    );
    assert_eq!(result, CombatResult { owner: 0, ships: 5 });
}

#[test]
fn combat_without_arrivals_keeps_planet() {
    assert_eq!(resolve_planet_combat(3, 12, &[]), CombatResult { owner: 3, ships: 12 });
}

#[test]
fn combat_own_arrivals_reinforce_garrison() {
    let result = resolve_planet_combat(1, 5, &[Arrival { owner: 1, ships: 4 }, Arrival { owner: 1, ships: 2 }]);
    assert_eq!(result, CombatResult { owner: 1, ships: 11 });
}

#[test]
fn combat_survivor_below_garrison_leaves_owner() {
    let result = resolve_planet_combat(0, 10, &[Arrival { owner: 2, ships: 7 }]);
    assert_eq!(result, CombatResult { owner: 0, ships: 3 });
}

#[test]
fn combat_strongest_attacker_loses_runner_up_force() {
    let result = resolve_planet_combat(
        -1,
        2,
        &[
            Arrival { owner: 1, ships: 10 },
            Arrival { owner: 2, ships: 4 },
            Arrival { owner: 1, ships: 3 },
        ],
    );
    assert_eq!(result, CombatResult { owner: 1, ships: 7 });
}

#[test]
fn combat_ignores_arrival_order_and_fleet_splitting() {
    let arrivals = [
        Arrival { owner: 1, ships: 9 },
        Arrival { owner: 2, ships: 4 },
        Arrival { owner: 3, ships: 2 },
    ];
    let reordered = [arrivals[2], arrivals[0], arrivals[1]];
    let split = [
        Arrival { owner: 2, ships: 4 },
        Arrival { owner: 1, ships: 5 },
        Arrival { owner: 3, ships: 2 },
        Arrival { owner: 1, ships: 4 },
    ];
    let expected = resolve_planet_combat(0, 3, &arrivals);
    assert_eq!(expected, CombatResult { owner: 1, ships: 2 });
    assert_eq!(resolve_planet_combat(0, 3, &reordered), expected);
    assert_eq!(resolve_planet_combat(0, 3, &split), expected);
}

#[test]
fn combat_checks_only_the_sums_it_computes() {
    // A full garrison facing a small attack: only the garrison minus the survivors is computed.
    let arrivals = [Arrival { owner: 1, ships: 3 }];
    assert_eq!(
        try_resolve_planet_combat(0, i32::MAX, &arrivals),
        Some(CombatResult { owner: 0, ships: i32::MAX - 3 })
    );
    assert_eq!(resolve_planet_combat(0, i32::MAX, &arrivals), CombatResult { owner: 0, ships: i32::MAX - 3 });
    // Reinforcing a full garrison overflows.
    assert_eq!(try_resolve_planet_combat(1, i32::MAX, &arrivals), None);
    // So does an owner's running total.
    let flood = [Arrival { owner: 2, ships: i32::MAX }, Arrival { owner: 2, ships: 1 }];
    assert_eq!(try_resolve_planet_combat(0, 0, &flood), None);
}
