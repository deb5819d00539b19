//! How many slots of the next population each elite parent gets. Every parent gets
//! between a minimum and a maximum number of slots; the slots above the minimum are
//! shared out by weight. The weights are floating-point and stay with the caller: it
//! hands over each parent's whole extra slots and the order of the fractional parts.
//! What is left is dealt round-robin in that order to the parents below the maximum.
use vstd::prelude::*;

use crate::reproduction::int_sum;

verus! {

#[derive(Clone, Copy, Debug, PartialEq, Eq, Structural)]
pub enum ReproductionSlotError {
    ParentCountMismatch { found: usize, expected: usize },
    MinimumPopulationOverflow,
    MaximumPopulationOverflow,
    MinimumSlotsExceedPopulation { minimum: usize, population: usize },
    MaximumSlotsBelowPopulation { maximum: usize, population: usize },
    RemainingSlotsUnderflow,
    SlotsCappedBeforePopulationFilled,
}

/// The slots every parent gets at least and at most, and how many slots of the
/// population are left once each parent has its minimum.
#[derive(Clone, Copy, Debug, PartialEq, Eq, Structural)]
pub struct SlotBounds {
    pub min_slots: usize,
    pub max_slots: usize,
    pub remaining: usize,
}

/// The configured minimum, lowered to an even share of the population, and at least one.
pub open spec fn min_slots_spec(parent_count: int, population_size: int, min_per_elite: int) -> int {
    let share = population_size / parent_count;
    let lowered = if min_per_elite < share {
        min_per_elite
    } else {
        share
    };
    if lowered < 1 {
        1
    } else {
        lowered
    }
}

pub open spec fn slot_bounds_spec(
    parent_count: usize,
    elite_count: usize,
    population_size: usize,
    min_per_elite: usize,
    max_per_elite: usize,
) -> Result<SlotBounds, ReproductionSlotError> {
    if parent_count != elite_count {
        Err(ReproductionSlotError::ParentCountMismatch { found: parent_count, expected: elite_count })
    } else {
        let min_slots = min_slots_spec(parent_count as int, population_size as int, min_per_elite as int);
        let minimum = min_slots * parent_count;
        let maximum = max_per_elite * parent_count;
        if minimum > usize::MAX {
            Err(ReproductionSlotError::MinimumPopulationOverflow)
        } else if maximum > usize::MAX {
            Err(ReproductionSlotError::MaximumPopulationOverflow)
        } else if minimum > population_size {
            Err(
                ReproductionSlotError::MinimumSlotsExceedPopulation {
                    minimum: minimum as usize,
                    population: population_size,
                },
            )
        } else if maximum < population_size {
            Err(
                ReproductionSlotError::MaximumSlotsBelowPopulation {
                    maximum: maximum as usize,
                    population: population_size,
                },
            )
        } else {
            Ok(
                SlotBounds {
                    min_slots: min_slots as usize,
                    max_slots: max_per_elite,
                    remaining: (population_size - minimum) as usize,
                },
            )
        }
    }
}

/// Checks the parent count and the configured bounds against the population size.
pub fn reproduction_slot_bounds(
    parent_count: usize,
    elite_count: usize,
    population_size: usize,
    min_slots_per_elite: usize,
    max_slots_per_elite: usize,
) -> (bounds: Result<SlotBounds, ReproductionSlotError>)
    requires
        parent_count == elite_count ==> parent_count > 0,
    ensures
        bounds == slot_bounds_spec(
            parent_count,
            elite_count,
            population_size,
            min_slots_per_elite,
            max_slots_per_elite,
        ),
{
    if parent_count != elite_count {
        return Err(
            ReproductionSlotError::ParentCountMismatch { found: parent_count, expected: elite_count },
        );
    }
    let share = population_size / parent_count;
    let lowered = if min_slots_per_elite < share {
        min_slots_per_elite
    } else {
        share
    };
    let min_slots = if lowered < 1 {
        1
    } else {
        lowered
    };
    let minimum = match min_slots.checked_mul(parent_count) {
        Some(value) => value,
        None => {
            return Err(ReproductionSlotError::MinimumPopulationOverflow);
        },
    };
    let maximum = match max_slots_per_elite.checked_mul(parent_count) {
        Some(value) => value,
        None => {
            return Err(ReproductionSlotError::MaximumPopulationOverflow);
        },
    };
    if minimum > population_size {
        return Err(
            ReproductionSlotError::MinimumSlotsExceedPopulation {
                minimum,
                population: population_size,
            },
        );
    }
    if maximum < population_size {
        return Err(
            ReproductionSlotError::MaximumSlotsBelowPopulation {
                maximum,
                population: population_size,
            },
        );
    }
    Ok(SlotBounds { min_slots, max_slots: max_slots_per_elite, remaining: population_size - minimum })
}

/// `order` lists every index below `n` exactly once.
pub open spec fn is_order_of(order: Seq<usize>, n: int) -> bool {
    &&& order.len() == n
    &&& order.no_duplicates()
    &&& forall|t: int| 0 <= t < n ==> #[trigger] order[t] < n
    &&& forall|i: int| 0 <= i < n ==> #[trigger] appears_in(order, i)
}

/// `i` stands somewhere in `order`.
pub open spec fn appears_in(order: Seq<usize>, i: int) -> bool {
    exists|t: int| 0 <= t < order.len() && #[trigger] order[t] == i
}

/// Where `i` stands in `order`.
pub open spec fn position(order: Seq<usize>, i: int) -> int {
    choose|t: int| 0 <= t < order.len() && order[t] == i
}

/// How many more slots each parent may take once it has its minimum and extra slots.
pub open spec fn headroom(extra: Seq<usize>, min_slots: int, max_slots: int) -> Seq<int> {
    Seq::new(extra.len(), |i: int| max_slots - min_slots - extra[i])
}

pub open spec fn min_int(a: int, b: int) -> int {
    if a < b {
        a
    } else {
        b
    }
}

/// Slots handed out in `passes` full round-robin passes to the parents at the first `t`
/// positions of `order`.
pub open spec fn pass_units(room: Seq<int>, order: Seq<usize>, passes: int, t: int) -> int
    decreases t,
{
    if t <= 0 {
        0
    } else {
        pass_units(room, order, passes, t - 1) + min_int(room[order[t - 1] as int], passes)
    }
}

/// Parents at the first `t` positions of `order` that can still take a slot after
/// `passes` passes.
pub open spec fn open_before(room: Seq<int>, order: Seq<usize>, passes: int, t: int) -> int
    decreases t,
{
    if t <= 0 {
        0
    } else {
        open_before(room, order, passes, t - 1) + if room[order[t - 1] as int] > passes {
            1int
        } else {
            0int
        }
    }
}

/// Slots that the parents at the first `t` positions of `order` can take in all.
pub open spec fn room_total(room: Seq<int>, order: Seq<usize>, t: int) -> int
    decreases t,
{
    if t <= 0 {
        0
    } else {
        room_total(room, order, t - 1) + room[order[t - 1] as int]
    }
}

/// The slots after `passes` full passes and a partial pass over the first `t` positions.
pub open spec fn dealt(
    extra: Seq<usize>,
    min_slots: int,
    room: Seq<int>,
    order: Seq<usize>,
    passes: int,
    t: int,
) -> Seq<int> {
    Seq::new(
        extra.len(),
        |i: int|
            min_slots + extra[i] + min_int(room[i], passes) + if room[i] > passes && position(
                order,
                i,
            ) < t {
                1int
            } else {
                0int
            },
    )
}

/// The round-robin deal of `left` slots: after some number of full passes, each parent
/// has taken a slot per pass until full, and a last partial pass serves the open parents
/// at the first `t` positions of `order`.
pub open spec fn is_round_robin_deal(
    slots: Seq<usize>,
    extra: Seq<usize>,
    min_slots: int,
    max_slots: int,
    order: Seq<usize>,
    left: int,
) -> bool {
    let room = headroom(extra, min_slots, max_slots);
    let n = extra.len() as int;
    exists|passes: int, t: int|
        0 <= passes && 0 <= t <= n && left == pass_units(room, order, passes, n) + open_before(
            room,
            order,
            passes,
            t,
        ) && slots.len() == n && forall|i: int|
            0 <= i < n ==> #[trigger] slots[i] == dealt(extra, min_slots, room, order, passes, t)[i]
}

proof fn lemma_units_next_pass(room: Seq<int>, order: Seq<usize>, passes: int, t: int)
    requires
        0 <= passes,
        0 <= t <= order.len(),
        forall|k: int| 0 <= k < order.len() ==> 0 <= #[trigger] order[k] < room.len(),
    ensures
        pass_units(room, order, passes + 1, t) == pass_units(room, order, passes, t) + open_before(
            room,
            order,
            passes,
            t,
        ),
    decreases t,
{
    if t > 0 {
        lemma_units_next_pass(room, order, passes, t - 1);
    }
}

proof fn lemma_units_within_room(room: Seq<int>, order: Seq<usize>, passes: int, t: int)
    requires
        0 <= passes,
        0 <= t <= order.len(),
        forall|k: int| 0 <= k < order.len() ==> 0 <= #[trigger] order[k] < room.len(),
        forall|i: int| 0 <= i < room.len() ==> 0 <= #[trigger] room[i],
    ensures
        pass_units(room, order, passes, t) + open_before(room, order, passes, t) <= room_total(
            room,
            order,
            t,
        ),
        open_before(room, order, passes, t) == 0 ==> pass_units(room, order, passes, t)
            == room_total(room, order, t),
        0 <= open_before(room, order, passes, t),
    decreases t,
{
    if t > 0 {
        lemma_units_within_room(room, order, passes, t - 1);
        assert(0 <= room[order[t - 1] as int]);
    }
}

proof fn lemma_position(order: Seq<usize>, n: int, t: int)
    requires
        is_order_of(order, n),
        0 <= t < n,
    ensures
        position(order, order[t] as int) == t,
{
    let i = order[t] as int;
    assert(appears_in(order, i));
    let s = position(order, i);
    if s != t {
        assert(order[s] == order[t]);
    }
}

/// Deals the slots above each parent's minimum. Each parent first gets `min_slots` and
/// its `extra` slots; the population's `remaining` slots less all extra slots are then
/// dealt round-robin along `order` to the parents below `max_slots`. Fails when the
/// extra slots exceed what remains, or when every parent is full before all is dealt.
pub fn distribute_reproduction_slots(
    min_slots: usize,
    max_slots: usize,
    remaining: usize,
    extra: &[usize],
    order: &[usize],
) -> (result: Result<Vec<usize>, ReproductionSlotError>)
    requires
        forall|i: int| 0 <= i < extra@.len() ==> min_slots + #[trigger] extra@[i] <= max_slots,
        int_sum(extra@.map_values(|e: usize| e as int)) <= usize::MAX,
        is_order_of(order@, extra@.len() as int),
    ensures
        ({
            let total_extra = int_sum(extra@.map_values(|e: usize| e as int));
            let room = headroom(extra@, min_slots as int, max_slots as int);
            let n = extra@.len() as int;
            match result {
                Ok(slots) => total_extra <= remaining && remaining - total_extra <= room_total(
                    room,
                    order@,
                    n,
                ) && is_round_robin_deal(
                    slots@,
                    extra@,
                    min_slots as int,
                    max_slots as int,
                    order@,
                    remaining - total_extra,
                ),
                Err(e) => if total_extra > remaining {
                    e == ReproductionSlotError::RemainingSlotsUnderflow
                } else {
                    e == ReproductionSlotError::SlotsCappedBeforePopulationFilled && remaining
                        - total_extra > room_total(room, order@, n)
                },
            }
        }),
{
    let n = extra.len();
    let ghost extras = extra@.map_values(|e: usize| e as int);
    let ghost room = headroom(extra@, min_slots as int, max_slots as int);
    let mut slots: Vec<usize> = Vec::new();
    let mut assigned: usize = 0;
    let mut i: usize = 0;
    while i < n
        invariant
            n == extra@.len(),
            i <= n,
            extras == extra@.map_values(|e: usize| e as int),
            int_sum(extras) <= usize::MAX,
            assigned == int_sum(extras.take(i as int)),
            slots@.len() == i,
            forall|j: int| 0 <= j < i ==> #[trigger] slots@[j] == min_slots + extra@[j],
            forall|j: int| 0 <= j < extra@.len() ==> min_slots + #[trigger] extra@[j] <= max_slots,
        decreases n - i,
    {
        proof {
            assert(extras.take(i + 1).drop_last() =~= extras.take(i as int));
            lemma_prefix_sum_bound(extras, i + 1);
        }
        slots.push(min_slots + extra[i]);
        assigned = assigned + extra[i];
        i = i + 1;
    }
    proof {
        assert(extras.take(n as int) =~= extras);
    }
    if assigned > remaining {
        return Err(ReproductionSlotError::RemainingSlotsUnderflow);
    }
    let ghost total_left: int = remaining - assigned;
    let mut left: usize = remaining - assigned;
    let ghost mut passes: int = 0;
    proof {
        assert forall|j: int| 0 <= j < n implies #[trigger] slots@[j] == dealt(
            extra@,
            min_slots as int,
            room,
            order@,
            0,
            0,
        )[j] by {
            assert(min_slots + extra@[j] <= max_slots);
            assert(room[j] == max_slots - min_slots - extra@[j]);
            assert(min_int(room[j], 0) == 0);
            assert(slots@[j] == min_slots + extra@[j]);
            assert(appears_in(order@, j));
        }
        assert(forall|k: int| 0 <= k < n ==> 0 <= #[trigger] order@[k] < room.len());
        assert forall|j: int| 0 <= j < room.len() implies 0 <= #[trigger] room[j] by {
            assert(min_slots + extra@[j] <= max_slots);
        }
        lemma_units_zero(room, order@, n as int);
    }
    while left > 0
        invariant
            n == extra@.len(),
            is_order_of(order@, n as int),
            room == headroom(extra@, min_slots as int, max_slots as int),
            forall|k: int| 0 <= k < n ==> 0 <= #[trigger] order@[k] < room.len(),
            forall|j: int| 0 <= j < room.len() ==> 0 <= #[trigger] room[j],
            0 <= passes,
            total_left == remaining - int_sum(extra@.map_values(|e: usize| e as int)),
            0 <= total_left,
            total_left == left + pass_units(room, order@, passes, n as int),
            slots@.len() == n,
            forall|j: int|
                0 <= j < n ==> #[trigger] slots@[j] == dealt(
                    extra@,
                    min_slots as int,
                    room,
                    order@,
                    passes,
                    0,
                )[j],
        decreases left,
    {
        let ghost pass_start = left;
        let mut progressed = false;
        let mut t: usize = 0;
        while t < n && left > 0
            invariant
                n == extra@.len(),
                is_order_of(order@, n as int),
                room == headroom(extra@, min_slots as int, max_slots as int),
                forall|k: int| 0 <= k < n ==> 0 <= #[trigger] order@[k] < room.len(),
                0 <= passes,
                t <= n,
                pass_start == left + open_before(room, order@, passes, t as int),
                progressed == (open_before(room, order@, passes, t as int) > 0),
                forall|j: int| 0 <= j < room.len() ==> 0 <= #[trigger] room[j],
                slots@.len() == n,
                forall|j: int|
                    0 <= j < n ==> #[trigger] slots@[j] == dealt(
                        extra@,
                        min_slots as int,
                        room,
                        order@,
                        passes,
                        t as int,
                    )[j],
            decreases n - t,
        {
            let index = order[t];
            proof {
                lemma_position(order@, n as int, t as int);
                lemma_units_within_room(room, order@, passes, t as int);
            }
            let current = slots[index];
            let ghost before = slots@;
            if current < max_slots {
                slots.set(index, current + 1);
                left = left - 1;
                progressed = true;
            }
            proof {
                assert(current < max_slots <==> room[index as int] > passes);
                assert forall|j: int| 0 <= j < n implies #[trigger] slots@[j] == dealt(
                    extra@,
                    min_slots as int,
                    room,
                    order@,
                    passes,
                    t + 1,
                )[j] by {
                    if j != index as int {
                        assert(before[j] == slots@[j]);
                        if position(order@, j) == t as int {
                            assert(appears_in(order@, j));
                            assert(order@[position(order@, j)] == j);
                        }
                    }
                }
            }
            t = t + 1;
        }
        if left == 0 {
            proof {
                assert(total_left == pass_units(room, order@, passes, n as int) + open_before(
                    room,
                    order@,
                    passes,
                    t as int,
                ));
                lemma_units_within_room(room, order@, passes, n as int);
                lemma_open_before_monotone(room, order@, passes, t as int, n as int);
                assert(total_left <= room_total(room, order@, n as int));
                assert(0 <= passes && 0 <= t <= n && total_left == pass_units(
                    room,
                    order@,
                    passes,
                    n as int,
                ) + open_before(room, order@, passes, t as int) && slots@.len() == n && forall|
                    j: int,
                |
                    0 <= j < n ==> #[trigger] slots@[j] == dealt(
                        extra@,
                        min_slots as int,
                        room,
                        order@,
                        passes,
                        t as int,
                    )[j]);
                assert(is_round_robin_deal(
                    slots@,
                    extra@,
                    min_slots as int,
                    max_slots as int,
                    order@,
                    total_left,
                ));
            }
            return Ok(slots);
        }
        if !progressed {
            proof {
                assert(t == n);
                lemma_units_within_room(room, order@, passes, n as int);
                assert(total_left > room_total(room, order@, n as int));
            }
            return Err(ReproductionSlotError::SlotsCappedBeforePopulationFilled);
        }
        proof {
            lemma_units_next_pass(room, order@, passes, n as int);
            assert forall|j: int| 0 <= j < n implies #[trigger] slots@[j] == dealt(
                extra@,
                min_slots as int,
                room,
                order@,
                passes + 1,
                0,
            )[j] by {
                assert(appears_in(order@, j));
                assert(0 <= position(order@, j) < n);
            }
            passes = passes + 1;
        }
    }
    proof {
        lemma_units_within_room(room, order@, passes, n as int);
        assert(total_left <= room_total(room, order@, n as int));
        assert(open_before(room, order@, passes, 0) == 0);
        assert(0 <= passes && 0 <= 0 <= n && total_left == pass_units(
            room,
            order@,
            passes,
            n as int,
        ) + open_before(room, order@, passes, 0) && slots@.len() == n && forall|j: int|
            0 <= j < n ==> #[trigger] slots@[j] == dealt(
                extra@,
                min_slots as int,
                room,
                order@,
                passes,
                0,
            )[j]);
        assert(is_round_robin_deal(
            slots@,
            extra@,
            min_slots as int,
            max_slots as int,
            order@,
            total_left,
        ));
    }
    Ok(slots)
}

proof fn lemma_units_zero(room: Seq<int>, order: Seq<usize>, t: int)
    requires
        0 <= t <= order.len(),
        forall|k: int| 0 <= k < order.len() ==> 0 <= #[trigger] order[k] < room.len(),
        forall|i: int| 0 <= i < room.len() ==> 0 <= #[trigger] room[i],
    ensures
        pass_units(room, order, 0, t) == 0,
    decreases t,
{
    if t > 0 {
        lemma_units_zero(room, order, t - 1);
        assert(0 <= room[order[t - 1] as int]);
    }
}

proof fn lemma_open_before_monotone(room: Seq<int>, order: Seq<usize>, passes: int, t: int, u: int)
    requires
        0 <= t <= u,
    ensures
        open_before(room, order, passes, t) <= open_before(room, order, passes, u),
    decreases u - t,
{
    if t < u {
        lemma_open_before_monotone(room, order, passes, t, u - 1);
    }
}

proof fn lemma_prefix_sum_bound(values: Seq<int>, k: int)
    requires
        0 <= k <= values.len(),
        forall|i: int| 0 <= i < values.len() ==> 0 <= #[trigger] values[i],
    ensures
        int_sum(values.take(k)) <= int_sum(values),
    decreases values.len() - k,
{
    if k < values.len() {
        lemma_prefix_sum_bound(values, k + 1);
        assert(values.take(k + 1).drop_last() =~= values.take(k));
    } else {
        assert(values.take(k) =~= values);
    }
}

/// Slots taken above their minimum and extra slots by the parents at the first `t`
/// positions of `order`.
pub open spec fn dealt_above_extra(
    slots: Seq<usize>,
    extra: Seq<usize>,
    min_slots: int,
    order: Seq<usize>,
    t: int,
) -> int
    decreases t,
{
    if t <= 0 {
        0
    } else {
        dealt_above_extra(slots, extra, min_slots, order, t - 1) + slots[order[t - 1] as int]
            - min_slots - extra[order[t - 1] as int]
    }
}

proof fn lemma_dealt_prefix(
    slots: Seq<usize>,
    extra: Seq<usize>,
    min_slots: int,
    room: Seq<int>,
    order: Seq<usize>,
    passes: int,
    t0: int,
    u: int,
)
    requires
        is_order_of(order, extra.len() as int),
        room.len() == extra.len(),
        0 <= u <= extra.len(),
        0 <= t0 <= extra.len(),
        slots.len() == extra.len(),
        forall|i: int|
            0 <= i < extra.len() ==> #[trigger] slots[i] == dealt(
                extra,
                min_slots,
                room,
                order,
                passes,
                t0,
            )[i],
    ensures
        dealt_above_extra(slots, extra, min_slots, order, u) == pass_units(room, order, passes, u)
            + open_before(room, order, passes, if u < t0 {
            u
        } else {
            t0
        }),
    decreases u,
{
    if u > 0 {
        lemma_dealt_prefix(slots, extra, min_slots, room, order, passes, t0, u - 1);
        lemma_position(order, extra.len() as int, u - 1);
        let i = order[u - 1] as int;
        assert(slots[i] == dealt(extra, min_slots, room, order, passes, t0)[i]);
    }
}

/// A round-robin deal keeps every parent between its minimum plus extra slots and the
/// maximum, and, summed over the parents (each listed once in `order`), hands out exactly
/// the slots that were left to deal.
pub proof fn law_round_robin_deal_fills_population(
    slots: Seq<usize>,
    extra: Seq<usize>,
    min_slots: usize,
    max_slots: usize,
    order: Seq<usize>,
    left: int,
)
    requires
        forall|i: int| 0 <= i < extra.len() ==> min_slots + #[trigger] extra[i] <= max_slots,
        is_order_of(order, extra.len() as int),
        is_round_robin_deal(slots, extra, min_slots as int, max_slots as int, order, left),
    ensures
        slots.len() == extra.len(),
        forall|i: int|
            0 <= i < extra.len() ==> min_slots + extra[i] <= #[trigger] slots[i] <= max_slots,
        dealt_above_extra(slots, extra, min_slots as int, order, extra.len() as int) == left,
{
    let room = headroom(extra, min_slots as int, max_slots as int);
    let n = extra.len() as int;
    let (passes, t) = choose|passes: int, t: int|
        0 <= passes && 0 <= t <= n && left == pass_units(room, order, passes, n) + open_before(
            room,
            order,
            passes,
            t,
        ) && slots.len() == n && forall|i: int|
            0 <= i < n ==> #[trigger] slots[i] == dealt(extra, min_slots as int, room, order, passes, t)[i];
    assert forall|i: int| 0 <= i < n implies min_slots + extra[i] <= #[trigger] slots[i]
        <= max_slots by {
        assert(slots[i] == dealt(extra, min_slots as int, room, order, passes, t)[i]);
        assert(min_slots + extra[i] <= max_slots);
    }
    lemma_dealt_prefix(slots, extra, min_slots as int, room, order, passes, t, n);
}

} // verus!
