//! Reproduction: how the slots of the next generation are dealt to the elite parents.
use vstd::prelude::*;

use crate::schedule::ScheduleError;

verus! {

/// Sum of a sequence of integers.
pub open spec fn int_sum(values: Seq<int>) -> int
    decreases values.len(),
{
    if values.len() == 0 {
        0
    } else {
        int_sum(values.drop_last()) + values.last()
    }
}

/// Children each parent still owes once its elite copy has taken one slot.
pub open spec fn children_owed(parent_slots: Seq<usize>) -> Seq<int> {
    Seq::new(parent_slots.len(), |i: int| parent_slots[i] - 1)
}

/// The parents among the first `len` that still owe a child after `pass` passes, in order.
pub open spec fn serving_pass(owed: Seq<int>, pass: int, len: nat) -> Seq<usize>
    decreases len,
{
    if len == 0 {
        Seq::empty()
    } else {
        serving_pass(owed, pass, (len - 1) as nat) + if owed[len - 1] > pass {
            seq![(len - 1) as usize]
        } else {
            Seq::empty()
        }
    }
}

/// The first `passes` round-robin passes over the parents.
pub open spec fn serving_rounds(owed: Seq<int>, passes: nat) -> Seq<usize>
    decreases passes,
{
    if passes == 0 {
        Seq::empty()
    } else {
        serving_rounds(owed, (passes - 1) as nat) + serving_pass(owed, passes - 1, owed.len())
    }
}

/// The parent of each child, dealt round-robin until every parent has its children.
pub open spec fn child_parent_sequence(parent_slots: Seq<usize>) -> Seq<usize> {
    let owed = children_owed(parent_slots);
    serving_rounds(owed, int_sum(owed) as nat)
}

/// How often `value` occurs in `values`.
pub open spec fn occurrences(values: Seq<usize>, value: int) -> nat
    decreases values.len(),
{
    if values.len() == 0 {
        0
    } else {
        occurrences(values.drop_last(), value) + if values.last() == value {
            1nat
        } else {
            0nat
        }
    }
}

proof fn lemma_int_sum_update(values: Seq<int>, index: int, value: int)
    requires
        0 <= index < values.len(),
    ensures
        int_sum(values.update(index, value)) == int_sum(values) - values[index] + value,
    decreases values.len(),
{
    let updated = values.update(index, value);
    if index == values.len() - 1 {
        assert(updated.drop_last() =~= values.drop_last());
    } else {
        lemma_int_sum_update(values.drop_last(), index, value);
        assert(updated.drop_last() =~= values.drop_last().update(index, value));
    }
}

proof fn lemma_int_sum_zero(values: Seq<int>)
    requires
        forall|i: int| 0 <= i < values.len() ==> values[i] >= 0,
        int_sum(values) == 0,
    ensures
        forall|i: int| 0 <= i < values.len() ==> values[i] == 0,
    decreases values.len(),
{
    if values.len() > 0 {
        lemma_int_sum_nonnegative(values.drop_last());
        lemma_int_sum_zero(values.drop_last());
        assert forall|i: int| 0 <= i < values.len() implies values[i] == 0 by {
            if i < values.len() - 1 {
                assert(values.drop_last()[i] == values[i]);
            }
        }
    }
}

proof fn lemma_int_sum_nonnegative(values: Seq<int>)
    requires
        forall|i: int| 0 <= i < values.len() ==> values[i] >= 0,
    ensures
        int_sum(values) >= 0,
        forall|i: int| 0 <= i < values.len() ==> values[i] <= int_sum(values),
    decreases values.len(),
{
    if values.len() > 0 {
        lemma_int_sum_nonnegative(values.drop_last());
        assert forall|i: int| 0 <= i < values.len() implies values[i] <= int_sum(values) by {
            if i < values.len() - 1 {
                assert(values.drop_last()[i] == values[i]);
            }
        }
    }
}

proof fn lemma_serving_pass_step(owed: Seq<int>, pass: int, len: nat)
    requires
        len < owed.len(),
    ensures
        serving_pass(owed, pass, len + 1) == serving_pass(owed, pass, len) + if owed[len as int]
            > pass {
            seq![len as usize]
        } else {
            Seq::<usize>::empty()
        },
{
}

/// Passes after every parent has been served add nothing.
proof fn lemma_serving_pass_empty(owed: Seq<int>, pass: int, len: nat)
    requires
        len <= owed.len(),
        forall|i: int| 0 <= i < owed.len() ==> owed[i] <= pass,
    ensures
        serving_pass(owed, pass, len) == Seq::<usize>::empty(),
    decreases len,
{
    if len > 0 {
        lemma_serving_pass_empty(owed, pass, (len - 1) as nat);
    }
}

proof fn lemma_serving_rounds_settled(owed: Seq<int>, passes: nat, more: nat)
    requires
        passes <= more,
        forall|i: int| 0 <= i < owed.len() ==> owed[i] <= passes,
    ensures
        serving_rounds(owed, more) == serving_rounds(owed, passes),
    decreases more,
{
    if more > passes {
        lemma_serving_rounds_settled(owed, passes, (more - 1) as nat);
        lemma_serving_pass_empty(owed, more - 1, owed.len());
        assert(serving_rounds(owed, more) =~= serving_rounds(owed, (more - 1) as nat));
    }
}

proof fn lemma_int_sum_all_zero(values: Seq<int>)
    requires
        forall|i: int| 0 <= i < values.len() ==> values[i] == 0,
    ensures
        int_sum(values) == 0,
    decreases values.len(),
{
    if values.len() > 0 {
        lemma_int_sum_all_zero(values.drop_last());
    }
}

proof fn lemma_int_sum_split(values: Seq<int>, at: int)
    requires
        0 <= at <= values.len(),
    ensures
        int_sum(values) == int_sum(values.take(at)) + int_sum(values.subrange(at, values.len() as int)),
    decreases values.len(),
{
    if at == values.len() {
        assert(values.take(at) =~= values);
        assert(values.subrange(at, values.len() as int) =~= Seq::<int>::empty());
    } else {
        lemma_int_sum_split(values.drop_last(), at);
        assert(values.drop_last().take(at) =~= values.take(at));
        assert(values.subrange(at, values.len() as int).drop_last() =~= values.drop_last().subrange(
            at,
            values.drop_last().len() as int,
        ));
    }
}

/// The values of a `usize` sequence as integers.
pub open spec fn as_ints(values: Seq<usize>) -> Seq<int> {
    Seq::new(values.len(), |i: int| values[i] as int)
}

/// Children each parent still owes after `pass` passes.
pub open spec fn owed_after(owed: Seq<int>, pass: int) -> Seq<int> {
    Seq::new(
        owed.len(),
        |i: int|
            if owed[i] > pass {
                owed[i] - pass
            } else {
                0
            },
    )
}

/// Keeps one slot of each parent for its elite copy.
fn owed_children(parent_slots: &[usize]) -> (result: Result<Vec<usize>, ScheduleError>)
    ensures
        (exists|i: int| 0 <= i < parent_slots.len() && parent_slots[i] == 0) ==> result == Err::<
            Vec<usize>,
            ScheduleError,
        >(ScheduleError::ParentSlotBelowEliteCopy),
        (forall|i: int| 0 <= i < parent_slots.len() ==> parent_slots[i] >= 1) ==> (result is Ok
            && as_ints(result->Ok_0@) == children_owed(parent_slots@)),
{
    let mut remaining_children: Vec<usize> = Vec::new();
    let mut index: usize = 0;
    while index < parent_slots.len()
        invariant
            index <= parent_slots.len(),
            remaining_children@.len() == index,
            forall|i: int| 0 <= i < index ==> parent_slots[i] >= 1,
            forall|i: int|
                0 <= i < index ==> #[trigger] remaining_children@[i] == parent_slots[i] - 1,
        decreases parent_slots.len() - index,
    {
        if parent_slots[index] == 0 {
            return Err(ScheduleError::ParentSlotBelowEliteCopy);
        }
        remaining_children.push(parent_slots[index] - 1);
        index += 1;
    }
    assert(as_ints(remaining_children@) =~= children_owed(parent_slots@));
    Ok(remaining_children)
}

/// Sum of the owed children.
fn total_children(remaining: &Vec<usize>) -> (total: usize)
    requires
        int_sum(as_ints(remaining@)) <= usize::MAX,
    ensures
        total == int_sum(as_ints(remaining@)),
{
    let ghost values = as_ints(remaining@);
    proof {
        lemma_int_sum_nonnegative(values);
    }
    let mut total: usize = 0;
    let mut index: usize = 0;
    while index < remaining.len()
        invariant
            values == as_ints(remaining@),
            int_sum(values) <= usize::MAX,
            forall|i: int| 0 <= i < values.len() ==> values[i] >= 0,
            index <= remaining.len(),
            total == int_sum(values.take(index as int)),
        decreases remaining.len() - index,
    {
        proof {
            assert(values.take(index as int + 1).drop_last() =~= values.take(index as int));
            lemma_int_sum_split(values, index as int + 1);
            lemma_int_sum_nonnegative(values.subrange(index as int + 1, values.len() as int));
        }
        total = total + remaining[index];
        index += 1;
    }
    assert(values.take(values.len() as int) =~= values);
    total
}

/// One round-robin pass: every parent that still owes a child gets the next one.
fn serve_one_pass(
    remaining: &mut Vec<usize>,
    sequence: &mut Vec<usize>,
    Ghost(owed): Ghost<Seq<int>>,
    Ghost(pass): Ghost<nat>,
) -> (progressed: bool)
    requires
        as_ints(old(remaining)@) == owed_after(owed, pass as int),
        forall|i: int| 0 <= i < owed.len() ==> owed[i] >= 0,
    ensures
        as_ints(final(remaining)@) == owed_after(owed, pass + 1int),
        final(sequence)@ == old(sequence)@ + serving_pass(owed, pass as int, owed.len()),
        final(sequence)@.len() + int_sum(as_ints(final(remaining)@)) == old(sequence)@.len()
            + int_sum(as_ints(old(remaining)@)),
        progressed ==> final(sequence)@.len() > old(sequence)@.len(),
        !progressed ==> forall|i: int| 0 <= i < owed.len() ==> owed[i] <= pass,
{
    let ghost start = sequence@;
    let ghost start_sum = int_sum(as_ints(remaining@));
    let mut progressed = false;
    let mut parent_index: usize = 0;
    while parent_index < remaining.len()
        invariant
            remaining@.len() == owed.len(),
            parent_index <= remaining.len(),
            forall|i: int| 0 <= i < owed.len() ==> owed[i] >= 0,
            forall|i: int|
                0 <= i < parent_index ==> #[trigger] as_ints(remaining@)[i] == owed_after(
                    owed,
                    pass + 1int,
                )[i],
            forall|i: int|
                parent_index <= i < owed.len() ==> #[trigger] as_ints(remaining@)[i] == owed_after(
                    owed,
                    pass as int,
                )[i],
            sequence@ == start + serving_pass(owed, pass as int, parent_index as nat),
            sequence@.len() + int_sum(as_ints(remaining@)) == start.len() + start_sum,
            progressed ==> sequence@.len() > start.len(),
            !progressed ==> forall|i: int| 0 <= i < parent_index ==> owed[i] <= pass,
        decreases remaining.len() - parent_index,
    {
        proof {
            lemma_serving_pass_step(owed, pass as int, parent_index as nat);
            assert(as_ints(remaining@)[parent_index as int] == remaining@[parent_index as int]);
        }
        if remaining[parent_index] > 0 {
            let ghost before = as_ints(remaining@);
            sequence.push(parent_index);
            let value = remaining[parent_index] - 1;
            remaining.set(parent_index, value);
            proof {
                lemma_int_sum_update(before, parent_index as int, value as int);
                assert(as_ints(remaining@) =~= before.update(parent_index as int, value as int));
            }
            progressed = true;
        }
        parent_index += 1;
    }
    assert(as_ints(remaining@) =~= owed_after(owed, pass + 1int));
    progressed
}

/// Deals the children of the next generation round-robin over the parents: a parent
/// with `slots` slots keeps one for its elite copy and gets `slots - 1` children.
pub fn reproduction_child_parent_sequence(parent_slots: &[usize]) -> (result: Result<Vec<usize>, ScheduleError>)
    requires
        (forall|i: int| 0 <= i < parent_slots.len() ==> parent_slots[i] >= 1) ==> int_sum(
            children_owed(parent_slots@),
        ) <= usize::MAX,
    ensures
        (exists|i: int| 0 <= i < parent_slots.len() && parent_slots[i] == 0) ==> result == Err::<
            Vec<usize>,
            ScheduleError,
        >(ScheduleError::ParentSlotBelowEliteCopy),
        (forall|i: int| 0 <= i < parent_slots.len() ==> parent_slots[i] >= 1) ==> (result is Ok
            && result->Ok_0@ == child_parent_sequence(parent_slots@) && result->Ok_0@.len()
            == int_sum(children_owed(parent_slots@))),
{
    let mut remaining_children = owed_children(parent_slots)?;
    let ghost owed = children_owed(parent_slots@);
    let child_count = total_children(&remaining_children);
    proof {
        assert(owed_after(owed, 0) =~= owed);
    }
    let mut sequence: Vec<usize> = Vec::new();
    let ghost mut pass: nat = 0;
    while sequence.len() < child_count
        invariant
            owed == children_owed(parent_slots@),
            child_count == int_sum(owed),
            forall|i: int| 0 <= i < owed.len() ==> owed[i] >= 0,
            as_ints(remaining_children@) == owed_after(owed, pass as int),
            sequence@ == serving_rounds(owed, pass),
            pass <= sequence@.len(),
            sequence@.len() + int_sum(as_ints(remaining_children@)) == child_count,
        decreases child_count - sequence@.len(),
    {
        let ghost owed_before = as_ints(remaining_children@);
        let progressed = serve_one_pass(
            &mut remaining_children,
            &mut sequence,
            Ghost(owed),
            Ghost(pass),
        );
        if !progressed {
            proof {
                lemma_int_sum_all_zero(owed_before);
            }
            return Err(ScheduleError::ChildSequenceStalled);
        }
        proof {
            lemma_int_sum_nonnegative(as_ints(remaining_children@));
            pass = pass + 1;
        }
    }
    proof {
        let rest = as_ints(remaining_children@);
        lemma_int_sum_nonnegative(rest);
        lemma_int_sum_zero(rest);
        assert forall|i: int| 0 <= i < owed.len() implies owed[i] <= pass by {
            assert(rest[i] == 0);
        }
        lemma_serving_rounds_settled(owed, pass, int_sum(owed) as nat);
    }
    Ok(sequence)
}

proof fn lemma_occurrences_concat(left: Seq<usize>, right: Seq<usize>, value: int)
    ensures
        occurrences(left + right, value) == occurrences(left, value) + occurrences(right, value),
    decreases right.len(),
{
    if right.len() > 0 {
        lemma_occurrences_concat(left, right.drop_last(), value);
        assert((left + right).drop_last() =~= left + right.drop_last());
    } else {
        assert(left + right =~= left);
    }
}

proof fn lemma_serving_pass_occurrences(owed: Seq<int>, pass: int, len: nat, value: int)
    requires
        len <= owed.len() <= usize::MAX,
    ensures
        occurrences(serving_pass(owed, pass, len), value) == if 0 <= value < len && owed[value]
            > pass {
            1nat
        } else {
            0nat
        },
        forall|k: int|
            0 <= k < serving_pass(owed, pass, len).len() ==> #[trigger] serving_pass(
                owed,
                pass,
                len,
            )[k] < len,
    decreases len,
{
    if len > 0 {
        let shorter = serving_pass(owed, pass, (len - 1) as nat);
        let step: Seq<usize> = if owed[len - 1] > pass {
            seq![(len - 1) as usize]
        } else {
            Seq::empty()
        };
        lemma_serving_pass_occurrences(owed, pass, (len - 1) as nat, value);
        lemma_occurrences_concat(shorter, step, value);
        if owed[len - 1] > pass {
            assert(step.drop_last() =~= Seq::<usize>::empty());
            assert(step.len() == 1 && step.last() == step[0]);
            assert(step[0] as int == len - 1);
            assert(occurrences(step.drop_last(), value) == 0);
            assert(occurrences(step, value) == if value == len - 1 {
                1nat
            } else {
                0nat
            });
        } else {
            assert(occurrences(step, value) == 0);
        }
        assert(serving_pass(owed, pass, len) == shorter + step);
        assert forall|k: int|
            0 <= k < serving_pass(owed, pass, len).len() implies #[trigger] serving_pass(
            owed,
            pass,
            len,
        )[k] < len by {
            if k < shorter.len() {
                assert(serving_pass(owed, pass, len)[k] == shorter[k]);
            }
        }
    }
}

proof fn lemma_serving_rounds_occurrences(owed: Seq<int>, passes: nat, value: int)
    requires
        0 <= value < owed.len() <= usize::MAX,
        owed[value] >= 0,
    ensures
        occurrences(serving_rounds(owed, passes), value) == if owed[value] < passes {
            owed[value]
        } else {
            passes as int
        },
    decreases passes,
{
    if passes > 0 {
        lemma_serving_rounds_occurrences(owed, (passes - 1) as nat, value);
        lemma_serving_pass_occurrences(owed, passes - 1, owed.len(), value);
        lemma_occurrences_concat(
            serving_rounds(owed, (passes - 1) as nat),
            serving_pass(owed, passes - 1, owed.len()),
            value,
        );
    }
}

proof fn lemma_serving_rounds_in_range(owed: Seq<int>, passes: nat)
    requires
        owed.len() <= usize::MAX,
    ensures
        forall|k: int|
            0 <= k < serving_rounds(owed, passes).len() ==> #[trigger] serving_rounds(owed, passes)[k]
                < owed.len(),
    decreases passes,
{
    if passes > 0 {
        let earlier = serving_rounds(owed, (passes - 1) as nat);
        let last = serving_pass(owed, passes - 1, owed.len());
        lemma_serving_rounds_in_range(owed, (passes - 1) as nat);
        lemma_serving_pass_occurrences(owed, passes - 1, owed.len(), 0);
        assert forall|k: int|
            0 <= k < serving_rounds(owed, passes).len() implies #[trigger] serving_rounds(
            owed,
            passes,
        )[k] < owed.len() by {
            if k < earlier.len() {
                assert(serving_rounds(owed, passes)[k] == earlier[k]);
            } else {
                assert(serving_rounds(owed, passes)[k] == last[k - earlier.len()]);
            }
        }
    }
}

/// Reproduction deals every parent exactly its slots minus the elite copy, and every
/// child names one of the parents.
pub proof fn law_every_parent_gets_its_children(parent_slots: Seq<usize>)
    requires
        parent_slots.len() <= usize::MAX,
        forall|i: int| 0 <= i < parent_slots.len() ==> parent_slots[i] >= 1,
    ensures
        forall|parent: int|
            0 <= parent < parent_slots.len() ==> #[trigger] occurrences(
                child_parent_sequence(parent_slots),
                parent,
            ) == parent_slots[parent] - 1,
        forall|k: int|
            0 <= k < child_parent_sequence(parent_slots).len() ==> #[trigger] child_parent_sequence(
                parent_slots,
            )[k] < parent_slots.len(),
{
    let owed = children_owed(parent_slots);
    lemma_int_sum_nonnegative(owed);
    assert forall|parent: int| 0 <= parent < parent_slots.len() implies #[trigger] occurrences(
        child_parent_sequence(parent_slots),
        parent,
    ) == parent_slots[parent] - 1 by {
        lemma_serving_rounds_occurrences(owed, int_sum(owed) as nat, parent);
    }
    lemma_serving_rounds_in_range(owed, int_sum(owed) as nat);
}

/// Whether model `model_index` is among the first `elite_count` models of the ranking.
pub fn model_selected(ranked: &[usize], elite_count: usize, model_index: usize) -> (selected: bool)
    ensures
        selected == exists|k: int|
            0 <= k < ranked@.len() && k < elite_count && #[trigger] ranked@[k] == model_index,
{
    let mut k: usize = 0;
    while k < ranked.len() && k < elite_count
        invariant
            k <= ranked.len(),
            forall|j: int| 0 <= j < k ==> #[trigger] ranked@[j] != model_index,
        decreases ranked.len() - k,
    {
        if ranked[k] == model_index {
            return true;
        }
        k += 1;
    }
    false
}

} // verus!
