//! The elites of a generation and the plan of their children: which parents are kept,
//! which generations their replays come from, and which pairs of parents each child is
//! crossed from.
use vstd::prelude::*;

use crate::archive::{copy_model, ChampionView};
use crate::checkpoint::{champions_view, models_view, GenerationChampion};
use crate::replay_history::insert_sorted;
use crate::shapes::True2DTransformer;

verus! {

#[derive(Clone, Copy, Debug, PartialEq, Eq, Structural)]
pub enum EliteError {
    /// Fewer models were ranked than there are elites.
    EliteCountExceedsRanked { elite_count: usize, ranked: usize },
    /// The children planned do not fill the population.
    PopulationMismatch { found: usize, expected: usize },
}

/// The models at the first `elite_count` places of the ranking.
pub fn elite_parents(population: &Vec<True2DTransformer>, ranked: &[usize], elite_count: usize) -> (parents:
    Result<Vec<True2DTransformer>, EliteError>)
    requires
        forall|k: int|
            0 <= k < elite_count && k < ranked@.len() ==> #[trigger] ranked@[k] < population@.len(),
    ensures
        ranked@.len() < elite_count ==> parents == Err::<Vec<True2DTransformer>, EliteError>(
            EliteError::EliteCountExceedsRanked { elite_count, ranked: ranked@.len() as usize },
        ),
        ranked@.len() >= elite_count ==> parents is Ok && models_view(parents->Ok_0@) == Seq::new(
            elite_count as nat,
            |k: int| models_view(population@)[ranked@[k] as int],
        ),
{
    if ranked.len() < elite_count {
        return Err(EliteError::EliteCountExceedsRanked { elite_count, ranked: ranked.len() });
    }
    let mut parents: Vec<True2DTransformer> = Vec::new();
    let mut k: usize = 0;
    while k < elite_count
        invariant
            k <= elite_count <= ranked@.len(),
            forall|j: int| 0 <= j < elite_count ==> #[trigger] ranked@[j] < population@.len(),
            models_view(parents@) == Seq::new(
                k as nat,
                |j: int| models_view(population@)[ranked@[j] as int],
            ),
        decreases elite_count - k,
    {
        let model = copy_model(&population[ranked[k]]);
        let ghost before = models_view(parents@);
        proof {
            assert(models_view(population@)[ranked@[k as int] as int] == population@[ranked@[k as int] as int]@);
        }
        parents.push(model);
        proof {
            assert(models_view(parents@) =~= before.push(model@));
            assert(models_view(parents@) =~= Seq::new(
                (k + 1) as nat,
                |j: int| models_view(population@)[ranked@[j] as int],
            ));
        }
        k += 1;
    }
    Ok(parents)
}

/// The generations of the champions at the first `elite_count` places of the ranking.
pub open spec fn elite_generation(archive: Seq<ChampionView>, ranked: Seq<usize>, elite_count: int, generation: usize) -> bool {
    exists|k: int| 0 <= k < elite_count && #[trigger] archive[ranked[k] as int].0 == generation
}

/// The champions at the first `elite_count` places of the ranking become the archive, and
/// the generations they come from, in increasing order and once each, keep their replays.
pub fn elite_archive(archive: &Vec<GenerationChampion>, ranked: &[usize], elite_count: usize) -> (result:
    Result<(Vec<GenerationChampion>, Vec<usize>), EliteError>)
    requires
        forall|k: int|
            0 <= k < elite_count && k < ranked@.len() ==> #[trigger] ranked@[k] < archive@.len(),
    ensures
        ranked@.len() < elite_count ==> result == Err::<(Vec<GenerationChampion>, Vec<usize>), EliteError>(
            EliteError::EliteCountExceedsRanked { elite_count, ranked: ranked@.len() as usize },
        ),
        ranked@.len() >= elite_count ==> result is Ok && ({
            let (kept, retained) = result->Ok_0;
            &&& champions_view(kept@) == Seq::new(
                elite_count as nat,
                |k: int| champions_view(archive@)[ranked@[k] as int],
            )
            &&& forall|a: int, b: int|
                0 <= a < b < retained@.len() ==> #[trigger] retained@[a] < #[trigger] retained@[b]
            &&& forall|g: usize| #[trigger]
                retained@.contains(g) <==> elite_generation(
                    champions_view(archive@),
                    ranked@,
                    elite_count as int,
                    g,
                )
        }),
{
    if ranked.len() < elite_count {
        return Err(EliteError::EliteCountExceedsRanked { elite_count, ranked: ranked.len() });
    }
    let ghost all = champions_view(archive@);
    let mut kept: Vec<GenerationChampion> = Vec::new();
    let mut retained: Vec<usize> = Vec::new();
    let mut k: usize = 0;
    while k < elite_count
        invariant
            k <= elite_count <= ranked@.len(),
            all == champions_view(archive@),
            forall|j: int| 0 <= j < elite_count ==> #[trigger] ranked@[j] < archive@.len(),
            champions_view(kept@) == Seq::new(k as nat, |j: int| all[ranked@[j] as int]),
            forall|a: int, b: int|
                0 <= a < b < retained@.len() ==> #[trigger] retained@[a] < #[trigger] retained@[b],
            forall|g: usize| #[trigger]
                retained@.contains(g) <==> elite_generation(all, ranked@, k as int, g),
        decreases elite_count - k,
    {
        let champion = &archive[ranked[k]];
        let copy = GenerationChampion { generation: champion.generation, model: copy_model(&champion.model) };
        let ghost before = retained@;
        proof {
            assert(all[ranked@[k as int] as int] == champion@);
        }
        let ghost kept_before = champions_view(kept@);
        kept.push(copy);
        insert_sorted(&mut retained, champion.generation);
        proof {
            assert(copy@ == champion@);
            assert(champions_view(kept@) =~= kept_before.push(copy@));
            assert(champions_view(kept@) =~= Seq::new((k + 1) as nat, |j: int| all[ranked@[j] as int]));
            assert forall|g: usize| #[trigger] retained@.contains(g) <==> elite_generation(
                all,
                ranked@,
                k + 1,
                g,
            ) by {
                if elite_generation(all, ranked@, k + 1, g) && !elite_generation(all, ranked@, k as int, g) {
                    let j = choose|j: int| 0 <= j < k + 1 && #[trigger] all[ranked@[j] as int].0 == g;
                    assert(j == k);
                }
                if elite_generation(all, ranked@, k as int, g) {
                    let j = choose|j: int| 0 <= j < k && #[trigger] all[ranked@[j] as int].0 == g;
                    assert(all[ranked@[j] as int].0 == g);
                }
                if g == champion.generation {
                    assert(all[ranked@[k as int] as int].0 == g);
                }
            }
        }
        k += 1;
    }
    Ok((kept, retained))
}

/// How many children a reproduction step crosses: one per entry of the child-parent
/// sequence, until the population is full.
pub open spec fn planned_children(sequence_len: int, parent_count: int, population_size: int) -> int {
    let room = if population_size > parent_count {
        population_size - parent_count
    } else {
        0
    };
    if sequence_len < room {
        sequence_len
    } else {
        room
    }
}

/// The parents a child is crossed from: its entry of the sequence, and the parent that
/// many places further on, or the same parent when there is only one.
pub open spec fn partner(left: usize, sequence_index: int, parent_count: int) -> usize {
    if parent_count == 1 {
        left
    } else {
        ((left + sequence_index + 1) % parent_count) as usize
    }
}

/// The crossing of each child: the left and right parents of the children that fill the
/// population after the `parent_count` elites. Fails when they do not fill it exactly.
pub fn crossover_plan(child_parent_sequence: &[usize], parent_count: usize, population_size: usize) -> (plan:
    Result<Vec<(usize, usize)>, EliteError>)
    requires
        parent_count > 0,
        forall|k: int| 0 <= k < child_parent_sequence@.len() ==> #[trigger] child_parent_sequence@[k]
            < parent_count,
        child_parent_sequence@.len() < usize::MAX,
    ensures
        ({
            let count = planned_children(
                child_parent_sequence@.len() as int,
                parent_count as int,
                population_size as int,
            );
            if parent_count + count != population_size {
                plan == Err::<Vec<(usize, usize)>, EliteError>(
                    EliteError::PopulationMismatch {
                        found: (parent_count + count) as usize,
                        expected: population_size,
                    },
                )
            } else {
                plan is Ok && plan->Ok_0@ == Seq::new(
                    count as nat,
                    |k: int|
                        (
                            child_parent_sequence@[k],
                            partner(child_parent_sequence@[k], k, parent_count as int),
                        ),
                )
            }
        }),
{
    let room = if population_size > parent_count {
        population_size - parent_count
    } else {
        0
    };
    let count = if child_parent_sequence.len() < room {
        child_parent_sequence.len()
    } else {
        room
    };
    let mut plan: Vec<(usize, usize)> = Vec::new();
    let mut k: usize = 0;
    while k < count
        invariant
            parent_count > 0,
            k <= count <= child_parent_sequence@.len(),
            child_parent_sequence@.len() < usize::MAX,
            forall|j: int| 0 <= j < child_parent_sequence@.len() ==> #[trigger] child_parent_sequence@[j]
                < parent_count,
            plan@ == Seq::new(
                k as nat,
                |j: int|
                    (
                        child_parent_sequence@[j],
                        partner(child_parent_sequence@[j], j, parent_count as int),
                    ),
            ),
        decreases count - k,
    {
        let left = child_parent_sequence[k];
        let right = if parent_count == 1 {
            left
        } else {
            let step = (k + 1) % parent_count;
            proof {
                let l = left as int;
                let s = (k + 1) as int;
                let p = parent_count as int;
                vstd::arithmetic::div_mod::lemma_add_mod_noop(l, s, p);
                vstd::arithmetic::div_mod::lemma_small_mod(left as nat, parent_count as nat);
                assert((l + s) % p == (l + step) % p);
                if l + step >= p {
                    assert((l + step) % p == l + step - p) by (nonlinear_arith)
                        requires
                            p <= l + step < 2 * p,
                    ;
                } else {
                    vstd::arithmetic::div_mod::lemma_small_mod((l + step) as nat, p as nat);
                }
            }
            if left >= parent_count - step {
                left - (parent_count - step)
            } else {
                left + step
            }
        };
        plan.push((left, right));
        proof {
            assert(plan@ =~= Seq::new(
                (k + 1) as nat,
                |j: int|
                    (
                        child_parent_sequence@[j],
                        partner(child_parent_sequence@[j], j, parent_count as int),
                    ),
            ));
        }
        k += 1;
    }
    if parent_count + count != population_size {
        return Err(EliteError::PopulationMismatch { found: parent_count + count, expected: population_size });
    }
    Ok(plan)
}

} // verus!
