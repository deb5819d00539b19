//! The archive of generation champions: the best models of each recent generation,
//! kept to validate later generations against.
use vstd::prelude::*;

use crate::checkpoint::{champions_view, GenerationChampion};
use crate::shapes::{True2DTransformer, True2DTransformerShape};

verus! {

pub type ChampionView = (usize, (True2DTransformerShape, Seq<u32>));

#[derive(Clone, Copy, Debug, PartialEq, Eq, Structural)]
pub enum ArchiveError {
    /// Fewer models were evaluated than the archive keeps per generation.
    ChampionCountExceedsEvaluated { champion_count: usize, evaluated: usize },
    /// The population is larger than the validation pool may be.
    PopulationExceedsValidationCap { population: usize, cap: usize },
}

/// Whether a champion of `generation` stays: its generation is at least `threshold`, or,
/// when `at_least` is false, differs from it.
pub open spec fn keeps(generation: usize, threshold: usize, at_least: bool) -> bool {
    if at_least {
        generation >= threshold
    } else {
        generation != threshold
    }
}

/// The champions of `s` that `keeps` lets stay, in order.
pub open spec fn champions_where(s: Seq<ChampionView>, threshold: usize, at_least: bool) -> Seq<ChampionView>
    decreases s.len(),
{
    if s.len() == 0 {
        Seq::empty()
    } else {
        let rest = champions_where(s.drop_last(), threshold, at_least);
        if keeps(s.last().0, threshold, at_least) {
            rest.push(s.last())
        } else {
            rest
        }
    }
}

/// The first generation that an archive pruned at `current_generation` keeps.
pub open spec fn first_retained_generation(current_generation: usize, max_generations: usize) -> usize {
    if current_generation >= max_generations - 1 {
        (current_generation - (max_generations - 1)) as usize
    } else {
        0
    }
}

/// An archive after pruning: the champions of the last `max_generations` generations up
/// to `current_generation` (and of any later one), of which at most the last
/// `max_models` stay.
pub open spec fn pruned_archive(archive: Seq<ChampionView>, current_generation: usize, max_generations: usize, max_models: usize) -> Seq<ChampionView> {
    let first = first_retained_generation(current_generation, max_generations);
    let kept = champions_where(archive, first, true);
    if kept.len() > max_models {
        kept.subrange(kept.len() - max_models, kept.len() as int)
    } else {
        kept
    }
}

/// The champions that a generation adds: the models of the first `count` evaluated
/// indices, in rank order.
pub open spec fn new_champions(generation: usize, ranked: Seq<usize>, population: Seq<(True2DTransformerShape, Seq<u32>)>, count: int) -> Seq<ChampionView> {
    Seq::new(count as nat, |k: int| (generation, population[ranked[k] as int]))
}

/// What archiving a generation's champions does to the archive, or the error it gives.
pub open spec fn archived(
    archive: Seq<ChampionView>,
    generation: usize,
    ranked: Seq<usize>,
    population: Seq<(True2DTransformerShape, Seq<u32>)>,
    champion_count: usize,
    max_models: usize,
    max_generations: usize,
) -> Result<Seq<ChampionView>, ArchiveError> {
    if ranked.len() < champion_count {
        Err(
            ArchiveError::ChampionCountExceedsEvaluated {
                champion_count,
                evaluated: ranked.len() as usize,
            },
        )
    } else if population.len() > max_models {
        Err(
            ArchiveError::PopulationExceedsValidationCap {
                population: population.len() as usize,
                cap: max_models,
            },
        )
    } else {
        Ok(
            pruned_archive(
                champions_where(archive, generation, false) + new_champions(
                    generation,
                    ranked,
                    population,
                    champion_count as int,
                ),
                generation,
                max_generations,
                max_models,
            ),
        )
    }
}

/// A copy of a model with the same shape and weights.
pub fn copy_model(model: &True2DTransformer) -> (copy: True2DTransformer)
    ensures
        copy@ == model@,
{
    let weights = model.weights.clone();
    proof {
        assert(weights@ =~= model.weights@);
    }
    True2DTransformer { shape: model.shape, weights }
}

proof fn lemma_where_step(s: Seq<ChampionView>, threshold: usize, at_least: bool, j: int)
    requires
        0 <= j < s.len(),
    ensures
        champions_where(s.take(j + 1), threshold, at_least) == if keeps(s[j].0, threshold, at_least) {
            champions_where(s.take(j), threshold, at_least).push(s[j])
        } else {
            champions_where(s.take(j), threshold, at_least)
        },
{
    assert(s.take(j + 1).drop_last() =~= s.take(j));
}

proof fn lemma_where_len(s: Seq<ChampionView>, threshold: usize, at_least: bool)
    ensures
        champions_where(s, threshold, at_least).len() <= s.len(),
    decreases s.len(),
{
    if s.len() > 0 {
        lemma_where_len(s.drop_last(), threshold, at_least);
    }
}

/// Removes, in place, the champions that `keeps` does not let stay.
fn retain_champions(archive: &mut Vec<GenerationChampion>, threshold: usize, at_least: bool)
    ensures
        champions_view(final(archive)@) == champions_where(champions_view(old(archive)@), threshold, at_least),
{
    let ghost before = champions_view(archive@);
    let mut i: usize = 0;
    let ghost mut j: int = 0;
    proof {
        assert(before.take(0) =~= Seq::<ChampionView>::empty());
        assert(champions_view(archive@) =~= champions_where(before.take(0), threshold, at_least) + before.skip(0));
    }
    while i < archive.len()
        invariant
            0 <= j <= before.len(),
            i == champions_where(before.take(j), threshold, at_least).len(),
            champions_view(archive@) == champions_where(before.take(j), threshold, at_least) + before.skip(j),
        decreases archive.len() - i,
    {
        let ghost kept = champions_where(before.take(j), threshold, at_least);
        proof {
            lemma_where_step(before, threshold, at_least, j);
            assert(j < before.len());
            assert(champions_view(archive@)[i as int] == before[j]);
        }
        let generation = archive[i].generation;
        let keeps = if at_least {
            generation >= threshold
        } else {
            generation != threshold
        };
        if keeps {
            proof {
                assert(champions_where(before.take(j + 1), threshold, at_least) + before.skip(j + 1)
                    =~= champions_view(archive@));
            }
            i = i + 1;
        } else {
            let ghost view_before = champions_view(archive@);
            archive.remove(i);
            proof {
                assert(champions_view(archive@) =~= view_before.remove(i as int));
                assert(champions_where(before.take(j + 1), threshold, at_least) + before.skip(j + 1)
                    =~= view_before.remove(i as int));
            }
        }
        proof {
            j = j + 1;
        }
    }
    proof {
        lemma_where_len(before.take(j), threshold, at_least);
        assert(before.skip(j).len() == 0);
        assert(j == before.len());
        assert(before.take(j) =~= before);
        assert(champions_view(archive@) =~= champions_where(before, threshold, at_least));
    }
}

/// Drops the champions older than the last `max_generations` generations up to
/// `current_generation`, then the oldest entries beyond `max_models`.
pub fn prune_generation_archive(archive: &mut Vec<GenerationChampion>, current_generation: usize, max_generations: usize, max_models: usize)
    requires
        max_generations > 0,
    ensures
        champions_view(final(archive)@) == pruned_archive(
            champions_view(old(archive)@),
            current_generation,
            max_generations,
            max_models,
        ),
{
    let first = current_generation.saturating_sub(max_generations - 1);
    assert(first == first_retained_generation(current_generation, max_generations));
    retain_champions(archive, first, true);
    if archive.len() > max_models {
        let ghost kept = champions_view(archive@);
        let tail = archive.split_off(archive.len() - max_models);
        *archive = tail;
        proof {
            assert(champions_view(archive@) =~= kept.subrange(
                kept.len() - max_models,
                kept.len() as int,
            ));
        }
    }
}

/// Records a generation's champions: the models of the first `champion_count` entries
/// of `ranked` (population indices, best first) replace any champions already kept for
/// `generation`, and the archive is pruned. An error leaves the archive as it was.
pub fn archive_generation_champions(
    archive: &mut Vec<GenerationChampion>,
    generation: usize,
    ranked: &[usize],
    population: &Vec<True2DTransformer>,
    champion_count: usize,
    max_models: usize,
    max_generations: usize,
) -> (result: Result<(), ArchiveError>)
    requires
        max_generations > 0,
        forall|k: int|
            0 <= k < champion_count && k < ranked@.len() ==> #[trigger] ranked@[k]
                < population@.len(),
    ensures
        match archived(
            champions_view(old(archive)@),
            generation,
            ranked@,
            crate::checkpoint::models_view(population@),
            champion_count,
            max_models,
            max_generations,
        ) {
            Ok(next) => result is Ok && champions_view(final(archive)@) == next,
            Err(e) => result == Err::<(), ArchiveError>(e) && final(archive)@ == old(archive)@,
        },
{
    if ranked.len() < champion_count {
        return Err(
            ArchiveError::ChampionCountExceedsEvaluated { champion_count, evaluated: ranked.len() },
        );
    }
    if population.len() > max_models {
        return Err(
            ArchiveError::PopulationExceedsValidationCap {
                population: population.len(),
                cap: max_models,
            },
        );
    }
    let ghost models = crate::checkpoint::models_view(population@);
    retain_champions(archive, generation, false);
    let ghost kept = champions_view(archive@);
    let mut k: usize = 0;
    while k < champion_count
        invariant
            k <= champion_count <= ranked@.len(),
            models == crate::checkpoint::models_view(population@),
            forall|m: int| 0 <= m < champion_count ==> #[trigger] ranked@[m] < population@.len(),
            champions_view(archive@) == kept + new_champions(generation, ranked@, models, k as int),
        decreases champion_count - k,
    {
        let index = ranked[k];
        let model = copy_model(&population[index]);
        let ghost before_push = champions_view(archive@);
        proof {
            assert(models[index as int] == population@[index as int]@);
        }
        archive.push(GenerationChampion { generation, model });
        proof {
            assert(champions_view(archive@) =~= before_push.push((generation, models[index as int])));
            assert(champions_view(archive@) =~= kept + new_champions(
                generation,
                ranked@,
                models,
                k + 1,
            ));
        }
        k = k + 1;
    }
    prune_generation_archive(archive, generation, max_generations, max_models);
    Ok(())
}

} // verus!
