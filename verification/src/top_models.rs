//! The binary artifact of a generation's best models: a magic, the generation and the
//! number of models, then, best first, each model's index, its reward and its weights.
use vstd::prelude::*;
use vstd::string::StringSliceAdditionalSpecFns;

use crate::checkpoint::{le64, model_bytes, models_view, push_transformer, push_usize_as_u64};
use crate::live_replay::{le_i32, push_i32};
use crate::paths::push_bytes;
use crate::shapes::{True2DTransformer, True2DTransformerShape};

verus! {

#[derive(Clone, Copy, Debug, PartialEq, Eq, Structural)]
pub enum TopModelsError {
    /// More models were asked for than were ranked.
    CountExceedsEvaluated { model_count: usize, evaluated: usize },
}

pub open spec fn top_models_magic() -> Seq<u8> {
    "OWTOP4_1".spec_bytes()
}

/// The entries of the first `count` ranked models: index, reward and weights of each.
pub open spec fn top_model_entries(
    ranked: Seq<usize>,
    rewards: Seq<i32>,
    population: Seq<(True2DTransformerShape, Seq<u32>)>,
    count: int,
) -> Seq<u8>
    decreases count,
{
    if count <= 0 {
        Seq::empty()
    } else {
        let index = ranked[count - 1];
        top_model_entries(ranked, rewards, population, count - 1) + le64(index) + le_i32(
            rewards[index as int],
        ) + model_bytes(population[index as int])
    }
}

pub open spec fn top_models_bytes(
    generation: usize,
    ranked: Seq<usize>,
    rewards: Seq<i32>,
    population: Seq<(True2DTransformerShape, Seq<u32>)>,
    model_count: usize,
) -> Seq<u8> {
    top_models_magic() + le64(generation) + le64(model_count) + top_model_entries(
        ranked,
        rewards,
        population,
        model_count as int,
    )
}

/// The artifact of the first `model_count` models of `ranked` (model indices, best
/// first); `rewards` and `population` are indexed by model. Refused when fewer models
/// were ranked than asked for.
pub fn generation_top_models_bytes(
    generation: usize,
    ranked: &[usize],
    rewards: &[i32],
    population: &[True2DTransformer],
    model_count: usize,
) -> (result: Result<Vec<u8>, TopModelsError>)
    requires
        forall|k: int|
            0 <= k < model_count && k < ranked@.len() ==> #[trigger] ranked@[k] < population@.len()
                && ranked@[k] < rewards@.len(),
    ensures
        ranked@.len() < model_count ==> result == Err::<Vec<u8>, TopModelsError>(
            TopModelsError::CountExceedsEvaluated { model_count, evaluated: ranked@.len() as usize },
        ),
        ranked@.len() >= model_count ==> result is Ok && result->Ok_0@ == top_models_bytes(
            generation,
            ranked@,
            rewards@,
            models_view(population@),
            model_count,
        ),
{
    if ranked.len() < model_count {
        return Err(TopModelsError::CountExceedsEvaluated { model_count, evaluated: ranked.len() });
    }
    proof {
        reveal_strlit("OWTOP4_1");
        vstd::string::is_ascii_spec_bytes("OWTOP4_1");
    }
    let ghost models = models_view(population@);
    let mut bytes: Vec<u8> = Vec::new();
    push_bytes(&mut bytes, "OWTOP4_1".as_bytes());
    push_usize_as_u64(&mut bytes, generation);
    push_usize_as_u64(&mut bytes, model_count);
    let ghost head = bytes@;
    let mut k: usize = 0;
    while k < model_count
        invariant
            k <= model_count <= ranked@.len(),
            models == models_view(population@),
            forall|j: int|
                0 <= j < model_count ==> #[trigger] ranked@[j] < population@.len() && ranked@[j]
                    < rewards@.len(),
            bytes@ == head + top_model_entries(ranked@, rewards@, models, k as int),
        decreases model_count - k,
    {
        let index = ranked[k];
        push_usize_as_u64(&mut bytes, index);
        push_i32(&mut bytes, rewards[index]);
        push_transformer(&mut bytes, &population[index]);
        proof {
            assert(models[index as int] == population@[index as int]@);
            assert(bytes@ =~= head + top_model_entries(ranked@, rewards@, models, k + 1));
        }
        k += 1;
    }
    proof {
        assert(bytes@ =~= top_models_bytes(generation, ranked@, rewards@, models, model_count));
    }
    Ok(bytes)
}

} // verus!
