//! Sizes of the training buffers, and the check that a population can be trained as
//! one batch.
use vstd::prelude::*;

use crate::checkpoint::models_view;
use crate::shapes::{
    true2d_config_is_valid, true2d_parameter_count, true2d_shape_is_valid, ModelError,
    True2DConfig, True2DTransformer, True2DTransformerShape,
};

verus! {

/// A training buffer whose size does not fit in a `usize`.
#[derive(Clone, Copy, Debug, PartialEq, Eq, Structural)]
pub enum TrainingSizeError {
    InputStrideOverflow,
    OutputStrideOverflow,
    SunTargetPenaltyStrideOverflow,
    SampleCapacityOverflow,
}

/// Input values of one training sample: a row of input features per row.
pub fn training_sample_input_stride(max_rows: usize, input_features: usize) -> (stride: Result<
    usize,
    TrainingSizeError,
>)
    ensures
        stride == if max_rows * input_features <= usize::MAX {
            Ok::<usize, TrainingSizeError>((max_rows * input_features) as usize)
        } else {
            Err(TrainingSizeError::InputStrideOverflow)
        },
{
    match max_rows.checked_mul(input_features) {
        Some(stride) => Ok(stride),
        None => Err(TrainingSizeError::InputStrideOverflow),
    }
}

/// Output values of one training sample: a row of output features per row.
pub fn training_sample_output_stride(max_rows: usize, output_features: usize) -> (stride: Result<
    usize,
    TrainingSizeError,
>)
    ensures
        stride == if max_rows * output_features <= usize::MAX {
            Ok::<usize, TrainingSizeError>((max_rows * output_features) as usize)
        } else {
            Err(TrainingSizeError::OutputStrideOverflow)
        },
{
    match max_rows.checked_mul(output_features) {
        Some(stride) => Ok(stride),
        None => Err(TrainingSizeError::OutputStrideOverflow),
    }
}

/// Sun-target penalties of one training sample: one per action target of each row.
pub fn training_sun_target_penalty_stride(max_rows: usize, action_targets_per_source: usize) -> (stride:
    Result<usize, TrainingSizeError>)
    ensures
        stride == if max_rows * action_targets_per_source <= usize::MAX {
            Ok::<usize, TrainingSizeError>((max_rows * action_targets_per_source) as usize)
        } else {
            Err(TrainingSizeError::SunTargetPenaltyStrideOverflow)
        },
{
    match max_rows.checked_mul(action_targets_per_source) {
        Some(stride) => Ok(stride),
        None => Err(TrainingSizeError::SunTargetPenaltyStrideOverflow),
    }
}

/// Samples that a batch of games can record: one per player and step of each game.
pub fn training_sample_capacity(game_count: usize, active_player_count: usize, episode_steps: usize) -> (capacity:
    Result<usize, TrainingSizeError>)
    ensures
        capacity == if game_count * active_player_count <= usize::MAX && game_count
            * active_player_count * episode_steps <= usize::MAX {
            Ok::<usize, TrainingSizeError>((game_count * active_player_count * episode_steps) as usize)
        } else {
            Err(TrainingSizeError::SampleCapacityOverflow)
        },
{
    match game_count.checked_mul(active_player_count) {
        Some(players) => match players.checked_mul(episode_steps) {
            Some(capacity) => Ok(capacity),
            None => Err(TrainingSizeError::SampleCapacityOverflow),
        },
        None => Err(TrainingSizeError::SampleCapacityOverflow),
    }
}

/// Why a population cannot be trained as one batch.
#[derive(Clone, Copy, Debug, PartialEq, Eq, Structural)]
pub enum PopulationError {
    Empty,
    /// The weight count of the first model's shape could not be computed.
    WeightCount(ModelError),
    /// The model at this index has another shape than the first.
    ShapeMismatch(usize),
    /// The model at this index has another number of weights than its shape asks for.
    WeightCountMismatch(usize),
}

/// The first model that differs from `shape` or does not have `count` weights.
pub open spec fn first_misfit(models: Seq<(True2DTransformerShape, Seq<u32>)>, shape: True2DTransformerShape, count: int) -> Option<PopulationError>
    decreases models.len(),
{
    if models.len() == 0 {
        None
    } else {
        let last = models.len() - 1;
        match first_misfit(models.drop_last(), shape, count) {
            Some(error) => Some(error),
            None => if models[last].0 != shape {
                Some(PopulationError::ShapeMismatch(last as usize))
            } else if models[last].1.len() != count {
                Some(PopulationError::WeightCountMismatch(last as usize))
            } else {
                None
            },
        }
    }
}

/// What checking a population gives: the shape of its first model and that shape's
/// weight count, when every model has that shape and count.
pub open spec fn population_check(models: Seq<(True2DTransformerShape, Seq<u32>)>, config: True2DConfig) -> Result<(True2DTransformerShape, usize), PopulationError> {
    if models.len() == 0 {
        Err(PopulationError::Empty)
    } else {
        let shape = models[0].0;
        if !true2d_shape_is_valid(shape, config) || !true2d_config_is_valid(config)
            || true2d_parameter_count(shape, config) > usize::MAX {
            Err(PopulationError::WeightCount(ModelError::InvalidParameter))
        } else {
            let count = true2d_parameter_count(shape, config);
            match first_misfit(models, shape, count) {
                Some(error) => Err(error),
                None => Ok((shape, count as usize)),
            }
        }
    }
}

proof fn lemma_first_misfit_extends(
    models: Seq<(True2DTransformerShape, Seq<u32>)>,
    shape: True2DTransformerShape,
    count: int,
    k: int,
    k2: int,
)
    requires
        0 <= k <= k2 <= models.len(),
        first_misfit(models.subrange(0, k), shape, count) is Some,
    ensures
        first_misfit(models.subrange(0, k2), shape, count) == first_misfit(
            models.subrange(0, k),
            shape,
            count,
        ),
    decreases k2 - k,
{
    if k2 > k {
        lemma_first_misfit_extends(models, shape, count, k, k2 - 1);
        assert(models.subrange(0, k2).drop_last() =~= models.subrange(0, k2 - 1));
    }
}

/// Checks that all models share the first model's shape and carry the number of weights
/// that shape asks for, and returns that shape and count.
pub fn validate_population(population: &Vec<True2DTransformer>, config: &True2DConfig) -> (checked:
    Result<(True2DTransformerShape, usize), PopulationError>)
    ensures
        checked == population_check(models_view(population@), *config),
{
    let ghost models = models_view(population@);
    if population.len() == 0 {
        return Err(PopulationError::Empty);
    }
    let shape = population[0].shape;
    let expected = match shape.parameter_count(config) {
        Ok(count) => count,
        Err(error) => {
            return Err(PopulationError::WeightCount(error));
        },
    };
    let mut index: usize = 0;
    while index < population.len()
        invariant
            index <= population.len(),
            models == models_view(population@),
            shape == models[0].0,
            expected == true2d_parameter_count(shape, *config),
            true2d_shape_is_valid(shape, *config),
            true2d_config_is_valid(*config),
            models.len() == population@.len(),
            first_misfit(models.subrange(0, index as int), shape, expected as int) is None,
        decreases population.len() - index,
    {
        proof {
            assert(models.subrange(0, index + 1).drop_last() =~= models.subrange(0, index as int));
        }
        if population[index].shape != shape {
            proof {
                let prefix = models.subrange(0, index + 1);
                assert(prefix[index as int] == population@[index as int]@);
                assert(first_misfit(prefix, shape, expected as int) == Some(
                    PopulationError::ShapeMismatch(index),
                ));
                lemma_first_misfit_extends(models, shape, expected as int, index + 1, models.len() as int);
                assert(models.subrange(0, models.len() as int) =~= models);
            }
            return Err(PopulationError::ShapeMismatch(index));
        }
        if population[index].weights.len() != expected {
            proof {
                let prefix = models.subrange(0, index + 1);
                assert(prefix[index as int] == population@[index as int]@);
                assert(first_misfit(prefix, shape, expected as int) == Some(
                    PopulationError::WeightCountMismatch(index),
                ));
                lemma_first_misfit_extends(models, shape, expected as int, index + 1, models.len() as int);
                assert(models.subrange(0, models.len() as int) =~= models);
            }
            return Err(PopulationError::WeightCountMismatch(index));
        }
        index = index + 1;
    }
    proof {
        assert(models.subrange(0, population.len() as int) =~= models);
    }
    Ok((shape, expected))
}

} // verus!
