//! Parameter layouts of the trainable transformers, and the migration of
//! weight vectors written by older feature layouts.
//!
//! Weights are handled as `f32` bit patterns; the value 0.0 is the pattern 0.
use vstd::prelude::*;

use crate::artifact::bits_are_finite;

verus! {

pub const INPUT_FEATURE_COUNT: usize = 2;

pub const OUTPUT_FEATURE_COUNT: usize = 2;

/// Features per planet row that the pair matrix reads.
pub const TRUE2D_INPUT_FEATURES: usize = 7;

/// Input weights of a (source, target) cell: the row features of both planets.
pub const INPUT_PAIR_FEATURE_WEIGHTS: usize = 14;

pub const LEGACY_FOUR_FEATURE_INPUT_PAIR_WEIGHTS: usize = 8;

pub const LEGACY_FIVE_FEATURE_INPUT_PAIR_WEIGHTS: usize = 10;

pub const EXPAND_BIAS_WEIGHTS: usize = 1;

pub const TRUE_2D_ATTENTION_HEAD_WEIGHTS: usize = 7;

pub const TRUE_2D_ATTENTION_SHARED_WEIGHTS: usize = 6;

/// Planes of a matrix layer: residual, two hidden, gate and update weights with biases.
pub const TRUE_2D_MATRIX_LAYER_CELL_WEIGHTS: usize = 12;

pub const OUTPUT_SCALAR_WEIGHTS: usize = 5;

/// Position of the source production weight in the input pair weights.
pub const SOURCE_PRODUCTION_WEIGHT_INDEX: usize = 4;

#[derive(Clone, Copy, Debug, PartialEq, Eq, Structural)]
pub enum ModelError {
    EmptyModel,
    InvalidUtf8,
    InvalidMagic,
    InvalidParameter,
    InvalidWeightCount,
}

/// Bounds on the width of the dense transformer.
#[derive(Clone, Copy, Debug, PartialEq, Eq, Structural)]
pub struct ModelWidthLimits {
    pub d_model_min: usize,
    pub d_model_max: usize,
}

/// Shape of the dense row transformer.
#[derive(Clone, Copy, Debug, PartialEq, Eq, Structural)]
pub struct TransformerShape {
    pub layers: usize,
    pub d_model: usize,
    pub heads: usize,
}

pub open spec fn transformer_shape_is_valid(shape: TransformerShape, limits: ModelWidthLimits) -> bool {
    &&& shape.layers != 0
    &&& shape.heads != 0
    &&& limits.d_model_min <= shape.d_model <= limits.d_model_max
    &&& shape.d_model % shape.heads == 0
}

/// Weights of the dense transformer: input projection, position embedding, one
/// scale per layer and width, and the output projection.
pub open spec fn transformer_parameter_count(shape: TransformerShape) -> int {
    INPUT_FEATURE_COUNT * shape.d_model + shape.d_model + shape.layers * shape.d_model
        + shape.d_model * OUTPUT_FEATURE_COUNT
}

impl TransformerShape {
    /// Checks the layer count, the head count and the width against `limits`.
    pub fn validate(&self, limits: &ModelWidthLimits) -> (result: Result<(), ModelError>)
        ensures
            result == if transformer_shape_is_valid(*self, *limits) {
                Ok::<(), ModelError>(())
            } else {
                Err(ModelError::InvalidParameter)
            },
    {
        if self.layers == 0 || self.heads == 0 || self.d_model < limits.d_model_min
            || self.d_model > limits.d_model_max || self.d_model % self.heads != 0 {
            return Err(ModelError::InvalidParameter);
        }
        Ok(())
    }

    /// Number of weights of a valid shape; `InvalidParameter` for an invalid one
    /// and when the count does not fit in a `usize`.
    pub fn parameter_count(&self, limits: &ModelWidthLimits) -> (count: Result<usize, ModelError>)
        ensures
            match count {
                Ok(n) => transformer_shape_is_valid(*self, *limits) && n
                    == transformer_parameter_count(*self),
                Err(e) => e == ModelError::InvalidParameter && (!transformer_shape_is_valid(
                    *self,
                    *limits,
                ) || transformer_parameter_count(*self) > usize::MAX),
            },
    {
        self.validate(limits)?;
        let layer_weights = match self.layers.checked_mul(self.d_model) {
            Some(v) => v,
            None => {
                proof {
                    assert(self.layers * self.d_model <= transformer_parameter_count(*self)) by (nonlinear_arith)
                        requires
                            self.d_model >= 0,
                    ;
                }
                return Err(ModelError::InvalidParameter);
            },
        };
        let d = self.d_model;
        if d > (usize::MAX - layer_weights) / 5 {
            proof {
                assert(5 * d + layer_weights > usize::MAX) by (nonlinear_arith)
                    requires
                        d > (usize::MAX - layer_weights) / 5,
                        layer_weights <= usize::MAX,
                ;
            }
            return Err(ModelError::InvalidParameter);
        }
        proof {
            assert(5 * d + layer_weights <= usize::MAX) by (nonlinear_arith)
                requires
                    d <= (usize::MAX - layer_weights) / 5,
                    layer_weights <= usize::MAX,
            ;
        }
        Ok(INPUT_FEATURE_COUNT * d + d + layer_weights + d * OUTPUT_FEATURE_COUNT)
    }
}

/// Integer settings of the pair-matrix transformer.
#[derive(Clone, Copy, Debug, PartialEq, Eq, Structural)]
pub struct True2DConfig {
    pub internal_rows: usize,
    pub matrix_layer_planes: usize,
    pub attention_heads: usize,
    pub action_targets_per_source: usize,
}

/// Shape of the pair-matrix transformer.
#[derive(Clone, Copy, Debug, PartialEq, Eq, Structural)]
pub struct True2DTransformerShape {
    pub layers: usize,
    pub row_count: usize,
}

pub open spec fn true2d_shape_is_valid(shape: True2DTransformerShape, config: True2DConfig) -> bool {
    &&& shape.layers != 0
    &&& shape.row_count == config.internal_rows
    &&& shape.row_count != 0
}

/// Weights of the pair-matrix transformer: input pair weights, source and target
/// row embeddings, one embedding per cell, the expand bias, the matrix layers,
/// the attention block and the output heads.
pub open spec fn true2d_parameter_count(shape: True2DTransformerShape, config: True2DConfig) -> int {
    let cells = shape.row_count * shape.row_count;
    INPUT_PAIR_FEATURE_WEIGHTS + shape.row_count + shape.row_count + cells + EXPAND_BIAS_WEIGHTS
        + shape.layers * (cells * config.matrix_layer_planes) + (config.attention_heads
        * TRUE_2D_ATTENTION_HEAD_WEIGHTS + TRUE_2D_ATTENTION_SHARED_WEIGHTS) + shape.row_count
        * config.action_targets_per_source + shape.row_count * config.action_targets_per_source
        + OUTPUT_SCALAR_WEIGHTS * config.action_targets_per_source
}

pub open spec fn true2d_config_is_valid(config: True2DConfig) -> bool {
    &&& config.matrix_layer_planes == TRUE_2D_MATRIX_LAYER_CELL_WEIGHTS
    &&& config.attention_heads != 0
}

impl True2DTransformerShape {
    /// Checks that the shape has layers and uses the configured number of rows.
    pub fn validate(&self, config: &True2DConfig) -> (result: Result<(), ModelError>)
        ensures
            result == if true2d_shape_is_valid(*self, *config) {
                Ok::<(), ModelError>(())
            } else {
                Err(ModelError::InvalidParameter)
            },
    {
        if self.layers == 0 || self.row_count != config.internal_rows || self.row_count == 0 {
            return Err(ModelError::InvalidParameter);
        }
        Ok(())
    }

    /// Cells of the pair matrix: rows squared.
    pub fn cell_count(&self) -> (cells: Result<usize, ModelError>)
        ensures
            match cells {
                Ok(n) => n == self.row_count * self.row_count,
                Err(e) => e == ModelError::InvalidParameter && self.row_count * self.row_count
                    > usize::MAX,
            },
    {
        match self.row_count.checked_mul(self.row_count) {
            Some(n) => Ok(n),
            None => Err(ModelError::InvalidParameter),
        }
    }

    /// Number of weights of the model; `InvalidParameter` for an invalid shape or
    /// configuration, or a count that does not fit in a `usize`.
    pub fn parameter_count(&self, config: &True2DConfig) -> (count: Result<usize, ModelError>)
        ensures
            match count {
                Ok(n) => true2d_shape_is_valid(*self, *config) && true2d_config_is_valid(*config)
                    && n == true2d_parameter_count(*self, *config),
                Err(e) => e == ModelError::InvalidParameter && (!true2d_shape_is_valid(
                    *self,
                    *config,
                ) || !true2d_config_is_valid(*config) || true2d_parameter_count(*self, *config)
                    > usize::MAX),
            },
    {
        self.validate(config)?;
        let r = self.row_count;
        let cells = match self.cell_count() {
            Ok(c) => c,
            Err(e) => {
                proof {
                    lemma_count_dominates(*self, *config);
                }
                return Err(e);
            },
        };
        if config.matrix_layer_planes != TRUE_2D_MATRIX_LAYER_CELL_WEIGHTS {
            return Err(ModelError::InvalidParameter);
        }
        if config.attention_heads == 0 {
            return Err(ModelError::InvalidParameter);
        }
        proof {
            lemma_count_dominates(*self, *config);
        }
        let layer_cells = match cells.checked_mul(config.matrix_layer_planes) {
            Some(v) => v,
            None => {
                return Err(ModelError::InvalidParameter);
            },
        };
        let matrix = match self.layers.checked_mul(layer_cells) {
            Some(v) => v,
            None => {
                return Err(ModelError::InvalidParameter);
            },
        };
        let heads = match config.attention_heads.checked_mul(TRUE_2D_ATTENTION_HEAD_WEIGHTS) {
            Some(v) => v,
            None => {
                return Err(ModelError::InvalidParameter);
            },
        };
        let targets = match r.checked_mul(config.action_targets_per_source) {
            Some(v) => v,
            None => {
                return Err(ModelError::InvalidParameter);
            },
        };
        let outputs = match config.action_targets_per_source.checked_mul(OUTPUT_SCALAR_WEIGHTS) {
            Some(v) => v,
            None => {
                return Err(ModelError::InvalidParameter);
            },
        };
        let mut total: usize = INPUT_PAIR_FEATURE_WEIGHTS;
        let ghost mut rest: int = true2d_parameter_count(*self, *config) - INPUT_PAIR_FEATURE_WEIGHTS;
        let terms: [usize; 10] = [r, r, cells, EXPAND_BIAS_WEIGHTS, matrix, heads,
            TRUE_2D_ATTENTION_SHARED_WEIGHTS, targets, targets, outputs];
        proof {
            assert(rest == r + r + cells + EXPAND_BIAS_WEIGHTS + matrix + heads
                + TRUE_2D_ATTENTION_SHARED_WEIGHTS + targets + targets + outputs) by (nonlinear_arith)
                requires
                    cells == r * r,
                    layer_cells == cells * config.matrix_layer_planes,
                    matrix == self.layers * layer_cells,
                    heads == config.attention_heads * TRUE_2D_ATTENTION_HEAD_WEIGHTS,
                    targets == r * config.action_targets_per_source,
                    outputs == config.action_targets_per_source * OUTPUT_SCALAR_WEIGHTS,
                    r == self.row_count,
                    rest == true2d_parameter_count(*self, *config) - INPUT_PAIR_FEATURE_WEIGHTS,
            ;
            assert(terms@ =~= seq![r, r, cells, EXPAND_BIAS_WEIGHTS, matrix, heads,
                TRUE_2D_ATTENTION_SHARED_WEIGHTS, targets, targets, outputs]);
            assert(rest == seq_sum(terms@.subrange(0, 10))) by {
                reveal_with_fuel(seq_sum, 11);
            }
        }
        let mut i: usize = 0;
        while i < 10
            invariant
                i <= 10,
                terms@.len() == 10,
                total + seq_sum(terms@.subrange(i as int, 10)) == true2d_parameter_count(
                    *self,
                    *config,
                ),
            decreases 10 - i,
        {
            proof {
                lemma_seq_sum_first(terms@.subrange(i as int, 10));
                assert(terms@.subrange(i as int, 10).drop_first() =~= terms@.subrange(i + 1, 10));
                lemma_seq_sum_nonneg(terms@.subrange(i + 1, 10));
            }
            if total > usize::MAX - terms[i] {
                return Err(ModelError::InvalidParameter);
            }
            total = total + terms[i];
            i += 1;
        }
        proof {
            assert(terms@.subrange(10, 10).len() == 0);
        }
        Ok(total)
    }

    /// The matrix layer after which the attention block runs: the middle one.
    pub fn attention_layer_index(&self) -> (index: usize)
        ensures
            index == self.layers / 2,
    {
        self.layers / 2
    }
}

pub open spec fn seq_sum(parts: Seq<usize>) -> int
    decreases parts.len(),
{
    if parts.len() == 0 {
        0
    } else {
        parts[0] + seq_sum(parts.drop_first())
    }
}

proof fn lemma_seq_sum_first(parts: Seq<usize>)
    requires
        parts.len() > 0,
    ensures
        seq_sum(parts) == parts[0] + seq_sum(parts.drop_first()),
{
}

proof fn lemma_seq_sum_nonneg(parts: Seq<usize>)
    ensures
        seq_sum(parts) >= 0,
    decreases parts.len(),
{
    if parts.len() > 0 {
        lemma_seq_sum_nonneg(parts.drop_first());
    }
}

proof fn lemma_count_dominates(shape: True2DTransformerShape, config: True2DConfig)
    requires
        shape.layers >= 1,
    ensures
        shape.row_count * shape.row_count <= true2d_parameter_count(shape, config),
        shape.row_count * shape.row_count * config.matrix_layer_planes <= true2d_parameter_count(
            shape,
            config,
        ),
        shape.layers * (shape.row_count * shape.row_count * config.matrix_layer_planes)
            <= true2d_parameter_count(shape, config),
        config.attention_heads * TRUE_2D_ATTENTION_HEAD_WEIGHTS <= true2d_parameter_count(
            shape,
            config,
        ),
        shape.row_count * config.action_targets_per_source <= true2d_parameter_count(shape, config),
        config.action_targets_per_source * OUTPUT_SCALAR_WEIGHTS <= true2d_parameter_count(
            shape,
            config,
        ),
        shape.row_count >= 1 && config.matrix_layer_planes >= 1 ==> true2d_parameter_count(
            shape,
            config,
        ) >= 20,
{
    let c = shape.row_count * shape.row_count;
    assert(c >= 0) by (nonlinear_arith)
        requires
            c == shape.row_count * shape.row_count,
    ;
    assert(c * config.matrix_layer_planes >= 0) by (nonlinear_arith)
        requires
            c >= 0,
    ;
    assert(c * config.matrix_layer_planes <= shape.layers * (c * config.matrix_layer_planes)) by (nonlinear_arith)
        requires
            shape.layers >= 1,
            c * config.matrix_layer_planes >= 0,
    ;
    assert(shape.row_count * config.action_targets_per_source >= 0) by (nonlinear_arith);
    assert(config.action_targets_per_source * OUTPUT_SCALAR_WEIGHTS == OUTPUT_SCALAR_WEIGHTS
        * config.action_targets_per_source) by (nonlinear_arith);
    assert(config.attention_heads * TRUE_2D_ATTENTION_HEAD_WEIGHTS >= 0) by (nonlinear_arith);
    if shape.row_count >= 1 && config.matrix_layer_planes >= 1 {
        assert(c >= 1) by (nonlinear_arith)
            requires
                shape.row_count >= 1,
                c == shape.row_count * shape.row_count,
        ;
    }
}

/// The weights of a model written with five features per planet: the production
/// weights stay in place and zero weights for the two velocity features follow
/// each planet's block.
pub open spec fn migrate_five_feature(weights: Seq<u32>) -> Seq<u32> {
    weights.subrange(0, 5) + seq![0u32, 0u32] + weights.subrange(5, 10) + seq![0u32, 0u32]
        + weights.subrange(10, weights.len() as int)
}

/// The weights of a model written with four features per planet: zero weights for
/// production and both velocity features follow each planet's block.
pub open spec fn migrate_four_feature(weights: Seq<u32>) -> Seq<u32> {
    weights.subrange(0, 4) + seq![0u32, 0u32, 0u32] + weights.subrange(4, 8) + seq![
        0u32,
        0u32,
        0u32,
    ] + weights.subrange(8, weights.len() as int)
}

/// The weights a model of `expected` parameters is built from: the given ones when
/// they already match, else the migration of a legacy layout of the same model.
pub open spec fn weights_for_model(weights: Seq<u32>, expected: int) -> Option<Seq<u32>> {
    if exists|i: int| 0 <= i < weights.len() && !bits_are_finite(#[trigger] weights[i]) {
        None
    } else if weights.len() == expected {
        Some(weights)
    } else if expected >= 4 && weights.len() == expected - 4 {
        Some(migrate_five_feature(weights))
    } else if expected >= 6 && weights.len() == expected - 6 {
        Some(migrate_four_feature(weights))
    } else {
        None
    }
}

/// What building a model from `weights` gives: its weights, or the error.
pub open spec fn from_weights_spec(
    shape: True2DTransformerShape,
    weights: Seq<u32>,
    config: True2DConfig,
) -> Result<Seq<u32>, ModelError> {
    if !true2d_shape_is_valid(shape, config) || !true2d_config_is_valid(config)
        || true2d_parameter_count(shape, config) > usize::MAX {
        Err(ModelError::InvalidParameter)
    } else {
        match weights_for_model(weights, true2d_parameter_count(shape, config)) {
            Some(w) => Ok(w),
            None => Err(ModelError::InvalidWeightCount),
        }
    }
}

fn push_range(out: &mut Vec<u32>, weights: &Vec<u32>, start: usize, end: usize)
    requires
        start <= end <= weights.len(),
    ensures
        final(out)@ == old(out)@ + weights@.subrange(start as int, end as int),
{
    let mut i = start;
    while i < end
        invariant
            start <= i <= end <= weights.len(),
            out@ == old(out)@ + weights@.subrange(start as int, i as int),
        decreases end - i,
    {
        out.push(weights[i]);
        proof {
            assert(out@ =~= old(out)@ + weights@.subrange(start as int, i + 1));
        }
        i += 1;
    }
}

/// A pair-matrix transformer: its shape and the bit patterns of its weights.
#[derive(Clone, Debug)]
pub struct True2DTransformer {
    pub shape: True2DTransformerShape,
    pub weights: Vec<u32>,
}

impl True2DTransformer {
    /// Builds a model from its weights. Weights must be finite; a vector written by
    /// the five- or four-feature layout is migrated to the current one.
    pub fn from_weights(
        shape: True2DTransformerShape,
        weights: Vec<u32>,
        config: &True2DConfig,
    ) -> (model: Result<True2DTransformer, ModelError>)
        ensures
            match model {
                Ok(m) => m.shape == shape && from_weights_spec(shape, weights@, *config) == Ok::<
                    _,
                    ModelError,
                >(m.weights@),
                Err(e) => from_weights_spec(shape, weights@, *config) == Err::<Seq<u32>, _>(e),
            },
    {
        let expected = shape.parameter_count(config)?;
        proof {
            lemma_count_dominates(shape, *config);
        }
        let mut i: usize = 0;
        while i < weights.len()
            invariant
                i <= weights.len(),
                forall|j: int| 0 <= j < i ==> bits_are_finite(#[trigger] weights@[j]),
                true2d_shape_is_valid(shape, *config),
                true2d_config_is_valid(*config),
                expected == true2d_parameter_count(shape, *config),
            decreases weights.len() - i,
        {
            if (weights[i] >> 23u32) & 0xffu32 == 0xffu32 {
                proof {
                    assert(!bits_are_finite(weights@[i as int]));
                }
                return Err(ModelError::InvalidWeightCount);
            }
            i += 1;
        }
        if weights.len() == expected {
            return Ok(True2DTransformer { shape, weights });
        }
        if expected >= 4 && weights.len() == expected - 4 {
            let mut migrated: Vec<u32> = Vec::new();
            push_range(&mut migrated, &weights, 0, 5);
            migrated.push(0u32);
            migrated.push(0u32);
            push_range(&mut migrated, &weights, 5, 10);
            migrated.push(0u32);
            migrated.push(0u32);
            push_range(&mut migrated, &weights, 10, weights.len());
            proof {
                assert(migrated@ =~= migrate_five_feature(weights@));
            }
            return Ok(True2DTransformer { shape, weights: migrated });
        }
        if expected >= 6 && weights.len() == expected - 6 {
            let mut migrated: Vec<u32> = Vec::new();
            push_range(&mut migrated, &weights, 0, 4);
            migrated.push(0u32);
            migrated.push(0u32);
            migrated.push(0u32);
            push_range(&mut migrated, &weights, 4, 8);
            migrated.push(0u32);
            migrated.push(0u32);
            migrated.push(0u32);
            push_range(&mut migrated, &weights, 8, weights.len());
            proof {
                assert(migrated@ =~= migrate_four_feature(weights@));
            }
            return Ok(True2DTransformer { shape, weights: migrated });
        }
        Err(ModelError::InvalidWeightCount)
    }
}

} // verus!
