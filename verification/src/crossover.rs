//! Crossover of two pair-matrix transformers: each weight of the child comes from one
//! parent, chosen by a hash of the seed and the weight's position.
use vstd::prelude::*;
use vstd::wrapping::u64_specs::wrapping_mul;

use crate::shapes::{ModelError, True2DTransformer};

verus! {

pub const HASH_ROW_FACTOR: u64 = 0x9E37_79B9_7F4A_7C15;

pub const HASH_COLUMN_FACTOR: u64 = 0xBF58_476D_1CE4_E5B9;

pub const HASH_MIX_FACTOR: u64 = 0x94D0_49BB_1331_11EB;

/// The hash row that chooses the parent of each weight.
pub const CROSSOVER_HASH_ROW: u64 = 1;

/// The smallest hash whose weight is taken from the left parent. A hash is scaled to
/// `[-1, 1]` through `f64` and `f32` as `hash / u64::MAX * 2 - 1`; this is the least hash
/// for which that value is not negative.
pub const CROSSOVER_LEFT_THRESHOLD: u64 = 9_223_371_761_976_868_352;

/// The mixing hash of `(seed, row, column)`.
pub open spec fn weight_hash(seed: u64, row: u64, column: u64) -> u64 {
    let x0 = seed ^ wrapping_mul(row, HASH_ROW_FACTOR) ^ wrapping_mul(column, HASH_COLUMN_FACTOR);
    let x1 = x0 ^ (x0 >> 30u64);
    let x2 = wrapping_mul(x1, HASH_COLUMN_FACTOR);
    let x3 = x2 ^ (x2 >> 27u64);
    let x4 = wrapping_mul(x3, HASH_MIX_FACTOR);
    x4 ^ (x4 >> 31u64)
}

pub fn hash_weight_position(seed: u64, row: u64, column: u64) -> (hash: u64)
    ensures
        hash == weight_hash(seed, row, column),
{
    let x0 = seed ^ row.wrapping_mul(HASH_ROW_FACTOR) ^ column.wrapping_mul(HASH_COLUMN_FACTOR);
    let x1 = x0 ^ (x0 >> 30u64);
    let x2 = x1.wrapping_mul(HASH_COLUMN_FACTOR);
    let x3 = x2 ^ (x2 >> 27u64);
    let x4 = x3.wrapping_mul(HASH_MIX_FACTOR);
    x4 ^ (x4 >> 31u64)
}

/// Whether weight `index` of a child crossed with `seed` comes from the left parent.
pub open spec fn takes_left(seed: u64, index: int) -> bool {
    weight_hash(seed, CROSSOVER_HASH_ROW, index as u64) >= CROSSOVER_LEFT_THRESHOLD
}

pub open spec fn crossed_weights(left: Seq<u32>, right: Seq<u32>, seed: u64) -> Seq<u32> {
    Seq::new(left.len(), |i: int| if takes_left(seed, i) { left[i] } else { right[i] })
}

/// A model crossed with itself is itself, whatever the seed; and each weight of a child
/// is the weight at the same position of one of its parents.
pub proof fn law_crossover_keeps_parent_weights(left: Seq<u32>, right: Seq<u32>, seed: u64)
    requires
        left.len() == right.len(),
    ensures
        crossed_weights(left, left, seed) == left,
        crossed_weights(left, right, seed).len() == left.len(),
        forall|i: int|
            0 <= i < left.len() ==> #[trigger] crossed_weights(left, right, seed)[i] == left[i]
                || crossed_weights(left, right, seed)[i] == right[i],
{
    assert(crossed_weights(left, left, seed) =~= left);
}

impl True2DTransformer {
    /// The child of two models of the same shape and weight count: each weight is the
    /// left or the right parent's, as the seed's hash of its position decides.
    pub fn crossover(left: &True2DTransformer, right: &True2DTransformer, seed: u64) -> (child: Result<
        True2DTransformer,
        ModelError,
    >)
        ensures
            left.shape != right.shape || left.weights@.len() != right.weights@.len() ==> child
                == Err::<True2DTransformer, ModelError>(ModelError::InvalidWeightCount),
            left.shape == right.shape && left.weights@.len() == right.weights@.len() ==> {
                &&& child is Ok
                &&& child->Ok_0.shape == left.shape
                &&& child->Ok_0.weights@ == crossed_weights(left.weights@, right.weights@, seed)
            },
    {
        if left.shape.layers != right.shape.layers || left.shape.row_count != right.shape.row_count
            || left.weights.len() != right.weights.len() {
            return Err(ModelError::InvalidWeightCount);
        }
        let mut weights: Vec<u32> = Vec::new();
        let mut i: usize = 0;
        while i < left.weights.len()
            invariant
                i <= left.weights.len() == right.weights.len(),
                weights@ == Seq::new(
                    i as nat,
                    |j: int|
                        if takes_left(seed, j) {
                            left.weights@[j]
                        } else {
                            right.weights@[j]
                        },
                ),
            decreases left.weights.len() - i,
        {
            let hash = hash_weight_position(seed, CROSSOVER_HASH_ROW, i as u64);
            let weight = if hash >= CROSSOVER_LEFT_THRESHOLD {
                left.weights[i]
            } else {
                right.weights[i]
            };
            weights.push(weight);
            proof {
                assert(weights@ =~= Seq::new(
                    (i + 1) as nat,
                    |j: int|
                        if takes_left(seed, j) {
                            left.weights@[j]
                        } else {
                            right.weights@[j]
                        },
                ));
            }
            i += 1;
        }
        Ok(True2DTransformer { shape: left.shape, weights })
    }
}

} // verus!
