//! The trainer checkpoint: `OWTRAIN1`, a format version, the run id, the next
//! generation, the population and the champion archive, in little-endian words.
use vstd::bytes::*;
use vstd::prelude::*;
use vstd::slice::slice_subrange;
use vstd::string::StringSliceAdditionalSpecFns;
use vstd::utf8::valid_utf8;

use crate::artifact::bits_are_finite;
use crate::text::utf8_is_valid;
use crate::shapes::{
    from_weights_spec, ModelError, True2DConfig, True2DTransformer, True2DTransformerShape,
};

verus! {

pub const TRAINER_CHECKPOINT_VERSION: u32 = 1;

#[derive(Clone, Copy, Debug, PartialEq, Eq, Structural)]
pub enum CheckpointError {
    UnexpectedEof,
    CursorOverflow,
    MagicMismatch,
    VersionUnsupported(u32),
    ValueOverflow,
    StringInvalid,
    ShapeMismatch,
    NonFiniteWeight,
    ModelInvalid(ModelError),
    PopulationTooSmall { found: usize, expected: usize },
    TrailingBytes,
}

/// A champion kept in the archive, with the generation that produced it.
#[derive(Clone, Debug)]
pub struct GenerationChampion {
    pub generation: usize,
    pub model: True2DTransformer,
}

/// A decoded checkpoint; the run id is UTF-8.
#[derive(Clone, Debug)]
pub struct TrainerCheckpoint {
    pub run_id: Vec<u8>,
    pub next_generation: usize,
    pub population: Vec<True2DTransformer>,
    pub champion_archive: Vec<GenerationChampion>,
}

impl View for True2DTransformer {
    type V = (True2DTransformerShape, Seq<u32>);

    open spec fn view(&self) -> (True2DTransformerShape, Seq<u32>) {
        (self.shape, self.weights@)
    }
}

impl View for GenerationChampion {
    type V = (usize, (True2DTransformerShape, Seq<u32>));

    open spec fn view(&self) -> (usize, (True2DTransformerShape, Seq<u32>)) {
        (self.generation, self.model@)
    }
}

pub open spec fn models_view(models: Seq<True2DTransformer>) -> Seq<(True2DTransformerShape, Seq<u32>)> {
    models.map_values(|m: True2DTransformer| m@)
}

pub open spec fn champions_view(champions: Seq<GenerationChampion>) -> Seq<
    (usize, (True2DTransformerShape, Seq<u32>)),
> {
    champions.map_values(|c: GenerationChampion| c@)
}

// ---------------------------------------------------------------- encoding

pub open spec fn le32(value: u32) -> Seq<u8> {
    spec_u32_to_le_bytes(value)
}

pub open spec fn le64(value: usize) -> Seq<u8> {
    spec_u64_to_le_bytes(value as u64)
}

pub open spec fn checkpoint_magic() -> Seq<u8> {
    "OWTRAIN1".spec_bytes()
}

pub open spec fn words_bytes(words: Seq<u32>) -> Seq<u8>
    decreases words.len(),
{
    if words.len() == 0 {
        Seq::empty()
    } else {
        words_bytes(words.drop_last()) + le32(words.last())
    }
}

pub open spec fn model_bytes(model: (True2DTransformerShape, Seq<u32>)) -> Seq<u8> {
    le64(model.0.layers) + le64(model.0.row_count) + le64(model.1.len() as usize) + words_bytes(
        model.1,
    )
}

pub open spec fn models_bytes(models: Seq<(True2DTransformerShape, Seq<u32>)>) -> Seq<u8>
    decreases models.len(),
{
    if models.len() == 0 {
        Seq::empty()
    } else {
        models_bytes(models.drop_last()) + model_bytes(models.last())
    }
}

pub open spec fn champions_bytes(champions: Seq<(usize, (True2DTransformerShape, Seq<u32>))>) -> Seq<
    u8,
>
    decreases champions.len(),
{
    if champions.len() == 0 {
        Seq::empty()
    } else {
        champions_bytes(champions.drop_last()) + le64(champions.last().0) + model_bytes(
            champions.last().1,
        )
    }
}

/// The bytes of a checkpoint.
pub open spec fn checkpoint_bytes(
    run_id: Seq<u8>,
    next_generation: usize,
    population: Seq<(True2DTransformerShape, Seq<u32>)>,
    champions: Seq<(usize, (True2DTransformerShape, Seq<u32>))>,
) -> Seq<u8> {
    checkpoint_magic() + le32(TRAINER_CHECKPOINT_VERSION) + le64(run_id.len() as usize) + run_id
        + le64(next_generation) + le64(population.len() as usize) + models_bytes(population) + le64(
        champions.len() as usize,
    ) + champions_bytes(champions)
}

/// Appends a little-endian `u32`.
pub fn push_u32(bytes: &mut Vec<u8>, value: u32)
    ensures
        final(bytes)@ == old(bytes)@ + le32(value),
{
    let mut encoded = u32_to_le_bytes(value);
    bytes.append(&mut encoded);
}

/// Appends a `usize` as a little-endian `u64`.
pub fn push_usize_as_u64(bytes: &mut Vec<u8>, value: usize)
    ensures
        final(bytes)@ == old(bytes)@ + le64(value),
{
    let mut encoded = u64_to_le_bytes(value as u64);
    bytes.append(&mut encoded);
}

fn push_slice(bytes: &mut Vec<u8>, data: &[u8])
    ensures
        final(bytes)@ == old(bytes)@ + data@,
{
    let mut i: usize = 0;
    while i < data.len()
        invariant
            i <= data.len(),
            bytes@ == old(bytes)@ + data@.take(i as int),
        decreases data.len() - i,
    {
        bytes.push(data[i]);
        proof {
            assert(bytes@ =~= old(bytes)@ + data@.take(i + 1));
        }
        i += 1;
    }
    proof {
        assert(data@.take(data@.len() as int) =~= data@);
    }
}

/// Appends a string: its byte length as a `u64`, then its UTF-8 bytes.
pub fn push_checkpoint_string(bytes: &mut Vec<u8>, value: &str)
    ensures
        final(bytes)@ == old(bytes)@ + le64(value.spec_bytes().len() as usize) + value.spec_bytes(),
{
    let raw = value.as_bytes();
    push_usize_as_u64(bytes, raw.len());
    push_slice(bytes, raw);
}

/// Appends one model: layers, rows, weight count, then the weights.
pub fn push_transformer(bytes: &mut Vec<u8>, model: &True2DTransformer)
    ensures
        final(bytes)@ == old(bytes)@ + model_bytes(model@),
{
    push_usize_as_u64(bytes, model.shape.layers);
    push_usize_as_u64(bytes, model.shape.row_count);
    push_usize_as_u64(bytes, model.weights.len());
    let ghost head = bytes@;
    let mut i: usize = 0;
    while i < model.weights.len()
        invariant
            i <= model.weights.len(),
            bytes@ == head + words_bytes(model.weights@.take(i as int)),
        decreases model.weights.len() - i,
    {
        push_u32(bytes, model.weights[i]);
        proof {
            assert(model.weights@.take(i + 1).drop_last() =~= model.weights@.take(i as int));
            assert(bytes@ =~= head + words_bytes(model.weights@.take(i + 1)));
        }
        i += 1;
    }
    proof {
        assert(model.weights@.take(model.weights@.len() as int) =~= model.weights@);
        assert(bytes@ =~= old(bytes)@ + model_bytes(model@));
    }
}

/// Appends a population: its size, then each model.
pub fn push_transformer_population(bytes: &mut Vec<u8>, population: &Vec<True2DTransformer>)
    ensures
        final(bytes)@ == old(bytes)@ + le64(population@.len() as usize) + models_bytes(
            models_view(population@),
        ),
{
    push_usize_as_u64(bytes, population.len());
    let ghost head = bytes@;
    let mut i: usize = 0;
    while i < population.len()
        invariant
            i <= population.len(),
            bytes@ == head + models_bytes(models_view(population@.take(i as int))),
        decreases population.len() - i,
    {
        push_transformer(bytes, &population[i]);
        proof {
            assert(models_view(population@.take(i + 1)).drop_last() =~= models_view(
                population@.take(i as int),
            ));
            assert(bytes@ =~= head + models_bytes(models_view(population@.take(i + 1))));
        }
        i += 1;
    }
    proof {
        assert(population@.take(population@.len() as int) =~= population@);
        assert(bytes@ =~= old(bytes)@ + le64(population@.len() as usize) + models_bytes(
            models_view(population@),
        ));
    }
}

/// Encodes a checkpoint.
pub fn encode_trainer_checkpoint(
    run_id: &str,
    next_generation: usize,
    population: &Vec<True2DTransformer>,
    champion_archive: &Vec<GenerationChampion>,
) -> (bytes: Vec<u8>)
    ensures
        bytes@ == checkpoint_bytes(
            run_id.spec_bytes(),
            next_generation,
            models_view(population@),
            champions_view(champion_archive@),
        ),
{
    let mut bytes: Vec<u8> = Vec::new();
    proof {
        reveal_strlit("OWTRAIN1");
    }
    let magic = magic_bytes();
    push_slice(&mut bytes, magic);
    push_u32(&mut bytes, TRAINER_CHECKPOINT_VERSION);
    push_checkpoint_string(&mut bytes, run_id);
    push_usize_as_u64(&mut bytes, next_generation);
    push_transformer_population(&mut bytes, population);
    push_usize_as_u64(&mut bytes, champion_archive.len());
    let ghost head = bytes@;
    let mut i: usize = 0;
    while i < champion_archive.len()
        invariant
            i <= champion_archive.len(),
            bytes@ == head + champions_bytes(champions_view(champion_archive@.take(i as int))),
        decreases champion_archive.len() - i,
    {
        push_usize_as_u64(&mut bytes, champion_archive[i].generation);
        push_transformer(&mut bytes, &champion_archive[i].model);
        proof {
            assert(champions_view(champion_archive@.take(i + 1)).drop_last() =~= champions_view(
                champion_archive@.take(i as int),
            ));
            assert(bytes@ =~= head + champions_bytes(
                champions_view(champion_archive@.take(i + 1)),
            ));
        }
        i += 1;
    }
    proof {
        assert(champion_archive@.take(champion_archive@.len() as int) =~= champion_archive@);
        assert(bytes@ =~= checkpoint_bytes(
            run_id.spec_bytes(),
            next_generation,
            models_view(population@),
            champions_view(champion_archive@),
        ));
    }
    bytes
}

fn magic_bytes() -> (magic: &'static [u8])
    ensures
        magic@ == checkpoint_magic(),
        magic@.len() == 8,
{
    proof {
        reveal_strlit("OWTRAIN1");
        vstd::string::is_ascii_spec_bytes("OWTRAIN1");
    }
    "OWTRAIN1".as_bytes()
}

// ---------------------------------------------------------------- decoding

/// `n` bytes at `cursor`, and the cursor after them.
pub open spec fn read_bytes_spec(bytes: Seq<u8>, cursor: int, n: int) -> Result<
    (Seq<u8>, int),
    CheckpointError,
> {
    if cursor + n > usize::MAX {
        Err(CheckpointError::CursorOverflow)
    } else if cursor + n > bytes.len() {
        Err(CheckpointError::UnexpectedEof)
    } else {
        Ok((bytes.subrange(cursor, cursor + n), cursor + n))
    }
}

pub open spec fn read_u32_spec(bytes: Seq<u8>, cursor: int) -> Result<(u32, int), CheckpointError> {
    match read_bytes_spec(bytes, cursor, 4) {
        Err(e) => Err(e),
        Ok((raw, next)) => Ok((spec_u32_from_le_bytes(raw), next)),
    }
}

pub open spec fn read_usize_spec(bytes: Seq<u8>, cursor: int) -> Result<(usize, int), CheckpointError> {
    match read_bytes_spec(bytes, cursor, 8) {
        Err(e) => Err(e),
        Ok((raw, next)) => {
            let value = spec_u64_from_le_bytes(raw);
            if value > usize::MAX {
                Err(CheckpointError::ValueOverflow)
            } else {
                Ok((value as usize, next))
            }
        },
    }
}

pub open spec fn read_string_spec(bytes: Seq<u8>, cursor: int) -> Result<
    (Seq<u8>, int),
    CheckpointError,
> {
    match read_usize_spec(bytes, cursor) {
        Err(e) => Err(e),
        Ok((len, next)) => match read_bytes_spec(bytes, next, len as int) {
            Err(e) => Err(e),
            Ok((raw, end)) => if valid_utf8(raw) {
                Ok((raw, end))
            } else {
                Err(CheckpointError::StringInvalid)
            },
        },
    }
}

pub open spec fn read_words_spec(bytes: Seq<u8>, cursor: int, n: nat) -> Result<
    (Seq<u32>, int),
    CheckpointError,
>
    decreases n,
{
    if n == 0 {
        Ok((Seq::empty(), cursor))
    } else {
        match read_words_spec(bytes, cursor, (n - 1) as nat) {
            Err(e) => Err(e),
            Ok((words, next)) => match read_bytes_spec(bytes, next, 4) {
                Err(e) => Err(e),
                Ok((raw, end)) => {
                    let word = spec_u32_from_le_bytes(raw);
                    if bits_are_finite(word) {
                        Ok((words.push(word), end))
                    } else {
                        Err(CheckpointError::NonFiniteWeight)
                    }
                },
            },
        }
    }
}

pub open spec fn read_model_spec(
    bytes: Seq<u8>,
    cursor: int,
    expected: True2DTransformerShape,
    config: True2DConfig,
) -> Result<((True2DTransformerShape, Seq<u32>), int), CheckpointError> {
    match read_usize_spec(bytes, cursor) {
        Err(e) => Err(e),
        Ok((layers, c1)) => match read_usize_spec(bytes, c1) {
            Err(e) => Err(e),
            Ok((row_count, c2)) => {
                let shape = True2DTransformerShape { layers, row_count };
                if shape != expected {
                    Err(CheckpointError::ShapeMismatch)
                } else {
                    match read_usize_spec(bytes, c2) {
                        Err(e) => Err(e),
                        Ok((count, c3)) => match read_words_spec(bytes, c3, count as nat) {
                            Err(e) => Err(e),
                            Ok((words, c4)) => match from_weights_spec(shape, words, config) {
                                Err(e) => Err(CheckpointError::ModelInvalid(e)),
                                Ok(weights) => Ok(((shape, weights), c4)),
                            },
                        },
                    }
                }
            },
        },
    }
}

pub open spec fn read_models_spec(
    bytes: Seq<u8>,
    cursor: int,
    n: nat,
    expected: True2DTransformerShape,
    config: True2DConfig,
) -> Result<(Seq<(True2DTransformerShape, Seq<u32>)>, int), CheckpointError>
    decreases n,
{
    if n == 0 {
        Ok((Seq::empty(), cursor))
    } else {
        match read_models_spec(bytes, cursor, (n - 1) as nat, expected, config) {
            Err(e) => Err(e),
            Ok((models, next)) => match read_model_spec(bytes, next, expected, config) {
                Err(e) => Err(e),
                Ok((model, end)) => Ok((models.push(model), end)),
            },
        }
    }
}

pub open spec fn read_champions_spec(
    bytes: Seq<u8>,
    cursor: int,
    n: nat,
    expected: True2DTransformerShape,
    config: True2DConfig,
) -> Result<(Seq<(usize, (True2DTransformerShape, Seq<u32>))>, int), CheckpointError>
    decreases n,
{
    if n == 0 {
        Ok((Seq::empty(), cursor))
    } else {
        match read_champions_spec(bytes, cursor, (n - 1) as nat, expected, config) {
            Err(e) => Err(e),
            Ok((champions, next)) => match read_usize_spec(bytes, next) {
                Err(e) => Err(e),
                Ok((generation, c1)) => match read_model_spec(bytes, c1, expected, config) {
                    Err(e) => Err(e),
                    Ok((model, end)) => Ok((champions.push((generation, model)), end)),
                },
            },
        }
    }
}

/// A population read from a checkpoint, fitted to the configured size: kept when
/// it matches, truncated when it is larger, refused when it is smaller.
pub open spec fn adapt_population_spec(
    population: Seq<(True2DTransformerShape, Seq<u32>)>,
    population_size: usize,
) -> Result<Seq<(True2DTransformerShape, Seq<u32>)>, CheckpointError> {
    if population.len() == population_size {
        Ok(population)
    } else if population.len() > population_size {
        Ok(population.take(population_size as int))
    } else {
        Err(CheckpointError::PopulationTooSmall { found: population.len() as usize, expected: population_size })
    }
}

pub type CheckpointView = (
    Seq<u8>,
    usize,
    Seq<(True2DTransformerShape, Seq<u32>)>,
    Seq<(usize, (True2DTransformerShape, Seq<u32>))>,
);

pub open spec fn decode_after_population(
    bytes: Seq<u8>,
    cursor: int,
    run_id: Seq<u8>,
    next_generation: usize,
    population: Seq<(True2DTransformerShape, Seq<u32>)>,
    expected: True2DTransformerShape,
    config: True2DConfig,
) -> Result<CheckpointView, CheckpointError> {
    match read_usize_spec(bytes, cursor) {
        Err(e) => Err(e),
        Ok((count, c1)) => match read_champions_spec(bytes, c1, count as nat, expected, config) {
            Err(e) => Err(e),
            Ok((champions, end)) => if end != bytes.len() {
                Err(CheckpointError::TrailingBytes)
            } else {
                Ok((run_id, next_generation, population, champions))
            },
        },
    }
}

/// What a checkpoint decodes to; the steps run in order and the first failure
/// names the error.
pub open spec fn decode_checkpoint_spec(
    bytes: Seq<u8>,
    expected: True2DTransformerShape,
    config: True2DConfig,
    population_size: usize,
) -> Result<CheckpointView, CheckpointError> {
    match read_bytes_spec(bytes, 0, 8) {
        Err(e) => Err(e),
        Ok((magic, c1)) => if magic != checkpoint_magic() {
            Err(CheckpointError::MagicMismatch)
        } else {
            match read_u32_spec(bytes, c1) {
                Err(e) => Err(e),
                Ok((version, c2)) => if version != TRAINER_CHECKPOINT_VERSION {
                    Err(CheckpointError::VersionUnsupported(version))
                } else {
                    match read_string_spec(bytes, c2) {
                        Err(e) => Err(e),
                        Ok((run_id, c3)) => match read_usize_spec(bytes, c3) {
                            Err(e) => Err(e),
                            Ok((next_generation, c4)) => match read_usize_spec(bytes, c4) {
                                Err(e) => Err(e),
                                Ok((count, c5)) => match read_models_spec(
                                    bytes,
                                    c5,
                                    count as nat,
                                    expected,
                                    config,
                                ) {
                                    Err(e) => Err(e),
                                    Ok((population, c6)) => match adapt_population_spec(
                                        population,
                                        population_size,
                                    ) {
                                        Err(e) => Err(e),
                                        Ok(adapted) => decode_after_population(
                                            bytes,
                                            c6,
                                            run_id,
                                            next_generation,
                                            adapted,
                                            expected,
                                            config,
                                        ),
                                    },
                                },
                            },
                        },
                    }
                },
            }
        },
    }
}

proof fn lemma_words_error_propagates(bytes: Seq<u8>, cursor: int, k: nat, m: nat)
    requires
        k <= m,
        read_words_spec(bytes, cursor, k) is Err,
    ensures
        read_words_spec(bytes, cursor, m) == read_words_spec(bytes, cursor, k),
    decreases m - k,
{
    if k < m {
        lemma_words_error_propagates(bytes, cursor, k, (m - 1) as nat);
    }
}

proof fn lemma_models_error_propagates(
    bytes: Seq<u8>,
    cursor: int,
    k: nat,
    m: nat,
    expected: True2DTransformerShape,
    config: True2DConfig,
)
    requires
        k <= m,
        read_models_spec(bytes, cursor, k, expected, config) is Err,
    ensures
        read_models_spec(bytes, cursor, m, expected, config) == read_models_spec(
            bytes,
            cursor,
            k,
            expected,
            config,
        ),
    decreases m - k,
{
    if k < m {
        lemma_models_error_propagates(bytes, cursor, k, (m - 1) as nat, expected, config);
    }
}

proof fn lemma_champions_error_propagates(
    bytes: Seq<u8>,
    cursor: int,
    k: nat,
    m: nat,
    expected: True2DTransformerShape,
    config: True2DConfig,
)
    requires
        k <= m,
        read_champions_spec(bytes, cursor, k, expected, config) is Err,
    ensures
        read_champions_spec(bytes, cursor, m, expected, config) == read_champions_spec(
            bytes,
            cursor,
            k,
            expected,
            config,
        ),
    decreases m - k,
{
    if k < m {
        lemma_champions_error_propagates(bytes, cursor, k, (m - 1) as nat, expected, config);
    }
}

/// Where the cursor stands after reading `n` bytes at `cursor`: past them, or where it
/// was when they are not there.
pub open spec fn cursor_after(bytes: Seq<u8>, cursor: int, n: int) -> int {
    match read_bytes_spec(bytes, cursor, n) {
        Ok((_, next)) => next,
        Err(_) => cursor,
    }
}

/// Reads `len` bytes at `cursor` and advances it.
pub fn read_bytes<'a>(bytes: &'a [u8], cursor: &mut usize, len: usize) -> (raw: Result<
    &'a [u8],
    CheckpointError,
>)
    ensures
        match raw {
            Ok(r) => read_bytes_spec(bytes@, *old(cursor) as int, len as int) == Ok::<
                _,
                CheckpointError,
            >((r@, *final(cursor) as int)),
            Err(e) => read_bytes_spec(bytes@, *old(cursor) as int, len as int) == Err::<
                (Seq<u8>, int),
                _,
            >(e) && *final(cursor) == *old(cursor),
        },
{
    let end = match cursor.checked_add(len) {
        None => {
            return Err(CheckpointError::CursorOverflow);
        },
        Some(e) => e,
    };
    if end > bytes.len() {
        return Err(CheckpointError::UnexpectedEof);
    }
    let slice = slice_subrange(bytes, *cursor, end);
    *cursor = end;
    Ok(slice)
}

/// Reads the magic bytes.
pub fn read_magic(bytes: &[u8], cursor: &mut usize) -> (result: Result<(), CheckpointError>)
    ensures
        match read_bytes_spec(bytes@, *old(cursor) as int, 8) {
            Err(e) => result == Err::<(), _>(e) && *final(cursor) == *old(cursor),
            Ok((magic, next)) => if magic != checkpoint_magic() {
                result == Err::<(), _>(CheckpointError::MagicMismatch) && *final(cursor) == next
            } else {
                result == Ok::<(), CheckpointError>(()) && *final(cursor) == next
            },
        },
{
    let magic = magic_bytes();
    let raw = read_bytes(bytes, cursor, 8)?;
    if !crate::text::bytes_equal(raw, magic) {
        return Err(CheckpointError::MagicMismatch);
    }
    Ok(())
}

/// Reads a little-endian `u32`.
pub fn read_u32(bytes: &[u8], cursor: &mut usize) -> (value: Result<u32, CheckpointError>)
    ensures
        match value {
            Ok(v) => read_u32_spec(bytes@, *old(cursor) as int) == Ok::<_, CheckpointError>(
                (v, *final(cursor) as int),
            ),
            Err(e) => read_u32_spec(bytes@, *old(cursor) as int) == Err::<(u32, int), _>(e)
                && *final(cursor) == *old(cursor),
        },
{
    let raw = read_bytes(bytes, cursor, 4)?;
    Ok(u32_from_le_bytes(raw))
}

/// Reads a little-endian `u64` that must fit in a `usize`.
pub fn read_usize(bytes: &[u8], cursor: &mut usize) -> (value: Result<usize, CheckpointError>)
    ensures
        match value {
            Ok(v) => read_usize_spec(bytes@, *old(cursor) as int) == Ok::<_, CheckpointError>(
                (v, *final(cursor) as int),
            ),
            Err(e) => read_usize_spec(bytes@, *old(cursor) as int) == Err::<(usize, int), _>(e)
                && *final(cursor) == cursor_after(bytes@, *old(cursor) as int, 8),
        },
{
    let raw = read_bytes(bytes, cursor, 8)?;
    let value = u64_from_le_bytes(raw);
    if value > usize::MAX as u64 {
        return Err(CheckpointError::ValueOverflow);
    }
    Ok(value as usize)
}

/// Reads a length-prefixed UTF-8 string.
pub fn read_string(bytes: &[u8], cursor: &mut usize) -> (value: Result<Vec<u8>, CheckpointError>)
    ensures
        match value {
            Ok(v) => read_string_spec(bytes@, *old(cursor) as int) == Ok::<_, CheckpointError>(
                (v@, *final(cursor) as int),
            ),
            Err(e) => read_string_spec(bytes@, *old(cursor) as int) == Err::<(Seq<u8>, int), _>(
                e,
            ) && *final(cursor) == match read_usize_spec(bytes@, *old(cursor) as int) {
                Ok((len, next)) => cursor_after(bytes@, next, len as int),
                Err(_) => cursor_after(bytes@, *old(cursor) as int, 8),
            },
        },
{
    let len = read_usize(bytes, cursor)?;
    let raw = read_bytes(bytes, cursor, len)?;
    if !utf8_is_valid(raw) {
        return Err(CheckpointError::StringInvalid);
    }
    let copied = crate::text::copy_range(raw, 0, raw.len());
    proof {
        assert(copied@ =~= raw@);
    }
    Ok(copied)
}

pub(crate) fn read_weight_words(bytes: &[u8], cursor: &mut usize, count: usize) -> (words: Result<
    Vec<u32>,
    CheckpointError,
>)
    ensures
        match words {
            Ok(w) => read_words_spec(bytes@, *old(cursor) as int, count as nat) == Ok::<
                _,
                CheckpointError,
            >((w@, *final(cursor) as int)),
            Err(e) => read_words_spec(bytes@, *old(cursor) as int, count as nat) == Err::<
                (Seq<u32>, int),
                _,
            >(e),
        },
{
    let ghost start = *cursor as int;
    let mut words: Vec<u32> = Vec::new();
    let mut i: usize = 0;
    while i < count
        invariant
            i <= count,
            start == *old(cursor) as int,
            read_words_spec(bytes@, start, i as nat) == Ok::<_, CheckpointError>(
                (words@, *cursor as int),
            ),
        decreases count - i,
    {
        let raw = match read_bytes(bytes, cursor, 4) {
            Ok(r) => r,
            Err(e) => {
                proof {
                    lemma_words_error_propagates(bytes@, start, (i + 1) as nat, count as nat);
                }
                return Err(e);
            },
        };
        let word = u32_from_le_bytes(raw);
        if (word >> 23u32) & 0xffu32 == 0xffu32 {
            proof {
                lemma_words_error_propagates(bytes@, start, (i + 1) as nat, count as nat);
            }
            return Err(CheckpointError::NonFiniteWeight);
        }
        words.push(word);
        i += 1;
    }
    Ok(words)
}

/// Reads one model and checks it against the expected shape.
pub fn read_transformer(
    bytes: &[u8],
    cursor: &mut usize,
    expected: True2DTransformerShape,
    config: &True2DConfig,
) -> (model: Result<True2DTransformer, CheckpointError>)
    ensures
        match model {
            Ok(m) => read_model_spec(bytes@, *old(cursor) as int, expected, *config) == Ok::<
                _,
                CheckpointError,
            >((m@, *final(cursor) as int)),
            Err(e) => read_model_spec(bytes@, *old(cursor) as int, expected, *config) == Err::<
                ((True2DTransformerShape, Seq<u32>), int),
                _,
            >(e),
        },
{
    let layers = read_usize(bytes, cursor)?;
    let row_count = read_usize(bytes, cursor)?;
    let shape = True2DTransformerShape { layers, row_count };
    if shape.layers != expected.layers || shape.row_count != expected.row_count {
        return Err(CheckpointError::ShapeMismatch);
    }
    let count = read_usize(bytes, cursor)?;
    let words = read_weight_words(bytes, cursor, count)?;
    match True2DTransformer::from_weights(shape, words, config) {
        Ok(m) => Ok(m),
        Err(e) => Err(CheckpointError::ModelInvalid(e)),
    }
}

/// Reads `count` models.
pub fn read_transformer_population(
    bytes: &[u8],
    cursor: &mut usize,
    count: usize,
    expected: True2DTransformerShape,
    config: &True2DConfig,
) -> (population: Result<Vec<True2DTransformer>, CheckpointError>)
    ensures
        match population {
            Ok(p) => read_models_spec(bytes@, *old(cursor) as int, count as nat, expected, *config)
                == Ok::<_, CheckpointError>((models_view(p@), *final(cursor) as int)),
            Err(e) => read_models_spec(bytes@, *old(cursor) as int, count as nat, expected, *config)
                == Err::<(Seq<(True2DTransformerShape, Seq<u32>)>, int), _>(e),
        },
{
    let ghost start = *cursor as int;
    let mut population: Vec<True2DTransformer> = Vec::new();
    proof {
        assert(models_view(population@) =~= Seq::<(True2DTransformerShape, Seq<u32>)>::empty());
    }
    let mut i: usize = 0;
    while i < count
        invariant
            i <= count,
            start == *old(cursor) as int,
            read_models_spec(bytes@, start, i as nat, expected, *config) == Ok::<_, CheckpointError>(
                (models_view(population@), *cursor as int),
            ),
        decreases count - i,
    {
        let model = match read_transformer(bytes, cursor, expected, config) {
            Ok(m) => m,
            Err(e) => {
                proof {
                    lemma_models_error_propagates(bytes@, start, (i + 1) as nat, count as nat, expected, *config);
                }
                return Err(e);
            },
        };
        let ghost before = models_view(population@);
        population.push(model);
        proof {
            assert(models_view(population@) =~= before.push(model@));
        }
        i += 1;
    }
    Ok(population)
}

fn read_champion_archive(
    bytes: &[u8],
    cursor: &mut usize,
    count: usize,
    expected: True2DTransformerShape,
    config: &True2DConfig,
) -> (champions: Result<Vec<GenerationChampion>, CheckpointError>)
    ensures
        match champions {
            Ok(c) => read_champions_spec(bytes@, *old(cursor) as int, count as nat, expected, *config)
                == Ok::<_, CheckpointError>((champions_view(c@), *final(cursor) as int)),
            Err(e) => read_champions_spec(bytes@, *old(cursor) as int, count as nat, expected, *config)
                == Err::<(Seq<(usize, (True2DTransformerShape, Seq<u32>))>, int), _>(e),
        },
{
    let ghost start = *cursor as int;
    let mut champions: Vec<GenerationChampion> = Vec::new();
    proof {
        assert(champions_view(champions@) =~= Seq::<(usize, (True2DTransformerShape, Seq<u32>))>::empty());
    }
    let mut i: usize = 0;
    while i < count
        invariant
            i <= count,
            start == *old(cursor) as int,
            read_champions_spec(bytes@, start, i as nat, expected, *config) == Ok::<
                _,
                CheckpointError,
            >((champions_view(champions@), *cursor as int)),
        decreases count - i,
    {
        let generation = match read_usize(bytes, cursor) {
            Ok(g) => g,
            Err(e) => {
                proof {
                    lemma_champions_error_propagates(bytes@, start, (i + 1) as nat, count as nat, expected, *config);
                }
                return Err(e);
            },
        };
        let model = match read_transformer(bytes, cursor, expected, config) {
            Ok(m) => m,
            Err(e) => {
                proof {
                    lemma_champions_error_propagates(bytes@, start, (i + 1) as nat, count as nat, expected, *config);
                }
                return Err(e);
            },
        };
        let ghost before = champions_view(champions@);
        let champion = GenerationChampion { generation, model };
        let ghost entry = champion@;
        champions.push(champion);
        proof {
            assert(champions_view(champions@) =~= before.push(entry));
        }
        i += 1;
    }
    Ok(champions)
}

/// Fits a population read from a checkpoint to the configured size.
pub fn adapt_checkpoint_population(
    population: Vec<True2DTransformer>,
    population_size: usize,
) -> (adapted: Result<Vec<True2DTransformer>, CheckpointError>)
    ensures
        match adapted {
            Ok(p) => adapt_population_spec(models_view(population@), population_size) == Ok::<
                _,
                CheckpointError,
            >(models_view(p@)),
            Err(e) => adapt_population_spec(models_view(population@), population_size) == Err::<
                Seq<(True2DTransformerShape, Seq<u32>)>,
                _,
            >(e),
        },
{
    let mut population = population;
    if population.len() == population_size {
        return Ok(population);
    }
    if population.len() > population_size {
        let ghost before = population@;
        population.truncate(population_size);
        proof {
            assert(models_view(population@) =~= models_view(before).take(population_size as int));
        }
        return Ok(population);
    }
    Err(CheckpointError::PopulationTooSmall { found: population.len(), expected: population_size })
}

/// Decodes a checkpoint and checks every model against the expected shape.
pub fn decode_trainer_checkpoint(
    bytes: &[u8],
    expected: True2DTransformerShape,
    config: &True2DConfig,
    population_size: usize,
) -> (checkpoint: Result<TrainerCheckpoint, CheckpointError>)
    ensures
        match checkpoint {
            Ok(c) => decode_checkpoint_spec(bytes@, expected, *config, population_size) == Ok::<
                _,
                CheckpointError,
            >(
                (
                    c.run_id@,
                    c.next_generation,
                    models_view(c.population@),
                    champions_view(c.champion_archive@),
                ),
            ),
            Err(e) => decode_checkpoint_spec(bytes@, expected, *config, population_size) == Err::<
                CheckpointView,
                _,
            >(e),
        },
{
    let mut cursor: usize = 0;
    read_magic(bytes, &mut cursor)?;
    let version = read_u32(bytes, &mut cursor)?;
    if version != TRAINER_CHECKPOINT_VERSION {
        return Err(CheckpointError::VersionUnsupported(version));
    }
    let run_id = read_string(bytes, &mut cursor)?;
    let next_generation = read_usize(bytes, &mut cursor)?;
    let count = read_usize(bytes, &mut cursor)?;
    let population = read_transformer_population(bytes, &mut cursor, count, expected, config)?;
    let population = adapt_checkpoint_population(population, population_size)?;
    let champion_count = read_usize(bytes, &mut cursor)?;
    let champion_archive = read_champion_archive(
        bytes,
        &mut cursor,
        champion_count,
        expected,
        config,
    )?;
    if cursor != bytes.len() {
        return Err(CheckpointError::TrailingBytes);
    }
    Ok(TrainerCheckpoint { run_id, next_generation, population, champion_archive })
}

// ---------------------------------------------------------------- round trip

pub(crate) proof fn lemma_split_subrange(b: Seq<u8>, c: int, x: Seq<u8>, y: Seq<u8>)
    requires
        0 <= c,
        c + x.len() + y.len() <= b.len(),
        b.subrange(c, c + x.len() + y.len()) == x + y,
    ensures
        b.subrange(c, c + x.len()) == x,
        b.subrange(c + x.len(), c + x.len() + y.len()) == y,
{
    assert(b.subrange(c, c + x.len()) =~= (x + y).subrange(0, x.len() as int));
    assert(b.subrange(c + x.len(), c + x.len() + y.len()) =~= (x + y).subrange(
        x.len() as int,
        (x.len() + y.len()) as int,
    ));
    assert((x + y).subrange(0, x.len() as int) =~= x);
    assert((x + y).subrange(x.len() as int, (x.len() + y.len()) as int) =~= y);
}

pub(crate) proof fn lemma_read_usize_at(b: Seq<u8>, c: int, v: usize)
    requires
        0 <= c,
        c + 8 <= b.len() <= usize::MAX,
        b.subrange(c, c + 8) == le64(v),
    ensures
        read_usize_spec(b, c) == Ok::<_, CheckpointError>((v, c + 8)),
{
    lemma_auto_spec_u64_to_from_le_bytes();
    assert(spec_u64_from_le_bytes(le64(v)) == v as u64);
}

pub(crate) proof fn lemma_le_lengths(v: usize, w: u32)
    ensures
        le64(v).len() == 8,
        le32(w).len() == 4,
{
    lemma_auto_spec_u64_to_from_le_bytes();
    lemma_auto_spec_u32_to_from_le_bytes();
}

pub(crate) proof fn lemma_words_bytes_len(w: Seq<u32>)
    ensures
        words_bytes(w).len() == 4 * w.len(),
    decreases w.len(),
{
    if w.len() > 0 {
        lemma_words_bytes_len(w.drop_last());
        lemma_le_lengths(0, w.last());
    }
}

pub(crate) proof fn lemma_read_words_at(b: Seq<u8>, c: int, w: Seq<u32>)
    requires
        0 <= c,
        c + words_bytes(w).len() <= b.len() <= usize::MAX,
        b.subrange(c, c + words_bytes(w).len()) == words_bytes(w),
        forall|i: int| 0 <= i < w.len() ==> bits_are_finite(#[trigger] w[i]),
    ensures
        read_words_spec(b, c, w.len()) == Ok::<_, CheckpointError>((w, c + words_bytes(w).len())),
    decreases w.len(),
{
    if w.len() > 0 {
        let prefix = w.drop_last();
        lemma_le_lengths(0, w.last());
        lemma_split_subrange(b, c, words_bytes(prefix), le32(w.last()));
        lemma_read_words_at(b, c, prefix);
        lemma_auto_spec_u32_to_from_le_bytes();
        assert(spec_u32_from_le_bytes(le32(w.last())) == w.last());
        assert(bits_are_finite(w[w.len() - 1]));
        assert(prefix.push(w.last()) =~= w);
    } else {
        assert(w =~= Seq::<u32>::empty());
    }
}

proof fn lemma_models_bytes_len(models: Seq<(True2DTransformerShape, Seq<u32>)>)
    ensures
        models_bytes(models).len() >= models.len(),
    decreases models.len(),
{
    if models.len() > 0 {
        lemma_models_bytes_len(models.drop_last());
        lemma_le_lengths(models.last().0.layers, 0);
    }
}

proof fn lemma_champions_bytes_len(champions: Seq<(usize, (True2DTransformerShape, Seq<u32>))>)
    ensures
        champions_bytes(champions).len() >= champions.len(),
    decreases champions.len(),
{
    if champions.len() > 0 {
        lemma_champions_bytes_len(champions.drop_last());
        lemma_le_lengths(champions.last().0, 0);
    }
}

/// A model that the decoder accepts as it stands.
pub open spec fn model_decodes_to_itself(
    model: (True2DTransformerShape, Seq<u32>),
    expected: True2DTransformerShape,
    config: True2DConfig,
) -> bool {
    &&& model.0 == expected
    &&& from_weights_spec(model.0, model.1, config) == Ok::<_, ModelError>(model.1)
}

proof fn lemma_read_model_at(
    b: Seq<u8>,
    c: int,
    model: (True2DTransformerShape, Seq<u32>),
    expected: True2DTransformerShape,
    config: True2DConfig,
)
    requires
        0 <= c,
        c + model_bytes(model).len() <= b.len() <= usize::MAX,
        b.subrange(c, c + model_bytes(model).len()) == model_bytes(model),
        model_decodes_to_itself(model, expected, config),
        model.1.len() <= usize::MAX,
    ensures
        read_model_spec(b, c, expected, config) == Ok::<_, CheckpointError>(
            (model, c + model_bytes(model).len()),
        ),
{
    let w = model.1;
    lemma_le_lengths(model.0.layers, 0);
    lemma_le_lengths(model.0.row_count, 0);
    lemma_le_lengths(w.len() as usize, 0);
    let a = le64(model.0.layers);
    let r = le64(model.0.row_count);
    let n = le64(w.len() as usize);
    let ws = words_bytes(w);
    assert(model_bytes(model) == a + r + n + ws);
    assert(a + r + n + ws =~= a + (r + (n + ws)));
    lemma_split_subrange(b, c, a, r + (n + ws));
    lemma_split_subrange(b, c + 8, r, n + ws);
    lemma_split_subrange(b, c + 16, n, ws);
    lemma_read_usize_at(b, c, model.0.layers);
    lemma_read_usize_at(b, c + 8, model.0.row_count);
    lemma_read_usize_at(b, c + 16, w.len() as usize);
    assert(forall|i: int| 0 <= i < w.len() ==> bits_are_finite(#[trigger] w[i])) by {
        if exists|i: int| 0 <= i < w.len() && !bits_are_finite(#[trigger] w[i]) {
            assert(crate::shapes::weights_for_model(
                w,
                crate::shapes::true2d_parameter_count(model.0, config),
            ) is None);
        }
    }
    lemma_read_words_at(b, c + 24, w);
    assert(True2DTransformerShape { layers: model.0.layers, row_count: model.0.row_count }
        == model.0);
}

proof fn lemma_read_models_at(
    b: Seq<u8>,
    c: int,
    models: Seq<(True2DTransformerShape, Seq<u32>)>,
    expected: True2DTransformerShape,
    config: True2DConfig,
)
    requires
        0 <= c,
        c + models_bytes(models).len() <= b.len() <= usize::MAX,
        b.subrange(c, c + models_bytes(models).len()) == models_bytes(models),
        forall|i: int|
            0 <= i < models.len() ==> model_decodes_to_itself(#[trigger] models[i], expected, config)
                && models[i].1.len() <= usize::MAX,
    ensures
        read_models_spec(b, c, models.len(), expected, config) == Ok::<_, CheckpointError>(
            (models, c + models_bytes(models).len()),
        ),
    decreases models.len(),
{
    if models.len() > 0 {
        let prefix = models.drop_last();
        let last = models.last();
        lemma_split_subrange(b, c, models_bytes(prefix), model_bytes(last));
        assert forall|i: int|
            0 <= i < prefix.len() implies model_decodes_to_itself(#[trigger] prefix[i], expected, config)
            && prefix[i].1.len() <= usize::MAX by {
            assert(prefix[i] == models[i]);
        }
        lemma_read_models_at(b, c, prefix, expected, config);
        assert(models[models.len() - 1] == last);
        lemma_read_model_at(b, c + models_bytes(prefix).len(), last, expected, config);
        assert(prefix.push(last) =~= models);
    } else {
        assert(models =~= Seq::<(True2DTransformerShape, Seq<u32>)>::empty());
    }
}

proof fn lemma_read_champions_at(
    b: Seq<u8>,
    c: int,
    champions: Seq<(usize, (True2DTransformerShape, Seq<u32>))>,
    expected: True2DTransformerShape,
    config: True2DConfig,
)
    requires
        0 <= c,
        c + champions_bytes(champions).len() <= b.len() <= usize::MAX,
        b.subrange(c, c + champions_bytes(champions).len()) == champions_bytes(champions),
        forall|i: int|
            0 <= i < champions.len() ==> model_decodes_to_itself(
                #[trigger] champions[i].1,
                expected,
                config,
            ) && champions[i].1.1.len() <= usize::MAX,
    ensures
        read_champions_spec(b, c, champions.len(), expected, config) == Ok::<_, CheckpointError>(
            (champions, c + champions_bytes(champions).len()),
        ),
    decreases champions.len(),
{
    if champions.len() > 0 {
        let prefix = champions.drop_last();
        let last = champions.last();
        lemma_le_lengths(last.0, 0);
        assert(champions_bytes(champions) =~= champions_bytes(prefix) + (le64(last.0)
            + model_bytes(last.1)));
        lemma_split_subrange(b, c, champions_bytes(prefix), le64(last.0) + model_bytes(last.1));
        let mid = c + champions_bytes(prefix).len();
        lemma_split_subrange(b, mid, le64(last.0), model_bytes(last.1));
        assert forall|i: int|
            0 <= i < prefix.len() implies model_decodes_to_itself(
                #[trigger] prefix[i].1,
                expected,
                config,
            ) && prefix[i].1.1.len() <= usize::MAX by {
            assert(prefix[i] == champions[i]);
        }
        lemma_read_champions_at(b, c, prefix, expected, config);
        lemma_read_usize_at(b, mid, last.0);
        assert(champions[champions.len() - 1] == last);
        lemma_read_model_at(b, mid + 8, last.1, expected, config);
        assert(prefix.push(last) =~= champions);
    } else {
        assert(champions =~= Seq::<(usize, (True2DTransformerShape, Seq<u32>))>::empty());
    }
}

/// Decoding the bytes of a checkpoint gives back that checkpoint, whenever its run
/// id is UTF-8, its population has the configured size and every model has the
/// expected shape and weights that the model builder keeps as they are.
#[verifier::spinoff_prover]
pub proof fn law_checkpoint_round_trip(
    run_id: Seq<u8>,
    next_generation: usize,
    population: Seq<(True2DTransformerShape, Seq<u32>)>,
    champions: Seq<(usize, (True2DTransformerShape, Seq<u32>))>,
    expected: True2DTransformerShape,
    config: True2DConfig,
)
    requires
        valid_utf8(run_id),
        forall|i: int|
            0 <= i < population.len() ==> model_decodes_to_itself(
                #[trigger] population[i],
                expected,
                config,
            ) && population[i].1.len() <= usize::MAX,
        forall|i: int|
            0 <= i < champions.len() ==> model_decodes_to_itself(
                #[trigger] champions[i].1,
                expected,
                config,
            ) && champions[i].1.1.len() <= usize::MAX,
        checkpoint_bytes(run_id, next_generation, population, champions).len() <= usize::MAX,
    ensures
        decode_checkpoint_spec(
            checkpoint_bytes(run_id, next_generation, population, champions),
            expected,
            config,
            population.len() as usize,
        ) == Ok::<_, CheckpointError>((run_id, next_generation, population, champions)),
{
    let b = checkpoint_bytes(run_id, next_generation, population, champions);
    lemma_le_lengths(run_id.len() as usize, TRAINER_CHECKPOINT_VERSION);
    lemma_le_lengths(next_generation, 0);
    lemma_le_lengths(population.len() as usize, 0);
    lemma_le_lengths(champions.len() as usize, 0);
    reveal_strlit("OWTRAIN1");
    vstd::string::is_ascii_spec_bytes("OWTRAIN1");
    let m = checkpoint_magic();
    assert(m.len() == 8);
    let v = le32(TRAINER_CHECKPOINT_VERSION);
    let l = le64(run_id.len() as usize);
    let g = le64(next_generation);
    let pc = le64(population.len() as usize);
    let pb = models_bytes(population);
    let cc = le64(champions.len() as usize);
    let cb = champions_bytes(champions);
    assert(b =~= m + v + l + run_id + g + pc + pb + cc + cb);
    // Positions of the parts.
    let c1 = 8int;
    let c2 = c1 + 4;
    let c3 = c2 + 8 + run_id.len();
    let c4 = c3 + 8;
    let c5 = c4 + 8;
    let c6 = c5 + pb.len();
    let c7 = c6 + 8;
    assert(b.subrange(0, 8) =~= m);
    assert(b.subrange(c1, c2) =~= v);
    assert(b.subrange(c2, c2 + 8) =~= l);
    assert(b.subrange(c2 + 8, c3) =~= run_id);
    assert(b.subrange(c3, c4) =~= g);
    assert(b.subrange(c4, c5) =~= pc);
    assert(b.subrange(c5, c6) =~= pb);
    assert(b.subrange(c6, c7) =~= cc);
    assert(b.subrange(c7, c7 + cb.len()) =~= cb);
    assert(c7 + cb.len() == b.len());
    lemma_auto_spec_u32_to_from_le_bytes();
    assert(spec_u32_from_le_bytes(v) == TRAINER_CHECKPOINT_VERSION);
    lemma_read_usize_at(b, c2, run_id.len() as usize);
    lemma_read_usize_at(b, c3, next_generation);
    lemma_read_usize_at(b, c4, population.len() as usize);
    lemma_read_models_at(b, c5, population, expected, config);
    lemma_read_usize_at(b, c6, champions.len() as usize);
    lemma_read_champions_at(b, c7, champions, expected, config);
    lemma_models_bytes_len(population);
    lemma_champions_bytes_len(champions);
    assert(read_bytes_spec(b, 0, 8) == Ok::<_, CheckpointError>((m, c1)));
    assert(read_u32_spec(b, c1) == Ok::<_, CheckpointError>((TRAINER_CHECKPOINT_VERSION, c2)));
    assert(read_string_spec(b, c2) == Ok::<_, CheckpointError>((run_id, c3)));
    assert(read_models_spec(b, c5, population.len(), expected, config) == Ok::<_, CheckpointError>(
        (population, c6),
    ));
    assert(adapt_population_spec(population, population.len() as usize) == Ok::<_, CheckpointError>(
        population,
    ));
    assert(decode_after_population(b, c6, run_id, next_generation, population, expected, config)
        == Ok::<_, CheckpointError>((run_id, next_generation, population, champions)));
}

/// Resuming with a smaller population keeps the checkpoint's first models, in order;
/// the same size keeps them all; a larger size is refused with both sizes.
pub proof fn law_adapted_population_is_the_leading_models(
    population: Seq<(True2DTransformerShape, Seq<u32>)>,
    population_size: usize,
)
    ensures
        population.len() >= population_size ==> ({
            let adapted = adapt_population_spec(population, population_size);
            &&& adapted is Ok
            &&& adapted->Ok_0.len() == population_size
            &&& forall|i: int| 0 <= i < population_size ==> #[trigger] adapted->Ok_0[i] == population[i]
        }),
        population.len() < population_size ==> adapt_population_spec(population, population_size)
            == Err::<Seq<(True2DTransformerShape, Seq<u32>)>, CheckpointError>(
            CheckpointError::PopulationTooSmall {
                found: population.len() as usize,
                expected: population_size,
            },
        ),
{
}

} // verus!
