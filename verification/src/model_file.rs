//! The model files the agent loads: a text header that names a seeded model, or a
//! binary file with the trained weights.
use vstd::prelude::*;
use vstd::slice::slice_subrange;
use vstd::string::StringSliceAdditionalSpecFns;
use vstd::utf8::valid_utf8;

use crate::artifact::{bits_are_finite, literal_bytes};
use crate::checkpoint::{
    lemma_le_lengths, lemma_read_usize_at, lemma_read_words_at, lemma_split_subrange,
    lemma_words_bytes_len, le64, model_bytes, push_transformer, read_usize, read_usize_spec, read_weight_words,
    read_words_spec, words_bytes,
};
use crate::json::{
    lemma_trimmed_subrange, trim_end_index, trim_end_to, trim_start_from, trim_start_index, trimmed,
};
use crate::text::{utf8_is_valid, bytes_equal, parse_u64_bytes, parse_u64_spec, parse_usize_bytes, parse_usize_spec};
use crate::shapes::{
    from_weights_spec, true2d_config_is_valid, true2d_parameter_count, true2d_shape_is_valid,
    ModelError, True2DConfig, True2DTransformer, True2DTransformerShape,
};

verus! {

/// The first bytes of a binary model file.
pub open spec fn binary_model_magic() -> Seq<u8> {
    "ORBIT_WARS_TRUE2D_BIN_V1\n".spec_bytes()
}

fn binary_model_magic_bytes() -> (magic: &'static [u8])
    ensures
        magic@ == binary_model_magic(),
        magic@.len() == 25,
{
    proof {
        reveal_strlit("ORBIT_WARS_TRUE2D_BIN_V1\n");
    }
    literal_bytes("ORBIT_WARS_TRUE2D_BIN_V1\n")
}

/// What a binary model file decodes to: after the magic, the layer count, the row
/// count and the weight count as little-endian `u64`, then exactly that many finite
/// `f32` weights.
pub open spec fn binary_model_spec(bytes: Seq<u8>, config: True2DConfig) -> Result<
    (True2DTransformerShape, Seq<u32>),
    ModelError,
> {
    match read_usize_spec(bytes, binary_model_magic().len() as int) {
        Err(_) => Err(ModelError::InvalidParameter),
        Ok((layers, c1)) => match read_usize_spec(bytes, c1) {
            Err(_) => Err(ModelError::InvalidParameter),
            Ok((row_count, c2)) => match read_usize_spec(bytes, c2) {
                Err(_) => Err(ModelError::InvalidParameter),
                Ok((count, c3)) => {
                    let shape = True2DTransformerShape { layers, row_count };
                    if !true2d_shape_is_valid(shape, config) || !true2d_config_is_valid(config)
                        || true2d_parameter_count(shape, config) > usize::MAX {
                        Err(ModelError::InvalidParameter)
                    } else if count != true2d_parameter_count(shape, config) {
                        Err(ModelError::InvalidWeightCount)
                    } else if c3 + count * 4 > usize::MAX || bytes.len() != c3 + count * 4 {
                        Err(ModelError::InvalidWeightCount)
                    } else {
                        match read_words_spec(bytes, c3, count as nat) {
                            Err(_) => Err(ModelError::InvalidWeightCount),
                            Ok((words, _)) => match from_weights_spec(shape, words, config) {
                                Ok(weights) => Ok((shape, weights)),
                                Err(e) => Err(e),
                            },
                        }
                    }
                },
            },
        },
    }
}

/// Reads the little-endian `u64` at the cursor as a `usize`; `InvalidParameter` when
/// the bytes run out or the value does not fit.
pub fn read_u64_as_usize(model_bytes: &[u8], cursor: &mut usize) -> (value: Result<usize, ModelError>)
    ensures
        match value {
            Ok(v) => read_usize_spec(model_bytes@, *old(cursor) as int) == Ok::<
                _,
                crate::checkpoint::CheckpointError,
            >((v, *final(cursor) as int)),
            Err(e) => e == ModelError::InvalidParameter && read_usize_spec(
                model_bytes@,
                *old(cursor) as int,
            ) is Err && *final(cursor) == crate::checkpoint::cursor_after(
                model_bytes@,
                *old(cursor) as int,
                8,
            ),
        },
{
    match read_usize(model_bytes, cursor) {
        Ok(v) => Ok(v),
        Err(_) => Err(ModelError::InvalidParameter),
    }
}

/// Decodes a binary model file (magic already recognised).
pub fn from_binary_true2d_model_bytes(model_bytes: &[u8], config: &True2DConfig) -> (model: Result<
    True2DTransformer,
    ModelError,
>)
    requires
        model_bytes@.len() >= 25,
    ensures
        match model {
            Ok(m) => binary_model_spec(model_bytes@, *config) == Ok::<_, ModelError>(m@),
            Err(e) => binary_model_spec(model_bytes@, *config) == Err::<
                (True2DTransformerShape, Seq<u32>),
                _,
            >(e),
        },
{
    let magic = binary_model_magic_bytes();
    let mut cursor: usize = magic.len();
    let layers = match read_u64_as_usize(model_bytes, &mut cursor) {
        Ok(v) => v,
        Err(e) => {
            return Err(e);
        },
    };
    let row_count = match read_u64_as_usize(model_bytes, &mut cursor) {
        Ok(v) => v,
        Err(e) => {
            return Err(e);
        },
    };
    let weight_count = match read_u64_as_usize(model_bytes, &mut cursor) {
        Ok(v) => v,
        Err(e) => {
            return Err(e);
        },
    };
    let shape = True2DTransformerShape { layers, row_count };
    let expected_weight_count = match shape.parameter_count(config) {
        Ok(n) => n,
        Err(e) => {
            return Err(e);
        },
    };
    if weight_count != expected_weight_count {
        return Err(ModelError::InvalidWeightCount);
    }
    let weight_bytes = match weight_count.checked_mul(4) {
        Some(n) => n,
        None => {
            return Err(ModelError::InvalidWeightCount);
        },
    };
    let expected_byte_count = match cursor.checked_add(weight_bytes) {
        Some(n) => n,
        None => {
            return Err(ModelError::InvalidWeightCount);
        },
    };
    if model_bytes.len() != expected_byte_count {
        return Err(ModelError::InvalidWeightCount);
    }
    let weights = match read_weight_words(model_bytes, &mut cursor, weight_count) {
        Ok(w) => w,
        Err(_) => {
            return Err(ModelError::InvalidWeightCount);
        },
    };
    match True2DTransformer::from_weights(shape, weights, config) {
        Ok(m) => Ok(m),
        Err(e) => Err(e),
    }
}

/// The bytes of a binary model file: the magic, then the model as the checkpoint
/// stores it.
pub open spec fn binary_model_bytes(model: (True2DTransformerShape, Seq<u32>)) -> Seq<u8> {
    binary_model_magic() + model_bytes(model)
}

/// A model that can be written: valid shape and configuration, the full weight count,
/// and finite weights.
pub open spec fn model_is_writable(model: (True2DTransformerShape, Seq<u32>), config: True2DConfig) -> bool {
    &&& true2d_shape_is_valid(model.0, config)
    &&& true2d_config_is_valid(config)
    &&& true2d_parameter_count(model.0, config) <= usize::MAX
    &&& model.1.len() == true2d_parameter_count(model.0, config)
    &&& forall|i: int| 0 <= i < model.1.len() ==> bits_are_finite(#[trigger] model.1[i])
}

/// Writes a trained model as a binary model file.
pub fn true2d_model_binary_bytes(model: &True2DTransformer, config: &True2DConfig) -> (bytes: Result<
    Vec<u8>,
    ModelError,
>)
    ensures
        match bytes {
            Ok(b) => model_is_writable(model@, *config) && b@ == binary_model_bytes(model@),
            Err(e) => !model_is_writable(model@, *config) && (e == ModelError::InvalidParameter
                || e == ModelError::InvalidWeightCount),
        },
{
    let expected_weight_count = match model.shape.parameter_count(config) {
        Ok(n) => n,
        Err(e) => {
            return Err(e);
        },
    };
    if model.weights.len() != expected_weight_count {
        return Err(ModelError::InvalidWeightCount);
    }
    let mut i: usize = 0;
    while i < model.weights.len()
        invariant
            i <= model.weights.len(),
            forall|j: int| 0 <= j < i ==> bits_are_finite(#[trigger] model.weights@[j]),
        decreases model.weights.len() - i,
    {
        if (model.weights[i] >> 23u32) & 0xffu32 == 0xffu32 {
            proof {
                assert(!bits_are_finite(model.weights@[i as int]));
            }
            return Err(ModelError::InvalidWeightCount);
        }
        i += 1;
    }
    let magic = binary_model_magic_bytes();
    let mut bytes: Vec<u8> = Vec::new();
    let mut k: usize = 0;
    while k < magic.len()
        invariant
            k <= magic.len(),
            bytes@ == magic@.take(k as int),
        decreases magic.len() - k,
    {
        bytes.push(magic[k]);
        proof {
            assert(bytes@ =~= magic@.take(k + 1));
        }
        k += 1;
    }
    proof {
        assert(magic@.take(magic@.len() as int) =~= magic@);
    }
    push_transformer(&mut bytes, model);
    Ok(bytes)
}

/// A written model reads back as the same model.
pub proof fn law_binary_model_round_trip(model: (True2DTransformerShape, Seq<u32>), config: True2DConfig)
    requires
        model_is_writable(model, config),
        binary_model_bytes(model).len() <= usize::MAX,
    ensures
        binary_model_spec(binary_model_bytes(model), config) == Ok::<_, ModelError>(model),
{
    reveal_strlit("ORBIT_WARS_TRUE2D_BIN_V1\n");
    vstd::string::is_ascii_spec_bytes("ORBIT_WARS_TRUE2D_BIN_V1\n");
    let b = binary_model_bytes(model);
    let magic = binary_model_magic();
    let w = model.1;
    lemma_le_lengths(model.0.layers, 0);
    lemma_le_lengths(model.0.row_count, 0);
    lemma_le_lengths(w.len() as usize, 0);
    lemma_words_bytes_len(w);
    let a = le64(model.0.layers);
    let r = le64(model.0.row_count);
    let n = le64(w.len() as usize);
    let ws = words_bytes(w);
    assert(magic.len() == 25);
    assert(b =~= magic + (a + (r + (n + ws))));
    assert(b.subrange(25, b.len() as int) =~= a + (r + (n + ws)));
    lemma_split_subrange(b, 25, a, r + (n + ws));
    lemma_split_subrange(b, 33, r, n + ws);
    lemma_split_subrange(b, 41, n, ws);
    lemma_read_usize_at(b, 25, model.0.layers);
    lemma_read_usize_at(b, 33, model.0.row_count);
    lemma_read_usize_at(b, 41, w.len() as usize);
    lemma_read_words_at(b, 49, w);
    assert(True2DTransformerShape { layers: model.0.layers, row_count: model.0.row_count }
        == model.0);
    assert(!(exists|i: int| 0 <= i < w.len() && !bits_are_finite(#[trigger] w[i])));
    assert(from_weights_spec(model.0, w, config) == Ok::<_, ModelError>(w));
}

pub const DEFAULT_D_MODEL: usize = 32;

pub const DEFAULT_HEADS: usize = 4;

pub const DEFAULT_SEED: u64 = 17;

/// What a text model file asks for: a seeded model of this size.
#[derive(Clone, Copy, Debug, PartialEq, Eq, Structural)]
pub struct TextModelHeader {
    pub layers: usize,
    pub d_model: usize,
    pub heads: usize,
    pub seed: u64,
}

pub open spec fn text_model_magic() -> Seq<u8> {
    "ORBIT_WARS_MODEL_V1".spec_bytes()
}

pub open spec fn text_model_mode() -> Seq<u8> {
    "true_2d_pair_matrix_transformer".spec_bytes()
}

/// The first `byte` in `s[from..end]`, or `end`.
pub open spec fn first_in_range(s: Seq<u8>, byte: u8, from: int, end: int) -> int
    decreases end - from,
{
    if from >= end {
        end
    } else if s[from] == byte {
        from
    } else {
        first_in_range(s, byte, from + 1, end)
    }
}

pub proof fn lemma_first_in_range_bounds(s: Seq<u8>, byte: u8, from: int, end: int)
    requires
        from <= end,
    ensures
        from <= first_in_range(s, byte, from, end) <= end,
    decreases end - from,
{
    if from < end && s[from] != byte {
        lemma_first_in_range_bounds(s, byte, from + 1, end);
    }
}

fn first_in_range_exec(s: &[u8], byte: u8, from: usize, end: usize) -> (found: usize)
    requires
        from <= end <= s.len(),
    ensures
        found == first_in_range(s@, byte, from as int, end as int),
        from <= found <= end,
{
    let mut i = from;
    while i < end
        invariant
            from <= i <= end <= s.len(),
            first_in_range(s@, byte, i as int, end as int) == first_in_range(
                s@,
                byte,
                from as int,
                end as int,
            ),
        decreases end - i,
    {
        if s[i] == byte {
            return i;
        }
        i += 1;
    }
    i
}

/// Where the line that starts at `start` ends: the next line feed, or the end of the text.
pub open spec fn line_break_from(s: Seq<u8>, start: int) -> int {
    first_in_range(s, 10u8, start, s.len() as int)
}

/// The end of a line's text: a carriage return before the line feed is not part of it.
pub open spec fn line_content_end(s: Seq<u8>, start: int, line_break: int) -> int {
    if line_break < s.len() && line_break > start && s[line_break - 1] == 13 {
        line_break - 1
    } else {
        line_break
    }
}

/// One `key=value` line of the header applied to the fields read so far; blank lines
/// change nothing.
pub open spec fn header_line_update(
    s: Seq<u8>,
    start: int,
    end: int,
    fields: (TextModelHeader, bool),
) -> Result<(TextModelHeader, bool), ModelError> {
    let first = trim_start_from(s, start, end);
    let last = trim_end_to(s, first, end);
    if first == last {
        Ok(fields)
    } else {
        let equals = first_in_range(s, 61u8, first, last);
        if equals == last {
            Err(ModelError::InvalidParameter)
        } else {
            let key = trimmed(s, first, equals);
            let value = trimmed(s, equals + 1, last);
            let header = fields.0;
            if key == "layers".spec_bytes() {
                match parse_usize_spec(value) {
                    Some(v) => Ok((TextModelHeader { layers: v, ..header }, fields.1)),
                    None => Err(ModelError::InvalidParameter),
                }
            } else if key == "d_model".spec_bytes() {
                match parse_usize_spec(value) {
                    Some(v) => Ok((TextModelHeader { d_model: v, ..header }, fields.1)),
                    None => Err(ModelError::InvalidParameter),
                }
            } else if key == "heads".spec_bytes() {
                match parse_usize_spec(value) {
                    Some(v) => Ok((TextModelHeader { heads: v, ..header }, fields.1)),
                    None => Err(ModelError::InvalidParameter),
                }
            } else if key == "seed".spec_bytes() {
                match parse_u64_spec(value) {
                    Some(v) => Ok((TextModelHeader { seed: v, ..header }, fields.1)),
                    None => Err(ModelError::InvalidParameter),
                }
            } else if key == "mode".spec_bytes() {
                if value == text_model_mode() {
                    Ok((header, true))
                } else {
                    Err(ModelError::InvalidParameter)
                }
            } else {
                Err(ModelError::InvalidParameter)
            }
        }
    }
}

/// The header lines from `start` on, applied in order.
pub open spec fn header_fields_from(s: Seq<u8>, start: int, fields: (TextModelHeader, bool)) -> Result<
    (TextModelHeader, bool),
    ModelError,
>
    decreases s.len() + 1 - start,
    via header_fields_decreases
{
    if start < 0 || start >= s.len() {
        Ok(fields)
    } else {
        let line_break = line_break_from(s, start);
        match header_line_update(s, start, line_content_end(s, start, line_break), fields) {
            Err(e) => Err(e),
            Ok(next) => header_fields_from(s, line_break + 1, next),
        }
    }
}

#[via_fn]
proof fn header_fields_decreases(s: Seq<u8>, start: int, fields: (TextModelHeader, bool)) {
    if !(start < 0 || start >= s.len()) {
        lemma_first_in_range_bounds(s, 10u8, start, s.len() as int);
    }
}

pub open spec fn text_header_is_valid(
    header: TextModelHeader,
    limits: crate::shapes::ModelWidthLimits,
) -> bool {
    &&& header.layers != 0
    &&& header.heads != 0
    &&& limits.d_model_min <= header.d_model <= limits.d_model_max
    &&& header.d_model % header.heads == 0
}

/// What a text model file asks for: its first line, trimmed, is the magic, then come
/// `key=value` lines; the mode line is required and the sizes must be valid.
pub open spec fn text_model_spec(
    s: Seq<u8>,
    default_layers: usize,
    limits: crate::shapes::ModelWidthLimits,
) -> Result<TextModelHeader, ModelError> {
    let line_break = line_break_from(s, 0);
    if trimmed(s, 0, line_content_end(s, 0, line_break)) != text_model_magic() {
        Err(ModelError::InvalidMagic)
    } else {
        let defaults = TextModelHeader {
            layers: default_layers,
            d_model: DEFAULT_D_MODEL,
            heads: DEFAULT_HEADS,
            seed: DEFAULT_SEED,
        };
        text_model_finish(header_fields_from(s, line_break + 1, (defaults, false)), limits)
    }
}

/// The header once all lines are read: the mode line is required and the sizes must
/// be valid.
pub open spec fn text_model_finish(
    fields: Result<(TextModelHeader, bool), ModelError>,
    limits: crate::shapes::ModelWidthLimits,
) -> Result<TextModelHeader, ModelError> {
    match fields {
        Err(e) => Err(e),
        Ok((header, mode_seen)) => if mode_seen && text_header_is_valid(header, limits) {
            Ok(header)
        } else {
            Err(ModelError::InvalidParameter)
        },
    }
}

/// A header value read as a `usize`, surrounding white space ignored.
pub fn parse_usize(value: &[u8]) -> (parsed: Result<usize, ModelError>)
    ensures
        parsed == match parse_usize_spec(trimmed(value@, 0, value@.len() as int)) {
            Some(v) => Ok::<usize, ModelError>(v),
            None => Err(ModelError::InvalidParameter),
        },
{
    let first = trim_start_index(value, 0, value.len());
    let last = trim_end_index(value, first, value.len());
    match parse_usize_bytes(slice_subrange(value, first, last)) {
        Some(v) => Ok(v),
        None => Err(ModelError::InvalidParameter),
    }
}

/// A header value read as a `u64`, surrounding white space ignored.
pub fn parse_u64(value: &[u8]) -> (parsed: Result<u64, ModelError>)
    ensures
        parsed == match parse_u64_spec(trimmed(value@, 0, value@.len() as int)) {
            Some(v) => Ok::<u64, ModelError>(v),
            None => Err(ModelError::InvalidParameter),
        },
{
    let first = trim_start_index(value, 0, value.len());
    let last = trim_end_index(value, first, value.len());
    match parse_u64_bytes(slice_subrange(value, first, last)) {
        Some(v) => Ok(v),
        None => Err(ModelError::InvalidParameter),
    }
}

fn range_equals(s: &[u8], start: usize, end: usize, expected: &[u8]) -> (equal: bool)
    requires
        start <= end <= s.len(),
    ensures
        equal == (s@.subrange(start as int, end as int) == expected@),
{
    bytes_equal(slice_subrange(s, start, end), expected)
}

fn apply_header_line(s: &[u8], start: usize, end: usize, fields: (TextModelHeader, bool)) -> (next: Result<
    (TextModelHeader, bool),
    ModelError,
>)
    requires
        start <= end <= s.len(),
    ensures
        next == header_line_update(s@, start as int, end as int, fields),
{
    proof {
        reveal_strlit("layers");
        reveal_strlit("d_model");
        reveal_strlit("heads");
        reveal_strlit("seed");
        reveal_strlit("mode");
        reveal_strlit("true_2d_pair_matrix_transformer");
    }
    let first = trim_start_index(s, start, end);
    let last = trim_end_index(s, first, end);
    if first == last {
        return Ok(fields);
    }
    let equals = first_in_range_exec(s, 61u8, first, last);
    if equals == last {
        return Err(ModelError::InvalidParameter);
    }
    let key_start = trim_start_index(s, first, equals);
    let key_end = trim_end_index(s, key_start, equals);
    let value_start = trim_start_index(s, equals + 1, last);
    let value_end = trim_end_index(s, value_start, last);
    let value = slice_subrange(s, equals + 1, last);
    proof {
        lemma_trimmed_subrange(s@, equals + 1, last as int);
        assert(value@ =~= s@.subrange(equals + 1, last as int));
    }
    let header = fields.0;
    if range_equals(s, key_start, key_end, literal_bytes("layers")) {
        match parse_usize(value) {
            Ok(v) => Ok((TextModelHeader { layers: v, ..header }, fields.1)),
            Err(e) => Err(e),
        }
    } else if range_equals(s, key_start, key_end, literal_bytes("d_model")) {
        match parse_usize(value) {
            Ok(v) => Ok((TextModelHeader { d_model: v, ..header }, fields.1)),
            Err(e) => Err(e),
        }
    } else if range_equals(s, key_start, key_end, literal_bytes("heads")) {
        match parse_usize(value) {
            Ok(v) => Ok((TextModelHeader { heads: v, ..header }, fields.1)),
            Err(e) => Err(e),
        }
    } else if range_equals(s, key_start, key_end, literal_bytes("seed")) {
        match parse_u64(value) {
            Ok(v) => Ok((TextModelHeader { seed: v, ..header }, fields.1)),
            Err(e) => Err(e),
        }
    } else if range_equals(s, key_start, key_end, literal_bytes("mode")) {
        if range_equals(s, value_start, value_end, literal_bytes("true_2d_pair_matrix_transformer")) {
            Ok((header, true))
        } else {
            Err(ModelError::InvalidParameter)
        }
    } else {
        Err(ModelError::InvalidParameter)
    }
}

fn line_content_end_exec(s: &[u8], start: usize, line_break: usize) -> (end: usize)
    requires
        start <= line_break <= s.len(),
    ensures
        end == line_content_end(s@, start as int, line_break as int),
        start <= end <= line_break,
{
    if line_break < s.len() && line_break > start && s[line_break - 1] == 13 {
        line_break - 1
    } else {
        line_break
    }
}

/// Parses a text model file (UTF-8 already checked).
pub fn parse_text_model_header(
    model_bytes: &[u8],
    default_layers: usize,
    limits: &crate::shapes::ModelWidthLimits,
) -> (header: Result<TextModelHeader, ModelError>)
    ensures
        header == text_model_spec(model_bytes@, default_layers, *limits),
{
    proof {
        reveal_strlit("ORBIT_WARS_MODEL_V1");
    }
    let first_break = first_in_range_exec(model_bytes, 10u8, 0, model_bytes.len());
    let first_end = line_content_end_exec(model_bytes, 0, first_break);
    let magic_start = trim_start_index(model_bytes, 0, first_end);
    let magic_end = trim_end_index(model_bytes, magic_start, first_end);
    if !range_equals(model_bytes, magic_start, magic_end, literal_bytes("ORBIT_WARS_MODEL_V1")) {
        return Err(ModelError::InvalidMagic);
    }
    let defaults = TextModelHeader {
        layers: default_layers,
        d_model: DEFAULT_D_MODEL,
        heads: DEFAULT_HEADS,
        seed: DEFAULT_SEED,
    };
    let mut fields = (defaults, false);
    let mut start = if first_break < model_bytes.len() {
        first_break + 1
    } else {
        model_bytes.len()
    };
    assert(text_model_spec(model_bytes@, default_layers, *limits) == text_model_finish(
        header_fields_from(model_bytes@, start as int, fields),
        *limits,
    ));
    while start < model_bytes.len()
        invariant
            start <= model_bytes.len(),
            text_model_spec(model_bytes@, default_layers, *limits) == text_model_finish(
                header_fields_from(model_bytes@, start as int, fields),
                *limits,
            ),
        decreases model_bytes.len() - start,
    {
        let line_break = first_in_range_exec(model_bytes, 10u8, start, model_bytes.len());
        let end = line_content_end_exec(model_bytes, start, line_break);
        fields = match apply_header_line(model_bytes, start, end, fields) {
            Ok(next) => next,
            Err(e) => {
                return Err(e);
            },
        };
        proof {
            assert(header_fields_from(model_bytes@, line_break + 1, fields) == header_fields_from(
                model_bytes@,
                if line_break < model_bytes.len() {
                    line_break + 1
                } else {
                    model_bytes.len() as int
                },
                fields,
            ));
        }
        start = if line_break < model_bytes.len() {
            line_break + 1
        } else {
            model_bytes.len()
        };
    }
    let header = fields.0;
    if !fields.1 || header.layers == 0 || header.heads == 0 || header.d_model < limits.d_model_min
        || header.d_model > limits.d_model_max || header.d_model % header.heads != 0 {
        return Err(ModelError::InvalidParameter);
    }
    Ok(header)
}

/// What a model file holds: the size and seed of a generated model, or trained weights.
#[derive(Clone, Debug)]
pub enum ModelSource {
    Seeded(TextModelHeader),
    Trained(True2DTransformer),
}

/// A model file's content as values.
pub enum ModelSourceView {
    Seeded(TextModelHeader),
    Trained((True2DTransformerShape, Seq<u32>)),
}

impl View for ModelSource {
    type V = ModelSourceView;

    open spec fn view(&self) -> ModelSourceView {
        match self {
            ModelSource::Seeded(header) => ModelSourceView::Seeded(*header),
            ModelSource::Trained(model) => ModelSourceView::Trained(model@),
        }
    }
}

/// What loading a model file gives: an empty file is refused, a file that starts with
/// the binary magic holds weights, any other file must be a UTF-8 text header.
pub open spec fn model_source_spec(
    bytes: Seq<u8>,
    default_layers: usize,
    limits: crate::shapes::ModelWidthLimits,
    config: True2DConfig,
) -> Result<ModelSourceView, ModelError> {
    if bytes.len() == 0 {
        Err(ModelError::EmptyModel)
    } else if binary_model_magic().len() <= bytes.len() && bytes.take(
        binary_model_magic().len() as int,
    ) == binary_model_magic() {
        match binary_model_spec(bytes, config) {
            Ok(model) => Ok(ModelSourceView::Trained(model)),
            Err(e) => Err(e),
        }
    } else if !valid_utf8(bytes) {
        Err(ModelError::InvalidUtf8)
    } else {
        match text_model_spec(bytes, default_layers, limits) {
            Ok(header) => Ok(ModelSourceView::Seeded(header)),
            Err(e) => Err(e),
        }
    }
}

/// Reads a model file.
pub fn from_model_bytes(
    model_bytes: &[u8],
    default_layers: usize,
    limits: &crate::shapes::ModelWidthLimits,
    config: &True2DConfig,
) -> (source: Result<ModelSource, ModelError>)
    ensures
        match source {
            Ok(s) => model_source_spec(model_bytes@, default_layers, *limits, *config) == Ok::<
                _,
                ModelError,
            >(s@),
            Err(e) => model_source_spec(model_bytes@, default_layers, *limits, *config) == Err::<
                ModelSourceView,
                _,
            >(e),
        },
{
    if model_bytes.len() == 0 {
        return Err(ModelError::EmptyModel);
    }
    let magic = binary_model_magic_bytes();
    if magic.len() <= model_bytes.len() && range_equals(model_bytes, 0, magic.len(), magic) {
        proof {
            assert(model_bytes@.subrange(0, magic@.len() as int) =~= model_bytes@.take(
                magic@.len() as int,
            ));
        }
        return match from_binary_true2d_model_bytes(model_bytes, config) {
            Ok(model) => Ok(ModelSource::Trained(model)),
            Err(e) => Err(e),
        };
    }
    proof {
        if magic@.len() <= model_bytes@.len() {
            assert(model_bytes@.subrange(0, magic@.len() as int) =~= model_bytes@.take(
                magic@.len() as int,
            ));
        }
    }
    if !utf8_is_valid(model_bytes) {
        return Err(ModelError::InvalidUtf8);
    }
    match parse_text_model_header(model_bytes, default_layers, limits) {
        Ok(header) => Ok(ModelSource::Seeded(header)),
        Err(e) => Err(e),
    }
}

} // verus!
