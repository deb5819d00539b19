//! The `OWV8` model artifact: a 16-byte frame, a compact JSON header that
//! describes the network and its tensors, and a little-endian `f32` payload.
//!
//! Tensor values are kept as their IEEE-754 bit patterns; the caller turns
//! them into floats with `f32::from_bits`.
use vstd::bytes::{spec_u32_from_le_bytes, u32_from_le_bytes};
use vstd::prelude::*;
use vstd::slice::slice_subrange;
use vstd::string::{is_ascii, StringSliceAdditionalSpecFns};
use vstd::utf8::valid_utf8;

use crate::text::{
    copy_range, find_byte_from, find_bytes_from, find_from, first_byte_from, is_digit,
    last_byte_before, parse_usize_bytes, parse_usize_spec, rfind_byte_before, utf8_is_valid,
};

verus! {

pub const TOKEN_FEATURES: usize = 14;

pub const ACTION_SLOTS: usize = 8;

pub const MAX_PLANETS: usize = 64;

pub const MAX_AMOUNT_CLASSES: usize = 16;

pub const OWNER_EMBEDDINGS: usize = 8;

/// Shape parameters of an OWV8 network, read from the artifact header.
#[derive(Clone, Copy, Debug, PartialEq, Eq, Structural)]
pub struct V8ModelConfig {
    pub token_features: usize,
    pub d_model: usize,
    pub heads: usize,
    pub encoder_layers: usize,
    pub decoder_layers: usize,
    pub action_slots: usize,
    pub amount_classes: usize,
    pub max_planets: usize,
}

#[derive(Clone, Copy, Debug, PartialEq, Eq, Structural)]
pub enum V8ModelError {
    TooShort,
    BadMagic,
    Checksum,
    HeaderUtf8,
    HeaderParse,
    TensorMissing,
    TensorShape,
    InvalidConfig,
}

/// Where a named tensor lies in the payload.
#[derive(Clone, Debug)]
pub struct TensorSpec {
    pub name: Vec<u8>,
    pub offset: usize,
    pub bytes: usize,
}

impl View for TensorSpec {
    type V = (Seq<u8>, usize, usize);

    open spec fn view(&self) -> (Seq<u8>, usize, usize) {
        (self.name@, self.offset, self.bytes)
    }
}

/// A decoded tensor: its name and the bit patterns of its `f32` values.
#[derive(Clone, Debug)]
pub struct TensorData {
    pub name: Vec<u8>,
    pub bits: Vec<u32>,
}

impl View for TensorData {
    type V = (Seq<u8>, Seq<u32>);

    open spec fn view(&self) -> (Seq<u8>, Seq<u32>) {
        (self.name@, self.bits@)
    }
}

/// A framed, checksummed and decoded OWV8 artifact.
#[derive(Clone, Debug)]
pub struct ModelArtifact {
    pub config: V8ModelConfig,
    pub tensors: Vec<TensorData>,
}

// ---------------------------------------------------------------- CRC-32

/// Eight (or fewer) rounds of the reflected CRC-32 shift register, polynomial 0xEDB88320.
pub open spec fn crc_shift(crc: u32, rounds: nat) -> u32
    decreases rounds,
{
    if rounds == 0 {
        crc
    } else {
        let c = crc_shift(crc, (rounds - 1) as nat);
        if c & 1 == 1 {
            (c >> 1) ^ 0xEDB8_8320u32
        } else {
            c >> 1
        }
    }
}

/// The CRC-32 register after feeding `bytes`, starting from all ones.
pub open spec fn crc_register(bytes: Seq<u8>) -> u32
    decreases bytes.len(),
{
    if bytes.len() == 0 {
        0xFFFF_FFFFu32
    } else {
        crc_shift(crc_register(bytes.drop_last()) ^ (bytes.last() as u32), 8)
    }
}

/// The standard CRC-32 (as used by zlib and PNG) of `bytes`.
pub open spec fn crc32_spec(bytes: Seq<u8>) -> u32 {
    !crc_register(bytes)
}

/// CRC-32 of `bytes`.
pub fn crc32(bytes: &[u8]) -> (crc: u32)
    ensures
        crc == crc32_spec(bytes@),
{
    let mut crc: u32 = 0xFFFF_FFFF;
    let mut i: usize = 0;
    while i < bytes.len()
        invariant
            i <= bytes.len(),
            crc == crc_register(bytes@.take(i as int)),
        decreases bytes.len() - i,
    {
        let start = crc ^ (bytes[i] as u32);
        crc = start;
        let mut round: usize = 0;
        while round < 8
            invariant
                round <= 8,
                crc == crc_shift(start, round as nat),
            decreases 8 - round,
        {
            if crc & 1 == 1 {
                crc = (crc >> 1) ^ 0xEDB8_8320u32;
            } else {
                crc = crc >> 1;
            }
            round += 1;
        }
        proof {
            assert(bytes@.take(i + 1).drop_last() =~= bytes@.take(i as int));
        }
        i += 1;
    }
    proof {
        assert(bytes@.take(bytes@.len() as int) =~= bytes@);
    }
    !crc
}

// ---------------------------------------------------------------- header fields

/// The bytes `"key":` that introduce a field in the compact JSON header.
pub open spec fn field_needle(key: Seq<u8>) -> Seq<u8> {
    seq![34u8] + key + seq![34u8, 58u8]
}

pub open spec fn is_first_non_digit(s: Seq<u8>, index: int) -> bool {
    &&& 0 <= index < s.len()
    &&& !is_digit(s[index])
    &&& forall|j: int| 0 <= j < index ==> is_digit(#[trigger] s[j])
}

pub open spec fn first_non_digit(s: Seq<u8>) -> Option<int> {
    if exists|index: int| is_first_non_digit(s, index) {
        Some(choose|index: int| is_first_non_digit(s, index))
    } else {
        None
    }
}

/// The unsigned value of the first `"key":` field in `header`: the digits
/// right after the colon, which must be followed by some other character.
pub open spec fn usize_field(header: Seq<u8>, key: Seq<u8>) -> Option<usize> {
    match find_from(header, field_needle(key), 0) {
        None => None,
        Some(position) => {
            let tail = header.skip(position + field_needle(key).len());
            match first_non_digit(tail) {
                None => None,
                Some(end) => parse_usize_spec(tail.take(end)),
            }
        },
    }
}

fn make_needle(key: &[u8]) -> (needle: Vec<u8>)
    ensures
        needle@ == field_needle(key@),
{
    let mut needle: Vec<u8> = Vec::new();
    needle.push(34u8);
    let mut i: usize = 0;
    while i < key.len()
        invariant
            i <= key.len(),
            needle@ == seq![34u8] + key@.take(i as int),
        decreases key.len() - i,
    {
        needle.push(key[i]);
        proof {
            assert(key@.take(i + 1) =~= key@.take(i as int).push(key@[i as int]));
            assert(needle@ =~= seq![34u8] + key@.take(i + 1));
        }
        i += 1;
    }
    needle.push(34u8);
    needle.push(58u8);
    proof {
        assert(key@.take(key@.len() as int) =~= key@);
        assert(needle@ =~= field_needle(key@));
    }
    needle
}

/// Reads the unsigned `"key":` field of a header given as bytes.
pub fn usize_field_bytes(header: &[u8], key: &[u8]) -> (value: Option<usize>)
    ensures
        value == usize_field(header@, key@),
{
    let needle = make_needle(key);
    let found = find_bytes_from(header, needle.as_slice(), 0);
    let position = match found {
        None => {
            return None;
        },
        Some(p) => p,
    };
    let header_len = header.len();
    proof {
        assert(crate::text::match_at(header@, needle@, position as int));
        assert(position + needle@.len() <= header_len);
    }
    let start = position + needle.len();
    let ghost tail = header@.skip(start as int);
    let mut end = start;
    while end < header.len() && header[end] >= 48 && header[end] <= 57
        invariant
            start <= end <= header.len(),
            tail == header@.skip(start as int),
            forall|j: int| start <= j < end ==> is_digit(#[trigger] header@[j]),
        decreases header.len() - end,
    {
        end += 1;
    }
    if end == header.len() {
        proof {
            if exists|index: int| is_first_non_digit(tail, index) {
                let index = choose|index: int| is_first_non_digit(tail, index);
                assert(tail[index] == header@[start + index]);
            }
        }
        return None;
    }
    proof {
        let e = (end - start) as int;
        assert(tail[e] == header@[end as int]);
        assert forall|j: int| 0 <= j < e implies is_digit(#[trigger] tail[j]) by {
            assert(tail[j] == header@[start + j]);
        }
        assert(is_first_non_digit(tail, e));
        let other = choose|index: int| is_first_non_digit(tail, index);
        if other < e {
            assert(is_digit(tail[other]));
        }
        if other > e {
            assert(is_digit(tail[e]));
        }
        assert(tail.take(e) =~= header@.subrange(start as int, end as int));
    }
    let digits = slice_subrange(header, start, end);
    parse_usize_bytes(digits)
}

/// The byte encoding of a string literal, known to be ASCII.
pub(crate) fn literal_bytes(s: &str) -> (b: &[u8])
    requires
        is_ascii(s),
    ensures
        b@ == s.spec_bytes(),
        b@.len() == s@.len(),
{
    proof {
        vstd::string::is_ascii_spec_bytes(s);
    }
    s.as_bytes()
}

/// Reads the unsigned `"key":` field of the JSON header.
pub fn parse_usize_field(header: &str, key: &str) -> (value: Result<usize, V8ModelError>)
    ensures
        value == match usize_field(header.spec_bytes(), key.spec_bytes()) {
            Some(v) => Ok(v),
            None => Err(V8ModelError::HeaderParse),
        },
{
    match usize_field_bytes(header.as_bytes(), key.as_bytes()) {
        Some(v) => Ok(v),
        None => Err(V8ModelError::HeaderParse),
    }
}

/// The configuration named by a header, field by field.
pub open spec fn config_spec(header: Seq<u8>) -> Option<V8ModelConfig> {
    match (
        usize_field(header, "token_features".spec_bytes()),
        usize_field(header, "d_model".spec_bytes()),
        usize_field(header, "heads".spec_bytes()),
        usize_field(header, "encoder_layers".spec_bytes()),
        usize_field(header, "decoder_layers".spec_bytes()),
        usize_field(header, "action_slots".spec_bytes()),
        usize_field(header, "amount_classes".spec_bytes()),
        usize_field(header, "max_planets".spec_bytes()),
    ) {
        (Some(a), Some(b), Some(c), Some(d), Some(e), Some(f), Some(g), Some(h)) => Some(
            V8ModelConfig {
                token_features: a,
                d_model: b,
                heads: c,
                encoder_layers: d,
                decoder_layers: e,
                action_slots: f,
                amount_classes: g,
                max_planets: h,
            },
        ),
        _ => None,
    }
}

/// Reads the eight shape fields of a header given as bytes.
pub fn config_from_header_bytes(header: &[u8]) -> (config: Option<V8ModelConfig>)
    ensures
        config == config_spec(header@),
{
    let token_features = usize_field_bytes(header, "token_features".as_bytes());
    let d_model = usize_field_bytes(header, "d_model".as_bytes());
    let heads = usize_field_bytes(header, "heads".as_bytes());
    let encoder_layers = usize_field_bytes(header, "encoder_layers".as_bytes());
    let decoder_layers = usize_field_bytes(header, "decoder_layers".as_bytes());
    let action_slots = usize_field_bytes(header, "action_slots".as_bytes());
    let amount_classes = usize_field_bytes(header, "amount_classes".as_bytes());
    let max_planets = usize_field_bytes(header, "max_planets".as_bytes());
    match (
        token_features,
        d_model,
        heads,
        encoder_layers,
        decoder_layers,
        action_slots,
        amount_classes,
        max_planets,
    ) {
        (Some(a), Some(b), Some(c), Some(d), Some(e), Some(f), Some(g), Some(h)) => Some(
            V8ModelConfig {
                token_features: a,
                d_model: b,
                heads: c,
                encoder_layers: d,
                decoder_layers: e,
                action_slots: f,
                amount_classes: g,
                max_planets: h,
            },
        ),
        _ => None,
    }
}

/// Reads the network shape from the JSON header.
pub fn parse_config(header: &str) -> (config: Result<V8ModelConfig, V8ModelError>)
    ensures
        config == match config_spec(header.spec_bytes()) {
            Some(c) => Ok(c),
            None => Err(V8ModelError::HeaderParse),
        },
{
    match config_from_header_bytes(header.as_bytes()) {
        Some(c) => Ok(c),
        None => Err(V8ModelError::HeaderParse),
    }
}

/// The shapes this runtime supports.
pub open spec fn config_is_supported(config: V8ModelConfig) -> bool {
    &&& config.token_features == TOKEN_FEATURES
    &&& config.d_model != 0
    &&& config.heads != 0
    &&& config.d_model % config.heads == 0
    &&& config.action_slots == ACTION_SLOTS
    &&& config.amount_classes <= MAX_AMOUNT_CLASSES
    &&& config.max_planets == MAX_PLANETS
}

/// Rejects shapes that the runtime cannot evaluate.
pub fn validate_config(config: V8ModelConfig) -> (result: Result<(), V8ModelError>)
    ensures
        result == if config_is_supported(config) {
            Ok::<(), V8ModelError>(())
        } else {
            Err(V8ModelError::InvalidConfig)
        },
{
    if config.token_features != TOKEN_FEATURES || config.d_model == 0 || config.heads == 0
        || config.d_model % config.heads != 0 || config.action_slots != ACTION_SLOTS
        || config.amount_classes > MAX_AMOUNT_CLASSES || config.max_planets != MAX_PLANETS {
        return Err(V8ModelError::InvalidConfig);
    }
    Ok(())
}

// ---------------------------------------------------------------- tensor table

pub open spec fn tensors_key() -> Seq<u8> {
    "\"tensors\":[".spec_bytes()
}

pub open spec fn name_key() -> Seq<u8> {
    "\"name\":\"".spec_bytes()
}

/// The tensor entries from `cursor` on: each begins at the next `"name":"`, is the
/// object between the last `{` before the name and the first `}` after it, and
/// carries an `offset` and a `bytes` field.
pub open spec fn tensor_entries_from(header: Seq<u8>, cursor: int) -> Option<
    Seq<(Seq<u8>, usize, usize)>,
>
    decreases header.len() - cursor,
{
    match find_from(header, name_key(), cursor) {
        None => Some(Seq::empty()),
        Some(position) => {
            let name_start = position + name_key().len();
            match last_byte_before(header, 123u8, name_start) {
                None => None,
                Some(object_start) => match first_byte_from(header, 34u8, name_start) {
                    None => None,
                    Some(name_end) => match first_byte_from(header, 125u8, name_end) {
                        None => None,
                        Some(object_end) => {
                            let object = header.subrange(object_start, object_end + 1);
                            match (
                                usize_field(object, "offset".spec_bytes()),
                                usize_field(object, "bytes".spec_bytes()),
                            ) {
                                (Some(offset), Some(bytes)) => {
                                    if object_end + 1 <= cursor || object_end + 1 > header.len() {
                                        None
                                    } else {
                                        match tensor_entries_from(header, object_end + 1) {
                                            None => None,
                                            Some(rest) => Some(
                                                seq![
                                                (header.subrange(name_start, name_end), offset, bytes)]
                                                    + rest,
                                            ),
                                        }
                                    }
                                },
                                _ => None,
                            }
                        },
                    },
                },
            }
        },
    }
}

/// The tensor table of a header: the entries after `"tensors":[`, at least one.
pub open spec fn tensor_specs_spec(header: Seq<u8>) -> Option<Seq<(Seq<u8>, usize, usize)>> {
    match find_from(header, tensors_key(), 0) {
        None => None,
        Some(start) => match tensor_entries_from(header, start) {
            None => None,
            Some(entries) => if entries.len() == 0 {
                None
            } else {
                Some(entries)
            },
        },
    }
}

/// Reads the tensor table of a header given as bytes.
#[verifier::spinoff_prover]
#[verifier::rlimit(60)]
pub fn tensor_specs_from_header_bytes(header: &[u8]) -> (specs: Option<Vec<TensorSpec>>)
    ensures
        match specs {
            Some(v) => tensor_specs_spec(header@) == Some(v@.map_values(|t: TensorSpec| t@)),
            None => tensor_specs_spec(header@) is None,
        },
{
    proof {
        reveal_strlit("\"tensors\":[");
        reveal_strlit("\"name\":\"");
    }
    let tensors = literal_bytes("\"tensors\":[");
    let name = literal_bytes("\"name\":\"");
    let start = match find_bytes_from(header, tensors, 0) {
        None => {
            return None;
        },
        Some(s) => s,
    };
    proof {
        assert(find_from(header@, tensors_key(), 0) == Some(start as int));
        assert(crate::text::match_at(header@, tensors@, start as int));
    }
    let mut cursor = start;
    let mut specs: Vec<TensorSpec> = Vec::new();
    // The entries are collected front to back; `tensor_entries_from(header, start)`
    // is the collected prefix followed by the entries from `cursor`.
    loop
        invariant
            start <= cursor <= header.len(),
            find_from(header@, tensors_key(), 0) == Some(start as int),
            name@ == name_key(),
            name@.len() == 8,
            match tensor_entries_from(header@, cursor as int) {
                Some(rest) => tensor_entries_from(header@, start as int) == Some(
                    specs@.map_values(|t: TensorSpec| t@) + rest,
                ),
                None => tensor_entries_from(header@, start as int) is None,
            },
        ensures
            find_from(header@, tensors_key(), 0) == Some(start as int),
            tensor_entries_from(header@, start as int) == Some(
                specs@.map_values(|t: TensorSpec| t@),
            ),
        decreases header.len() - cursor,
    {
        let position = match find_bytes_from(header, name, cursor) {
            None => {
                proof {
                    assert(tensor_entries_from(header@, cursor as int) == Some(
                        Seq::<(Seq<u8>, usize, usize)>::empty(),
                    ));
                    assert(specs@.map_values(|t: TensorSpec| t@) + Seq::<
                        (Seq<u8>, usize, usize),
                    >::empty() =~= specs@.map_values(|t: TensorSpec| t@));
                }
                break ;
            },
            Some(p) => p,
        };
        proof {
            assert(find_from(header@, name_key(), cursor as int) == Some(position as int));
            assert(crate::text::match_at(header@, name@, position as int));
        }
        let name_start = position + name.len();
        let object_start = match rfind_byte_before(header, 123u8, name_start) {
            None => {
                proof {
                    assert(tensor_entries_from(header@, cursor as int) is None);
                }
                return None;
            },
            Some(o) => o,
        };
        let name_end = match find_byte_from(header, 34u8, name_start) {
            None => {
                proof {
                    assert(tensor_entries_from(header@, cursor as int) is None);
                }
                return None;
            },
            Some(e) => e,
        };
        proof {
            assert(crate::text::is_first_byte_from(header@, 34u8, name_start as int, name_end as int));
        }
        let object_end = match find_byte_from(header, 125u8, name_end) {
            None => {
                proof {
                    assert(tensor_entries_from(header@, cursor as int) is None);
                }
                return None;
            },
            Some(e) => e,
        };
        proof {
            assert(crate::text::is_first_byte_from(header@, 125u8, name_end as int, object_end as int));
        }
        let object = slice_subrange(header, object_start, object_end + 1);
        proof {
            reveal_strlit("offset");
            reveal_strlit("bytes");
        }
        let offset = match usize_field_bytes(object, "offset".as_bytes()) {
            None => {
                proof {
                    assert(tensor_entries_from(header@, cursor as int) is None);
                }
                return None;
            },
            Some(v) => v,
        };
        let bytes = match usize_field_bytes(object, "bytes".as_bytes()) {
            None => {
                proof {
                    assert(tensor_entries_from(header@, cursor as int) is None);
                }
                return None;
            },
            Some(v) => v,
        };
        let spec_name = copy_range(header, name_start, name_end);
        let ghost prev = specs@.map_values(|t: TensorSpec| t@);
        let entry = TensorSpec { name: spec_name, offset, bytes };
        let ghost entry_view = entry@;
        specs.push(entry);
        proof {
            assert(specs@.map_values(|t: TensorSpec| t@) =~= prev.push(entry_view));
            match tensor_entries_from(header@, object_end + 1) {
                Some(rest) => {
                    assert(tensor_entries_from(header@, cursor as int) == Some(
                        seq![entry_view] + rest,
                    ));
                    assert(prev + (seq![entry_view] + rest) =~= prev.push(entry_view) + rest);
                },
                None => {
                    assert(tensor_entries_from(header@, cursor as int) is None);
                },
            }
        }
        cursor = object_end + 1;
    }
    proof {
        assert(tensor_entries_from(header@, start as int) == Some(
            specs@.map_values(|t: TensorSpec| t@),
        ));
    }
    if specs.len() == 0 {
        proof {
            assert(specs@.map_values(|t: TensorSpec| t@).len() == 0);
        }
        return None;
    }
    Some(specs)
}

/// Reads the tensor table of the JSON header.
pub fn parse_tensor_specs(header: &str) -> (specs: Result<Vec<TensorSpec>, V8ModelError>)
    ensures
        match specs {
            Ok(v) => tensor_specs_spec(header.spec_bytes()) == Some(
                v@.map_values(|t: TensorSpec| t@),
            ),
            Err(e) => e == V8ModelError::HeaderParse && tensor_specs_spec(header.spec_bytes()) is None,
        },
{
    match tensor_specs_from_header_bytes(header.as_bytes()) {
        Some(v) => Ok(v),
        None => Err(V8ModelError::HeaderParse),
    }
}

// ---------------------------------------------------------------- payload and framing

/// An `f32` bit pattern that denotes a finite number (its exponent is not all ones).
pub open spec fn bits_are_finite(bits: u32) -> bool {
    (bits >> 23u32) & 0xffu32 != 0xffu32
}

/// The little-endian 32-bit words of `raw`.
pub open spec fn le_words(raw: Seq<u8>) -> Seq<u32> {
    Seq::new(raw.len() / 4, |i: int| spec_u32_from_le_bytes(raw.subrange(4 * i, 4 * i + 4)))
}

/// The values of one tensor: `bytes` bytes at `offset` in the payload, a whole
/// number of finite little-endian `f32` values.
pub open spec fn decode_tensor(payload: Seq<u8>, offset: usize, bytes: usize) -> Option<Seq<u32>> {
    let end = offset + bytes;
    if end > usize::MAX || end > payload.len() {
        None
    } else {
        let raw = payload.subrange(offset as int, end);
        if raw.len() % 4 != 0 {
            None
        } else if forall|i: int| 0 <= i < le_words(raw).len() ==> bits_are_finite(
            #[trigger] le_words(raw)[i],
        ) {
            Some(le_words(raw))
        } else {
            None
        }
    }
}

/// All tensors of the table, or `None` when one of them does not decode.
pub open spec fn decode_tensors(payload: Seq<u8>, specs: Seq<(Seq<u8>, usize, usize)>) -> Option<
    Seq<(Seq<u8>, Seq<u32>)>,
> {
    if forall|i: int| 0 <= i < specs.len() ==> (#[trigger] decode_tensor(payload, specs[i].1, specs[i].2)) is Some {
        Some(Seq::new(specs.len(), |i: int| (specs[i].0, decode_tensor(payload, specs[i].1, specs[i].2)->0)))
    } else {
        None
    }
}

/// What an artifact decodes to: the checks run in this order and the first that
/// fails names the error.
pub open spec fn artifact_spec(bytes: Seq<u8>) -> Result<
    (V8ModelConfig, Seq<(Seq<u8>, Seq<u32>)>),
    V8ModelError,
> {
    if bytes.len() < 16 {
        Err(V8ModelError::TooShort)
    } else if bytes.subrange(0, 4) != "OWV8".spec_bytes() {
        Err(V8ModelError::BadMagic)
    } else {
        let header_len = spec_u32_from_le_bytes(bytes.subrange(8, 12)) as int;
        let checksum = spec_u32_from_le_bytes(bytes.subrange(12, 16));
        let header_end = 16 + header_len;
        if header_end > usize::MAX || bytes.len() < header_end {
            Err(V8ModelError::TooShort)
        } else if crc32_spec(bytes.skip(16)) != checksum {
            Err(V8ModelError::Checksum)
        } else {
            let header = bytes.subrange(16, header_end);
            if !valid_utf8(header) {
                Err(V8ModelError::HeaderUtf8)
            } else {
                match config_spec(header) {
                    None => Err(V8ModelError::HeaderParse),
                    Some(config) => if !config_is_supported(config) {
                        Err(V8ModelError::InvalidConfig)
                    } else {
                        match tensor_specs_spec(header) {
                            None => Err(V8ModelError::HeaderParse),
                            Some(specs) => match decode_tensors(bytes.skip(header_end), specs) {
                                None => Err(V8ModelError::TensorShape),
                                Some(tensors) => Ok((config, tensors)),
                            },
                        }
                    },
                }
            }
        }
    }
}

fn decode_tensor_bits(payload: &[u8], offset: usize, bytes: usize) -> (bits: Option<Vec<u32>>)
    ensures
        match bits {
            Some(v) => decode_tensor(payload@, offset, bytes) == Some(v@),
            None => decode_tensor(payload@, offset, bytes) is None,
        },
{
    let end = match offset.checked_add(bytes) {
        None => {
            return None;
        },
        Some(e) => e,
    };
    if end > payload.len() {
        return None;
    }
    let raw = slice_subrange(payload, offset, end);
    if raw.len() % 4 != 0 {
        return None;
    }
    let count = raw.len() / 4;
    assert(raw@.len() <= usize::MAX);
    let mut words: Vec<u32> = Vec::new();
    let mut k: usize = 0;
    while k < count
        invariant
            count == raw@.len() / 4,
            raw@.len() % 4 == 0,
            raw@ == payload@.subrange(offset as int, end as int),
            end == offset + bytes,
            end <= payload@.len(),
            raw@.len() <= usize::MAX,
            k <= count,
            words@ == le_words(raw@).take(k as int),
            forall|i: int| 0 <= i < k ==> bits_are_finite(#[trigger] words@[i]),
        decreases count - k,
    {
        proof {
            assert(4 * k + 4 <= raw@.len()) by (nonlinear_arith)
                requires
                    k < count,
                    count == raw@.len() / 4,
            ;
        }
        let chunk = slice_subrange(raw, 4 * k, 4 * k + 4);
        let word = u32_from_le_bytes(chunk);
        if (word >> 23u32) & 0xffu32 == 0xffu32 {
            proof {
                assert(le_words(raw@)[k as int] == word);
                assert(!bits_are_finite(le_words(raw@)[k as int]));
            }
            return None;
        }
        words.push(word);
        proof {
            assert(words@ =~= le_words(raw@).take(k + 1));
        }
        k += 1;
    }
    proof {
        assert(le_words(raw@).take(count as int) =~= le_words(raw@));
        assert forall|i: int| 0 <= i < le_words(raw@).len() implies bits_are_finite(
            #[trigger] le_words(raw@)[i],
        ) by {
            assert(words@[i] == le_words(raw@)[i]);
        }
    }
    Some(words)
}

fn decode_all_tensors(payload: &[u8], specs: &Vec<TensorSpec>) -> (tensors: Option<Vec<TensorData>>)
    ensures
        match tensors {
            Some(v) => decode_tensors(payload@, specs@.map_values(|t: TensorSpec| t@)) == Some(
                v@.map_values(|t: TensorData| t@),
            ),
            None => decode_tensors(payload@, specs@.map_values(|t: TensorSpec| t@)) is None,
        },
{
    let ghost views = specs@.map_values(|t: TensorSpec| t@);
    let mut out: Vec<TensorData> = Vec::new();
    let mut i: usize = 0;
    while i < specs.len()
        invariant
            i <= specs.len(),
            views == specs@.map_values(|t: TensorSpec| t@),
            out@.len() == i,
            forall|j: int| 0 <= j < i ==> (#[trigger] decode_tensor(payload@, views[j].1, views[j].2)) is Some,
            forall|j: int|
                0 <= j < i ==> #[trigger] out@[j]@ == (
                    views[j].0,
                    decode_tensor(payload@, views[j].1, views[j].2)->0,
                ),
        decreases specs.len() - i,
    {
        let spec = &specs[i];
        let bits = match decode_tensor_bits(payload, spec.offset, spec.bytes) {
            None => {
                proof {
                    assert(decode_tensor(payload@, views[i as int].1, views[i as int].2) is None);
                }
                return None;
            },
            Some(b) => b,
        };
        let name = copy_range(spec.name.as_slice(), 0, spec.name.len());
        proof {
            assert(name@ =~= spec.name@);
        }
        out.push(TensorData { name, bits });
        i += 1;
    }
    proof {
        assert(out@.map_values(|t: TensorData| t@) =~= Seq::new(
            views.len(),
            |j: int| (views[j].0, decode_tensor(payload@, views[j].1, views[j].2)->0),
        ));
    }
    Some(out)
}

/// Checks and decodes an OWV8 artifact: the `OWV8` magic, the header length and
/// CRC-32 in the frame, the UTF-8 JSON header with a supported configuration and
/// a tensor table, and every tensor's finite `f32` values.
pub fn parse_model_artifact(bytes: &[u8]) -> (artifact: Result<ModelArtifact, V8ModelError>)
    ensures
        match artifact {
            Ok(a) => artifact_spec(bytes@) == Ok::<_, V8ModelError>(
                (a.config, a.tensors@.map_values(|t: TensorData| t@)),
            ),
            Err(e) => artifact_spec(bytes@) == Err::<(V8ModelConfig, Seq<(Seq<u8>, Seq<u32>)>), _>(e),
        },
{
    if bytes.len() < 16 {
        return Err(V8ModelError::TooShort);
    }
    proof {
        reveal_strlit("OWV8");
    }
    let magic = literal_bytes("OWV8");
    if !crate::text::bytes_equal(slice_subrange(bytes, 0, 4), magic) {
        return Err(V8ModelError::BadMagic);
    }
    let header_len = u32_from_le_bytes(slice_subrange(bytes, 8, 12)) as usize;
    let checksum = u32_from_le_bytes(slice_subrange(bytes, 12, 16));
    let header_end = match 16usize.checked_add(header_len) {
        None => {
            return Err(V8ModelError::TooShort);
        },
        Some(e) => e,
    };
    if bytes.len() < header_end {
        return Err(V8ModelError::TooShort);
    }
    let body = slice_subrange(bytes, 16, bytes.len());
    proof {
        assert(body@ =~= bytes@.skip(16));
    }
    if crc32(body) != checksum {
        return Err(V8ModelError::Checksum);
    }
    let header = slice_subrange(bytes, 16, header_end);
    if !utf8_is_valid(header) {
        return Err(V8ModelError::HeaderUtf8);
    }
    let config = match config_from_header_bytes(header) {
        None => {
            return Err(V8ModelError::HeaderParse);
        },
        Some(c) => c,
    };
    if validate_config(config).is_err() {
        return Err(V8ModelError::InvalidConfig);
    }
    let specs = match tensor_specs_from_header_bytes(header) {
        None => {
            return Err(V8ModelError::HeaderParse);
        },
        Some(s) => s,
    };
    let payload = slice_subrange(bytes, header_end, bytes.len());
    proof {
        assert(payload@ =~= bytes@.skip(header_end as int));
    }
    match decode_all_tensors(payload, &specs) {
        None => Err(V8ModelError::TensorShape),
        Some(tensors) => Ok(ModelArtifact { config, tensors }),
    }
}

/// The owner embedding row of a player id: neutral (-1) is row 0, players follow,
/// and ids past the table share its last row.
pub fn owner_id(owner: i32) -> (row: usize)
    requires
        owner < i32::MAX,
    ensures
        row as int == if owner + 1 < 0 {
            0
        } else if owner + 1 > OWNER_EMBEDDINGS - 1 {
            OWNER_EMBEDDINGS - 1
        } else {
            owner + 1
        },
{
    let shifted = owner + 1;
    if shifted < 0 {
        0
    } else if shifted > (OWNER_EMBEDDINGS - 1) as i32 {
        OWNER_EMBEDDINGS - 1
    } else {
        shifted as usize
    }
}

/// Each field of a header's configuration is the value of the header's field with the
/// same name, and the configuration is there exactly when all eight fields are.
pub proof fn law_config_fields_come_from_their_keys(header: Seq<u8>)
    ensures
        config_spec(header) is Some <==> {
            &&& usize_field(header, "token_features".spec_bytes()) is Some
            &&& usize_field(header, "d_model".spec_bytes()) is Some
            &&& usize_field(header, "heads".spec_bytes()) is Some
            &&& usize_field(header, "encoder_layers".spec_bytes()) is Some
            &&& usize_field(header, "decoder_layers".spec_bytes()) is Some
            &&& usize_field(header, "action_slots".spec_bytes()) is Some
            &&& usize_field(header, "amount_classes".spec_bytes()) is Some
            &&& usize_field(header, "max_planets".spec_bytes()) is Some
        },
        config_spec(header) is Some ==> {
            let c = config_spec(header)->Some_0;
            &&& Some(c.token_features) == usize_field(header, "token_features".spec_bytes())
            &&& Some(c.d_model) == usize_field(header, "d_model".spec_bytes())
            &&& Some(c.heads) == usize_field(header, "heads".spec_bytes())
            &&& Some(c.encoder_layers) == usize_field(header, "encoder_layers".spec_bytes())
            &&& Some(c.decoder_layers) == usize_field(header, "decoder_layers".spec_bytes())
            &&& Some(c.action_slots) == usize_field(header, "action_slots".spec_bytes())
            &&& Some(c.amount_classes) == usize_field(header, "amount_classes".spec_bytes())
            &&& Some(c.max_planets) == usize_field(header, "max_planets".spec_bytes())
        },
{
}

} // verus!
