//! The small JSON scanners of the dashboard telemetry: locating an array by field
//! name, splitting it into its top-level items and reading unsigned fields.
use vstd::prelude::*;
use vstd::slice::slice_subrange;
use vstd::string::StringSliceAdditionalSpecFns;

use crate::artifact::literal_bytes;
use crate::text::{
    find_byte_from, find_bytes_from, find_from, first_byte_from, is_digit,
    is_first_byte_from, is_first_match_from, match_at, parse_usize_bytes, parse_usize_spec,
};

verus! {

/// A three-byte UTF-8 encoding of a white-space character (U+1680, U+2000 to U+200A,
/// U+2028, U+2029, U+202F, U+205F, U+3000).
pub open spec fn three_byte_whitespace(a: u8, b: u8, c: u8) -> bool {
    ||| a == 0xE1 && b == 0x9A && c == 0x80
    ||| a == 0xE2 && b == 0x80 && ((0x80 <= c && c <= 0x8A) || c == 0xA8 || c == 0xA9 || c == 0xAF)
    ||| a == 0xE2 && b == 0x81 && c == 0x9F
    ||| a == 0xE3 && b == 0x80 && c == 0x80
}

/// A one-byte white-space character: U+0009 to U+000D and the space.
pub open spec fn ascii_whitespace(a: u8) -> bool {
    a == 32 || (9 <= a && a <= 13)
}

/// A two-byte white-space character: U+0085 and U+00A0.
pub open spec fn two_byte_whitespace(a: u8, b: u8) -> bool {
    a == 0xC2 && (b == 0x85 || b == 0xA0)
}

/// Length of the white-space character (`char::is_whitespace`) that starts at `i`
/// and ends by `end`, or zero.
pub open spec fn whitespace_len_at(s: Seq<u8>, i: int, end: int) -> int {
    if !(0 <= i < end && end <= s.len()) {
        0
    } else if ascii_whitespace(s[i]) {
        1
    } else if i + 1 < end && two_byte_whitespace(s[i], s[i + 1]) {
        2
    } else if i + 2 < end && three_byte_whitespace(s[i], s[i + 1], s[i + 2]) {
        3
    } else {
        0
    }
}

/// Length of the white-space character that ends at `end` and starts at or after `start`, or zero.
pub open spec fn whitespace_len_before(s: Seq<u8>, start: int, end: int) -> int {
    if !(0 <= start < end && end <= s.len()) {
        0
    } else if ascii_whitespace(s[end - 1]) {
        1
    } else if end - 2 >= start && two_byte_whitespace(s[end - 2], s[end - 1]) {
        2
    } else if end - 3 >= start && three_byte_whitespace(s[end - 3], s[end - 2], s[end - 1]) {
        3
    } else {
        0
    }
}

/// Where `s[from..end]` starts once leading white space is removed.
pub open spec fn trim_start_from(s: Seq<u8>, from: int, end: int) -> int
    decreases end - from,
{
    if from < end && whitespace_len_at(s, from, end) > 0 {
        trim_start_from(s, from + whitespace_len_at(s, from, end), end)
    } else {
        from
    }
}

/// Where `s[start..to]` ends once trailing white space is removed.
pub open spec fn trim_end_to(s: Seq<u8>, start: int, to: int) -> int
    decreases to - start,
{
    if start < to && whitespace_len_before(s, start, to) > 0 {
        trim_end_to(s, start, to - whitespace_len_before(s, start, to))
    } else {
        to
    }
}

proof fn lemma_trim_start_shift(s: Seq<u8>, a: int, b: int, i: int)
    requires
        0 <= a <= i <= b <= s.len(),
    ensures
        trim_start_from(s.subrange(a, b), i - a, b - a) == trim_start_from(s, i, b) - a,
    decreases b - i,
{
    let t = s.subrange(a, b);
    assert(whitespace_len_at(t, i - a, b - a) == whitespace_len_at(s, i, b));
    if i < b && whitespace_len_at(s, i, b) > 0 {
        lemma_trim_start_shift(s, a, b, i + whitespace_len_at(s, i, b));
    }
}

proof fn lemma_trim_end_shift(s: Seq<u8>, a: int, b: int, start: int, to: int)
    requires
        0 <= a <= start <= to <= b <= s.len(),
    ensures
        trim_end_to(s.subrange(a, b), start - a, to - a) == trim_end_to(s, start, to) - a,
    decreases to - start,
{
    let t = s.subrange(a, b);
    assert(whitespace_len_before(t, start - a, to - a) == whitespace_len_before(s, start, to));
    if start < to && whitespace_len_before(s, start, to) > 0 {
        lemma_trim_end_shift(s, a, b, start, to - whitespace_len_before(s, start, to));
    }
}

/// Trimming a piece of a text on its own gives the same bytes as trimming it in place.
pub proof fn lemma_trimmed_subrange(s: Seq<u8>, a: int, b: int)
    requires
        0 <= a <= b <= s.len(),
    ensures
        trimmed(s.subrange(a, b), 0, b - a) == trimmed(s, a, b),
{
    let t = s.subrange(a, b);
    lemma_trim_start_bounds(s, a, b);
    lemma_trim_start_shift(s, a, b, a);
    let first = trim_start_from(s, a, b);
    lemma_trim_end_bounds(s, first, b);
    lemma_trim_end_shift(s, a, b, first, b);
    assert(t.subrange(first - a, trim_end_to(s, first, b) - a) =~= s.subrange(
        first,
        trim_end_to(s, first, b),
    ));
}

proof fn lemma_trim_start_bounds(s: Seq<u8>, from: int, end: int)
    requires
        from <= end,
    ensures
        from <= trim_start_from(s, from, end) <= end,
    decreases end - from,
{
    if from < end && whitespace_len_at(s, from, end) > 0 {
        lemma_trim_start_bounds(s, from + whitespace_len_at(s, from, end), end);
    }
}

proof fn lemma_trim_end_bounds(s: Seq<u8>, start: int, to: int)
    requires
        start <= to,
    ensures
        start <= trim_end_to(s, start, to) <= to,
    decreases to - start,
{
    if start < to && whitespace_len_before(s, start, to) > 0 {
        lemma_trim_end_bounds(s, start, to - whitespace_len_before(s, start, to));
    }
}

/// `s[start..end]` with white space removed at both ends, as `str::trim` does.
pub open spec fn trimmed(s: Seq<u8>, start: int, end: int) -> Seq<u8> {
    let first = trim_start_from(s, start, end);
    s.subrange(first, trim_end_to(s, first, end))
}

fn whitespace_len_at_exec(s: &[u8], i: usize, end: usize) -> (len: usize)
    requires
        i < end <= s.len(),
    ensures
        len == whitespace_len_at(s@, i as int, end as int),
{
    let a = s[i];
    if a == 32 || (9 <= a && a <= 13) {
        1
    } else if end - i > 1 && a == 0xC2 && (s[i + 1] == 0x85 || s[i + 1] == 0xA0) {
        2
    } else if end - i > 2 {
        let b = s[i + 1];
        let c = s[i + 2];
        if (a == 0xE1 && b == 0x9A && c == 0x80) || (a == 0xE2 && b == 0x80 && ((0x80 <= c && c
            <= 0x8A) || c == 0xA8 || c == 0xA9 || c == 0xAF)) || (a == 0xE2 && b == 0x81 && c
            == 0x9F) || (a == 0xE3 && b == 0x80 && c == 0x80) {
            3
        } else {
            0
        }
    } else {
        0
    }
}

fn whitespace_len_before_exec(s: &[u8], start: usize, end: usize) -> (len: usize)
    requires
        start < end <= s.len(),
    ensures
        len == whitespace_len_before(s@, start as int, end as int),
{
    let z = s[end - 1];
    if z == 32 || (9 <= z && z <= 13) {
        1
    } else if end - start >= 2 && s[end - 2] == 0xC2 && (z == 0x85 || z == 0xA0) {
        2
    } else if end - start >= 3 {
        let a = s[end - 3];
        let b = s[end - 2];
        let c = z;
        if (a == 0xE1 && b == 0x9A && c == 0x80) || (a == 0xE2 && b == 0x80 && ((0x80 <= c && c
            <= 0x8A) || c == 0xA8 || c == 0xA9 || c == 0xAF)) || (a == 0xE2 && b == 0x81 && c
            == 0x9F) || (a == 0xE3 && b == 0x80 && c == 0x80) {
            3
        } else {
            0
        }
    } else {
        0
    }
}

/// Skips the white space at the start of `s[from..end]`.
pub fn trim_start_index(s: &[u8], from: usize, end: usize) -> (first: usize)
    requires
        from <= end <= s.len(),
    ensures
        first == trim_start_from(s@, from as int, end as int),
        from <= first <= end,
{
    let mut i = from;
    while i < end
        invariant
            from <= i <= end <= s.len(),
            trim_start_from(s@, i as int, end as int) == trim_start_from(s@, from as int, end as int),
        decreases end - i,
    {
        let len = whitespace_len_at_exec(s, i, end);
        if len == 0 {
            return i;
        }
        i = i + len;
    }
    i
}

/// Drops the white space at the end of `s[start..to]`.
pub fn trim_end_index(s: &[u8], start: usize, to: usize) -> (last: usize)
    requires
        start <= to <= s.len(),
    ensures
        last == trim_end_to(s@, start as int, to as int),
        start <= last <= to,
{
    let mut j = to;
    while j > start
        invariant
            start <= j <= to <= s.len(),
            trim_end_to(s@, start as int, j as int) == trim_end_to(s@, start as int, to as int),
        decreases j - start,
    {
        let len = whitespace_len_before_exec(s, start, j);
        if len == 0 {
            return j;
        }
        j = j - len;
    }
    j
}

/// `"field"`, the marker of a field name.
pub open spec fn quoted(field: Seq<u8>) -> Seq<u8> {
    seq![34u8] + field + seq![34u8]
}

/// End of the run of ASCII digits that starts at `from`.
pub open spec fn digit_run_end(s: Seq<u8>, from: int) -> int
    decreases s.len() - from,
{
    if 0 <= from < s.len() && is_digit(s[from]) {
        digit_run_end(s, from + 1)
    } else {
        from
    }
}

/// The unsigned value of `"field"` in a JSON object: the digits that follow the first
/// colon after the first occurrence of the quoted field name, past any white space.
pub open spec fn usize_field_value(item: Seq<u8>, field: Seq<u8>) -> Option<usize> {
    match find_from(item, quoted(field), 0) {
        None => None,
        Some(marker) => match first_byte_from(item, 58u8, marker + quoted(field).len()) {
            None => None,
            Some(colon) => {
                let value = trim_start_from(item, colon + 1, item.len() as int);
                let digits_end = digit_run_end(item, value);
                if digits_end == value {
                    None
                } else {
                    parse_usize_spec(item.subrange(value, digits_end))
                }
            },
        },
    }
}

fn quote_field(field: &[u8]) -> (marker: Vec<u8>)
    ensures
        marker@ == quoted(field@),
{
    let mut marker: Vec<u8> = Vec::new();
    marker.push(34u8);
    let mut i: usize = 0;
    while i < field.len()
        invariant
            i <= field.len(),
            marker@ == seq![34u8] + field@.take(i as int),
        decreases field.len() - i,
    {
        marker.push(field[i]);
        proof {
            assert(field@.take(i + 1) =~= field@.take(i as int).push(field@[i as int]));
            assert(marker@ =~= seq![34u8] + field@.take(i + 1));
        }
        i += 1;
    }
    marker.push(34u8);
    proof {
        assert(field@.take(field@.len() as int) =~= field@);
        assert(marker@ =~= quoted(field@));
    }
    marker
}

fn digit_run_end_exec(s: &[u8], from: usize) -> (end: usize)
    requires
        from <= s.len(),
    ensures
        end == digit_run_end(s@, from as int),
        from <= end <= s.len(),
        forall|j: int| from <= j < end ==> is_digit(#[trigger] s@[j]),
{
    let mut end = from;
    while end < s.len() && s[end] >= 48 && s[end] <= 57
        invariant
            from <= end <= s.len(),
            digit_run_end(s@, end as int) == digit_run_end(s@, from as int),
            forall|j: int| from <= j < end ==> is_digit(#[trigger] s@[j]),
        decreases s.len() - end,
    {
        end += 1;
    }
    end
}

/// Reads the unsigned field `field` of a JSON object.
pub fn json_usize_field_value(item: &[u8], field: &[u8]) -> (value: Option<usize>)
    ensures
        value == usize_field_value(item@, field@),
{
    let item_len = item.len();
    let marker = quote_field(field);
    let needle = marker.as_slice();
    assert(needle@ == quoted(field@));
    let marker_index = match find_bytes_from(item, needle, 0) {
        Some(index) => index,
        None => {
            return None;
        },
    };
    proof {
        assert(is_first_match_from(item@, needle@, 0, marker_index as int));
        assert(match_at(item@, needle@, marker_index as int));
        assert(marker_index + needle@.len() <= item_len);
    }
    let after_marker = marker_index + needle.len();
    let colon_index = match find_byte_from(item, 58u8, after_marker) {
        Some(index) => index,
        None => {
            return None;
        },
    };
    proof {
        assert(first_byte_from(item@, 58u8, after_marker as int) is Some);
        let c = first_byte_from(item@, 58u8, after_marker as int)->Some_0;
        assert(is_first_byte_from(item@, 58u8, after_marker as int, c));
        assert(c == colon_index);
    }
    let value_start = trim_start_index(item, colon_index + 1, item.len());
    let digits_end = digit_run_end_exec(item, value_start);
    if digits_end == value_start {
        return None;
    }
    parse_usize_bytes(slice_subrange(item, value_start, digits_end))
}

/// The `"generation"` of a telemetry item.
pub fn json_generation_value(item: &[u8]) -> (generation: Option<usize>)
    ensures
        generation == usize_field_value(item@, "generation".spec_bytes()),
{
    proof {
        reveal_strlit("generation");
    }
    json_usize_field_value(item, literal_bytes("generation"))
}

/// The `(validationGeneration, evaluatedGeneration)` key of a generation win-rate item.
pub fn json_generation_win_rate_key(item: &[u8]) -> (key: Option<(usize, usize)>)
    ensures
        key == match (
            usize_field_value(item@, "validationGeneration".spec_bytes()),
            usize_field_value(item@, "evaluatedGeneration".spec_bytes()),
        ) {
            (Some(validation), Some(evaluated)) => Some((validation, evaluated)),
            _ => None::<(usize, usize)>,
        },
{
    proof {
        reveal_strlit("validationGeneration");
        reveal_strlit("evaluatedGeneration");
    }
    let validation = match json_usize_field_value(item, literal_bytes("validationGeneration")) {
        Some(v) => v,
        None => {
            return None;
        },
    };
    let evaluated = match json_usize_field_value(item, literal_bytes("evaluatedGeneration")) {
        Some(v) => v,
        None => {
            return None;
        },
    };
    Some((validation, evaluated))
}

/// The generation in an artifact name `prefix{generation}suffix`.
pub open spec fn named_artifact_generation(name: Seq<u8>, prefix: Seq<u8>, suffix: Seq<u8>) -> Option<usize> {
    if prefix.len() <= name.len() && name.take(prefix.len() as int) == prefix {
        let rest = name.skip(prefix.len() as int);
        if suffix.len() <= rest.len() && rest.skip(rest.len() - suffix.len()) == suffix {
            parse_usize_spec(rest.take(rest.len() - suffix.len()))
        } else {
            None
        }
    } else {
        None
    }
}

/// Reads the generation out of an artifact name such as `generation_12.json`.
pub fn generation_from_named_artifact(name: &[u8], prefix: &[u8], suffix: &[u8]) -> (generation: Option<usize>)
    ensures
        generation == named_artifact_generation(name@, prefix@, suffix@),
{
    if prefix.len() > name.len() {
        return None;
    }
    let head = slice_subrange(name, 0, prefix.len());
    if !crate::text::bytes_equal(head, prefix) {
        proof {
            assert(head@ =~= name@.take(prefix@.len() as int));
        }
        return None;
    }
    proof {
        assert(head@ =~= name@.take(prefix@.len() as int));
    }
    let rest_len = name.len() - prefix.len();
    if suffix.len() > rest_len {
        return None;
    }
    let digits_end = name.len() - suffix.len();
    let tail = slice_subrange(name, digits_end, name.len());
    let ghost rest = name@.skip(prefix@.len() as int);
    proof {
        assert(tail@ =~= rest.skip(rest.len() - suffix@.len()));
    }
    if !crate::text::bytes_equal(tail, suffix) {
        return None;
    }
    let digits = slice_subrange(name, prefix.len(), digits_end);
    proof {
        assert(digits@ =~= rest.take(rest.len() - suffix@.len()));
    }
    parse_usize_bytes(digits)
}

/// One byte of the scanner that tracks JSON nesting: the depth, whether it is inside a
/// string, and whether the previous byte was a backslash inside a string. `braces`
/// says whether `{` and `}` count as nesting besides `[` and `]`.
pub open spec fn scan_step(state: (int, bool, bool), byte: u8, braces: bool) -> (int, bool, bool) {
    let depth = state.0;
    if state.1 {
        if state.2 {
            (depth, true, false)
        } else if byte == 92 {
            (depth, true, true)
        } else if byte == 34 {
            (depth, false, false)
        } else {
            (depth, true, false)
        }
    } else if byte == 34 {
        (depth, true, false)
    } else if byte == 91 || (braces && byte == 123) {
        (depth + 1, false, false)
    } else if byte == 93 || (braces && byte == 125) {
        (depth - 1, false, false)
    } else {
        (depth, false, false)
    }
}

/// The scanner state after the `count` bytes that start at `start`.
pub open spec fn scan(s: Seq<u8>, start: int, count: nat, braces: bool) -> (int, bool, bool)
    decreases count,
{
    if count == 0 {
        (0, false, false)
    } else {
        scan_step(scan(s, start, (count - 1) as nat, braces), s[start + count - 1], braces)
    }
}

/// The byte at `start + offset` is the `]` that closes the array opened at `start`.
pub open spec fn array_closes_at(s: Seq<u8>, start: int, offset: int) -> bool {
    &&& 0 <= offset
    &&& start + offset < s.len()
    &&& !scan(s, start, offset as nat, false).1
    &&& s[start + offset] == 93
    &&& scan(s, start, offset as nat, false).0 == 1
}

pub open spec fn is_first_array_close(s: Seq<u8>, start: int, offset: int) -> bool {
    &&& array_closes_at(s, start, offset)
    &&& forall|j: int| 0 <= j < offset ==> !#[trigger] array_closes_at(s, start, j)
}

/// Offset of the bracket that closes the array opened at `start`.
pub open spec fn array_close_offset(s: Seq<u8>, start: int) -> Option<int> {
    if exists|offset: int| is_first_array_close(s, start, offset) {
        Some(choose|offset: int| is_first_array_close(s, start, offset))
    } else {
        None
    }
}

/// The contents of the array that follows the first `"field"`: the bytes between its
/// opening bracket and the bracket that closes it, as a range.
pub open spec fn json_array_range(source: Seq<u8>, field: Seq<u8>) -> Option<(int, int)> {
    match find_from(source, quoted(field), 0) {
        None => None,
        Some(marker) => match first_byte_from(source, 91u8, marker + quoted(field).len()) {
            None => None,
            Some(bracket) => match array_close_offset(source, bracket) {
                Some(offset) => Some((bracket + 1, bracket + offset)),
                None => None,
            },
        },
    }
}

/// Finds the array of field `field` in a JSON text and returns its contents.
pub fn extract_json_array<'a>(source: &'a [u8], field: &[u8]) -> (array: Option<&'a [u8]>)
    ensures
        match json_array_range(source@, field@) {
            Some((start, end)) => array is Some && array->Some_0@ == source@.subrange(start, end),
            None => array is None,
        },
{
    let source_len = source.len();
    let marker = quote_field(field);
    let needle = marker.as_slice();
    assert(needle@ == quoted(field@));
    let marker_index = match find_bytes_from(source, needle, 0) {
        Some(index) => index,
        None => {
            return None;
        },
    };
    proof {
        assert(is_first_match_from(source@, needle@, 0, marker_index as int));
        assert(match_at(source@, needle@, marker_index as int));
        assert(marker_index + needle@.len() <= source_len);
        crate::text::lemma_first_match_unique(source@, needle@, 0, marker_index as int);
    }
    let after_marker = marker_index + needle.len();
    let array_start = match find_byte_from(source, 91u8, after_marker) {
        Some(index) => index,
        None => {
            return None;
        },
    };
    proof {
        assert(first_byte_from(source@, 91u8, after_marker as int) is Some);
        let b = first_byte_from(source@, 91u8, after_marker as int)->Some_0;
        assert(is_first_byte_from(source@, 91u8, after_marker as int, b));
        assert(b == array_start);
    }
    let ghost bracket = array_start as int;
    let mut depth: usize = 0;
    let mut in_string = false;
    let mut escaped = false;
    let mut offset: usize = 0;
    while offset < source.len() - array_start
        invariant
            find_from(source@, quoted(field@), 0) == Some(marker_index as int),
            first_byte_from(source@, 91u8, marker_index + quoted(field@).len()) == Some(bracket),
            bracket == array_start,
            array_start < source.len(),
            source@[bracket] == 91,
            offset <= source.len() - array_start,
            (depth as int, in_string, escaped) == scan(source@, bracket, offset as nat, false),
            offset > 0 ==> depth >= 1,
            depth <= offset,
            !in_string ==> !escaped,
            forall|j: int| 0 <= j < offset ==> !#[trigger] array_closes_at(source@, bracket, j),
        decreases source.len() - array_start - offset,
    {
        let byte = source[array_start + offset];
        proof {
            assert(scan(source@, bracket, (offset + 1) as nat, false) == scan_step(
                scan(source@, bracket, offset as nat, false),
                byte,
                false,
            ));
        }
        if in_string {
            if escaped {
                escaped = false;
            } else if byte == 92 {
                escaped = true;
            } else if byte == 34 {
                in_string = false;
            }
        } else if byte == 34 {
            in_string = true;
        } else if byte == 91 {
            depth += 1;
        } else if byte == 93 {
            if depth == 1 {
                proof {
                    assert(array_closes_at(source@, bracket, offset as int));
                    assert(is_first_array_close(source@, bracket, offset as int));
                    let chosen = choose|k: int| is_first_array_close(source@, bracket, k);
                    if chosen < offset {
                        assert(!array_closes_at(source@, bracket, chosen));
                    }
                    if chosen > offset {
                        assert(!array_closes_at(source@, bracket, offset as int));
                    }
                    assert(chosen == offset);
                    assert(array_close_offset(source@, bracket) == Some(offset as int));
                    let m = find_from(source@, quoted(field@), 0)->Some_0;
                    assert(m == marker_index);
                    assert(first_byte_from(source@, 91u8, m + quoted(field@).len()) == Some(bracket));
                    assert(json_array_range(source@, field@) == Some(
                        (bracket + 1, bracket + offset as int),
                    ));
                }
                return Some(slice_subrange(source, array_start + 1, array_start + offset));
            }
            depth -= 1;
        }
        offset += 1;
    }
    proof {
        if exists|k: int| is_first_array_close(source@, bracket, k) {
            let k = choose|k: int| is_first_array_close(source@, bracket, k);
            assert(array_closes_at(source@, bracket, k));
        }
    }
    None
}

/// The piece `s[start..end]` of an array, kept when it is not blank once trimmed.
pub open spec fn kept_item(s: Seq<u8>, start: int, end: int) -> Seq<Seq<u8>> {
    if trimmed(s, start, end).len() > 0 {
        seq![trimmed(s, start, end)]
    } else {
        Seq::empty()
    }
}

/// A top-level comma of an array's contents.
pub open spec fn is_item_separator(s: Seq<u8>, i: int) -> bool {
    &&& 0 <= i < s.len()
    &&& s[i] == 44
    &&& !scan(s, 0, i as nat, true).1
    &&& scan(s, 0, i as nat, true).0 == 0
}

/// The trimmed non-blank items of `s` from `index` on, the current item starting at `item_start`.
pub open spec fn split_items_from(s: Seq<u8>, item_start: int, index: int) -> Seq<Seq<u8>>
    decreases s.len() - index,
{
    if index < 0 || index >= s.len() {
        kept_item(s, item_start, s.len() as int)
    } else if is_item_separator(s, index) {
        kept_item(s, item_start, index) + split_items_from(s, index + 1, index + 1)
    } else {
        split_items_from(s, item_start, index + 1)
    }
}

/// The top-level items of an array's contents, split at top-level commas, trimmed, and
/// without blank ones.
pub open spec fn split_items(s: Seq<u8>) -> Seq<Seq<u8>> {
    split_items_from(s, 0, 0)
}

fn push_kept_item(split: &mut Vec<Vec<u8>>, items: &[u8], start: usize, end: usize)
    requires
        start <= end <= items.len(),
    ensures
        final(split)@.map_values(|v: Vec<u8>| v@) == old(split)@.map_values(|v: Vec<u8>| v@)
            + kept_item(items@, start as int, end as int),
{
    let first = trim_start_index(items, start, end);
    let last = trim_end_index(items, first, end);
    let ghost before = split@.map_values(|v: Vec<u8>| v@);
    if first < last {
        let item = crate::text::copy_range(items, first, last);
        split.push(item);
        assert(split@.map_values(|v: Vec<u8>| v@) =~= before + kept_item(
            items@,
            start as int,
            end as int,
        ));
    } else {
        assert(before + kept_item(items@, start as int, end as int) =~= before);
    }
}

/// Splits the contents of a JSON array into its top-level items.
pub fn split_json_array_items(items: &[u8]) -> (split: Vec<Vec<u8>>)
    requires
        items@.len() <= isize::MAX,
    ensures
        split@.map_values(|v: Vec<u8>| v@) == split_items(items@),
{
    let mut split: Vec<Vec<u8>> = Vec::new();
    let mut item_start: usize = 0;
    let mut depth: isize = 0;
    let mut in_string = false;
    let mut escaped = false;
    let mut index: usize = 0;
    while index < items.len()
        invariant
            items@.len() <= isize::MAX,
            index <= items.len(),
            item_start <= index,
            (depth as int, in_string, escaped) == scan(items@, 0, index as nat, true),
            -(index as int) <= depth <= index,
            !in_string ==> !escaped,
            split@.map_values(|v: Vec<u8>| v@) + split_items_from(
                items@,
                item_start as int,
                index as int,
            ) == split_items(items@),
        decreases items.len() - index,
    {
        let byte = items[index];
        proof {
            assert(scan(items@, 0, (index + 1) as nat, true) == scan_step(
                scan(items@, 0, index as nat, true),
                byte,
                true,
            ));
            if !is_item_separator(items@, index as int) {
                assert(split_items_from(items@, item_start as int, index as int) == split_items_from(
                    items@,
                    item_start as int,
                    index as int + 1,
                ));
            }
        }
        if in_string {
            if escaped {
                escaped = false;
            } else if byte == 92 {
                escaped = true;
            } else if byte == 34 {
                in_string = false;
            }
        } else if byte == 34 {
            in_string = true;
        } else if byte == 123 || byte == 91 {
            depth += 1;
        } else if byte == 125 || byte == 93 {
            depth -= 1;
        } else if byte == 44 && depth == 0 {
            let ghost before = split@.map_values(|v: Vec<u8>| v@);
            proof {
                assert(is_item_separator(items@, index as int));
            }
            push_kept_item(&mut split, items, item_start, index);
            proof {
                assert(before + kept_item(items@, item_start as int, index as int)
                    + split_items_from(items@, index as int + 1, index as int + 1) =~= before + (
                kept_item(items@, item_start as int, index as int) + split_items_from(
                    items@,
                    index as int + 1,
                    index as int + 1,
                )));
            }
            item_start = index + 1;
        }
        index += 1;
    }
    push_kept_item(&mut split, items, item_start, items.len());
    split
}

/// The generation of a telemetry item, if it has one.
pub open spec fn item_generation(item: Seq<u8>) -> Option<usize> {
    usize_field_value(item, "generation".spec_bytes())
}

/// The items without a generation, in order.
pub open spec fn plain_items(items: Seq<Seq<u8>>) -> Seq<Seq<u8>>
    decreases items.len(),
{
    if items.len() == 0 {
        Seq::empty()
    } else if item_generation(items.last()) is None {
        plain_items(items.drop_last()).push(items.last())
    } else {
        plain_items(items.drop_last())
    }
}

/// Some item of `items` belongs to generation `generation`, which is not excluded.
pub open spec fn generation_kept(items: Seq<Seq<u8>>, excluded: Seq<usize>, generation: usize) -> bool {
    &&& !excluded.contains(generation)
    &&& exists|i: int| 0 <= i < items.len() && item_generation(#[trigger] items[i]) == Some(generation)
}

/// The last item of `items` that belongs to `generation`.
pub open spec fn last_with_generation(items: Seq<Seq<u8>>, generation: usize) -> Seq<u8>
    decreases items.len(),
{
    if items.len() == 0 {
        Seq::empty()
    } else if item_generation(items.last()) == Some(generation) {
        items.last()
    } else {
        last_with_generation(items.drop_last(), generation)
    }
}

/// `kept` holds, in increasing order of generation, the last item of every generation
/// that is not excluded.
pub open spec fn latest_per_generation(
    kept: Seq<(usize, Seq<u8>)>,
    items: Seq<Seq<u8>>,
    excluded: Seq<usize>,
) -> bool {
    &&& forall|k: int|
        0 <= k < kept.len() ==> generation_kept(items, excluded, (#[trigger] kept[k]).0)
            && kept[k].1 == last_with_generation(items, kept[k].0) && item_generation(kept[k].1)
            == Some(kept[k].0)
    &&& forall|k: int, l: int| 0 <= k < l < kept.len() ==> kept[k].0 < kept[l].0
    &&& forall|generation: usize|
        generation_kept(items, excluded, generation) ==> exists|k: int|
            0 <= k < kept.len() && (#[trigger] kept[k]).0 == generation
}

/// The bytes of each item.
pub open spec fn items_view(items: Seq<Vec<u8>>) -> Seq<Seq<u8>> {
    items.map_values(|v: Vec<u8>| v@)
}

pub open spec fn entry_views(entries: Seq<(usize, Vec<u8>)>) -> Seq<(usize, Seq<u8>)> {
    entries.map_values(|e: (usize, Vec<u8>)| (e.0, e.1@))
}

fn contains_generation(generations: &[usize], generation: usize) -> (found: bool)
    ensures
        found == generations@.contains(generation),
{
    let mut i: usize = 0;
    while i < generations.len()
        invariant
            i <= generations.len(),
            forall|j: int| 0 <= j < i ==> generations@[j] != generation,
        decreases generations.len() - i,
    {
        if generations[i] == generation {
            proof {
                assert(generations@[i as int] == generation);
            }
            return true;
        }
        i += 1;
    }
    false
}

fn owned_item(item: &Vec<u8>) -> (owned: Vec<u8>)
    ensures
        owned@ == item@,
{
    let owned = crate::text::copy_range(item.as_slice(), 0, item.len());
    assert(item@.subrange(0, item@.len() as int) =~= item@);
    owned
}

proof fn lemma_last_with_generation_step(items: Seq<Seq<u8>>, n: int, generation: usize)
    requires
        0 <= n < items.len(),
    ensures
        last_with_generation(items.take(n + 1), generation) == if item_generation(items[n])
            == Some(generation) {
            items[n]
        } else {
            last_with_generation(items.take(n), generation)
        },
{
    assert(items.take(n + 1).drop_last() =~= items.take(n));
}

proof fn lemma_kept_step(items: Seq<Seq<u8>>, excluded: Seq<usize>, n: int, generation: usize)
    requires
        0 <= n < items.len(),
    ensures
        generation_kept(items.take(n + 1), excluded, generation) == (generation_kept(
            items.take(n),
            excluded,
            generation,
        ) || (!excluded.contains(generation) && item_generation(items[n]) == Some(generation))),
{
    let before = items.take(n);
    let after = items.take(n + 1);
    if generation_kept(before, excluded, generation) {
        let i = choose|i: int|
            0 <= i < before.len() && item_generation(#[trigger] before[i]) == Some(generation);
        assert(after[i] == before[i]);
    }
    if generation_kept(after, excluded, generation) && !(!excluded.contains(generation)
        && item_generation(items[n]) == Some(generation)) {
        let i = choose|i: int|
            0 <= i < after.len() && item_generation(#[trigger] after[i]) == Some(generation);
        assert(i != n);
        assert(before[i] == after[i]);
    }
    if !excluded.contains(generation) && item_generation(items[n]) == Some(generation) {
        assert(after[n] == items[n]);
    }
}

/// Telemetry items to keep from a previous run: those without a generation in their
/// order, then, in increasing order of generation, the last item of each generation
/// that is not excluded.
pub fn telemetry_array_items_excluding_generations(items: &[Vec<u8>], generations: &[usize]) -> (kept: Vec<Vec<u8>>)
    ensures
        exists|latest: Seq<(usize, Seq<u8>)>|
            #[trigger] latest_per_generation(latest, items_view(items@), generations@)
                && items_view(kept@) == plain_items(items_view(items@)) + latest.map_values(
                |e: (usize, Seq<u8>)| e.1,
            ),
{
    let ghost all = items_view(items@);
    let mut plain: Vec<Vec<u8>> = Vec::new();
    let mut by_generation: Vec<(usize, Vec<u8>)> = Vec::new();
    let mut n: usize = 0;
    while n < items.len()
        invariant
            all == items_view(items@),
            n <= items.len(),
            plain@.map_values(|v: Vec<u8>| v@) == plain_items(all.take(n as int)),
            latest_per_generation(entry_views(by_generation@), all.take(n as int), generations@),
        decreases items.len() - n,
    {
        let item = &items[n];
        let ghost before = all.take(n as int);
        let ghost after = all.take(n + 1);
        proof {
            assert(all[n as int] == item@);
            assert(after.drop_last() =~= before);
            assert(after.last() == item@);
        }
        let generation = json_generation_value(item.as_slice());
        match generation {
            None => {
                plain.push(owned_item(item));
                proof {
                    assert(plain@.map_values(|v: Vec<u8>| v@) =~= plain_items(after));
                    let e = entry_views(by_generation@);
                    assert forall|k: int| 0 <= k < e.len() implies generation_kept(
                        after,
                        generations@,
                        (#[trigger] e[k]).0,
                    ) && e[k].1 == last_with_generation(after, e[k].0) && item_generation(e[k].1)
                        == Some(e[k].0) by {
                        lemma_kept_step(all, generations@, n as int, e[k].0);
                        lemma_last_with_generation_step(all, n as int, e[k].0);
                    }
                    assert forall|g: usize| generation_kept(after, generations@, g) implies exists|
                        k: int,
                    | 0 <= k < e.len() && (#[trigger] e[k]).0 == g by {
                        lemma_kept_step(all, generations@, n as int, g);
                    }
                }
            },
            Some(g) => {
                proof {
                    assert(plain_items(after) =~= plain_items(before));
                }
                if !contains_generation(generations, g) {
                    let mut position: usize = 0;
                    while position < by_generation.len() && by_generation[position].0 < g
                        invariant
                            position <= by_generation.len(),
                            forall|k: int| 0 <= k < position ==> by_generation@[k].0 < g,
                        decreases by_generation.len() - position,
                    {
                        position += 1;
                    }
                    let ghost old_entries = entry_views(by_generation@);
                    proof {
                        assert(forall|k: int|
                            0 <= k < by_generation@.len() ==> #[trigger] old_entries[k].0
                                == by_generation@[k].0);
                        assert(forall|k: int| 0 <= k < position ==> old_entries[k].0 < g);
                        assert(position < old_entries.len() ==> old_entries[position as int].0
                            >= g);
                    }
                    if position < by_generation.len() && by_generation[position].0 == g {
                        by_generation.set(position, (g, owned_item(item)));
                        proof {
                            let e = entry_views(by_generation@);
                            assert(e =~= old_entries.update(position as int, (g, item@)));
                            assert forall|k: int| 0 <= k < e.len() implies generation_kept(
                                after,
                                generations@,
                                (#[trigger] e[k]).0,
                            ) && e[k].1 == last_with_generation(after, e[k].0) && item_generation(
                                e[k].1,
                            ) == Some(e[k].0) by {
                                lemma_kept_step(all, generations@, n as int, e[k].0);
                                lemma_last_with_generation_step(all, n as int, e[k].0);
                                assert(old_entries[position as int].0 == g);
                                if k < position {
                                    assert(old_entries[k].0 < old_entries[position as int].0);
                                } else if k > position {
                                    assert(old_entries[position as int].0 < old_entries[k].0);
                                }
                            }
                            assert forall|h: usize| generation_kept(after, generations@, h) implies exists|
                                k: int,
                            | 0 <= k < e.len() && (#[trigger] e[k]).0 == h by {
                                lemma_kept_step(all, generations@, n as int, h);
                                if h == g {
                                    assert(e[position as int].0 == h);
                                } else {
                                    let k = choose|k: int|
                                        0 <= k < old_entries.len() && (#[trigger] old_entries[k]).0
                                            == h;
                                    assert(e[k].0 == h);
                                }
                            }
                            assert forall|k: int, l: int| 0 <= k < l < e.len() implies e[k].0
                                < e[l].0 by {
                                assert(old_entries[k].0 < old_entries[l].0);
                            }
                        }
                    } else {
                        by_generation.insert(position, (g, owned_item(item)));
                        proof {
                            let e = entry_views(by_generation@);
                            assert(e =~= old_entries.insert(position as int, (g, item@)));
                            assert forall|k: int| 0 <= k < e.len() implies generation_kept(
                                after,
                                generations@,
                                (#[trigger] e[k]).0,
                            ) && e[k].1 == last_with_generation(after, e[k].0) && item_generation(
                                e[k].1,
                            ) == Some(e[k].0) by {
                                lemma_kept_step(all, generations@, n as int, e[k].0);
                                lemma_last_with_generation_step(all, n as int, e[k].0);
                                if k < position {
                                    assert(e[k] == old_entries[k]);
                                    assert(old_entries[k].0 < g);
                                } else if k > position {
                                    assert(e[k] == old_entries[k - 1]);
                                    assert(old_entries[position as int].0 > g);
                                    if k - 1 > position {
                                        assert(old_entries[position as int].0 < old_entries[k
                                            - 1].0);
                                    }
                                    assert(old_entries[k - 1].0 != g);
                                }
                            }
                            assert forall|h: usize| generation_kept(after, generations@, h) implies exists|
                                k: int,
                            | 0 <= k < e.len() && (#[trigger] e[k]).0 == h by {
                                lemma_kept_step(all, generations@, n as int, h);
                                if h == g {
                                    assert(e[position as int].0 == h);
                                } else {
                                    let k = choose|k: int|
                                        0 <= k < old_entries.len() && (#[trigger] old_entries[k]).0
                                            == h;
                                    if k < position {
                                        assert(e[k].0 == h);
                                    } else {
                                        assert(e[k + 1].0 == h);
                                    }
                                }
                            }
                            assert forall|k: int, l: int| 0 <= k < l < e.len() implies e[k].0
                                < e[l].0 by {
                                if l < position {
                                    assert(old_entries[k].0 < old_entries[l].0);
                                } else if k > position {
                                    assert(old_entries[k - 1].0 < old_entries[l - 1].0);
                                } else if k == position {
                                    assert(old_entries[position as int].0 > g);
                                    if l - 1 > position {
                                        assert(old_entries[position as int].0 < old_entries[l
                                            - 1].0);
                                    }
                                } else if l == position {
                                } else {
                                    assert(old_entries[k].0 < g);
                                    assert(old_entries[position as int].0 > g);
                                    if l - 1 > position {
                                        assert(old_entries[position as int].0 < old_entries[l
                                            - 1].0);
                                    }
                                }
                            }
                        }
                    }
                } else {
                    proof {
                        let e = entry_views(by_generation@);
                        assert forall|k: int| 0 <= k < e.len() implies generation_kept(
                            after,
                            generations@,
                            (#[trigger] e[k]).0,
                        ) && e[k].1 == last_with_generation(after, e[k].0) && item_generation(
                            e[k].1,
                        ) == Some(e[k].0) by {
                            lemma_kept_step(all, generations@, n as int, e[k].0);
                            lemma_last_with_generation_step(all, n as int, e[k].0);
                        }
                        assert forall|h: usize| generation_kept(after, generations@, h) implies exists|
                            k: int,
                        | 0 <= k < e.len() && (#[trigger] e[k]).0 == h by {
                            lemma_kept_step(all, generations@, n as int, h);
                        }
                    }
                }
            },
        }
        n += 1;
    }
    proof {
        assert(all.take(items@.len() as int) =~= all);
    }
    let ghost latest = entry_views(by_generation@);
    let mut kept = plain;
    let mut k: usize = 0;
    while k < by_generation.len()
        invariant
            k <= by_generation.len(),
            latest == entry_views(by_generation@),
            kept@.map_values(|v: Vec<u8>| v@) == plain_items(all) + latest.map_values(
                |e: (usize, Seq<u8>)| e.1,
            ).take(k as int),
        decreases by_generation.len() - k,
    {
        let ghost previous = kept@.map_values(|v: Vec<u8>| v@);
        let entry = owned_item(&by_generation[k].1);
        proof {
            assert(latest[k as int].1 == by_generation@[k as int].1@);
            assert(entry@ == latest[k as int].1);
        }
        kept.push(entry);
        proof {
            let values = latest.map_values(|e: (usize, Seq<u8>)| e.1);
            assert(values.take(k + 1) =~= values.take(k as int).push(latest[k as int].1));
            assert(kept@.map_values(|v: Vec<u8>| v@) =~= previous.push(entry@));
            assert(kept@.map_values(|v: Vec<u8>| v@) =~= plain_items(all) + values.take(k + 1));
        }
        k += 1;
    }
    proof {
        assert(latest.map_values(|e: (usize, Seq<u8>)| e.1).take(latest.len() as int)
            =~= latest.map_values(|e: (usize, Seq<u8>)| e.1));
        assert(items_view(kept@) == plain_items(items_view(items@)) + latest.map_values(
            |e: (usize, Seq<u8>)| e.1,
        ));
        assert(latest_per_generation(latest, items_view(items@), generations@));
    }
    kept
}

} // verus!
