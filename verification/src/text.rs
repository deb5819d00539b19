//! Byte-level text primitives shared by the header, JSON and command-line parsers.
use vstd::prelude::*;
use vstd::utf8::valid_utf8;

verus! {

/// `needle` occurs in `haystack` starting at byte `index`.
pub open spec fn match_at(haystack: Seq<u8>, needle: Seq<u8>, index: int) -> bool {
    &&& 0 <= index
    &&& index + needle.len() <= haystack.len()
    &&& haystack.subrange(index, index + needle.len()) == needle
}

/// `index` is the first occurrence of `needle` at or after `from`.
pub open spec fn is_first_match_from(haystack: Seq<u8>, needle: Seq<u8>, from: int, index: int) -> bool {
    &&& from <= index
    &&& match_at(haystack, needle, index)
    &&& forall|j: int| from <= j < index ==> !#[trigger] match_at(haystack, needle, j)
}

/// The first occurrence of `needle` at or after `from`, as `str::find` reports it.
pub open spec fn find_from(haystack: Seq<u8>, needle: Seq<u8>, from: int) -> Option<int> {
    if exists|index: int| is_first_match_from(haystack, needle, from, index) {
        Some(choose|index: int| is_first_match_from(haystack, needle, from, index))
    } else {
        None
    }
}

pub proof fn lemma_first_match_unique(
    haystack: Seq<u8>,
    needle: Seq<u8>,
    from: int,
    index: int,
)
    requires
        is_first_match_from(haystack, needle, from, index),
    ensures
        find_from(haystack, needle, from) == Some(index),
{
    let other = choose|i: int| is_first_match_from(haystack, needle, from, i);
    if other < index {
        assert(!match_at(haystack, needle, other));
    }
    if index < other {
        assert(!match_at(haystack, needle, index));
    }
}

pub proof fn lemma_no_match(haystack: Seq<u8>, needle: Seq<u8>, from: int)
    requires
        forall|j: int| from <= j ==> !#[trigger] match_at(haystack, needle, j),
    ensures
        find_from(haystack, needle, from) == None::<int>,
{
    if exists|index: int| is_first_match_from(haystack, needle, from, index) {
        let index = choose|index: int| is_first_match_from(haystack, needle, from, index);
        assert(match_at(haystack, needle, index));
    }
}

/// Finds the first occurrence of `needle` in `haystack` at or after `from`.
pub fn find_bytes_from(haystack: &[u8], needle: &[u8], from: usize) -> (found: Option<usize>)
    requires
        needle@.len() > 0,
    ensures
        found == match find_from(haystack@, needle@, from as int) {
            Some(i) => Some(i as usize),
            None => None::<usize>,
        },
        found matches Some(i) ==> is_first_match_from(haystack@, needle@, from as int, i as int),
{
    if needle.len() > haystack.len() {
        proof {
            assert forall|j: int| from <= j implies !#[trigger] match_at(haystack@, needle@, j) by {}
            lemma_no_match(haystack@, needle@, from as int);
        }
        return None;
    }
    let last = haystack.len() - needle.len();
    let mut i = from;
    while i <= last
        invariant
            last == haystack.len() - needle.len(),
            from <= i,
            forall|j: int| from <= j < i ==> !#[trigger] match_at(haystack@, needle@, j),
        decreases last + 1 - i,
    {
        let mut k: usize = 0;
        while k < needle.len() && haystack[i + k] == needle[k]
            invariant
                from <= i <= last,
                forall|j: int| from <= j < i ==> !#[trigger] match_at(haystack@, needle@, j),
                last == haystack.len() - needle.len(),
                k <= needle.len(),
                forall|m: int| 0 <= m < k ==> haystack@[i + m] == needle@[m],
            decreases needle.len() - k,
        {
            k += 1;
        }
        if k == needle.len() {
            proof {
                assert(haystack@.subrange(i as int, i + needle@.len()) =~= needle@);
                assert(match_at(haystack@, needle@, i as int));
                assert(is_first_match_from(haystack@, needle@, from as int, i as int));
                lemma_first_match_unique(haystack@, needle@, from as int, i as int);
            }
            return Some(i);
        }
        proof {
            assert(!match_at(haystack@, needle@, i as int)) by {
                if match_at(haystack@, needle@, i as int) {
                    assert(haystack@.subrange(i as int, i + needle@.len())[k as int] == haystack@[i + k]);
                }
            }
        }
        i += 1;
    }
    proof {
        assert forall|j: int| from <= j implies !#[trigger] match_at(haystack@, needle@, j) by {
            if j > last {
            }
        }
        lemma_no_match(haystack@, needle@, from as int);
    }
    None
}

/// `index` is the first position at or after `from` that holds `byte`.
pub open spec fn is_first_byte_from(s: Seq<u8>, byte: u8, from: int, index: int) -> bool {
    &&& from <= index < s.len()
    &&& s[index] == byte
    &&& forall|j: int| from <= j < index ==> #[trigger] s[j] != byte
}

pub open spec fn first_byte_from(s: Seq<u8>, byte: u8, from: int) -> Option<int> {
    if exists|index: int| is_first_byte_from(s, byte, from, index) {
        Some(choose|index: int| is_first_byte_from(s, byte, from, index))
    } else {
        None
    }
}

/// Finds the first `byte` at or after `from`.
pub fn find_byte_from(s: &[u8], byte: u8, from: usize) -> (found: Option<usize>)
    ensures
        found == match first_byte_from(s@, byte, from as int) {
            Some(i) => Some(i as usize),
            None => None::<usize>,
        },
{
    let mut i = from;
    while i < s.len()
        invariant
            from <= i,
            forall|j: int| from <= j < i && j < s@.len() ==> #[trigger] s@[j] != byte,
        decreases s.len() - i,
    {
        if s[i] == byte {
            proof {
                assert(is_first_byte_from(s@, byte, from as int, i as int));
                let other = choose|index: int| is_first_byte_from(s@, byte, from as int, index);
                if other < i {
                    assert(s@[other] != byte);
                }
                if other > i {
                    assert(s@[i as int] != byte);
                }
            }
            return Some(i);
        }
        i += 1;
    }
    proof {
        if exists|index: int| is_first_byte_from(s@, byte, from as int, index) {
            let index = choose|index: int| is_first_byte_from(s@, byte, from as int, index);
            assert(s@[index] != byte);
        }
    }
    None
}

/// `index` is the last position before `end` that holds `byte`.
pub open spec fn is_last_byte_before(s: Seq<u8>, byte: u8, end: int, index: int) -> bool {
    &&& 0 <= index < end
    &&& index < s.len()
    &&& s[index] == byte
    &&& forall|j: int| index < j < end && j < s.len() ==> #[trigger] s[j] != byte
}

pub open spec fn last_byte_before(s: Seq<u8>, byte: u8, end: int) -> Option<int> {
    if exists|index: int| is_last_byte_before(s, byte, end, index) {
        Some(choose|index: int| is_last_byte_before(s, byte, end, index))
    } else {
        None
    }
}

/// Finds the last `byte` strictly before `end`.
pub fn rfind_byte_before(s: &[u8], byte: u8, end: usize) -> (found: Option<usize>)
    requires
        end <= s.len(),
    ensures
        found == match last_byte_before(s@, byte, end as int) {
            Some(i) => Some(i as usize),
            None => None::<usize>,
        },
{
    let mut i = end;
    while i > 0
        invariant
            i <= end <= s.len(),
            forall|j: int| i <= j < end ==> #[trigger] s@[j] != byte,
        decreases i,
    {
        if s[i - 1] == byte {
            proof {
                let k = (i - 1) as int;
                assert(is_last_byte_before(s@, byte, end as int, k));
                let other = choose|index: int| is_last_byte_before(s@, byte, end as int, index);
                if other < k {
                    assert(s@[k] != byte);
                }
                if other > k {
                    assert(s@[other] != byte);
                }
            }
            return Some(i - 1);
        }
        i -= 1;
    }
    proof {
        if exists|index: int| is_last_byte_before(s@, byte, end as int, index) {
            let index = choose|index: int| is_last_byte_before(s@, byte, end as int, index);
            assert(s@[index] != byte);
        }
    }
    None
}

pub open spec fn is_digit(byte: u8) -> bool {
    48 <= byte <= 57
}

pub open spec fn all_digits(s: Seq<u8>) -> bool {
    forall|i: int| 0 <= i < s.len() ==> is_digit(#[trigger] s[i])
}

/// The number that a run of decimal digits denotes.
pub open spec fn decimal_value(s: Seq<u8>) -> nat
    decreases s.len(),
{
    if s.len() == 0 {
        0
    } else {
        decimal_value(s.drop_last()) * 10 + (s.last() - 48) as nat
    }
}

/// What `usize::from_str` accepts: an optional `+` followed by at least one
/// decimal digit, denoting a value that fits in a `usize`.
pub open spec fn parse_usize_spec(s: Seq<u8>) -> Option<usize> {
    let body = if s.len() > 0 && s[0] == 43 {
        s.drop_first()
    } else {
        s
    };
    if body.len() > 0 && all_digits(body) && decimal_value(body) <= usize::MAX {
        Some(decimal_value(body) as usize)
    } else {
        None
    }
}

/// The same for `u64::from_str`.
pub open spec fn parse_u64_spec(s: Seq<u8>) -> Option<u64> {
    let body = if s.len() > 0 && s[0] == 43 {
        s.drop_first()
    } else {
        s
    };
    if body.len() > 0 && all_digits(body) && decimal_value(body) <= u64::MAX {
        Some(decimal_value(body) as u64)
    } else {
        None
    }
}

proof fn lemma_decimal_take_step(s: Seq<u8>, k: int)
    requires
        0 <= k < s.len(),
    ensures
        decimal_value(s.take(k + 1)) == decimal_value(s.take(k)) * 10 + (s[k] - 48) as nat,
{
    assert(s.take(k + 1).drop_last() =~= s.take(k));
}

proof fn lemma_decimal_take_monotone(s: Seq<u8>, k: int, m: int)
    requires
        0 <= k <= m <= s.len(),
        all_digits(s),
    ensures
        decimal_value(s.take(k)) <= decimal_value(s.take(m)),
    decreases m - k,
{
    if k < m {
        lemma_decimal_take_monotone(s, k, m - 1);
        lemma_decimal_take_step(s, m - 1);
    }
}

/// Reads the decimal number spelled by `s[start..end]`, which holds only digits;
/// `None` when it does not fit in `bound`.
fn digits_value(s: &[u8], start: usize, end: usize, bound: u64) -> (value: Option<u64>)
    requires
        bound >= 9,
        start <= end <= s.len(),
        all_digits(s@.subrange(start as int, end as int)),
    ensures
        ({
            let v = decimal_value(s@.subrange(start as int, end as int));
            match value {
                Some(x) => v <= bound && x == v,
                None => v > bound,
            }
        }),
{
    let ghost digits = s@.subrange(start as int, end as int);
    let mut value: u64 = 0;
    let mut k = start;
    assert(digits.take(0) =~= Seq::<u8>::empty());
    while k < end
        invariant
            start <= k <= end <= s.len(),
            digits == s@.subrange(start as int, end as int),
            all_digits(digits),
            value == decimal_value(digits.take(k - start)),
            value <= bound,
            bound >= 9,
        decreases end - k,
    {
        proof {
            lemma_decimal_take_step(digits, k - start);
            assert(digits[k - start] == s@[k as int]);
        }
        let d = (s[k] - 48) as u64;
        if value > (bound - d) / 10 {
            proof {
                lemma_decimal_take_monotone(digits, k - start + 1, digits.len() as int);
                assert(digits.take(digits.len() as int) =~= digits);
                assert(value * 10 + d > bound) by (nonlinear_arith)
                    requires
                        value > (bound - d) / 10,
                        d <= bound || d > bound,
                        d <= 9,
                ;
            }
            return None;
        }
        proof {
            assert(value * 10 + d <= bound) by (nonlinear_arith)
                requires
                    value <= (bound - d) / 10,
                    d <= bound,
            ;
        }
        value = value * 10 + d;
        k += 1;
    }
    proof {
        assert(digits.take(digits.len() as int) =~= digits);
    }
    Some(value)
}

/// Parses `s` as `usize::from_str` does.
pub fn parse_usize_bytes(s: &[u8]) -> (parsed: Option<usize>)
    ensures
        parsed == parse_usize_spec(s@),
{
    let start: usize = if s.len() > 0 && s[0] == 43 {
        1
    } else {
        0
    };
    let ghost body = s@.subrange(start as int, s@.len() as int);
    proof {
        if start == 1 {
            assert(body =~= s@.drop_first());
        } else {
            assert(body =~= s@);
        }
    }
    if start == s.len() {
        proof {
            assert(body.len() == 0);
        }
        return None;
    }
    let mut k = start;
    while k < s.len()
        invariant
            start <= k <= s.len(),
            body == s@.subrange(start as int, s@.len() as int),
            body == (if s@.len() > 0 && s@[0] == 43 { s@.drop_first() } else { s@ }),
            forall|m: int| start <= m < k ==> is_digit(#[trigger] s@[m]),
        decreases s.len() - k,
    {
        if s[k] < 48 || s[k] > 57 {
            proof {
                assert(body[k - start] == s@[k as int]);
                assert(!is_digit(body[k - start]));
                assert(!all_digits(body));
            }
            return None;
        }
        k += 1;
    }
    proof {
        assert forall|i: int| 0 <= i < body.len() implies is_digit(#[trigger] body[i]) by {
            assert(body[i] == s@[start + i]);
        }
    }
    match digits_value(s, start, s.len(), usize::MAX as u64) {
        Some(v) => Some(v as usize),
        None => None,
    }
}

/// Parses `s` as `u64::from_str` does.
pub fn parse_u64_bytes(s: &[u8]) -> (parsed: Option<u64>)
    ensures
        parsed == parse_u64_spec(s@),
{
    let start: usize = if s.len() > 0 && s[0] == 43 {
        1
    } else {
        0
    };
    let ghost body = s@.subrange(start as int, s@.len() as int);
    proof {
        if start == 1 {
            assert(body =~= s@.drop_first());
        } else {
            assert(body =~= s@);
        }
    }
    if start == s.len() {
        proof {
            assert(body.len() == 0);
        }
        return None;
    }
    let mut k = start;
    while k < s.len()
        invariant
            start <= k <= s.len(),
            body == s@.subrange(start as int, s@.len() as int),
            body == (if s@.len() > 0 && s@[0] == 43 { s@.drop_first() } else { s@ }),
            forall|m: int| start <= m < k ==> is_digit(#[trigger] s@[m]),
        decreases s.len() - k,
    {
        if s[k] < 48 || s[k] > 57 {
            proof {
                assert(body[k - start] == s@[k as int]);
                assert(!is_digit(body[k - start]));
                assert(!all_digits(body));
            }
            return None;
        }
        k += 1;
    }
    proof {
        assert forall|i: int| 0 <= i < body.len() implies is_digit(#[trigger] body[i]) by {
            assert(body[i] == s@[start + i]);
        }
    }
    digits_value(s, start, s.len(), u64::MAX)
}

/// Bytes equal as sequences.
pub fn bytes_equal(left: &[u8], right: &[u8]) -> (equal: bool)
    ensures
        equal == (left@ == right@),
{
    if left.len() != right.len() {
        return false;
    }
    let mut i: usize = 0;
    while i < left.len()
        invariant
            left.len() == right.len(),
            i <= left.len(),
            forall|j: int| 0 <= j < i ==> left@[j] == right@[j],
        decreases left.len() - i,
    {
        if left[i] != right[i] {
            return false;
        }
        i += 1;
    }
    proof {
        assert(left@ =~= right@);
    }
    true
}

/// Copies `s[start..end]` into a new vector.
pub fn copy_range(s: &[u8], start: usize, end: usize) -> (out: Vec<u8>)
    requires
        start <= end <= s.len(),
    ensures
        out@ == s@.subrange(start as int, end as int),
{
    let mut out: Vec<u8> = Vec::new();
    let mut i = start;
    while i < end
        invariant
            start <= i <= end <= s.len(),
            out@ == s@.subrange(start as int, i as int),
        decreases end - i,
    {
        out.push(s[i]);
        proof {
            assert(out@ =~= s@.subrange(start as int, i + 1));
        }
        i += 1;
    }
    out
}

/// Whether `bytes` is well-formed UTF-8, as `std::str::from_utf8` decides.
#[verifier::external_body]
pub(crate) fn utf8_is_valid(bytes: &[u8]) -> (valid: bool)
    ensures
        valid == valid_utf8(bytes@),
{
    std::str::from_utf8(bytes).is_ok()
}

} // verus!
