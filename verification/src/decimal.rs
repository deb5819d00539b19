//! Decimal rendering of unsigned numbers, as `format!("{}")` writes them.
use vstd::prelude::*;

use crate::text::{all_digits, decimal_value, is_digit, parse_usize_spec};

verus! {

/// The decimal digits of `n`, most significant first, without leading zeros.
pub open spec fn decimal_digits(n: nat) -> Seq<u8>
    decreases n,
{
    if n < 10 {
        seq![(48 + n) as u8]
    } else {
        decimal_digits(n / 10).push((48 + n % 10) as u8)
    }
}

/// The digits of `n` padded with leading zeros to at least `width` bytes.
pub open spec fn padded_decimal(n: nat, width: nat) -> Seq<u8> {
    let digits = decimal_digits(n);
    if digits.len() < width {
        Seq::new((width - digits.len()) as nat, |i: int| 48u8) + digits
    } else {
        digits
    }
}

/// Appends the decimal digits of `value`.
pub fn push_decimal(buffer: &mut Vec<u8>, value: usize)
    ensures
        final(buffer)@ == old(buffer)@ + decimal_digits(value as nat),
{
    push_decimal_u64(buffer, value as u64);
}

/// Appends the decimal digits of a `u64`.
pub fn push_decimal_u64(buffer: &mut Vec<u8>, value: u64)
    ensures
        final(buffer)@ == old(buffer)@ + decimal_digits(value as nat),
    decreases value,
{
    if value >= 10 {
        push_decimal_u64(buffer, value / 10);
    }
    buffer.push(48u8 + (value % 10) as u8);
    proof {
        if value < 10 {
            assert(final(buffer)@ =~= old(buffer)@ + decimal_digits(value as nat));
        } else {
            assert(final(buffer)@ =~= old(buffer)@ + decimal_digits(value as nat));
        }
    }
}

/// A signed number in decimal: a minus sign before the digits of a negative one.
pub open spec fn signed_decimal(value: int) -> Seq<u8> {
    if value < 0 {
        seq![45u8] + decimal_digits((-value) as nat)
    } else {
        decimal_digits(value as nat)
    }
}

/// Appends `value` in decimal, as `format!("{}")` writes an `i64`.
pub fn push_signed_decimal(buffer: &mut Vec<u8>, value: i64)
    ensures
        final(buffer)@ == old(buffer)@ + signed_decimal(value as int),
{
    if value < 0 {
        buffer.push(45u8);
        let ghost signed = buffer@;
        let magnitude: u64 = if value == i64::MIN {
            0x8000_0000_0000_0000
        } else {
            (-value) as u64
        };
        push_decimal_u64(buffer, magnitude);
        assert(buffer@ =~= old(buffer)@ + signed_decimal(value as int));
    } else {
        push_decimal_u64(buffer, value as u64);
    }
}

proof fn lemma_decimal_digits_len(n: nat)
    ensures
        decimal_digits(n).len() >= 1,
        n < 10 ==> decimal_digits(n).len() == 1,
        n >= 10 ==> decimal_digits(n).len() == decimal_digits(n / 10).len() + 1,
    decreases n,
{
    if n >= 10 {
        lemma_decimal_digits_len(n / 10);
    }
}

/// Appends `value` padded with zeros to `width` digits, as `{:0width$}` does.
pub fn push_padded_decimal(buffer: &mut Vec<u8>, value: usize, width: usize)
    ensures
        final(buffer)@ == old(buffer)@ + padded_decimal(value as nat, width as nat),
{
    let mut digits: Vec<u8> = Vec::new();
    push_decimal(&mut digits, value);
    assert(digits@ =~= decimal_digits(value as nat));
    let ghost start = buffer@;
    let mut padding: usize = 0;
    let missing = if digits.len() < width {
        width - digits.len()
    } else {
        0
    };
    while padding < missing
        invariant
            padding <= missing,
            buffer@ == start + Seq::new(padding as nat, |i: int| 48u8),
        decreases missing - padding,
    {
        buffer.push(48u8);
        proof {
            assert(buffer@ =~= start + Seq::new((padding + 1) as nat, |i: int| 48u8));
        }
        padding += 1;
    }
    let mut k: usize = 0;
    let ghost padded = buffer@;
    while k < digits.len()
        invariant
            k <= digits.len(),
            buffer@ == padded + digits@.take(k as int),
        decreases digits.len() - k,
    {
        buffer.push(digits[k]);
        proof {
            assert(buffer@ =~= padded + digits@.take(k + 1));
        }
        k += 1;
    }
    proof {
        assert(digits@.take(digits@.len() as int) =~= digits@);
        assert(buffer@ =~= start + padded_decimal(value as nat, width as nat));
    }
}

proof fn lemma_decimal_digits_value(n: nat)
    ensures
        all_digits(decimal_digits(n)),
        decimal_value(decimal_digits(n)) == n,
        decimal_digits(n)[0] != 43,
    decreases n,
{
    lemma_decimal_digits_len(n);
    if n >= 10 {
        lemma_decimal_digits_value(n / 10);
        let shorter = decimal_digits(n / 10);
        let digits = decimal_digits(n);
        assert(digits.drop_last() =~= shorter);
        assert forall|i: int| 0 <= i < digits.len() implies is_digit(#[trigger] digits[i]) by {
            if i < shorter.len() {
                assert(digits[i] == shorter[i]);
            }
        }
        assert(digits[0] == shorter[0]);
        vstd::arithmetic::div_mod::lemma_fundamental_div_mod(n as int, 10);
        assert(digits.last() == (48 + n % 10) as u8);
        assert(decimal_value(digits) == decimal_value(shorter) * 10 + (n % 10));
    } else {
        let digits = decimal_digits(n);
        assert(digits.drop_last() =~= Seq::<u8>::empty());
        assert(decimal_value(Seq::<u8>::empty()) == 0);
        assert(decimal_value(digits) == decimal_value(digits.drop_last()) * 10 + (digits.last()
            - 48) as nat);
    }
}

/// Rendering a number in decimal and parsing it back gives the number.
pub proof fn law_decimal_round_trip(n: usize)
    ensures
        parse_usize_spec(decimal_digits(n as nat)) == Some(n),
{
    lemma_decimal_digits_value(n as nat);
    lemma_decimal_digits_len(n as nat);
}

/// Ten to the power `k`.
pub open spec fn pow10(k: nat) -> nat
    decreases k,
{
    if k == 0 {
        1
    } else {
        10 * pow10((k - 1) as nat)
    }
}

proof fn lemma_digits_at_most(n: nat, k: nat)
    requires
        k >= 1,
        n < pow10(k),
    ensures
        decimal_digits(n).len() <= k,
    decreases k,
{
    lemma_decimal_digits_len(n);
    if n >= 10 {
        let k1 = (k - 1) as nat;
        assert(k1 >= 1) by {
            if k1 == 0 {
                assert(pow10(k) == 10 * pow10(0));
            }
        }
        assert(n / 10 < pow10(k1)) by (nonlinear_arith)
            requires
                n < 10 * pow10(k1),
        ;
        lemma_digits_at_most(n / 10, k1);
    }
}

/// A `usize` has at most twenty decimal digits.
pub proof fn lemma_usize_digits(n: usize)
    ensures
        decimal_digits(n as nat).len() <= 20,
{
    assert(pow10(20) == 100000000000000000000nat) by {
        reveal_with_fuel(pow10, 21);
    }
    lemma_digits_at_most(n as nat, 20);
}

} // verus!
