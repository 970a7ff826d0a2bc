//! Unsigned decimal numbers.
use crate::vectorize::is_digit;
use vstd::arithmetic::power::{lemma_pow0, pow};
use vstd::prelude::*;
use vstd::utf8::encode_utf8;

verus! {

/// The number that a row of digits stands for.
pub open spec fn decimal(b: Seq<u8>) -> nat
    decreases b.len(),
{
    if b.len() == 0 {
        0
    } else {
        10 * decimal(b.drop_last()) + (b.last() - 0x30) as nat
    }
}

/// The digits of an unsigned number: everything but a leading plus sign.
pub open spec fn unsigned_digits(b: Seq<u8>) -> Seq<u8> {
    if b.len() > 0 && b[0] == 0x2b {
        b.drop_first()
    } else {
        b
    }
}

/// An unsigned number: digits, at least one, after an optional plus sign.
pub open spec fn is_unsigned(b: Seq<u8>) -> bool {
    let digits = unsigned_digits(b);
    digits.len() > 0 && forall|i: int| 0 <= i < digits.len() ==> is_digit(#[trigger] digits[i])
}

/// The unsigned number that a string stands for, up to `u64::MAX`.
pub open spec fn unsigned_of(s: Seq<char>) -> Option<u64> {
    let b = encode_utf8(s);
    if is_unsigned(b) && decimal(unsigned_digits(b)) <= u64::MAX {
        Some(decimal(unsigned_digits(b)) as u64)
    } else {
        None
    }
}

proof fn lemma_decimal_monotone(b: Seq<u8>, k: int)
    requires
        0 <= k <= b.len(),
        forall|i: int| 0 <= i < b.len() ==> is_digit(#[trigger] b[i]),
    ensures
        decimal(b.take(k)) <= decimal(b),
    decreases b.len() - k,
{
    if k < b.len() {
        lemma_decimal_monotone(b, k + 1);
        assert(b.take(k + 1).drop_last() =~= b.take(k));
        assert(is_digit(b[k]));
    } else {
        assert(b.take(k) =~= b);
    }
}

/// Reads an unsigned number: digits after an optional plus sign.
pub fn parse_u64(s: &str) -> (number: Option<u64>)
    ensures
        number == unsigned_of(s@),
{
    let bytes = s.as_bytes();
    let ghost b = encode_utf8(s@);
    let ghost digits = unsigned_digits(b);
    let start: usize = if bytes.len() > 0 && bytes[0] == 0x2b {
        1
    } else {
        0
    };
    if start == bytes.len() {
        return None;
    }
    let mut value: u64 = 0;
    let mut large: bool = false;
    let mut i: usize = start;
    assert(digits.take(0) =~= Seq::<u8>::empty());
    while i < bytes.len()
        invariant
            bytes@ == b,
            b == encode_utf8(s@),
            start <= i <= b.len(),
            start <= 1,
            digits.len() == b.len() - start,
            forall|k: int| 0 <= k < digits.len() ==> digits[k] == #[trigger] b[k + start],
            digits == unsigned_digits(b),
            forall|k: int| 0 <= k < i - start ==> is_digit(#[trigger] digits[k]),
            !large ==> value == decimal(digits.take(i - start)),
            large ==> exists|k: int|
                0 <= k <= i - start && decimal(#[trigger] digits.take(k)) > u64::MAX,
        decreases bytes.len() - i,
    {
        let digit: u8 = bytes[i];
        let ghost at = i - start;
        assert(digits[at] == b[at + start]);
        if digit < 0x30 || digit > 0x39 {
            assert(!is_digit(digits[at]));
            return None;
        }
        assert(digits.take(at + 1).drop_last() =~= digits.take(at));
        if !large {
            let grown: u128 = value as u128 * 10 + (digit - 0x30) as u128;
            if grown <= u64::MAX as u128 {
                value = grown as u64;
            } else {
                large = true;
                assert(decimal(digits.take(at + 1)) > u64::MAX);
            }
        }
        i = i + 1;
    }
    assert(digits.take(digits.len() as int) =~= digits);
    if large {
        proof {
            let k = choose|k: int|
                0 <= k <= digits.len() && decimal(#[trigger] digits.take(k)) > u64::MAX;
            lemma_decimal_monotone(digits, k);
        }
        None
    } else {
        Some(value)
    }
}

/// What digits stand for: nothing for zero, and a digit in front for itself as
/// often as its place says.
pub proof fn law_places_of_digits(d: u8, b: Seq<u8>)
    requires
        0x30 <= d <= 0x39,
    ensures
        decimal(Seq::<u8>::empty()) == 0,
        decimal(seq![d] + b) == (d - 0x30) * pow(10, b.len()) + decimal(b),
    decreases b.len(),
{
    let all = seq![d] + b;
    if b.len() == 0 {
        lemma_pow0(10);
        assert(all.drop_last() =~= Seq::<u8>::empty());
        assert(all.last() == d);
    } else {
        law_places_of_digits(d, b.drop_last());
        assert(all.drop_last() =~= seq![d] + b.drop_last());
        assert(all.last() == b.last());
        reveal(pow);
        assert(pow(10, b.len()) == 10 * pow(10, (b.len() - 1) as nat));
        let x: int = d - 0x30;
        let y = pow(10, (b.len() - 1) as nat);
        assert(10 * (x * y) == x * (10 * y)) by (nonlinear_arith);
    }
}

/// Which strings are numbers: digits, at least one, after a plus sign or none,
/// as long as what they stand for is below two to the 64th.
pub proof fn law_numbers(s: Seq<char>)
    ensures
        ({
            let b = encode_utf8(s);
            let start: int = if b.len() > 0 && b[0] == 0x2b {
                1
            } else {
                0
            };
            let number = b.len() > start && (forall|i: int|
                start <= i < b.len() ==> 0x30 <= #[trigger] b[i] <= 0x39) && decimal(b.skip(start))
                < 0x1_0000_0000_0000_0000;
            &&& unsigned_of(s) is Some <==> number
            &&& number ==> unsigned_of(s)->0 == decimal(b.skip(start))
        }),
{
    let b = encode_utf8(s);
    let digits = unsigned_digits(b);
    let start: int = if b.len() > 0 && b[0] == 0x2b {
        1
    } else {
        0
    };
    assert(b.skip(start) =~= digits);
    if is_unsigned(b) {
        assert forall|i: int| start <= i < b.len() implies 0x30 <= #[trigger] b[i] <= 0x39 by {
            assert(is_digit(digits[i - start]));
        }
    }
    if b.len() > start && (forall|i: int|
        start <= i < b.len() ==> 0x30 <= #[trigger] b[i] <= 0x39) {
        assert forall|i: int| 0 <= i < digits.len() implies is_digit(#[trigger] digits[i]) by {
            assert(digits[i] == b[i + start]);
        }
    }
}

/// A number is read where the string is one, as what its digits stand for.
pub proof fn law_numbers_are_read(s: &str, number: Option<u64>)
    requires
        call_ensures(parse_u64, (s,), number),
    ensures
        ({
            let b = encode_utf8(s@);
            let start: int = if b.len() > 0 && b[0] == 0x2b {
                1
            } else {
                0
            };
            let is_number = b.len() > start && (forall|i: int|
                start <= i < b.len() ==> 0x30 <= #[trigger] b[i] <= 0x39) && decimal(b.skip(start))
                < 0x1_0000_0000_0000_0000;
            &&& number is Some <==> is_number
            &&& number is Some ==> number->0 == decimal(b.skip(start))
        }),
{
    law_numbers(s@);
}

} // verus!
