use crate::text::{PLUS, ZERO};
use vstd::prelude::*;

verus! {

/// `byte` is one of the ten decimal digits.
pub open spec fn is_digit(byte: u8) -> bool {
    0x30 <= byte <= 0x39
}

/// Every byte is a decimal digit.
pub open spec fn all_digits(text: Seq<u8>) -> bool {
    forall|i: int| 0 <= i < text.len() ==> is_digit(#[trigger] text[i])
}

/// What a digit counts for; 0 for any other byte.
pub open spec fn digit_value(byte: u8) -> nat {
    if is_digit(byte) {
        (byte - 0x30) as nat
    } else {
        0
    }
}

/// The number that a string of digits denotes; 0 for the empty string.
pub open spec fn decimal_value(digits: Seq<u8>) -> nat
    decreases digits.len(),
{
    if digits.len() == 0 {
        0
    } else {
        10 * decimal_value(digits.drop_last()) + digit_value(digits.last())
    }
}

/// The digits of `value`, without leading zeros; one `0` for zero.
pub open spec fn decimal_digits(value: nat) -> Seq<u8>
    decreases value,
{
    if value < 10 {
        seq![(0x30 + value) as u8]
    } else {
        decimal_digits(value / 10).push((0x30 + value % 10) as u8)
    }
}

/// A weight's text without the sign that it may carry.
pub open spec fn unsigned_part(text: Seq<u8>) -> Seq<u8> {
    if text.len() > 0 && text[0] == PLUS {
        text.skip(1)
    } else {
        text
    }
}

/// The weight that a text denotes: an optional `+`, then at least one digit,
/// and a value that 64 bits hold. `None` for any other text.
pub open spec fn weight_model(text: Seq<u8>) -> Option<nat> {
    let digits = unsigned_part(text);
    if digits.len() > 0 && all_digits(digits) && decimal_value(digits) <= u64::MAX {
        Some(decimal_value(digits))
    } else {
        None
    }
}

/// A prefix of a digit string denotes no more than the whole.
pub proof fn lemma_decimal_prefix(digits: Seq<u8>, n: int)
    requires
        0 <= n <= digits.len(),
    ensures
        decimal_value(digits.take(n)) <= decimal_value(digits),
    decreases digits.len(),
{
    if n == digits.len() {
        assert(digits.take(n) =~= digits);
    } else {
        lemma_decimal_prefix(digits.drop_last(), n);
        assert(digits.drop_last().take(n) =~= digits.take(n));
    }
}

/// The digits of a number are digits, at least one, and denote the number.
pub proof fn lemma_decimal_digits(value: nat)
    ensures
        decimal_digits(value).len() >= 1,
        all_digits(decimal_digits(value)),
        decimal_value(decimal_digits(value)) == value,
    decreases value,
{
    if value < 10 {
        let digits = decimal_digits(value);
        assert(digits.drop_last() =~= Seq::<u8>::empty());
        assert(decimal_value(digits.drop_last()) == 0);
    } else {
        lemma_decimal_digits(value / 10);
        let front = decimal_digits(value / 10);
        let digits = decimal_digits(value);
        assert(digits.drop_last() =~= front);
        assert forall|i: int| 0 <= i < digits.len() implies is_digit(#[trigger] digits[i]) by {
            if i < front.len() {
                assert(digits[i] == front[i]);
            }
        }
    }
}

/// A weight written in decimal reads back as itself.
pub proof fn lemma_weight_round_trip(value: nat)
    requires
        value <= u64::MAX,
    ensures
        weight_model(decimal_digits(value)) == Some(value),
{
    lemma_decimal_digits(value);
    let digits = decimal_digits(value);
    assert(is_digit(digits[0]));
}

/// Reads a weight: an optional `+` and decimal digits.
pub fn parse_weight(text: &[u8]) -> (weight: Option<u64>)
    ensures
        match weight {
            Some(value) => weight_model(text@) == Some(value as nat),
            None => weight_model(text@) is None,
        },
{
    let start: usize = if text.len() > 0 && text[0] == PLUS {
        1
    } else {
        0
    };
    let ghost digits = text@.skip(start as int);
    proof {
        assert(text@.skip(0) =~= text@);
    }
    if start == text.len() {
        return None;
    }
    let mut value: u64 = 0;
    let mut i: usize = start;
    proof {
        assert(digits.take(0) =~= Seq::<u8>::empty());
    }
    while i < text.len()
        invariant
            start <= i <= text.len(),
            digits == text@.skip(start as int),
            digits == unsigned_part(text@),
            all_digits(digits.take(i - start)),
            value == decimal_value(digits.take(i - start)),
        decreases text.len() - i,
    {
        let byte = text[i];
        let ghost seen = digits.take(i - start);
        let ghost next = digits.take(i - start + 1);
        proof {
            assert(next.drop_last() =~= seen);
            assert(next.last() == byte);
            lemma_decimal_prefix(digits, i - start + 1);
        }
        if byte < ZERO || byte > 0x39 {
            proof {
                assert(digits[i - start] == byte);
                assert(!is_digit(digits[i - start]));
            }
            return None;
        }
        let digit: u64 = (byte - ZERO) as u64;
        proof {
            assert(decimal_value(next) == 10 * decimal_value(seen) + digit);
        }
        if value > (u64::MAX - digit) / 10 {
            return None;
        }
        value = value * 10 + digit;
        proof {
            assert forall|k: int| 0 <= k < next.len() implies is_digit(#[trigger] next[k]) by {
                if k < seen.len() {
                    assert(next[k] == seen[k]);
                }
            }
        }
        i += 1;
    }
    proof {
        assert(digits.take(text.len() - start) =~= digits);
    }
    Some(value)
}

/// Appends the decimal digits of `value` to `out`.
pub fn write_decimal(out: &mut Vec<u8>, value: u64)
    ensures
        final(out)@ == old(out)@ + decimal_digits(value as nat),
    decreases value,
{
    if value < 10 {
        out.push(ZERO + (value as u8));
        proof {
            assert(final(out)@ =~= old(out)@ + decimal_digits(value as nat));
        }
    } else {
        write_decimal(out, value / 10);
        out.push(ZERO + ((value % 10) as u8));
        proof {
            assert(out@ =~= old(out)@ + decimal_digits(value as nat));
        }
    }
}

} // verus!
