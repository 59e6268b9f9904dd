//! Reading the coordinates of a shot from text: a decimal number from 00 to
//! 99, whose tens digit is the first coordinate and whose units digit the
//! second.
use vstd::prelude::*;
use vstd::string::StringSliceAdditionalSpecFns;
use crate::game::field::XY;

verus! {

/// Why a text gives no coordinates.
#[derive(Clone, Copy, PartialEq, Eq, Structural, Debug)]
pub enum InputError {
    /// The text is empty.
    Empty,
    /// The text holds something that is no decimal digit, or a sign alone.
    InvalidDigit,
    /// The number does not fit in `usize`.
    PosOverflow,
    /// The number is larger than 99.
    OutOfRange,
}

/// The byte is one of the characters `0` to `9`.
pub open spec fn is_digit(b: u8) -> bool {
    48 <= b <= 57
}

/// The text without a leading `+`.
pub open spec fn unsigned(text: Seq<u8>) -> Seq<u8> {
    if text.len() > 0 && text[0] == 43 {
        text.skip(1)
    } else {
        text
    }
}

/// The number that the digits write in base ten.
pub open spec fn decimal(digits: Seq<u8>) -> int
    decreases digits.len(),
{
    if digits.len() == 0 {
        0
    } else {
        10 * decimal(digits.drop_last()) + (digits.last() - 48)
    }
}

/// The first `n` bytes are digits, and the number they write fits in
/// `usize`.
pub open spec fn clean_prefix(digits: Seq<u8>, n: int) -> bool {
    &&& forall|i: int| 0 <= i < n ==> is_digit(#[trigger] digits[i])
    &&& decimal(digits.take(n)) <= usize::MAX
}

/// The text holds, after a clean prefix, a byte that is no digit.
pub open spec fn has_invalid_digit(digits: Seq<u8>) -> bool {
    exists|i: int|
        0 <= i < digits.len() && clean_prefix(digits, i) && !is_digit(#[trigger] digits[i])
}

/// The text holds, after a clean prefix, a digit with which the number no
/// longer fits in `usize`.
pub open spec fn overflows(digits: Seq<u8>) -> bool {
    exists|i: int|
        0 <= i < digits.len() && clean_prefix(digits, i) && is_digit(#[trigger] digits[i])
            && decimal(digits.take(i + 1)) > usize::MAX
}

/// The text writes a number that fits in `usize`: an optional `+`, then at
/// least one decimal digit and nothing else.
pub open spec fn is_number(text: Seq<u8>) -> bool {
    unsigned(text).len() > 0 && clean_prefix(unsigned(text), unsigned(text).len() as int)
}

/// A prefix of digits writes a number that is not negative.
pub proof fn lemma_decimal_nonnegative(digits: Seq<u8>, n: int)
    requires
        0 <= n <= digits.len(),
        forall|k: int| 0 <= k < n ==> is_digit(#[trigger] digits[k]),
    ensures
        0 <= decimal(digits.take(n)),
    decreases n,
{
    if n > 0 {
        lemma_decimal_nonnegative(digits, n - 1);
        let longer = digits.take(n);
        assert(longer.drop_last() =~= digits.take(n - 1));
        assert(longer.last() == digits[n - 1]);
    } else {
        assert(digits.take(0) =~= Seq::<u8>::empty());
    }
}

/// A longer prefix of digits writes no smaller number.
pub proof fn lemma_decimal_grows(digits: Seq<u8>, i: int, j: int)
    requires
        0 <= i <= j <= digits.len(),
        forall|k: int| 0 <= k < j ==> is_digit(#[trigger] digits[k]),
    ensures
        decimal(digits.take(i)) <= decimal(digits.take(j)),
    decreases j - i,
{
    if i < j {
        lemma_decimal_grows(digits, i, j - 1);
        lemma_decimal_nonnegative(digits, j - 1);
        let longer = digits.take(j);
        assert(longer.drop_last() =~= digits.take(j - 1));
        assert(longer.last() == digits[j - 1]);
    }
}

/// A text that writes a number holds no invalid digit and does not
/// overflow.
pub proof fn lemma_number_is_clean(text: Seq<u8>)
    requires
        is_number(text),
    ensures
        !has_invalid_digit(unsigned(text)),
        !overflows(unsigned(text)),
{
    let digits = unsigned(text);
    assert(digits.take(digits.len() as int) =~= digits);
    if overflows(digits) {
        let i = choose|i: int|
            0 <= i < digits.len() && clean_prefix(digits, i) && is_digit(#[trigger] digits[i])
                && decimal(digits.take(i + 1)) > usize::MAX;
        lemma_decimal_grows(digits, i + 1, digits.len() as int);
    }
}

/// Reads a number as `usize::from_str` does: an optional `+`, then at least
/// one decimal digit and nothing else. The first byte that is no digit, or
/// with which the number no longer fits, decides the error.
pub fn parse_number(text: &[u8]) -> (r: Result<usize, InputError>)
    ensures
        is_number(text@) <==> r is Ok,
        match r {
            Ok(n) => text@.len() > 0 && unsigned(text@).len() > 0 && clean_prefix(
                unsigned(text@),
                unsigned(text@).len() as int,
            ) && n == decimal(unsigned(text@)),
            Err(InputError::Empty) => text@.len() == 0,
            Err(InputError::InvalidDigit) => text@.len() > 0 && (unsigned(text@).len() == 0
                || has_invalid_digit(unsigned(text@))),
            Err(InputError::PosOverflow) => overflows(unsigned(text@)),
            Err(InputError::OutOfRange) => false,
        },
{
    if text.len() == 0 {
        return Err(InputError::Empty);
    }
    let start: usize = if text[0] == 43 {
        1
    } else {
        0
    };
    let ghost digits = unsigned(text@);
    if start == text.len() {
        return Err(InputError::InvalidDigit);
    }
    let mut value: usize = 0;
    let mut i: usize = start;
    assert(digits.take(0) =~= Seq::<u8>::empty());
    while i < text.len()
        invariant
            start <= i <= text@.len(),
            start <= 1,
            digits == unsigned(text@),
            digits.len() == text@.len() - start,
            forall|j: int| 0 <= j < digits.len() ==> digits[j] == text@[j + start],
            clean_prefix(digits, i - start),
            value == decimal(digits.take(i - start)),
        decreases text@.len() - i,
    {
        let b: u8 = text[i];
        let ghost k = i - start;
        assert(digits[k] == b);
        proof {
            let longer = digits.take(k + 1);
            assert(longer.drop_last() =~= digits.take(k));
            assert(longer.last() == b);
            if is_number(text@) {
                lemma_number_is_clean(text@);
            }
        }
        if b < 48 || b > 57 {
            return Err(InputError::InvalidDigit);
        }
        let digit: usize = (b - 48) as usize;
        match value.checked_mul(10) {
            None => {
                assert(overflows(digits));
                return Err(InputError::PosOverflow);
            },
            Some(tens) => match tens.checked_add(digit) {
                None => {
                    assert(overflows(digits));
                    return Err(InputError::PosOverflow);
                },
                Some(next) => {
                    value = next;
                },
            },
        }
        i += 1;
    }
    assert(digits.take(digits.len() as int) =~= digits);
    Ok(value)
}

/// Reads the coordinates of a shot from a text without surrounding white
/// space: a number from 0 to 99, written as `parse_number` accepts it.
pub fn parse_coordinates(text: &str) -> (r: Result<XY, InputError>)
    ensures
        is_number(text.spec_bytes()) && decimal(unsigned(text.spec_bytes())) <= 99 <==> r is Ok,
        match r {
            Ok(xy) => {
                let digits = unsigned(text.spec_bytes());
                &&& digits.len() > 0
                &&& clean_prefix(digits, digits.len() as int)
                &&& decimal(digits) <= 99
                &&& xy == XY((decimal(digits) / 10) as usize, (decimal(digits) % 10) as usize)
            },
            Err(InputError::Empty) => text.spec_bytes().len() == 0,
            Err(InputError::InvalidDigit) => text.spec_bytes().len() > 0 && (unsigned(
                text.spec_bytes(),
            ).len() == 0 || has_invalid_digit(unsigned(text.spec_bytes()))),
            Err(InputError::PosOverflow) => overflows(unsigned(text.spec_bytes())),
            Err(InputError::OutOfRange) => {
                let digits = unsigned(text.spec_bytes());
                &&& digits.len() > 0
                &&& clean_prefix(digits, digits.len() as int)
                &&& decimal(digits) > 99
            },
        },
{
    match parse_number(text.as_bytes()) {
        Ok(coordinates) => match XY::from_coordinates(coordinates) {
            Some(xy) => Ok(xy),
            None => Err(InputError::OutOfRange),
        },
        Err(e) => Err(e),
    }
}

} // verus!
