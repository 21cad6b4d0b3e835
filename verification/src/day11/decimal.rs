//! The numbers of a description: decimal, and no larger than 64 bits hold.

use crate::text::{all_digits, decimal, digits_end, lemma_digits_end};
use vstd::prelude::*;
use vstd::slice::slice_subrange;

verus! {

/// The number that a text of digits writes, if the text is not empty and the
/// number fits in 64 bits.
pub open spec fn checked_decimal(digits: Seq<u8>) -> Option<u64> {
    if digits.len() > 0 && decimal(digits) <= u64::MAX {
        Some(decimal(digits) as u64)
    } else {
        None
    }
}

/// The number written at `i`, with the position behind its last digit, if
/// a digit stands at `i` and the number fits in 64 bits.
pub open spec fn number_at(s: Seq<u8>, i: int) -> Option<(u64, int)> {
    let end = digits_end(s, i);
    if i < end && decimal(s.subrange(i, end)) <= u64::MAX {
        Some((decimal(s.subrange(i, end)) as u64, end))
    } else {
        None
    }
}

/// Calls `atoi::atoi::<u64>`. For a text of digits only, the crate reads the
/// digits as a decimal number, most significant digit first, leading zeros
/// allowed; it gives `None` for the empty text and for a number that does
/// not fit in 64 bits.
#[verifier::external_body]
fn atoi_u64(text: &[u8]) -> (r: Option<u64>)
    requires
        all_digits(text@),
    ensures
        r == checked_decimal(text@),
{
    atoi::atoi::<u64>(text)
}

/// Reads the number written at `i`.
pub fn number(input: &[u8], i: usize) -> (r: Option<(u64, usize)>)
    requires
        i <= input@.len(),
    ensures
        match number_at(input@, i as int) {
            Some((value, end)) => {
                &&& r matches Some((v, e))
                &&& v == value
                &&& e == end
                &&& i < end <= input@.len()
            },
            None => r is None,
        },
{
    let mut end = i;
    while end < input.len() && input[end] >= 0x30 && input[end] <= 0x39
        invariant
            i <= end <= input@.len(),
            digits_end(input@, i as int) == digits_end(input@, end as int),
        decreases input@.len() - end,
    {
        end += 1;
    }
    proof {
        lemma_digits_end(input@, i as int);
    }
    let digits = slice_subrange(input, i, end);
    match atoi_u64(digits) {
        Some(value) => Some((value, end)),
        None => None,
    }
}

} // verus!
