//! The centroid parity bit: one digit, 0 or 1, seeded from a timestamp and
//! flipped each time a move passes through the virtual centre node.

use vstd::prelude::*;

verus! {

/// A parity digit; the values in use are 0 and 1.
pub type CentroidDigit = u8;

/// The parity of a millisecond timestamp.
pub open spec fn spec_centroid_now(ts_ms: u64) -> u8 {
    (ts_ms % 2) as u8
}

/// The other parity digit.
pub open spec fn spec_flip_digit(d: u8) -> u8 {
    (1 - d) as u8
}

/// Seeds the digit from the low bit of `ts_ms`.
pub fn centroid_now(ts_ms: u64) -> (d: CentroidDigit)
    ensures
        d == spec_centroid_now(ts_ms),
        d <= 1,
        d == 1 <==> ts_ms % 2 == 1,
{
    (ts_ms % 2) as u8
}

/// Flips a parity digit: 0 becomes 1 and 1 becomes 0.
pub fn flip_digit(d: CentroidDigit) -> (r: CentroidDigit)
    requires
        d <= 1,
    ensures
        r == spec_flip_digit(d),
        r <= 1,
        r != d,
{
    1 - d
}

/// Flipping twice gives the digit back.
pub proof fn lemma_flip_involution(d: u8)
    requires
        d <= 1,
    ensures
        spec_flip_digit(spec_flip_digit(d)) == d,
{
}

} // verus!
