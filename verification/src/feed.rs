//! Deterministic feed validation.
//!
//! An incoming two-dimensional signal (x, y) is accepted only when x is an
//! exact integer multiple of y; the accepted value collapses to the quotient.
//! This rule is independent of the curve codec: it is the decision core of a
//! validation endpoint, kept free of any transport concerns so that the
//! verdict itself can be verified.

use vstd::prelude::*;

verus! {

/// A signal aligns with the grid when y is nonzero and divides x exactly:
/// any remainder is treated as noise and rejected.
pub open spec fn dimensional_integrity(x: u32, y: u32) -> bool {
    y != 0 && x % y == 0
}

/// Decide whether the signal (x, y) aligns with the grid.
pub fn prove_dimensional_integrity(x: u32, y: u32) -> (r: bool)
    ensures
        r == dimensional_integrity(x, y),
{
    if y == 0 {
        return false;
    }
    x % y == 0
}

/// Outcome of validating one feed signal: the collapsed one-dimensional
/// value, and whether the signal was rejected as noise.
#[derive(Clone, Copy, Debug, PartialEq, Eq, Structural)]
pub struct FeedVerdict {
    pub value_1d: u32,
    pub is_hallucinating: bool,
}

/// Validate one feed signal. In deterministic mode the signal is accepted
/// only when it has dimensional integrity, and collapses to the quotient
/// x / y; a misaligned signal is rejected with value 0. Outside deterministic
/// mode the x component passes through unchecked.
pub fn evaluate_feed(x: u32, y: u32, require_deterministic: bool) -> (v: FeedVerdict)
    ensures
        !require_deterministic ==> v == (FeedVerdict { value_1d: x, is_hallucinating: false }),
        require_deterministic && dimensional_integrity(x, y) ==> v == (FeedVerdict {
            value_1d: (x / y) as u32,
            is_hallucinating: false,
        }),
        require_deterministic && !dimensional_integrity(x, y) ==> v == (FeedVerdict {
            value_1d: 0,
            is_hallucinating: true,
        }),
{
    if require_deterministic {
        if prove_dimensional_integrity(x, y) {
            FeedVerdict { value_1d: x / y, is_hallucinating: false }
        } else {
            FeedVerdict { value_1d: 0, is_hallucinating: true }
        }
    } else {
        FeedVerdict { value_1d: x, is_hallucinating: false }
    }
}

} // verus!
