//! Utility functions.

use vstd::prelude::*;

verus! {

/// `x` limited to the interval from `lb` to `ub`: the greater of `lb` and
/// the lesser of `x` and `ub`. Where the bounds cross, the result is `lb`.
pub open spec fn clip_spec(x: int, lb: int, ub: int) -> int {
    let low = if x <= ub {
        x
    } else {
        ub
    };
    if low >= lb {
        low
    } else {
        lb
    }
}

/// Limits `x` to the interval from `lb` to `ub`.
pub fn clip(x: isize, lb: isize, ub: isize) -> (clipped: isize)
    ensures
        clipped == clip_spec(x as int, lb as int, ub as int),
{
    let low = if x <= ub {
        x
    } else {
        ub
    };
    if low >= lb {
        low
    } else {
        lb
    }
}

} // verus!
