//! Enumeration of the positive integers whose decimal digit sum equals a
//! fixed target, in ascending order, without scanning every integer:
//! a jump-ahead generator, a closed-form range counter, its inverse, and a
//! parallel partitioned generator built on top of them.

pub mod bounded;
pub mod digits;
pub mod integer;
pub mod laws;
pub mod parallel;
pub mod traits;
pub mod utils;

use vstd::prelude::*;

verus! {

use crate::digits::{count_below, range_count, TERM_SCAN_CAP};

/// Sum of two numbers, guarded against overflow.
pub fn add(left: u64, right: u64) -> (r: u64)
    requires
        left + right <= u64::MAX,
    ensures
        r == left + right,
{
    left + right
}

/// What can go wrong when a generator or counter is asked something
/// unanswerable.
#[derive(Clone, Copy, Debug, PartialEq, Eq, Structural)]
pub enum SumSequenceError {
    /// The target digit sum is zero or exceeds what a 64-bit value can
    /// carry.
    ConfigurationError,
    /// The lower bound of a range lies above its upper bound.
    RangeOrderError,
}

/// Counts the qualifying values in `[start, end)`, rejecting an invalid
/// target sum and a reversed range.
pub fn count_in_range(sum: u8, start: u64, end: u64) -> (r: Result<u64, SumSequenceError>)
    ensures
        match r {
            Ok(c) => 1 <= sum <= 171 && start <= end && c as int == range_count(
                sum as int,
                start as int,
                end as int,
            ),
            Err(e) => {
                &&& (e == SumSequenceError::ConfigurationError <==> !(1 <= sum <= 171))
                &&& (e == SumSequenceError::RangeOrderError <==> 1 <= sum <= 171 && start > end)
            },
        },
{
    if sum < 1 || sum > 171 {
        return Err(SumSequenceError::ConfigurationError);
    }
    if start > end {
        return Err(SumSequenceError::RangeOrderError);
    }
    Ok(crate::integer::count_iterations(sum, start, end))
}

/// The inverse sizing oracle: the smallest multiple-of-100 upper bound
/// below which at least `count` qualifying values lie.  The bound may
/// still cover more terms than requested; callers truncate.
pub fn bound_for(sum: u8, count: u32) -> (r: u64)
    requires
        1 <= sum <= 171,
        count_below(sum as int, TERM_SCAN_CAP as int) >= count as int,
    ensures
        r % 100 == 0,
        range_count(sum as int, 0, r as int) >= count as int,
        r >= 100 ==> range_count(sum as int, 0, r as int - 100) < count as int,
{
    crate::integer::count_iter_end(sum, count)
}

} // verus!
