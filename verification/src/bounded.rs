//! Enumeration restricted to an explicit half-open interval: the generator
//! finds its own anchor inside the interval and then drives the same
//! jump-ahead step as the unbounded generator, stopping at the upper bound.

use vstd::prelude::*;

verus! {

use crate::digits::{count_below, digit_sum, range_terms, TERM_SCAN_CAP};
use crate::integer::{first_term_from, next_term_below};

/// The qualifying values inside `[start, end)` for target digit sum `sum`.
#[derive(Debug)]
pub struct IntsWithDigitSumInBounds {
    pub start: u64,
    pub end: u64,
    pub sum: u8,
}

impl IntsWithDigitSumInBounds {
    /// All qualifying values in `[start, end)`, in ascending order.
    pub fn get_ints(&self) -> (r: Vec<u64>)
        requires
            1 <= self.sum <= 171,
            self.start <= self.end,
            self.end <= TERM_SCAN_CAP,
        ensures
            range_terms(self.sum as int, self.start as int, self.end as int, r@),
    {
        let sum = self.sum;
        let start = self.start;
        let end = self.end;
        let mut out: Vec<u64> = Vec::new();
        let mut t: u64;
        match first_term_from(sum, start, end) {
            None => {
                return out;
            },
            Some(x) => {
                t = x;
            },
        }
        out.push(t);
        loop
            invariant
                1 <= sum <= 171,
                start <= end,
                end <= TERM_SCAN_CAP,
                out@.len() >= 1,
                digit_sum(t as int) == sum as int,
                start <= t,
                (t as int) < end as int,
                count_below(sum as int, t as int) + 1 == count_below(sum as int, start as int)
                    + out@.len(),
                forall|j: int|
                    #![trigger out@[j]]
                    0 <= j < out@.len() ==> start <= out@[j] && (out@[j] as int) < end as int
                        && digit_sum(out@[j] as int) == sum as int && count_below(
                        sum as int,
                        out@[j] as int,
                    ) == count_below(sum as int, start as int) + j,
            ensures
                range_terms(sum as int, start as int, end as int, out@),
            decreases end - t,
        {
            match next_term_below(sum, t, end) {
                None => {
                    break ;
                },
                Some(x) => {
                    t = x;
                    out.push(x);
                },
            }
        }
        out
    }
}

} // verus!
