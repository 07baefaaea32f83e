//! The parallel partitioned generator: the inverse range counter sizes the
//! problem, the value space is split into contiguous sub-ranges, one
//! bounded generator runs per worker, and the ordered worker outputs are
//! concatenated and truncated.

use vstd::prelude::*;

use rayon::iter::{IntoParallelRefIterator, ParallelIterator};

verus! {

use crate::bounded::IntsWithDigitSumInBounds;
use crate::digits::{
    count_below,
    digit_sum,
    lemma_count_below_mono,
    range_terms,
    terms_prefix,
    TERM_SCAN_CAP,
};
use crate::integer::{count_iter_end, generate};
use vstd::arithmetic::div_mod::lemma_fundamental_div_mod;

/// Relies on rayon's `current_num_threads`: the number of threads in the
/// current pool, which is never zero.
#[verifier::external_body]
fn worker_count() -> (r: usize)
    ensures
        1 <= r,
{
    rayon::current_num_threads()
}

/// Relies on rayon's `par_iter().map(..).collect()` over a vector: the
/// closure, a call into this library's verified bounded generator, is
/// applied to every element, and the results are collected in input order.
#[verifier::external_body]
fn run_workers(parts: &Vec<IntsWithDigitSumInBounds>) -> (r: Vec<Vec<u64>>)
    requires
        forall|i: int|
            0 <= i < parts@.len() ==> 1 <= (#[trigger] parts@[i]).sum <= 171
                && parts@[i].start <= parts@[i].end && parts@[i].end <= TERM_SCAN_CAP,
    ensures
        r@.len() == parts@.len(),
        forall|i: int|
            0 <= i < parts@.len() ==> range_terms(
                parts@[i].sum as int,
                parts@[i].start as int,
                parts@[i].end as int,
                (#[trigger] r@[i])@,
            ),
{
    parts.par_iter().map(|part| part.get_ints()).collect()
}

/// The first `iterations` qualifying values, computed by `workers`
/// independent bounded scans over disjoint contiguous sub-ranges of the
/// value space, concatenated in partition order.  The output is the same
/// sequence the sequential generator produces, for any worker count.
pub fn generate_partitioned(sum: u8, iterations: u32, workers: u64) -> (r: Vec<u64>)
    requires
        1 <= sum <= 171,
        workers >= 1,
        count_below(sum as int, TERM_SCAN_CAP as int) >= iterations as int,
    ensures
        terms_prefix(sum as int, iterations as int, r@),
{
    if iterations as u64 / workers <= 100 {
        return generate(sum, iterations);
    }
    let last = count_iter_end(sum, iterations);
    let width = last / workers;
    proof {
        lemma_fundamental_div_mod(last as int, workers as int);
    }
    let mut parts: Vec<IntsWithDigitSumInBounds> = Vec::new();
    let mut w: u64 = 0;
    while w < workers
        invariant
            w <= workers,
            workers >= 1,
            1 <= sum <= 171,
            last <= TERM_SCAN_CAP,
            width == last / workers,
            workers as int * width as int <= last as int,
            parts@.len() == w as int,
            forall|i: int|
                #![trigger parts@[i]]
                0 <= i < w as int ==> {
                    &&& parts@[i].sum == sum
                    &&& parts@[i].start as int == i * width as int
                    &&& parts@[i].end as int == if i == workers as int - 1 {
                        last as int
                    } else {
                        (i + 1) * width as int
                    }
                    &&& parts@[i].start <= parts@[i].end
                    &&& parts@[i].end <= TERM_SCAN_CAP
                },
        decreases workers - w,
    {
        proof {
            assert(w as int * width as int <= (w as int + 1) * width as int <= workers as int
                * width as int) by (nonlinear_arith)
                requires
                    0 <= w as int,
                    w as int + 1 <= workers as int,
                    width as int >= 0,
            ;
        }
        let start_v = w * width;
        let end_v = if w == workers - 1 {
            last
        } else {
            (w + 1) * width
        };
        proof {
            assert(start_v <= end_v);
        }
        parts.push(IntsWithDigitSumInBounds { start: start_v, end: end_v, sum });
        w = w + 1;
    }
    let results = run_workers(&parts);
    let mut out: Vec<u64> = Vec::new();
    let mut k: usize = 0;
    proof {
        assert(count_below(sum as int, 0) == 0);
    }
    while k < results.len()
        invariant
            results@.len() == workers as int,
            workers >= 1,
            1 <= sum <= 171,
            k <= workers,
            last <= TERM_SCAN_CAP,
            width == last / workers,
            count_below(sum as int, TERM_SCAN_CAP as int) >= iterations as int,
            count_below(sum as int, last as int) >= iterations as int,
            forall|i: int|
                #![trigger parts@[i]]
                0 <= i < workers as int ==> {
                    &&& parts@[i].sum == sum
                    &&& parts@[i].start as int == i * width as int
                    &&& parts@[i].end as int == if i == workers as int - 1 {
                        last as int
                    } else {
                        (i + 1) * width as int
                    }
                },
            forall|i: int|
                0 <= i < workers as int ==> range_terms(
                    parts@[i].sum as int,
                    parts@[i].start as int,
                    parts@[i].end as int,
                    (#[trigger] results@[i])@,
                ),
            out@.len() == count_below(
                sum as int,
                if k < workers { k as int * width as int } else { last as int },
            ),
            forall|j: int|
                #![trigger out@[j]]
                0 <= j < out@.len() ==> digit_sum(out@[j] as int) == sum as int && count_below(
                    sum as int,
                    out@[j] as int,
                ) == j,
        decreases workers - k,
    {
        let part_out = &results[k];
        let ghost lo = parts@[k as int].start as int;
        let ghost hi = parts@[k as int].end as int;
        proof {
            assert(range_terms(sum as int, lo, hi, part_out@));
            assert(lo == k as int * width as int);
            assert(out@.len() == count_below(sum as int, lo));
        }
        let mut j: usize = 0;
        while j < part_out.len()
            invariant
                j <= part_out@.len(),
                1 <= sum <= 171,
                range_terms(sum as int, lo, hi, part_out@),
                out@.len() == count_below(sum as int, lo) + j as int,
                forall|jj: int|
                    #![trigger out@[jj]]
                    0 <= jj < out@.len() ==> digit_sum(out@[jj] as int) == sum as int
                        && count_below(sum as int, out@[jj] as int) == jj,
            decreases part_out@.len() - j,
        {
            let x = part_out[j];
            proof {
                assert(digit_sum(x as int) == sum as int);
                assert(count_below(sum as int, x as int) == count_below(sum as int, lo)
                    + j as int);
            }
            out.push(x);
            j = j + 1;
        }
        proof {
            assert(out@.len() == count_below(sum as int, hi));
            if k as int + 1 < workers as int {
                assert(hi == (k as int + 1) * width as int);
            }
        }
        k = k + 1;
    }
    proof {
        lemma_count_below_mono(sum as int, 0, last as int);
    }
    out.truncate(iterations as usize);
    proof {
        assert(out@.len() == iterations as int);
    }
    out
}

/// The parallel generator: sizes the problem with the inverse range
/// counter, splits the value space over the available worker threads, and
/// falls back to the sequential generator when the request is too small
/// for parallelism to pay off.
#[derive(Debug)]
pub struct FullyPar(pub u8);

impl FullyPar {
    /// Builds a parallel generator for target digit sum `value`.
    pub fn new(value: u8) -> (r: Self)
        requires
            1 <= value <= 171,
        ensures
            r.0 == value,
    {
        FullyPar(value)
    }

    /// Builds a parallel generator, rejecting a target sum that is zero or
    /// beyond what a 64-bit value can carry.
    pub fn try_new(value: u8) -> (r: Result<Self, crate::SumSequenceError>)
        ensures
            match r {
                Ok(g) => 1 <= value <= 171 && g.0 == value,
                Err(e) => !(1 <= value <= 171) && e
                    == crate::SumSequenceError::ConfigurationError,
            },
    {
        if value < 1 || value > 171 {
            Err(crate::SumSequenceError::ConfigurationError)
        } else {
            Ok(FullyPar(value))
        }
    }
}

impl crate::traits::SumSequencer for FullyPar {
    open spec fn target(&self) -> int {
        self.0 as int
    }

    fn get_ints(&self, iterations: u32) -> (r: Vec<u64>) {
        let workers = worker_count();
        generate_partitioned(self.0, iterations, workers as u64)
    }
}

} // verus!
