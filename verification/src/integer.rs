//! The jump-ahead enumeration core: the least qualifying value, minimal
//! block completions, the next-term step, the closed-form range counter and
//! its inverse, and the sequential generators built from them.

use vstd::prelude::*;

verus! {

use crate::digits::{
    count_below,
    digit_sum,
    digits_sum,
    lemma_block_count,
    lemma_count_below_empty,
    lemma_count_below_mono,
    lemma_digit_sum_block,
    lemma_digit_sum_nonneg,
    lemma_digit_sum_succ,
    lemma_digit_sum_two,
    lemma_digit_sum_u64_bound,
    lemma_gap_nine,
    lemma_min_digit_sum_shape,
    lemma_next_in_block,
    lemma_pow10_mono,
    pair_count,
    pow10,
    range_count,
    terms_prefix,
    TERM_SCAN_CAP,
};
use vstd::arithmetic::div_mod::{
    lemma_fundamental_div_mod,
    lemma_fundamental_div_mod_converse_div,
    lemma_fundamental_div_mod_converse_mod,
};

/// The minimal amount that must be added to `value` so that the result has
/// digit sum `sum`, assuming the digits of `value` are not disturbed by the
/// addition; zero when the digit sum of `value` already exceeds `sum`.
/// The result is the least non-negative integer whose own digit sum equals
/// the remaining budget, built by filling decimal positions with nines from
/// the least significant end.
pub fn count_addition(sum: u8, value: u64) -> (r: u64)
    requires
        1 <= sum <= 171,
    ensures
        digit_sum(value as int) > sum as int ==> r == 0,
        digit_sum(value as int) <= sum as int ==> {
            &&& digit_sum(r as int) == sum as int - digit_sum(value as int)
            &&& forall|v: int|
                0 <= v < r as int ==> digit_sum(v) != sum as int - digit_sum(value as int)
        },
{
    let ds = digits_sum(value);
    let s = sum as u64;
    proof {
        lemma_digit_sum_nonneg(value as int);
    }
    if s < ds {
        return 0;
    }
    let mut remainder = s - ds;
    let ghost rem0 = remainder as int;
    let mut addition: u64 = 0;
    let mut i: u64 = 1;
    let ghost mut k: nat = 0;
    while remainder != 0
        invariant
            i as int == pow10(k),
            0 <= rem0 <= 171,
            remainder <= rem0,
            remainder != 0 ==> addition as int == pow10(k) - 1 && rem0 == 9 * k + remainder,
            remainder == 0 ==> digit_sum(addition as int) == rem0 && (forall|v: int|
                0 <= v < addition as int ==> digit_sum(v) != rem0),
        decreases remainder,
    {
        proof {
            assert(k <= 18) by {
                if k > 18 {
                    assert(9 * k >= 171);
                }
            }
            lemma_pow10_mono(k, 18);
            lemma_pow10_mono((k + 1) as nat, 19);
            assert(pow10(18) == 1000000000000000000 && pow10(19) == 10000000000000000000) by {
                reveal_with_fuel(pow10, 20);
            }
            assert(pow10((k + 1) as nat) == 10 * pow10(k));
        }
        if remainder >= 9 {
            addition = addition + 9 * i;
            remainder = remainder - 9;
            proof {
                if remainder == 0 {
                    lemma_min_digit_sum_shape((k + 1) as nat, 0);
                }
                k = k + 1;
            }
            i = i * 10;
        } else {
            let d = remainder;
            proof {
                assert(d as int * i as int <= 8 * 1000000000000000000) by (nonlinear_arith)
                    requires
                        0 <= d as int <= 8,
                        0 <= i as int <= 1000000000000000000,
                ;
            }
            addition = addition + d * i;
            remainder = 0;
            proof {
                lemma_min_digit_sum_shape(k, d as int);
                k = k + 1;
            }
            i = i * 10;
        }
    }
    addition
}

/// The smallest positive integer whose digit sum is `sum`: the first term
/// of the sequence.
pub fn get_initial(sum: u8) -> (r: u64)
    requires
        1 <= sum <= 171,
    ensures
        digit_sum(r as int) == sum as int,
        r >= 1,
        count_below(sum as int, r as int) == 0,
{
    let r = count_addition(sum, 0);
    proof {
        assert(digit_sum(0) == 0);
        lemma_count_below_empty(sum as int, 0, r as int);
        assert(r >= 1) by {
            if r == 0 {
                assert(digit_sum(r as int) == 0);
            }
        }
    }
    r
}

/// One step of the carry-corrected running digit-sum tracker: from the
/// digit sum of `p` to the digit sum of `p + 1`, subtracting nine for every
/// trailing nine that rolls over.
fn tracker_step(assumed: u64, p: u64) -> (r: u64)
    requires
        assumed == digit_sum(p as int),
        p < u64::MAX,
    ensures
        r == digit_sum(p as int + 1),
{
    proof {
        lemma_digit_sum_u64_bound(p as int);
    }
    let mut a = assumed + 1;
    let mut elem = p;
    while elem % 10 == 9
        invariant
            a >= 1,
            a as int == digit_sum(elem as int) + 1,
            digit_sum(p as int + 1) == digit_sum(elem as int + 1),
        decreases elem,
    {
        proof {
            lemma_digit_sum_succ(elem as int);
            lemma_digit_sum_nonneg(elem as int / 10);
        }
        a = a - 9;
        elem = elem / 10;
    }
    proof {
        lemma_digit_sum_succ(elem as int);
    }
    a
}

/// How many qualifying values lie in the first `t` offsets of the block of
/// prefix `p`.
fn partial_count(sum: u8, p: u64, t: u64) -> (r: u64)
    requires
        1 <= sum <= 171,
        t <= 100,
        100 * (p as int) + t as int <= u64::MAX,
    ensures
        r as int == count_below(sum as int, 100 * (p as int) + t as int) - count_below(
            sum as int,
            100 * (p as int),
        ),
{
    let s = sum as u64;
    let dsp = digits_sum(p);
    proof {
        lemma_digit_sum_u64_bound(p as int);
    }
    let mut c: u64 = 0;
    let mut cnt: u64 = 0;
    while c < t
        invariant
            c <= t <= 100,
            cnt <= c,
            dsp == digit_sum(p as int),
            dsp <= 180,
            s == sum as u64,
            1 <= s <= 171,
            cnt as int == count_below(s as int, 100 * (p as int) + c as int) - count_below(
                s as int,
                100 * (p as int),
            ),
        decreases t - c,
    {
        proof {
            lemma_digit_sum_block(p as int, c as int);
            assert(count_below(s as int, 100 * (p as int) + c as int + 1) == count_below(
                s as int,
                100 * (p as int) + c as int,
            ) + if digit_sum(100 * (p as int) + c as int) == s as int {
                1int
            } else {
                0int
            });
        }
        if dsp + c / 10 + c % 10 == s {
            cnt = cnt + 1;
        }
        c = c + 1;
    }
    cnt
}

/// Counts the qualifying values in `[start, end)`: whole 100-wide blocks
/// are counted in closed form with the running tracker, and the two partial
/// blocks at the edges are counted directly.
pub fn count_iterations(sum: u8, start: u64, end: u64) -> (r: u64)
    requires
        1 <= sum <= 171,
        start <= end,
    ensures
        r as int == range_count(sum as int, start as int, end as int),
{
    let s = sum as u64;
    let sp = start / 100;
    let ep = end / 100;
    proof {
        lemma_fundamental_div_mod(start as int, 100);
        lemma_fundamental_div_mod(end as int, 100);
    }
    let mut p = sp;
    let mut assumed = digits_sum(sp);
    let mut full: u64 = 0;
    while p < ep
        invariant
            sp <= p <= ep,
            assumed == digit_sum(p as int),
            s == sum as u64,
            1 <= s <= 171,
            100 * (ep as int) <= end as int,
            end <= u64::MAX,
            full as int == count_below(s as int, 100 * (p as int)) - count_below(
                s as int,
                100 * (sp as int),
            ),
        decreases ep - p,
    {
        let block_terms: u64 = if assumed > s {
            0
        } else if s - assumed > 18 {
            0
        } else if s - assumed <= 9 {
            s - assumed + 1
        } else {
            19 - (s - assumed)
        };
        proof {
            lemma_block_count(s as int, p as int);
            assert(block_terms as int == pair_count(s as int - digit_sum(p as int)));
            lemma_count_below_mono(s as int, 100 * (sp as int), 100 * (p as int) + 100);
            lemma_count_below_mono(s as int, 100 * (p as int) + 100, 100 * (ep as int));
        }
        full = full + block_terms;
        assumed = tracker_step(assumed, p);
        p = p + 1;
    }
    let head = partial_count(sum, sp, start % 100);
    let tail = partial_count(sum, ep, end % 100);
    proof {
        lemma_count_below_mono(s as int, 100 * (sp as int), start as int);
        lemma_count_below_mono(s as int, start as int, end as int);
        lemma_count_below_mono(s as int, 100 * (sp as int), end as int);
    }
    full + tail - head
}

/// Inverts the range counter: the smallest multiple of 100 below which at
/// least `iterations` qualifying values lie.  A forward scan over block
/// prefixes accumulates the closed-form per-block counts until the running
/// total reaches the request.
pub fn count_iter_end(sum: u8, iterations: u32) -> (r: u64)
    requires
        1 <= sum <= 171,
        count_below(sum as int, TERM_SCAN_CAP as int) >= iterations as int,
    ensures
        r % 100 == 0,
        r <= TERM_SCAN_CAP,
        count_below(sum as int, r as int) >= iterations as int,
        r >= 100 ==> count_below(sum as int, r as int - 100) < iterations as int,
{
    let s = sum as u64;
    let goal = iterations as u64;
    let mut i: u64 = 0;
    let mut acc: u64 = 0;
    let mut assumed: u64 = 0;
    proof {
        assert(TERM_SCAN_CAP as int == 100 * 184467440737095516);
    }
    while acc < goal
        invariant
            s == sum as u64,
            1 <= s <= 171,
            goal == iterations as u64,
            count_below(s as int, TERM_SCAN_CAP as int) >= goal,
            acc as int == count_below(s as int, 100 * (i as int)),
            assumed == digit_sum(i as int),
            100 * (i as int) <= TERM_SCAN_CAP,
            i >= 1 ==> count_below(s as int, 100 * (i as int) - 100) < goal,
        decreases TERM_SCAN_CAP - 100 * (i as int),
    {
        proof {
            assert(100 * (i as int) < TERM_SCAN_CAP) by {
                if 100 * (i as int) >= TERM_SCAN_CAP {
                    lemma_count_below_mono(
                        s as int,
                        TERM_SCAN_CAP as int,
                        100 * (i as int),
                    );
                }
            }
            assert(100 * (i as int) + 100 <= TERM_SCAN_CAP);
        }
        let block_terms: u64 = if assumed > s {
            0
        } else if s - assumed > 18 {
            0
        } else if s - assumed <= 9 {
            s - assumed + 1
        } else {
            19 - (s - assumed)
        };
        proof {
            lemma_block_count(s as int, i as int);
            assert(block_terms as int == pair_count(s as int - digit_sum(i as int)));
            lemma_count_below_mono(s as int, 0, 100 * (i as int) + 100);
        }
        acc = acc + block_terms;
        assumed = tracker_step(assumed, i);
        i = i + 1;
    }
    proof {
        vstd::arithmetic::div_mod::lemma_mod_multiples_basic(i as int, 100);
    }
    i * 100
}

/// Scans block prefixes upward from `p0`, skipping blocks whose prefix
/// digit sum leaves a residual budget outside `[0, 18]` (such blocks hold
/// no qualifying value), and completes the first feasible block minimally.
/// Returns the least qualifying value at or above `100 * p0` if it lies
/// below `end`.
fn block_scan(sum: u8, p0: u64, end: u64) -> (r: Option<u64>)
    requires
        1 <= sum <= 171,
        end <= TERM_SCAN_CAP,
        100 * (p0 as int) < end as int,
    ensures
        match r {
            Some(x) => {
                &&& 100 * (p0 as int) <= x as int
                &&& (x as int) < end as int
                &&& digit_sum(x as int) == sum as int
                &&& count_below(sum as int, x as int) == count_below(
                    sum as int,
                    100 * (p0 as int),
                )
            },
            None => count_below(sum as int, end as int) == count_below(
                sum as int,
                100 * (p0 as int),
            ),
        },
{
    let s = sum as u64;
    let pend = end / 100;
    proof {
        lemma_fundamental_div_mod(end as int, 100);
    }
    let mut p = p0;
    let mut assumed = digits_sum(p0);
    while assumed > s || s - assumed > 18
        invariant
            s == sum as u64,
            1 <= s <= 171,
            p0 <= p,
            pend == end / 100,
            end <= TERM_SCAN_CAP,
            100 * (pend as int) <= end as int,
            (end as int) < 100 * (pend as int) + 100,
            assumed == digit_sum(p as int),
            100 * (p as int) < end as int,
            count_below(s as int, 100 * (p as int)) == count_below(s as int, 100 * (p0 as int)),
        decreases pend - p,
    {
        proof {
            lemma_block_count(s as int, p as int);
            assert(pair_count(s as int - digit_sum(p as int)) == 0);
        }
        let next_p = p + 1;
        let more = next_p < pend || (next_p == pend && end % 100 != 0);
        proof {
            assert(more <==> 100 * (next_p as int) < end as int);
        }
        if !more {
            proof {
                lemma_count_below_mono(s as int, end as int, 100 * (next_p as int));
                lemma_count_below_mono(s as int, 100 * (p as int), end as int);
            }
            return None;
        }
        assumed = tracker_step(assumed, p);
        p = next_p;
    }
    let res = s - assumed;
    let addition = count_addition(sum, p);
    proof {
        let c0: int = if res <= 9 {
            res as int
        } else {
            10 * (res as int - 9) + 9
        };
        if res > 9 {
            lemma_fundamental_div_mod_converse_div(c0, 10, res as int - 9, 9);
            lemma_fundamental_div_mod_converse_mod(c0, 10, res as int - 9, 9);
        } else {
            lemma_fundamental_div_mod_converse_div(c0, 10, 0, c0);
            lemma_fundamental_div_mod_converse_mod(c0, 10, 0, c0);
        }
        lemma_digit_sum_two(c0);
        assert(digit_sum(c0) == res as int);
        assert(addition as int <= c0);
        assert(100 * (p as int) + 100 <= TERM_SCAN_CAP) by {
            assert(100 * (p as int) < 100 * 184467440737095516);
        }
    }
    let x = p * 100 + addition;
    proof {
        lemma_digit_sum_block(p as int, addition as int);
        lemma_digit_sum_two(addition as int);
        assert(digit_sum(x as int) == s as int);
        assert forall|v: int| 100 * (p as int) <= v < x as int implies digit_sum(v) != s as int by {
            let c = v - 100 * (p as int);
            lemma_digit_sum_block(p as int, c);
            lemma_digit_sum_two(c);
        }
        lemma_count_below_empty(s as int, 100 * (p as int), x as int);
    }
    if x < end {
        Some(x)
    } else {
        proof {
            lemma_count_below_mono(s as int, end as int, x as int);
            lemma_count_below_mono(s as int, 100 * (p as int), end as int);
        }
        None
    }
}

/// From a qualifying value `t`, produce the next qualifying value if it
/// lies below `end`: the cheap `+9` fast path first, then a block scan
/// starting at the block after `t`.
pub(crate) fn next_term_below(sum: u8, t: u64, end: u64) -> (r: Option<u64>)
    requires
        1 <= sum <= 171,
        digit_sum(t as int) == sum as int,
        t < end,
        end <= TERM_SCAN_CAP,
    ensures
        match r {
            Some(x) => {
                &&& t < x
                &&& (x as int) < end as int
                &&& digit_sum(x as int) == sum as int
                &&& count_below(sum as int, x as int) == count_below(sum as int, t as int) + 1
            },
            None => count_below(sum as int, end as int) == count_below(sum as int, t as int) + 1,
        },
{
    let s = sum as u64;
    let candidate = t + 9;
    proof {
        lemma_gap_nine(s as int, t as int);
        assert(count_below(s as int, t as int + 1) == count_below(s as int, t as int) + 1);
    }
    if digits_sum(candidate) == s {
        proof {
            lemma_count_below_empty(s as int, t as int + 1, t as int + 9);
        }
        if candidate < end {
            return Some(candidate);
        } else {
            proof {
                assert(count_below(s as int, candidate as int + 1) == count_below(
                    s as int,
                    candidate as int,
                ) + 1);
                lemma_count_below_mono(s as int, end as int, candidate as int);
                lemma_count_below_mono(s as int, t as int + 1, end as int);
            }
            return None;
        }
    }
    let p0 = t / 100 + 1;
    proof {
        lemma_fundamental_div_mod(t as int, 100);
        assert forall|v: int| t < v < 100 * (p0 as int) implies digit_sum(v) != s as int by {
            if digit_sum(v) == s as int {
                lemma_fundamental_div_mod_converse_div(
                    v,
                    100,
                    t as int / 100,
                    v - 100 * (t as int / 100),
                );
                lemma_next_in_block(s as int, t as int, v);
            }
        }
        lemma_count_below_empty(s as int, t as int + 1, 100 * (p0 as int));
    }
    let pend = end / 100;
    proof {
        lemma_fundamental_div_mod(end as int, 100);
    }
    let more = p0 < pend || (p0 == pend && end % 100 != 0);
    proof {
        assert(more <==> 100 * (p0 as int) < end as int);
    }
    if !more {
        proof {
            lemma_count_below_mono(s as int, end as int, 100 * (p0 as int));
            lemma_count_below_mono(s as int, t as int + 1, end as int);
        }
        return None;
    }
    block_scan(sum, p0, end)
}

/// The next qualifying value strictly above `current`.  The caller
/// guarantees that one more term exists below the scan cap.
pub fn next_term(sum: u8, current: u64) -> (r: u64)
    requires
        1 <= sum <= 171,
        digit_sum(current as int) == sum as int,
        count_below(sum as int, TERM_SCAN_CAP as int) >= count_below(sum as int, current as int)
            + 2,
    ensures
        r > current,
        r < TERM_SCAN_CAP,
        digit_sum(r as int) == sum as int,
        count_below(sum as int, r as int) == count_below(sum as int, current as int) + 1,
{
    proof {
        assert(current < TERM_SCAN_CAP) by {
            if current >= TERM_SCAN_CAP {
                lemma_count_below_mono(sum as int, TERM_SCAN_CAP as int, current as int);
            }
        }
    }
    match next_term_below(sum, current, TERM_SCAN_CAP) {
        Some(x) => x,
        None => {
            proof {
                assert(false);
            }
            0
        },
    }
}

/// The first `iterations` qualifying values, in ascending order: the
/// initial term followed by repeated jump-ahead steps.
pub fn generate(sum: u8, iterations: u32) -> (r: Vec<u64>)
    requires
        1 <= sum <= 171,
        count_below(sum as int, TERM_SCAN_CAP as int) >= iterations as int,
    ensures
        terms_prefix(sum as int, iterations as int, r@),
{
    let mut out: Vec<u64> = Vec::new();
    if iterations == 0 {
        return out;
    }
    let mut t = get_initial(sum);
    out.push(t);
    let mut produced: u32 = 1;
    while produced < iterations
        invariant
            1 <= produced <= iterations,
            out@.len() == produced as int,
            terms_prefix(sum as int, produced as int, out@),
            digit_sum(t as int) == sum as int,
            count_below(sum as int, t as int) == produced as int - 1,
            1 <= sum <= 171,
            count_below(sum as int, TERM_SCAN_CAP as int) >= iterations as int,
        decreases iterations - produced,
    {
        t = next_term(sum, t);
        out.push(t);
        produced = produced + 1;
    }
    out
}

/// The least qualifying value in `[lo, end)`, if any: a linear scan inside
/// the first (possibly partial) block, then the block-skipping scan.
pub(crate) fn first_term_from(sum: u8, lo: u64, end: u64) -> (r: Option<u64>)
    requires
        1 <= sum <= 171,
        lo <= end,
        end <= TERM_SCAN_CAP,
    ensures
        match r {
            Some(x) => {
                &&& lo <= x
                &&& (x as int) < end as int
                &&& digit_sum(x as int) == sum as int
                &&& count_below(sum as int, x as int) == count_below(sum as int, lo as int)
            },
            None => count_below(sum as int, end as int) == count_below(sum as int, lo as int),
        },
{
    let s = sum as u64;
    if lo == end {
        return None;
    }
    let q = lo / 100;
    proof {
        lemma_fundamental_div_mod(lo as int, 100);
        assert(100 * (q as int) + 100 <= TERM_SCAN_CAP) by {
            assert(100 * (q as int) < 100 * 184467440737095516);
        }
    }
    let block_end = q * 100 + 100;
    let lim = if end < block_end {
        end
    } else {
        block_end
    };
    let mut v = lo;
    let mut assumed = digits_sum(lo);
    while v < lim
        invariant
            s == sum as u64,
            1 <= s <= 171,
            lo <= v <= lim,
            lim <= end <= TERM_SCAN_CAP,
            assumed == digit_sum(v as int),
            count_below(s as int, v as int) == count_below(s as int, lo as int),
        decreases lim - v,
    {
        if assumed == s {
            return Some(v);
        }
        proof {
            assert(count_below(s as int, v as int + 1) == count_below(s as int, v as int));
        }
        assumed = tracker_step(assumed, v);
        v = v + 1;
    }
    if v == end {
        return None;
    }
    let p0 = q + 1;
    block_scan(sum, p0, end)
}

/// The jump-ahead generator fixed to target digit sum 13.
#[derive(Debug)]
pub struct WithDigitSum13;

/// The jump-ahead generator for an arbitrary target digit sum.
#[derive(Debug)]
pub struct WithDigitSum(pub u8);

/// A historic variant of the jump-ahead generator; its block scan stops on
/// the same feasibility condition, so it shares the consolidated core.
#[derive(Debug)]
pub struct WithDigitSumAdvanced(pub u8);

/// A historic variant of the jump-ahead generator that inspects the coming
/// block prefixes; consolidated onto the same core.
#[derive(Debug)]
pub struct FutureLooking(pub u8);

/// The brute-force sequential generator: it walks every integer with the
/// running digit-sum tracker.  It exists as a correctness oracle.
#[derive(Debug)]
pub struct SlowSequential(pub u8);

impl WithDigitSum {
    /// Builds a generator for target digit sum `value`.
    pub fn new(value: u8) -> (r: Self)
        requires
            1 <= value <= 171,
        ensures
            r.0 == value,
    {
        WithDigitSum(value)
    }

    /// Builds a generator, rejecting a target sum that is zero or beyond
    /// what a 64-bit value can carry.
    pub fn try_new(value: u8) -> (r: Result<Self, crate::SumSequenceError>)
        ensures
            match r {
                Ok(g) => 1 <= value <= 171 && g.0 == value,
                Err(e) => !(1 <= value <= 171) && e
                    == crate::SumSequenceError::ConfigurationError,
            },
    {
        if value < 1 || value > 171 {
            Err(crate::SumSequenceError::ConfigurationError)
        } else {
            Ok(WithDigitSum(value))
        }
    }
}

impl WithDigitSumAdvanced {
    /// Builds a generator for target digit sum `value`.
    pub fn new(value: u8) -> (r: Self)
        requires
            1 <= value <= 171,
        ensures
            r.0 == value,
    {
        WithDigitSumAdvanced(value)
    }
}

impl FutureLooking {
    /// Builds a generator for target digit sum `value`.
    pub fn new(value: u8) -> (r: Self)
        requires
            1 <= value <= 171,
        ensures
            r.0 == value,
    {
        FutureLooking(value)
    }
}

impl SlowSequential {
    /// Builds a generator for target digit sum `value`.
    pub fn new(value: u8) -> (r: Self)
        requires
            1 <= value <= 171,
        ensures
            r.0 == value,
    {
        SlowSequential(value)
    }
}

impl crate::traits::SumSequencer for WithDigitSum13 {
    open spec fn target(&self) -> int {
        13
    }

    fn get_ints(&self, iterations: u32) -> (r: Vec<u64>) {
        generate(13, iterations)
    }
}

impl crate::traits::SumSequencer for WithDigitSum {
    open spec fn target(&self) -> int {
        self.0 as int
    }

    fn get_ints(&self, iterations: u32) -> (r: Vec<u64>) {
        generate(self.0, iterations)
    }
}

impl crate::traits::SumSequencer for WithDigitSumAdvanced {
    open spec fn target(&self) -> int {
        self.0 as int
    }

    fn get_ints(&self, iterations: u32) -> (r: Vec<u64>) {
        generate(self.0, iterations)
    }
}

impl crate::traits::SumSequencer for FutureLooking {
    open spec fn target(&self) -> int {
        self.0 as int
    }

    fn get_ints(&self, iterations: u32) -> (r: Vec<u64>) {
        generate(self.0, iterations)
    }
}

impl crate::traits::SumSequencer for SlowSequential {
    open spec fn target(&self) -> int {
        self.0 as int
    }

    fn get_ints(&self, iterations: u32) -> (r: Vec<u64>) {
        let s = self.0 as u64;
        let mut out: Vec<u64> = Vec::new();
        let mut v: u64 = 0;
        let mut assumed: u64 = 0;
        while out.len() < iterations as usize
            invariant
                s == self.0 as u64,
                1 <= s <= 171,
                assumed == digit_sum(v as int),
                out@.len() == count_below(s as int, v as int),
                out@.len() <= iterations as int,
                count_below(s as int, TERM_SCAN_CAP as int) >= iterations as int,
                v <= TERM_SCAN_CAP,
                forall|j: int|
                    #![trigger out@[j]]
                    0 <= j < out@.len() ==> digit_sum(out@[j] as int) == s as int && count_below(
                        s as int,
                        out@[j] as int,
                    ) == j,
            decreases TERM_SCAN_CAP - v,
        {
            proof {
                assert(v < TERM_SCAN_CAP) by {
                    if v >= TERM_SCAN_CAP {
                        lemma_count_below_mono(s as int, TERM_SCAN_CAP as int, v as int);
                    }
                }
                assert(count_below(s as int, v as int + 1) == count_below(s as int, v as int)
                    + if digit_sum(v as int) == s as int {
                    1int
                } else {
                    0int
                });
            }
            if assumed == s {
                out.push(v);
            }
            assumed = tracker_step(assumed, v);
            v = v + 1;
        }
        out
    }
}

} // verus!
