//! The mathematical model of the library: the decimal digit sum of an
//! integer, the number of qualifying integers below a bound, and the
//! closed-form count of two-digit completions, together with the lemmas
//! that relate them.

use vstd::prelude::*;

verus! {

use vstd::arithmetic::div_mod::{
    lemma_fundamental_div_mod,
    lemma_fundamental_div_mod_converse_div,
    lemma_fundamental_div_mod_converse_mod,
};

/// Sum of the decimal digits of `n` (defined as 0 for `n <= 0`).
pub open spec fn digit_sum(n: int) -> int
    decreases n,
{
    if n <= 0 {
        0
    } else {
        n % 10 + digit_sum(n / 10)
    }
}

/// `10^k`.
pub open spec fn pow10(k: nat) -> int
    decreases k,
{
    if k == 0 {
        1
    } else {
        10 * pow10((k - 1) as nat)
    }
}

/// How many integers `v` with `0 <= v < n` have `digit_sum(v) == s`.
pub open spec fn count_below(s: int, n: int) -> int
    decreases n,
{
    if n <= 0 {
        0
    } else {
        count_below(s, n - 1) + if digit_sum(n - 1) == s {
            1int
        } else {
            0int
        }
    }
}

/// How many ordered digit pairs `(a, b)` with `a, b` in `[0, 9]` satisfy
/// `a + b == r`: the number of qualifying values inside one 100-wide block
/// whose prefix leaves a residual budget of `r`.
pub open spec fn pair_count(r: int) -> int {
    if r < 0 || r > 18 {
        0
    } else if r <= 9 {
        r + 1
    } else {
        19 - r
    }
}

pub proof fn lemma_digit_sum_nonneg(n: int)
    ensures
        digit_sum(n) >= 0,
    decreases n,
{
    if n > 0 {
        lemma_digit_sum_nonneg(n / 10);
    }
}

/// A single digit is its own digit sum.
pub proof fn lemma_digit_sum_single(n: int)
    requires
        0 <= n <= 9,
    ensures
        digit_sum(n) == n,
{
    if n >= 1 {
        lemma_fundamental_div_mod_converse_mod(n, 10, 0, n);
        lemma_fundamental_div_mod_converse_div(n, 10, 0, n);
        assert(digit_sum(0) == 0);
    }
}

pub proof fn lemma_pow10_pos(k: nat)
    ensures
        pow10(k) >= 1,
    decreases k,
{
    if k > 0 {
        lemma_pow10_pos((k - 1) as nat);
    }
}

/// Placing the digits of `b` (at most `k` of them) after the digits of `a`
/// adds the two digit sums.
pub proof fn lemma_digit_sum_concat(a: int, k: nat, b: int)
    requires
        a >= 0,
        0 <= b < pow10(k),
    ensures
        digit_sum(a * pow10(k) + b) == digit_sum(a) + digit_sum(b),
    decreases k,
{
    if k == 0 {
        assert(b == 0);
        assert(a * 1 + 0 == a);
    } else {
        let p1 = pow10((k - 1) as nat);
        lemma_pow10_pos((k - 1) as nat);
        assert(pow10(k) == 10 * p1);
        lemma_fundamental_div_mod(b, 10);
        let bq = b / 10;
        let br = b % 10;
        assert(b == 10 * bq + br);
        let x = a * pow10(k) + b;
        assert(x == (a * p1 + bq) * 10 + br) by (nonlinear_arith)
            requires
                x == a * (10 * p1) + b,
                b == 10 * bq + br,
        ;
        assert(bq < p1) by (nonlinear_arith)
            requires
                b < 10 * p1,
                b == 10 * bq + br,
                0 <= br < 10,
                p1 >= 1,
        ;
        assert(a * p1 + bq >= 0) by (nonlinear_arith)
            requires
                a >= 0,
                p1 >= 1,
                bq >= 0,
        ;
        lemma_fundamental_div_mod_converse_div(x, 10, a * p1 + bq, br);
        lemma_fundamental_div_mod_converse_mod(x, 10, a * p1 + bq, br);
        assert(x / 10 == a * p1 + bq);
        assert(x % 10 == br);
        lemma_digit_sum_concat(a, (k - 1) as nat, bq);
        if x > 0 {
            assert(digit_sum(x) == br + digit_sum(a * p1 + bq));
        } else {
            assert(a == 0 && b == 0) by (nonlinear_arith)
                requires
                    x == a * (10 * p1) + b,
                    x <= 0,
                    a >= 0,
                    b >= 0,
                    p1 >= 1,
            ;
        }
        if b > 0 {
            assert(digit_sum(b) == br + digit_sum(bq));
        } else {
            assert(bq == 0 && br == 0);
        }
    }
}

/// The digit sum of a value inside the block of `p` splits into the digit
/// sum of the prefix and the pair sum of the two low digits.
pub proof fn lemma_digit_sum_block(p: int, c: int)
    requires
        p >= 0,
        0 <= c < 100,
    ensures
        digit_sum(100 * p + c) == digit_sum(p) + c / 10 + c % 10,
{
    assert(pow10(2) == 100) by {
        reveal_with_fuel(pow10, 3);
    }
    lemma_digit_sum_concat(p, 2, c);
    assert(p * 100 == 100 * p) by (nonlinear_arith);
    lemma_digit_sum_two(c);
}

/// For a two-digit value the digit sum is the pair sum.
pub proof fn lemma_digit_sum_two(c: int)
    requires
        0 <= c < 100,
    ensures
        digit_sum(c) == c / 10 + c % 10,
{
    if c > 0 {
        lemma_digit_sum_single(c / 10);
    }
}

/// How the digit sum changes when a value is incremented: it grows by one,
/// except that every trailing nine rolls over and gives nine back.
pub proof fn lemma_digit_sum_succ(n: int)
    requires
        n >= 0,
    ensures
        n % 10 != 9 ==> digit_sum(n + 1) == digit_sum(n) + 1,
        n % 10 == 9 ==> digit_sum(n + 1) == digit_sum(n / 10 + 1) && digit_sum(n) == digit_sum(n / 10) + 9,
        digit_sum(n + 1) <= digit_sum(n) + 1,
    decreases n,
{
    lemma_fundamental_div_mod(n, 10);
    let q = n / 10;
    let r = n % 10;
    if r != 9 {
        lemma_fundamental_div_mod_converse_div(n + 1, 10, q, r + 1);
        lemma_fundamental_div_mod_converse_mod(n + 1, 10, q, r + 1);
        assert(digit_sum(n + 1) == r + 1 + digit_sum(q));
        if n > 0 {
            assert(digit_sum(n) == r + digit_sum(q));
        } else {
            assert(n == 0);
            assert(digit_sum(1) == 1) by {
                lemma_digit_sum_single(1);
            }
        }
    } else {
        lemma_fundamental_div_mod_converse_div(n + 1, 10, q + 1, 0);
        lemma_fundamental_div_mod_converse_mod(n + 1, 10, q + 1, 0);
        assert(digit_sum(n + 1) == 0 + digit_sum(q + 1));
        assert(digit_sum(n) == 9 + digit_sum(q));
        lemma_digit_sum_succ(q);
    }
}

/// A value below `10^k` has digit sum at most `9k`, and only the all-nines
/// value reaches that maximum.
pub proof fn lemma_digit_sum_max(k: nat, v: int)
    requires
        0 <= v < pow10(k),
    ensures
        digit_sum(v) <= 9 * k,
        digit_sum(v) == 9 * k ==> v == pow10(k) - 1,
    decreases k,
{
    if k == 0 {
        assert(v == 0);
    } else {
        let p1 = pow10((k - 1) as nat);
        lemma_pow10_pos((k - 1) as nat);
        assert(pow10(k) == 10 * p1);
        lemma_fundamental_div_mod(v, 10);
        let q = v / 10;
        let r = v % 10;
        assert(q < p1) by (nonlinear_arith)
            requires
                v < 10 * p1,
                v == 10 * q + r,
                0 <= r < 10,
                p1 >= 1,
        ;
        lemma_digit_sum_max((k - 1) as nat, q);
        if v > 0 {
            assert(digit_sum(v) == r + digit_sum(q));
        } else {
            lemma_digit_sum_nonneg(v);
        }
        if digit_sum(v) == 9 * k {
            assert(r == 9 && digit_sum(q) == 9 * (k - 1));
            assert(q == p1 - 1);
            assert(v == 10 * (p1 - 1) + 9);
        }
    }
}

/// The all-nines value `10^m - 1` has digit sum `9m`.
pub proof fn lemma_digit_sum_nines(m: nat)
    ensures
        digit_sum(pow10(m) - 1) == 9 * m,
    decreases m,
{
    if m > 0 {
        let p1 = pow10((m - 1) as nat);
        lemma_pow10_pos((m - 1) as nat);
        assert(pow10(m) == 10 * p1);
        let v = 10 * p1 - 1;
        lemma_fundamental_div_mod_converse_div(v, 10, p1 - 1, 9);
        lemma_fundamental_div_mod_converse_mod(v, 10, p1 - 1, 9);
        assert(digit_sum(v) == 9 + digit_sum(p1 - 1));
        lemma_digit_sum_nines((m - 1) as nat);
    }
}

/// Counting is monotone, and a range of width `w` holds at most `w`
/// qualifying values.
pub proof fn lemma_count_below_mono(s: int, a: int, b: int)
    requires
        a <= b,
    ensures
        count_below(s, a) <= count_below(s, b),
        count_below(s, b) - count_below(s, a) <= b - a,
    decreases b - a,
{
    if a < b {
        lemma_count_below_mono(s, a, b - 1);
    }
}

/// A range with no qualifying value contributes nothing to the count.
pub proof fn lemma_count_below_empty(s: int, a: int, b: int)
    requires
        a <= b,
        forall|v: int| a <= v < b ==> digit_sum(v) != s,
    ensures
        count_below(s, b) == count_below(s, a),
    decreases b - a,
{
    if a < b {
        lemma_count_below_empty(s, a, b - 1);
    }
}

/// How many offsets `x` with `0 <= x < c` have pair sum `x / 10 + x % 10`
/// equal to `r`.
pub open spec fn count_off(r: int, c: int) -> int
    decreases c,
{
    if c <= 0 {
        0
    } else {
        count_off(r, c - 1) + if (c - 1) / 10 + (c - 1) % 10 == r {
            1int
        } else {
            0int
        }
    }
}

/// How many tens digits `j` with `0 <= j < a` admit a units digit
/// completing the pair sum to `r`.
pub open spec fn rows(r: int, a: int) -> int
    decreases a,
{
    if a <= 0 {
        0
    } else {
        rows(r, a - 1) + if 0 <= r - (a - 1) <= 9 {
            1int
        } else {
            0int
        }
    }
}

/// Counting qualifying values inside a block is counting qualifying
/// two-digit offsets.
pub proof fn lemma_count_transfer(s: int, p: int, c: int)
    requires
        p >= 0,
        0 <= c <= 100,
    ensures
        count_below(s, 100 * p + c) == count_below(s, 100 * p) + count_off(s - digit_sum(p), c),
    decreases c,
{
    if c > 0 {
        lemma_count_transfer(s, p, c - 1);
        lemma_digit_sum_block(p, c - 1);
        assert(count_below(s, 100 * p + c) == count_below(s, 100 * p + c - 1) + if digit_sum(
            100 * p + c - 1,
        ) == s {
            1int
        } else {
            0int
        });
    }
}

/// The offset count decomposed into complete tens rows plus the partial row.
pub proof fn lemma_count_off_rows(r: int, c: int)
    requires
        0 <= c <= 100,
    ensures
        count_off(r, c) == rows(r, c / 10) + if 0 <= r - c / 10 < c % 10 {
            1int
        } else {
            0int
        },
    decreases c,
{
    if c == 0 {
        assert(c / 10 == 0 && c % 10 == 0);
    } else {
        lemma_count_off_rows(r, c - 1);
        lemma_fundamental_div_mod(c - 1, 10);
        let q = (c - 1) / 10;
        let b = (c - 1) % 10;
        if b < 9 {
            lemma_fundamental_div_mod_converse_div(c, 10, q, b + 1);
            lemma_fundamental_div_mod_converse_mod(c, 10, q, b + 1);
        } else {
            lemma_fundamental_div_mod_converse_div(c, 10, q + 1, 0);
            lemma_fundamental_div_mod_converse_mod(c, 10, q + 1, 0);
            assert(rows(r, q + 1) == rows(r, q) + if 0 <= r - q <= 9 {
                1int
            } else {
                0int
            });
        }
    }
}

/// Ten full rows add up to the closed-form pair count.
pub proof fn lemma_rows_closed(r: int, a: int)
    requires
        0 <= a <= 10,
    ensures
        rows(r, a) == if r < 0 || r > a + 8 {
            0int
        } else {
            let hi = if r < a - 1 { r } else { a - 1 };
            let lo = if r > 9 { r - 9 } else { 0 };
            hi - lo + 1
        },
    decreases a,
{
    if a > 0 {
        lemma_rows_closed(r, a - 1);
    }
}

/// The number of qualifying values in the block of prefix `p` is the
/// closed-form pair count of the residual budget.
pub proof fn lemma_block_count(s: int, p: int)
    requires
        p >= 0,
    ensures
        count_below(s, 100 * (p + 1)) == count_below(s, 100 * p) + pair_count(s - digit_sum(p)),
{
    lemma_count_transfer(s, p, 100);
    lemma_count_off_rows(s - digit_sum(p), 100);
    lemma_rows_closed(s - digit_sum(p), 10);
}

/// The value `d` followed by `m` nines is the least value with digit sum
/// `9m + d`.
pub proof fn lemma_min_digit_sum_shape(m: nat, d: int)
    requires
        0 <= d <= 8,
        9 * m + d >= 1,
    ensures
        digit_sum(d * pow10(m) + pow10(m) - 1) == 9 * m + d,
        d * pow10(m) + pow10(m) - 1 >= 1,
        forall|v: int| 0 <= v < d * pow10(m) + pow10(m) - 1 ==> digit_sum(v) != 9 * m + d,
{
    let p = pow10(m);
    let r = d * p + p - 1;
    let s = 9 * m + d;
    lemma_pow10_pos(m);
    assert(d * p >= 0) by (nonlinear_arith)
        requires
            d >= 0,
            p >= 1,
    ;
    lemma_digit_sum_concat(d, m, p - 1);
    lemma_digit_sum_single(d);
    lemma_digit_sum_nines(m);
    assert(digit_sum(r) == s);
    assert(r >= 1) by (nonlinear_arith)
        requires
            r == d * p + p - 1,
            d >= 0,
            p >= 1,
            9 * m + d >= 1,
            d == 0 ==> m >= 1,
            m >= 1 ==> p >= 10,
    ;
    assert forall|v: int| 0 <= v < r implies digit_sum(v) != s by {
        if digit_sum(v) == s {
            if v < p {
                lemma_digit_sum_max(m, v);
                if d == 0 {
                    assert(v == p - 1);
                    assert(r == p - 1);
                } else {
                    assert(digit_sum(v) <= 9 * m < s);
                }
            } else {
                lemma_fundamental_div_mod(v, p);
                let t = v / p;
                let w = v % p;
                assert(t >= 1 && t <= d) by (nonlinear_arith)
                    requires
                        v == t * p + w,
                        0 <= w < p,
                        p <= v,
                        v < d * p + p - 1,
                        p >= 1,
                ;
                lemma_digit_sum_concat(t, m, w);
                lemma_digit_sum_single(t);
                lemma_digit_sum_max(m, w);
                assert(t == d && digit_sum(w) == 9 * m);
                assert(w == p - 1);
                assert(v == r);
            }
        }
    }
}

/// No value strictly between a qualifying value and that value plus nine
/// has the same digit sum.
pub proof fn lemma_gap_nine(s: int, t: int)
    requires
        t >= 0,
        digit_sum(t) == s,
    ensures
        forall|v: int| t < v < t + 9 ==> digit_sum(v) != s,
{
    lemma_fundamental_div_mod(t, 100);
    let q = t / 100;
    let c = t % 100;
    lemma_digit_sum_block(q, c);
    lemma_fundamental_div_mod(c, 10);
    let a = c / 10;
    let b = c % 10;
    assert forall|v: int| t < v < t + 9 implies digit_sum(v) != s by {
        let e = v - t;
        if c + e < 100 {
            lemma_digit_sum_block(q, c + e);
            if b + e <= 9 {
                lemma_fundamental_div_mod_converse_div(c + e, 10, a, b + e);
                lemma_fundamental_div_mod_converse_mod(c + e, 10, a, b + e);
                assert(digit_sum(v) == s + e);
            } else {
                lemma_fundamental_div_mod_converse_div(c + e, 10, a + 1, b + e - 10);
                lemma_fundamental_div_mod_converse_mod(c + e, 10, a + 1, b + e - 10);
                assert(digit_sum(v) == s + e - 9);
            }
        } else {
            let o = c + e - 100;
            assert(0 <= o <= 7);
            assert(v == 100 * (q + 1) + o);
            lemma_digit_sum_block(q + 1, o);
            lemma_fundamental_div_mod_converse_div(o, 10, 0, o);
            lemma_fundamental_div_mod_converse_mod(o, 10, 0, o);
            lemma_digit_sum_succ(q);
            assert(c >= 92);
            assert(a == 9 && b >= 2) by {
                lemma_fundamental_div_mod_converse_div(c, 10, 9, c - 90);
                lemma_fundamental_div_mod_converse_mod(c, 10, 9, c - 90);
            }
            assert(digit_sum(v) <= digit_sum(q) + 1 + o);
            assert(digit_sum(v) < s);
        }
    }
}

/// If another qualifying value shares the block of `t`, then `t + 9` also
/// qualifies and is the nearest one above `t`.
pub proof fn lemma_next_in_block(s: int, t: int, v: int)
    requires
        t >= 0,
        digit_sum(t) == s,
        digit_sum(v) == s,
        t < v,
        v / 100 == t / 100,
    ensures
        digit_sum(t + 9) == s,
        t + 9 <= v,
        (t + 9) / 100 == t / 100,
{
    lemma_fundamental_div_mod(t, 100);
    lemma_fundamental_div_mod(v, 100);
    let q = t / 100;
    let c = t % 100;
    let c2 = v % 100;
    lemma_digit_sum_block(q, c);
    lemma_digit_sum_block(q, c2);
    lemma_fundamental_div_mod(c, 10);
    lemma_fundamental_div_mod(c2, 10);
    let a = c / 10;
    let b = c % 10;
    let a2 = c2 / 10;
    let b2 = c2 % 10;
    assert(a + b == a2 + b2);
    assert(a2 > a) by (nonlinear_arith)
        requires
            c == 10 * a + b,
            c2 == 10 * a2 + b2,
            0 <= b < 10,
            0 <= b2 < 10,
            c < c2,
            a + b == a2 + b2,
    ;
    assert(b >= 1 && a + 1 <= 9);
    lemma_fundamental_div_mod_converse_div(c + 9, 10, a + 1, b - 1);
    lemma_fundamental_div_mod_converse_mod(c + 9, 10, a + 1, b - 1);
    assert(c + 9 <= c2);
    lemma_digit_sum_block(q, c + 9);
    lemma_fundamental_div_mod_converse_div(t + 9, 100, q, c + 9);
}

/// Digit sums of 64-bit values are small.
pub proof fn lemma_digit_sum_u64_bound(v: int)
    requires
        0 <= v <= u64::MAX,
    ensures
        digit_sum(v) <= 180,
{
    assert(pow10(20) == 0x56bc75e2d63100000) by {
        reveal_with_fuel(pow10, 21);
    }
    lemma_digit_sum_max(20, v);
}

pub proof fn lemma_pow10_mono(j: nat, k: nat)
    requires
        j <= k,
    ensures
        pow10(j) <= pow10(k),
    decreases k,
{
    if j < k {
        lemma_pow10_mono(j, (k - 1) as nat);
        lemma_pow10_pos((k - 1) as nat);
    }
}

/// The largest multiple of 100 that a `u64` can hold; the generators and
/// counters never look for qualifying values at or beyond this bound.
pub const TERM_SCAN_CAP: u64 = 18446744073709551600;

/// `out` is exactly the ascending sequence of the first `n` qualifying
/// values for target sum `s`: the element at index `j` qualifies and has
/// exactly `j` qualifying values below it.
pub open spec fn terms_prefix(s: int, n: int, out: Seq<u64>) -> bool {
    &&& out.len() == n
    &&& forall|j: int|
        #![trigger out[j]]
        0 <= j < n ==> digit_sum(out[j] as int) == s && count_below(s, out[j] as int) == j
}

/// `out` is exactly the ascending sequence of all qualifying values in
/// `[lo, hi)` for target sum `s`.
pub open spec fn range_terms(s: int, lo: int, hi: int, out: Seq<u64>) -> bool {
    &&& out.len() == count_below(s, hi) - count_below(s, lo)
    &&& forall|j: int|
        #![trigger out[j]]
        0 <= j < out.len() ==> lo <= out[j] as int && (out[j] as int) < hi && digit_sum(
            out[j] as int,
        ) == s && count_below(s, out[j] as int) == count_below(s, lo) + j
}

/// How many qualifying values for target sum `s` lie in `[lo, hi)`.
pub open spec fn range_count(s: int, lo: int, hi: int) -> int {
    count_below(s, hi) - count_below(s, lo)
}

/// Computes the decimal digit sum of `value`.
pub fn digits_sum(value: u64) -> (r: u64)
    ensures
        r == digit_sum(value as int),
{
    let mut v = value;
    let mut acc: u64 = 0;
    proof {
        lemma_digit_sum_u64_bound(value as int);
        lemma_digit_sum_nonneg(value as int);
    }
    while v > 0
        invariant
            acc + digit_sum(v as int) == digit_sum(value as int),
            0 <= digit_sum(value as int) <= 180,
            acc <= digit_sum(value as int),
        decreases v,
    {
        proof {
            lemma_digit_sum_nonneg(v as int / 10);
        }
        acc = acc + v % 10;
        v = v / 10;
    }
    acc
}

} // verus!
