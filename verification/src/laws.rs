//! The laws of the library, proved once and for all over the sequence
//! description that every generator's contract establishes.

use vstd::prelude::*;

verus! {

use crate::digits::{
    count_below,
    digit_sum,
    lemma_count_below_mono,
    range_count,
    terms_prefix,
};

/// Law: a generated sequence is strictly increasing.
pub proof fn lemma_terms_strictly_increasing(s: int, n: int, out: Seq<u64>)
    requires
        terms_prefix(s, n, out),
    ensures
        forall|i: int| 0 <= i && i + 1 < n ==> out[i] < #[trigger] out[i + 1],
{
    assert forall|i: int| 0 <= i && i + 1 < n implies out[i] < #[trigger] out[i + 1] by {
        if out[i + 1] <= out[i] {
            lemma_count_below_mono(s, out[i + 1] as int, out[i] as int);
        }
    }
}

/// Law: consecutive generated terms enclose no other qualifying value —
/// every integer strictly between them has a different digit sum.
pub proof fn lemma_terms_gap_exhaustive(s: int, n: int, out: Seq<u64>, i: int, v: int)
    requires
        terms_prefix(s, n, out),
        0 <= i,
        i + 1 < n,
        (out[i] as int) < v,
        v < out[i + 1] as int,
    ensures
        digit_sum(v) != s,
{
    if digit_sum(v) == s {
        assert(count_below(s, out[i] as int + 1) == i + 1);
        lemma_count_below_mono(s, out[i] as int + 1, v);
        assert(count_below(s, v + 1) == count_below(s, v) + 1);
        lemma_count_below_mono(s, v + 1, out[i + 1] as int);
    }
}

/// Law: range counting is additive over adjacent intervals.
pub proof fn lemma_range_additivity(s: int, a: int, b: int, c: int)
    requires
        a <= b <= c,
    ensures
        range_count(s, a, c) == range_count(s, a, b) + range_count(s, b, c),
{
}

/// Law: counting from zero up to a bound is counting below the bound, so a
/// bound that covers `n` qualifying values yields a range count of at
/// least `n`.
pub proof fn lemma_inverse_consistency(s: int, bound: int, n: int)
    requires
        count_below(s, bound) >= n,
    ensures
        range_count(s, 0, bound) >= n,
{
}

/// Law: the sequence description pins the output down completely — any two
/// outputs that satisfy it for the same target and length are equal.  The
/// sequential generator, the parallel generator, and the parallel
/// generator under any worker count therefore all produce the same
/// sequence.
pub proof fn lemma_terms_prefix_unique(s: int, n: int, a: Seq<u64>, b: Seq<u64>)
    requires
        terms_prefix(s, n, a),
        terms_prefix(s, n, b),
    ensures
        a == b,
{
    assert forall|j: int| 0 <= j < n implies a[j] == b[j] by {
        if a[j] < b[j] {
            assert(count_below(s, a[j] as int + 1) == j + 1);
            lemma_count_below_mono(s, a[j] as int + 1, b[j] as int);
        }
        if b[j] < a[j] {
            assert(count_below(s, b[j] as int + 1) == j + 1);
            lemma_count_below_mono(s, b[j] as int + 1, a[j] as int);
        }
    }
    assert(a =~= b);
}

} // verus!
