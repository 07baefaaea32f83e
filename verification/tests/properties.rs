//! Concrete checks of the library's stated properties: digit sums of
//! generated terms, strict growth, gap exhaustiveness, range additivity,
//! inverse consistency, parallel agreement, the documented scenarios, and
//! the error cases.

use libsum13::add;
use libsum13::bound_for;
use libsum13::bounded::IntsWithDigitSumInBounds;
use libsum13::count_in_range;
use libsum13::parallel::FullyPar;
use libsum13::digits::digits_sum;
use libsum13::integer::{
    count_addition, count_iter_end, count_iterations, generate, next_term, SlowSequential,
    FutureLooking, WithDigitSum, WithDigitSumAdvanced,
};
use libsum13::parallel::generate_partitioned;
use libsum13::traits::{SumSequencer, SumSequencerMut, SumSequencerOnce};
use libsum13::utils::Pod;
use libsum13::SumSequenceError;

#[test]
fn test_types() {
    let shared = WithDigitSum::new(7);
    let by_ref = SumSequencer::get_ints(&shared, 3);

    let mut held = WithDigitSum::new(7);
    let by_mut = SumSequencerMut::get_ints(&mut held, 3);

    let owned = WithDigitSum::new(7);
    let by_value = SumSequencerOnce::get_ints(owned, 3);

    let borrowed = WithDigitSum::new(7);
    let by_ref_ref = SumSequencer::get_ints(&&borrowed, 3);

    assert_eq!(by_ref, by_mut);
    assert_eq!(by_ref, by_value);
    assert_eq!(by_ref, by_ref_ref);
}

#[test]
fn test_scenarios() {
    assert_eq!(generate(13, 1), vec![49]);
    assert_eq!(generate(13, 6), vec![49, 58, 67, 76, 85, 94]);
    assert_eq!(count_in_range(13, 0, 100), Ok(6));
    assert_eq!(count_in_range(13, 0, 200), Ok(13));
    assert_eq!(generate(1, 3), vec![1, 10, 100]);
    assert_eq!(generate(18, 2), vec![99, 189]);
}

#[test]
fn test_terms_have_target_digit_sum() {
    for (sum, count) in [(1u8, 6u32), (7, 200), (13, 200), (29, 200), (46, 200)] {
        for term in generate(sum, count) {
            assert_eq!(digits_sum(term), sum as u64);
        }
    }
}

#[test]
fn test_terms_strictly_increasing() {
    for (sum, count) in [(1u8, 6u32), (13, 500), (29, 500)] {
        let terms = generate(sum, count);
        for pair in terms.windows(2) {
            assert!(pair[0] < pair[1]);
        }
    }
}

#[test]
fn test_gap_exhaustiveness() {
    let terms = generate(13, 40);
    for pair in terms.windows(2) {
        for v in pair[0] + 1..pair[1] {
            assert_ne!(digits_sum(v), 13);
        }
    }
}

#[test]
fn test_range_additivity() {
    let samples = [
        (0u64, 57u64, 193u64),
        (49, 140, 10007),
        (0, 100, 200),
        (33, 33, 9001),
        (12345, 23456, 34567),
    ];
    for (a, b, c) in samples {
        let whole = count_iterations(13, a, c);
        let left = count_iterations(13, a, b);
        let right = count_iterations(13, b, c);
        assert_eq!(whole, left + right);
    }
}

#[test]
fn test_inverse_consistency() {
    for n in [1u32, 6, 7, 100, 1000] {
        let bound = count_iter_end(13, n);
        assert_eq!(bound % 100, 0);
        assert!(count_iterations(13, 0, bound) >= n as u64);
        if bound >= 100 {
            assert!(count_iterations(13, 0, bound - 100) < n as u64);
        }
    }
    assert_eq!(count_iter_end(13, 6), 100);
}

#[test]
fn test_parallel_matches_sequential() {
    let sequential = generate(13, 5000);
    let partitioned = generate_partitioned(13, 5000, 4);
    assert_eq!(sequential, partitioned);
}

#[test]
fn test_partition_invariance() {
    let reference = generate_partitioned(13, 3000, 1);
    for workers in [2u64, 4, 8] {
        assert_eq!(generate_partitioned(13, 3000, workers), reference);
    }
}

#[test]
fn test_variants_agree() {
    let reference = generate(8, 50);
    assert_eq!(WithDigitSum::new(8).get_ints(50), reference);
    assert_eq!(WithDigitSumAdvanced::new(8).get_ints(50), reference);
    assert_eq!(FutureLooking::new(8).get_ints(50), reference);
    assert_eq!(SlowSequential::new(8).get_ints(50), reference);
}

#[test]
fn test_try_new() {
    assert!(WithDigitSum::try_new(13).is_ok());
    assert_eq!(
        WithDigitSum::try_new(0).unwrap_err(),
        SumSequenceError::ConfigurationError
    );
    assert_eq!(
        WithDigitSum::try_new(172).unwrap_err(),
        SumSequenceError::ConfigurationError
    );
    assert!(FullyPar::try_new(171).is_ok());
    assert_eq!(
        FullyPar::try_new(0).unwrap_err(),
        SumSequenceError::ConfigurationError
    );
}

#[test]
fn test_bound_for() {
    assert_eq!(bound_for(13, 6), 100);
    for n in [1u32, 50, 2000] {
        let bound = bound_for(13, n);
        assert!(count_iterations(13, 0, bound) >= n as u64);
        if bound >= 100 {
            assert!(count_iterations(13, 0, bound - 100) < n as u64);
        }
    }
}

#[test]
fn test_errors() {
    assert_eq!(
        count_in_range(0, 0, 10),
        Err(SumSequenceError::ConfigurationError)
    );
    assert_eq!(
        count_in_range(200, 0, 10),
        Err(SumSequenceError::ConfigurationError)
    );
    assert_eq!(
        count_in_range(13, 10, 5),
        Err(SumSequenceError::RangeOrderError)
    );
}

#[test]
fn test_digits_sum_values() {
    assert_eq!(digits_sum(0), 0);
    assert_eq!(digits_sum(9), 9);
    assert_eq!(digits_sum(10), 1);
    assert_eq!(digits_sum(12345), 15);
    assert_eq!(digits_sum(u64::MAX), 87);
}

#[test]
fn test_count_addition_values() {
    assert_eq!(count_addition(13, 500), 8);
    assert_eq!(count_addition(13, 600), 7);
    assert_eq!(count_addition(13, 4900), 0);
    assert_eq!(count_addition(13, 99), 0);
    assert_eq!(count_addition(25, 0), 799);
    assert_eq!(count_addition(13, 100), 39);
}

#[test]
fn test_next_term_values() {
    assert_eq!(next_term(13, 49), 58);
    assert_eq!(next_term(13, 94), 139);
    assert_eq!(next_term(18, 99), 189);
    assert_eq!(next_term(1, 1), 10);
    assert_eq!(next_term(1, 10), 100);
    assert_eq!(next_term(20, 992), 1199);
}

#[test]
fn test_bounded_ranges() {
    let empty = IntsWithDigitSumInBounds {
        start: 50,
        end: 58,
        sum: 13,
    };
    assert_eq!(empty.get_ints(), Vec::<u64>::new());

    let zero_width = IntsWithDigitSumInBounds {
        start: 0,
        end: 0,
        sum: 13,
    };
    assert_eq!(zero_width.get_ints(), Vec::<u64>::new());

    let first_block = IntsWithDigitSumInBounds {
        start: 49,
        end: 95,
        sum: 13,
    };
    assert_eq!(first_block.get_ints(), vec![49, 58, 67, 76, 85, 94]);

    let mid = IntsWithDigitSumInBounds {
        start: 50,
        end: 200,
        sum: 13,
    };
    assert_eq!(
        mid.get_ints(),
        vec![58, 67, 76, 85, 94, 139, 148, 157, 166, 175, 184, 193]
    );
}

#[test]
fn test_pod_buffers_messages() {
    let mut pod = Pod::new();
    pod.push(String::from("first"));
    pod.push(String::from("second"));
    assert_eq!(
        pod.into_messages(),
        vec![String::from("first"), String::from("second")]
    );
}

#[test]
fn test_add() {
    assert_eq!(add(2, 3), 5);
    assert_eq!(add(0, 0), 0);
}
