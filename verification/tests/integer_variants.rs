//! The same counter and bound checks, exercised through the consolidated
//! integer generator variants.

use libsum13::bounded::IntsWithDigitSumInBounds;
use libsum13::digits::digits_sum;
use libsum13::integer::{count_addition, count_iterations, get_initial, WithDigitSum13};
use libsum13::traits::SumSequencer;

fn get_iter_number(sum: u8, hundred_number: u64, initial: u64) -> u64 {
    let digit_sum = digits_sum(hundred_number);

    let Some(left) = (sum as u64).checked_sub(digit_sum) else {
        return 0;
    };

    let mut result = left + 1;

    if let Some(right) = (|| digit_sum.checked_add((100u64.checked_sub(initial)?) / 9))() {
        if right < result {
            result = right + 1;
        }
    }

    result
}

fn count_iterations_original(sum: u8, start: u64, end: u64) -> u64 {
    let initial = get_initial(sum);

    let start_hundred = start / 100;
    let end_hundred = end / 100;

    let full_hundreds_iters = (start_hundred..end_hundred)
        .map(|i| get_iter_number(sum, i, initial))
        .sum::<u64>();

    let remainder = {
        let addition = count_addition(sum, end_hundred);
        let addition = (end % 100).saturating_sub(addition);

        u64::min(
            addition / 9,
            (sum as u64).saturating_sub(digits_sum(end_hundred)),
        )
    };

    full_hundreds_iters + remainder
}

#[test]
fn integer_test_bounds() {
    println!("Start");

    let n = 40;
    println!(
        "{}th of ints is {:?}",
        n,
        WithDigitSum13 {}.get_ints(10000).into_iter().nth(n)
    );

    let test_range = |from, to| {
        IntsWithDigitSumInBounds {
            start: from,
            end: to,
            sum: 13,
        }
        .get_ints()
        .into_iter()
        .zip(
            WithDigitSum13 {}
                .get_ints(10000)
                .into_iter()
                .skip(count_iterations(13, 0, from) as usize),
        )
        .for_each(|(l, r)| assert_eq!(l, r));
        println!("{to} OK");
    };

    test_range(0, 500);
    test_range(500, 1000);
    test_range(1000, 5000);
    test_range(5000, 10000);
    test_range(10000, 50000);
    test_range(50000, 100_000);
    test_range(100_000, 200_000);
    test_range(37500, 50000);
}

#[test]
fn integer_test_count_iters() {
    let sum = 13;
    assert_eq!(count_iterations(sum, 0, 100), 6);
    assert_eq!(count_iterations(sum, 0, 200), 13);
    assert_eq!(count_iterations(sum, 0, 200), 13);
}

#[test]
fn integer_test_count_iters_original() {
    let sum = 13;

    assert_eq!(count_iterations_original(sum, 0, 100), 6);
    assert_eq!(count_iterations_original(sum, 0, 200), 13);
    assert_eq!(count_iterations_original(sum, 0, 200), 13);
}

#[test]
fn integer_test_count_iters_cross() {
    let sum = 13;
    let mut will_panic = false;
    let mut test_range = |from, to| {
        let count_optim = count_iterations(sum, from, to);
        let count_orig = count_iterations_original(sum, from, to);

        if count_optim != count_orig {
            println!("range: {from} to {to}: optim {count_optim}, orig {count_orig}");
            will_panic = true;
        }
    };

    test_range(0, 500);
    test_range(500, 1000);
    test_range(1000, 5000);
    test_range(5000, 10000);
    test_range(10000, 50000);
    test_range(50000, 100_000);
    test_range(100_000, 200_000);
    test_range(37500, 50000);

    if will_panic {
        panic!()
    }
}
