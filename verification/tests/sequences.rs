//! The generator and counter tests: initial terms, bounded ranges, range
//! counts against the straightforward per-block formula, and the parallel
//! generator against the sequential one.

use std::collections::HashSet;

use libsum13::bounded::IntsWithDigitSumInBounds;
use libsum13::digits::digits_sum;
use libsum13::integer::{
    count_addition, count_iterations, get_initial, WithDigitSum, WithDigitSum13,
};
use libsum13::parallel::FullyPar;
use libsum13::traits::SumSequencer;

#[test]
fn test_initial() {
    assert_eq!(get_initial(1), 1);
    assert_eq!(get_initial(2), 2);
    assert_eq!(get_initial(3), 3);
    assert_eq!(get_initial(4), 4);
    assert_eq!(get_initial(5), 5);
    assert_eq!(get_initial(6), 6);
    assert_eq!(get_initial(7), 7);
    assert_eq!(get_initial(8), 8);
    assert_eq!(get_initial(9), 9);
    assert_eq!(get_initial(10), 19);
    assert_eq!(get_initial(11), 29);
    assert_eq!(get_initial(12), 39);
    assert_eq!(get_initial(13), 49);
    assert_eq!(get_initial(14), 59);
    assert_eq!(get_initial(15), 69);
    assert_eq!(get_initial(16), 79);
    assert_eq!(get_initial(17), 89);
    assert_eq!(get_initial(18), 99);
    assert_eq!(get_initial(19), 199);
    assert_eq!(get_initial(20), 299);
    assert_eq!(get_initial(21), 399);
    assert_eq!(get_initial(22), 499);
    assert_eq!(get_initial(23), 599);
    assert_eq!(get_initial(24), 699);
    assert_eq!(get_initial(25), 799);
    assert_eq!(get_initial(35), 8999);
}

fn get_iter_number(sum: u8, hundred_number: u64, initial: u64) -> u64 {
    let digit_sum = digits_sum(hundred_number);

    let Some(left) = (sum as u64).checked_sub(digit_sum) else {
        return 0;
    };

    let mut result = left + 1;

    if let Some(right) = (|| digit_sum.checked_add((100u64.checked_sub(initial)?) / 9))() {
        if right < result {
            result = right + 1;
        }
    }

    result
}

fn count_iterations_original(sum: u8, start: u64, end: u64) -> u64 {
    let initial = get_initial(sum);

    let start_hundred = start / 100;
    let end_hundred = end / 100;

    let full_hundreds_iters = (start_hundred..end_hundred)
        .map(|i| get_iter_number(sum, i, initial))
        .sum::<u64>();

    let remainder = {
        let addition = count_addition(sum, end_hundred);
        let addition = (end % 100).saturating_sub(addition);

        u64::min(
            addition / 9,
            (sum as u64).saturating_sub(digits_sum(end_hundred)),
        )
    };

    full_hundreds_iters + remainder
}

#[test]
fn test_bounds() {
    println!("Start");

    let n = 40;
    println!(
        "{}th of ints is {:?}",
        n,
        WithDigitSum13 {}.get_ints(10000).into_iter().nth(n)
    );

    let test_range = |from, to| {
        IntsWithDigitSumInBounds {
            start: from,
            end: to,
            sum: 13,
        }
        .get_ints()
        .into_iter()
        .zip(
            WithDigitSum13 {}
                .get_ints(10000)
                .into_iter()
                .skip(count_iterations(13, 0, from) as usize),
        )
        .for_each(|(l, r)| assert_eq!(l, r));
        println!("{to} OK");
    };

    test_range(0, 500);
    test_range(500, 1000);
    test_range(1000, 5000);
    test_range(5000, 10000);
    test_range(10000, 50000);
    test_range(50000, 100_000);
    test_range(100_000, 200_000);
    test_range(37500, 50000);
}

#[test]
fn test_count_iters() {
    let sum = 13;
    assert_eq!(count_iterations(sum, 0, 100), 6);
    assert_eq!(count_iterations(sum, 0, 200), 13);
    assert_eq!(count_iterations(sum, 0, 200), 13);
}

#[test]
fn test_count_iters_original() {
    let sum = 13;

    assert_eq!(count_iterations_original(sum, 0, 100), 6);
    assert_eq!(count_iterations_original(sum, 0, 200), 13);
    assert_eq!(count_iterations_original(sum, 0, 200), 13);
}

#[test]
fn test_count_iters_cross() {
    let sum = 13;
    let mut will_panic = false;
    let mut test_range = |from, to| {
        let count_optim = count_iterations(sum, from, to);
        let count_orig = count_iterations_original(sum, from, to);

        if count_optim != count_orig {
            println!("range: {from} to {to}: optim {count_optim}, orig {count_orig}");
            will_panic = true;
        }
    };

    test_range(0, 500);
    test_range(500, 1000);
    test_range(1000, 5000);
    test_range(5000, 10000);
    test_range(10000, 50000);
    test_range(50000, 100_000);
    test_range(100_000, 200_000);
    test_range(37500, 50000);

    if will_panic {
        panic!()
    }
}

#[test]
fn test_fully_par_with_zip() {
    let iterations = 100_000;
    let intval = WithDigitSum::new(13).get_ints(iterations);

    let super_val = FullyPar::new(13).get_ints(iterations);

    let mut iter = intval.into_iter().zip(super_val).peekable();
    let mut need_panic = false;

    while let Some((left, right)) = iter.next() {
        if left == right {
            if let Some((left_peek, right_peek)) = iter.peek() {
                if left_peek != right_peek {
                    println!("{left} | {right} | {left_peek} | {right_peek}");
                    need_panic = true;
                }
            }
        }
    }

    if need_panic {
        panic!();
    }
}

#[test]
fn test_fully_par_with_hashsets() {
    let iterations = 100_000;
    let intval = WithDigitSum::new(13)
        .get_ints(iterations)
        .into_iter()
        .take_while(|val| *val < iterations as u64);

    let super_val = FullyPar::new(13)
        .get_ints(iterations)
        .into_iter()
        .take_while(|val| *val < iterations as u64);

    let int_result = intval.collect::<HashSet<_>>();
    let super_result = super_val.collect::<HashSet<_>>();

    assert_eq!(
        super_result
            .difference(&int_result)
            .copied()
            .collect::<Vec<u64>>(),
        vec![],
    );

    let mut diff = int_result
        .difference(&super_result)
        .copied()
        .collect::<Vec<u64>>();

    diff.sort();

    assert_eq!(diff, vec![]);
}
