//! Property checks: idempotence on sorted input, agreement of the two engines,
//! the descending/ascending mirror, the data-independence of the comparison
//! schedule, the partitioner's values, and the comparator's direction.

use std::cell::RefCell;

use const_sort::{const_sort, const_sort_desc, const_sort_iter, lt_u64, prior_power_of_two};
use rand::RngExt;

#[test]
fn test_sorting_sorted_input_is_a_no_op() {
    for x in 0..=128usize {
        let mut a: Vec<i32> = vec![0; x];
        for val in a.iter_mut() {
            *val = rand::rng().random_range(0..50);
        }
        a.sort();
        let before = a.clone();
        const_sort(&mut a, &|l: &i32, r: &i32| ((l < r) as u8).into());
        assert_eq!(before, a);
        const_sort_iter(&mut a, &|l: &i32, r: &i32| ((l < r) as u8).into());
        assert_eq!(before, a);
    }
}

#[test]
fn test_engines_agree_on_all_small_lengths() {
    for x in 0..=200usize {
        let mut a: Vec<u64> = vec![0; x];
        for val in a.iter_mut() {
            *val = rand::rng().random_range(0..100);
        }
        let mut b = a.clone();
        const_sort(&mut a, &lt_u64);
        const_sort_iter(&mut b, &lt_u64);
        assert_eq!(a, b);
    }
}

#[test]
fn test_descending_is_reversed_ascending() {
    for x in 0..=200usize {
        let mut a: Vec<u64> = vec![0; x];
        for val in a.iter_mut() {
            *val = rand::rng().random_range(0..100);
        }
        let mut b = a.clone();
        const_sort(&mut a, &lt_u64);
        a.reverse();
        const_sort_desc(&mut b, &lt_u64);
        assert_eq!(a, b);
    }
}

/// Runs an engine over `values` with a comparator that logs every pair it is
/// handed and always answers "do not swap", so each position keeps its value
/// and the logged value pairs are exactly the index pairs of the schedule.
fn log_schedule(engine: fn(&mut Vec<u64>, &dyn Fn(&u64, &u64) -> subtle::Choice), values: Vec<u64>, offset: u64) -> Vec<(u64, u64)> {
    let log: RefCell<Vec<(u64, u64)>> = RefCell::new(Vec::new());
    let mut v = values;
    let cmp = |l: &u64, r: &u64| {
        log.borrow_mut().push((*l - offset, *r - offset));
        subtle::Choice::from(0u8)
    };
    engine(&mut v, &cmp);
    log.into_inner()
}

fn run_recursive(v: &mut Vec<u64>, cmp: &dyn Fn(&u64, &u64) -> subtle::Choice) {
    const_sort(v, &cmp);
}

fn run_iterative(v: &mut Vec<u64>, cmp: &dyn Fn(&u64, &u64) -> subtle::Choice) {
    const_sort_iter(v, &cmp);
}

#[test]
fn test_schedule_depends_on_length_alone() {
    for n in [0usize, 1, 2, 3, 5, 8, 13, 31, 64, 100] {
        let plain: Vec<u64> = (0..n as u64).collect();
        let shifted: Vec<u64> = (0..n as u64).map(|i| i + 1000).collect();
        let rec_plain = log_schedule(run_recursive, plain.clone(), 0);
        let rec_shifted = log_schedule(run_recursive, shifted.clone(), 1000);
        assert_eq!(rec_plain, rec_shifted);
        let it_plain = log_schedule(run_iterative, plain, 0);
        let it_shifted = log_schedule(run_iterative, shifted, 1000);
        assert_eq!(it_plain, it_shifted);
    }
}

#[test]
fn test_comparison_count_is_data_independent() {
    for n in [7usize, 16, 33] {
        let mut counts: Vec<usize> = Vec::new();
        for _ in 0..3 {
            let count: RefCell<usize> = RefCell::new(0);
            let mut v: Vec<u64> = vec![0; n];
            for val in v.iter_mut() {
                *val = rand::rng().random_range(0..100);
            }
            let cmp = |l: &u64, r: &u64| {
                *count.borrow_mut() += 1;
                lt_u64(l, r)
            };
            const_sort(&mut v, &cmp);
            counts.push(count.into_inner());
        }
        assert_eq!(counts[0], counts[1]);
        assert_eq!(counts[0], counts[2]);
    }
}

#[test]
fn test_prior_power_of_two_values() {
    assert_eq!(prior_power_of_two(0), 0);
    assert_eq!(prior_power_of_two(1), 0);
    assert_eq!(prior_power_of_two(2), 1);
    assert_eq!(prior_power_of_two(3), 2);
    assert_eq!(prior_power_of_two(4), 2);
    assert_eq!(prior_power_of_two(5), 4);
    assert_eq!(prior_power_of_two(8), 4);
    assert_eq!(prior_power_of_two(9), 8);
    assert_eq!(prior_power_of_two(7919), 4096);
}

#[test]
fn test_lt_u64_direction() {
    assert_eq!(bool::from(lt_u64(&1, &2)), true);
    assert_eq!(bool::from(lt_u64(&2, &1)), false);
    assert_eq!(bool::from(lt_u64(&3, &3)), false);
    // Through the public interface: a constant-choice comparator would leave
    // this out of order.
    let mut v: Vec<u64> = vec![3, 1, 2];
    const_sort(&mut v, &lt_u64);
    assert_eq!(v, vec![1, 2, 3]);
}

#[test]
fn test_sort_exact_small_example() {
    let mut v: Vec<u64> = vec![9, 0, 5, 5, 7, 1, 3];
    const_sort(&mut v, &lt_u64);
    assert_eq!(v, vec![0, 1, 3, 5, 5, 7, 9]);
    let mut w: Vec<u64> = vec![9, 0, 5, 5, 7, 1, 3];
    const_sort_iter(&mut w, &lt_u64);
    assert_eq!(w, vec![0, 1, 3, 5, 5, 7, 9]);
    let mut d: Vec<u64> = vec![9, 0, 5, 5, 7, 1, 3];
    const_sort_desc(&mut d, &lt_u64);
    assert_eq!(d, vec![9, 7, 5, 5, 3, 1, 0]);
}
