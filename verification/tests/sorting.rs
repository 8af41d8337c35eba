//! End-to-end behaviour checks: random arrays of every small length, the
//! exhaustive three-element boolean case, and a large non-power-of-two length.

use const_sort::const_sort;
use rand::RngExt;

#[test]
fn test_correct() {
    for x in 0..=255usize {
        let mut a = vec![0; x];
        for val in a.iter_mut() {
            *val = rand::rng().random_range(0..100);
        }
        const_sort(&mut a, &|l: &i32, r: &i32| ((l < r) as u8).into());
        let mut ans = a.clone();
        ans.sort();
        assert_eq!(ans, a);
    }
}

#[test]
fn test_bitonic_u8_exhaustive() {
    for x in 0..=7u8 {
        let mut a = vec![1u8 & (x >> 0), 1u8 & (x >> 1), 1u8 & (x >> 2)];
        const_sort(&mut a, &|l: &u8, r: &u8| ((l < r) as u8).into());
        let mut ans = a.clone();
        ans.sort();
        assert_eq!(ans, a);
    }
}

// If this succeeds, we can probably sort correctly -- reason being,
// we are maximally testing that the network can handle weird sizes.
#[test]
fn test_bitonic_random_large_prime() {
    for _ in 0..=255u8 {
        let mut a = vec![0u8; 7919];
        for i in 0..7919 {
            a[i] = rand::rng().random_range(0..1);
        }
        const_sort(&mut a, &|l: &u8, r: &u8| ((l < r) as u8).into());
        let mut ans = a.clone();
        ans.sort();
        assert_eq!(ans[..], a[..]);
    }
}

#[test]
fn test_large_prime_binary_values_both_engines() {
    let mut a = vec![0u8; 7919];
    for i in 0..7919 {
        a[i] = rand::rng().random_range(0..2);
    }
    let mut b = a.clone();
    let mut ans = a.clone();
    ans.sort();
    const_sort(&mut a, &|l: &u8, r: &u8| ((l < r) as u8).into());
    const_sort::const_sort_iter(&mut b, &|l: &u8, r: &u8| ((l < r) as u8).into());
    assert_eq!(ans, a);
    assert_eq!(ans, b);
}

#[test]
fn test_empty_input_stays_empty() {
    let mut a: Vec<u64> = Vec::new();
    const_sort(&mut a, &const_sort::lt_u64);
    assert_eq!(a, Vec::<u64>::new());
    let mut b: Vec<u64> = Vec::new();
    const_sort::const_sort_iter(&mut b, &const_sort::lt_u64);
    assert_eq!(b, Vec::<u64>::new());
}

#[test]
fn test_single_element_unchanged() {
    let mut a: Vec<u64> = vec![5];
    const_sort(&mut a, &const_sort::lt_u64);
    assert_eq!(a, vec![5]);
    let mut b: Vec<u64> = vec![5];
    const_sort::const_sort_iter(&mut b, &const_sort::lt_u64);
    assert_eq!(b, vec![5]);
}

#[test]
fn test_iterative_engine_random_small_lengths() {
    for x in 0..=128usize {
        let mut a: Vec<i32> = vec![0; x];
        for val in a.iter_mut() {
            *val = rand::rng().random_range(0..100);
        }
        const_sort::const_sort_iter(&mut a, &|l: &i32, r: &i32| ((l < r) as u8).into());
        let mut ans = a.clone();
        ans.sort();
        assert_eq!(ans, a);
    }
}

#[test]
fn test_descending_sorts_downward() {
    for x in 0..=128usize {
        let mut a: Vec<i32> = vec![0; x];
        for val in a.iter_mut() {
            *val = rand::rng().random_range(0..100);
        }
        const_sort::const_sort_desc(&mut a, &|l: &i32, r: &i32| ((l < r) as u8).into());
        let mut ans = a.clone();
        ans.sort_by(|l, r| r.cmp(l));
        assert_eq!(ans, a);
    }
}
