use kdtree::partition_functions::{hoare_a, hoare_b};
use rand::random;

/// The claimed index must split the array: strictly smaller keys below it,
/// greater-or-equal keys at and above it, and the high side at least as
/// large as the low side.
fn check(data: &Vec<i64>, claimed_median_idx: usize) {
    assert!(claimed_median_idx < data.len());

    for i in 0..claimed_median_idx {
        assert!(data[i] < data[claimed_median_idx]);
    }
    for i in claimed_median_idx..data.len() {
        assert!(data[i] >= data[claimed_median_idx]);
    }

    assert!(data[claimed_median_idx..].len() >= data[..claimed_median_idx].len())
}

#[test]
fn single() {
    let mut data: Vec<i64> = vec![17];
    let idx = hoare_b(&mut data, 0);
    check(&data, idx);
    assert_eq!(idx, 0);
}

#[test]
fn pair() {
    let mut data: Vec<i64> = vec![1, 2];
    let idx = hoare_b(&mut data, 0);

    assert_eq!(idx, 1);
}

#[test]
fn unique() {
    let mut data: Vec<i64> = (0..10).collect();
    let idx = hoare_b(&mut data, 0);
    check(&data, idx);

    let mut data: Vec<i64> = (0..11).collect();
    let idx = hoare_b(&mut data, 0);
    check(&data, idx);

    let mut data: Vec<i64> = (0..12).collect();
    let idx = hoare_b(&mut data, 0);
    check(&data, idx);
}

#[test]
fn sames() {
    let mut data: Vec<i64> = (0..=32).map(|x| [x, x, x, x].into_iter()).flatten().collect();
    let idx = hoare_b(&mut data, 0);
    check(&data, idx);
}

#[test]
fn random_data() {
    let mut data: Vec<i64> = (0..=random::<u32>() as usize % 100)
        .map(|_| (random::<u32>() % 10) as i64)
        .collect();
    let idx = hoare_b(&mut data, 0);
    check(&data, idx);
}

#[test]
fn reverse_pair_moves_elements() {
    let mut data: Vec<i64> = vec![5, 1];
    let idx = hoare_b(&mut data, 0);
    check(&data, idx);
    assert_eq!(data, vec![1, 5]);
    assert_eq!(idx, 1);

    let mut data: Vec<i64> = vec![5, 1];
    let idx = hoare_a(&mut data, 0);
    check(&data, idx);
    assert_eq!(data, vec![1, 5]);
    assert_eq!(idx, 1);
}

#[test]
fn reverse_sorted() {
    let mut data: Vec<i64> = (0..33).rev().collect();
    let idx = hoare_b(&mut data, 0);
    check(&data, idx);
    assert_eq!(data[idx], 16);
}

#[test]
fn variant_a_single() {
    let mut data: Vec<i64> = vec![17];
    let idx = hoare_a(&mut data, 0);
    check(&data, idx);
    assert_eq!(idx, 0);
}

#[test]
fn variant_a_unique() {
    let mut data: Vec<i64> = (0..10).collect();
    let idx = hoare_a(&mut data, 0);
    check(&data, idx);

    let mut data: Vec<i64> = (0..11).collect();
    let idx = hoare_a(&mut data, 0);
    check(&data, idx);
}

#[test]
fn variant_a_sames() {
    let mut data: Vec<i64> = (0..=32).map(|x| [x, x, x, x].into_iter()).flatten().collect();
    let idx = hoare_a(&mut data, 0);
    check(&data, idx);
}

#[test]
fn variant_a_random_data() {
    let mut data: Vec<i64> = (0..=random::<u32>() as usize % 100)
        .map(|_| (random::<u32>() % 10) as i64)
        .collect();
    let idx = hoare_a(&mut data, 0);
    check(&data, idx);
}

#[test]
fn balance_at_median() {
    // the high partition is never smaller than the low partition
    for n in 1..40usize {
        let mut data: Vec<i64> = (0..n as i64).map(|x| (x * 7) % 13).collect();
        let idx = hoare_b(&mut data, 0);
        assert!(data[idx..].len() >= data[..idx].len());
        assert!(idx <= n / 2);

        let mut data: Vec<i64> = (0..n as i64).map(|x| (x * 5) % 11).collect();
        let idx = hoare_a(&mut data, 0);
        assert!(data[idx..].len() >= data[..idx].len());
        assert!(idx <= n / 2);
    }
}

#[test]
fn keeps_the_elements() {
    let mut data: Vec<i64> = vec![9, 3, 7, 3, 1, 9, 5];
    let mut expected = data.clone();
    let idx = hoare_b(&mut data, 0);
    check(&data, idx);
    let mut sorted = data.clone();
    sorted.sort();
    expected.sort();
    assert_eq!(sorted, expected);
}
