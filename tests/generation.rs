use permuta_rust::perm::{checked_factorial, factorial_of};
use permuta_rust::{Pattern, Perm};

#[test]
fn unrank_gives_lexicographic_ranks() {
    assert_eq!(Perm::unrank_permutation(0, 3).data, vec![0, 1, 2]);
    assert_eq!(Perm::unrank_permutation(1, 3).data, vec![0, 2, 1]);
    assert_eq!(Perm::unrank_permutation(3, 3).data, vec![1, 2, 0]);
    assert_eq!(Perm::unrank_permutation(5, 3).data, vec![2, 1, 0]);
    assert_eq!(Perm::unrank_permutation(0, 0).data, Vec::<u8>::new());
    assert_eq!(Perm::unrank_permutation(4, 3).n, 3);
}

#[test]
fn unrank_covers_every_permutation_once() {
    let n: u8 = 5;
    let total = factorial_of(n as usize);
    let mut seen: Vec<Vec<u8>> = (0..total).map(|i| Perm::unrank_permutation(i, n).data).collect();
    for data in &seen {
        assert!(Perm::new(data.clone()).is_permutation());
    }
    seen.sort();
    seen.dedup();
    assert_eq!(seen.len(), 120);
}

#[test]
fn sequential_generation_matches_ranks() {
    let perms = Perm::of_length(4);
    assert_eq!(perms.len(), 24);
    for (i, p) in perms.iter().enumerate() {
        assert_eq!(p.data, Perm::unrank_permutation(i, 4).data);
    }
    assert_eq!(Perm::of_length(0).len(), 1);
    assert_eq!(Pattern::of_length(3).len(), 6);
    assert_eq!(Pattern::of_length(3)[1].perm.data, vec![0, 2, 1]);
}

#[test]
fn factorials() {
    assert_eq!(factorial_of(0), 1);
    assert_eq!(factorial_of(1), 1);
    assert_eq!(factorial_of(5), 120);
    assert_eq!(factorial_of(10), 3628800);
}

#[test]
fn permutation_check() {
    assert!(Perm::new(vec![0, 2, 1]).is_permutation());
    assert!(Perm::new(vec![]).is_permutation());
    assert!(!Perm::new(vec![0, 0, 1]).is_permutation());
    assert!(!Perm::new(vec![0, 3, 1]).is_permutation());
    let bad = Perm { n: 4, data: vec![0, 1, 2] };
    assert!(!bad.is_permutation());
}

#[test]
fn checked_factorials() {
    assert_eq!(checked_factorial(0), Some(1));
    assert_eq!(checked_factorial(5), Some(120));
    assert_eq!(checked_factorial(20), Some(2432902008176640000));
    assert_eq!(checked_factorial(21), None);
}

#[test]
fn unrank_beyond_factorials_that_fit() {
    let perm = Perm::unrank_permutation(3, 22);
    let mut expected: Vec<u8> = (0..19).collect();
    expected.extend([20, 21, 19]);
    assert_eq!(perm.data, expected);
    assert!(perm.is_permutation());
}

#[test]
fn pattern_generation_follows_ranks() {
    let patterns = Pattern::of_length(4);
    assert_eq!(patterns.len(), 24);
    for (i, patt) in patterns.iter().enumerate() {
        assert_eq!(patt.perm.data, Perm::unrank_permutation(i, 4).data);
    }
}
