use permuta_rust::{Pattern, Perm};

#[test]
fn parity_counts_for_length_five() {
    let pattern = Pattern::new(Perm::new(vec![2, 0, 1]));
    let (even_count, odd_count) = pattern.count_odd_even_occurrences(5);
    assert_eq!(even_count, 80);
    assert_eq!(odd_count, 40);
}

#[test]
fn parallel_and_sequential_counts_agree() {
    for data in [vec![2, 0, 1], vec![0, 1], vec![1, 3, 0, 2]] {
        let pattern = Pattern::new(Perm::new(data));
        for m in 0..7u8 {
            let par = pattern.count_odd_even_occurrences(m);
            let seq = pattern.count_odd_even_occurrences_sequential(m);
            assert_eq!(par, seq);
            let total: usize = (1..=(m as usize)).product();
            assert_eq!(par.0 + par.1, total);
        }
    }
}

#[test]
fn parity_of_single_rank() {
    let pattern = Pattern::new(Perm::new(vec![2, 0, 1]));
    // Rank 0 of length 4 is the identity: no occurrence, an even count.
    assert!(pattern.has_even_occurrences_at(0, 4));
    // Rank 2 of length 3 is [1, 0, 2]: no occurrence either.
    assert!(pattern.has_even_occurrences_at(2, 3));
    // Rank 4 of length 3 is [2, 0, 1]: one occurrence.
    assert!(!pattern.has_even_occurrences_at(4, 3));
}

#[test]
fn parity_counts_for_length_below_pattern() {
    let pattern = Pattern::new(Perm::new(vec![2, 0, 1]));
    assert_eq!(pattern.count_odd_even_occurrences(2), (2, 0));
    let empty = Pattern::new(Perm::new(vec![]));
    assert_eq!(empty.count_odd_even_occurrences(3), (0, 6));
}
