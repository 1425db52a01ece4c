use permuta_rust::{Pattern, Perm};

fn pattern_of(data: Vec<u8>) -> Pattern {
    Pattern::new(Perm::new(data))
}

#[test]
fn test_occurrences_in() {
    let pattern = Pattern::new(Perm::new(vec![2, 0, 1]));
    let perm = Perm::new(vec![5, 3, 0, 4, 2, 1]);
    let occurrences = pattern.occurrences_in(&perm);
    assert_eq!(occurrences, vec![
        vec![0, 1, 3],
        vec![0, 2, 3],
        vec![0, 2, 4],
        vec![0, 2, 5],
        vec![1, 2, 4],
        vec![1, 2, 5],
    ]);
}

#[test]
fn count_matches_listed_occurrences() {
    let pattern = pattern_of(vec![2, 0, 1]);
    let perm = Perm::new(vec![5, 3, 0, 4, 2, 1]);
    assert_eq!(pattern.count_occurrences_in(&perm), 6);
    assert_eq!(perm.count_occurrences_of(&pattern), 6);
    assert_eq!(perm.occurences_of(&pattern).len(), 6);
    let other = pattern_of(vec![0, 2, 1]);
    assert_eq!(other.count_occurrences_in(&perm), other.occurrences_in(&perm).len());
}

#[test]
fn longer_pattern_never_occurs() {
    let pattern = pattern_of(vec![1, 0, 3, 2]);
    let perm = Perm::new(vec![2, 0, 1]);
    assert!(pattern.occurrences_in(&perm).is_empty());
    assert_eq!(pattern.count_occurrences_in(&perm), 0);
}

#[test]
fn pattern_occurs_once_in_itself() {
    let data = vec![3, 0, 4, 1, 2];
    let pattern = pattern_of(data.clone());
    let perm = Perm::new(data);
    assert_eq!(pattern.occurrences_in(&perm), vec![vec![0, 1, 2, 3, 4]]);
    assert_eq!(pattern.count_occurrences_in(&perm), 1);
}

#[test]
fn empty_pattern_occurs_once() {
    let pattern = pattern_of(vec![]);
    let perm = Perm::new(vec![1, 0, 2]);
    assert_eq!(pattern.occurrences_in(&perm), vec![Vec::<u8>::new()]);
    assert_eq!(pattern.count_occurrences_in(&perm), 1);
    assert_eq!(pattern.occurrences_in(&Perm::new(vec![])), vec![Vec::<u8>::new()]);
}

#[test]
fn increasing_pattern_in_decreasing_target() {
    let pattern = pattern_of(vec![0, 1]);
    let perm = Perm::new(vec![3, 2, 1, 0]);
    assert!(pattern.occurrences_in(&perm).is_empty());
    assert_eq!(pattern.count_occurrences_in(&perm), 0);
}

#[test]
fn pattern_details_of_small_pattern() {
    let pattern = pattern_of(vec![1, 0, 2]);
    let d = &pattern.details;
    assert_eq!(d.len(), 3);
    assert_eq!((d[0].left_floor, d[0].left_ceil, d[0].lower_bound, d[0].upper_bound), (None, None, 1, 2));
    assert_eq!((d[1].left_floor, d[1].left_ceil, d[1].lower_bound, d[1].upper_bound), (None, Some(0), 0, 1));
    assert_eq!((d[2].left_floor, d[2].left_ceil, d[2].lower_bound, d[2].upper_bound), (Some(0), None, 1, 1));
}

#[test]
fn pattern_details_between_floor_and_ceiling() {
    let pattern = pattern_of(vec![0, 4, 2, 1, 3]);
    let d = &pattern.details;
    assert_eq!((d[2].left_floor, d[2].left_ceil, d[2].lower_bound, d[2].upper_bound), (Some(0), Some(1), 2, 2));
    assert_eq!((d[3].left_floor, d[3].left_ceil, d[3].lower_bound, d[3].upper_bound), (Some(0), Some(2), 1, 1));
    assert_eq!((d[4].left_floor, d[4].left_ceil, d[4].lower_bound, d[4].upper_bound), (Some(2), Some(1), 1, 1));
}
