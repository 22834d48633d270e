use period_search::recurrence::{back_index, check_from, gap_at, next_index, validate};

#[test]
fn back_index_goes_round() {
    assert_eq!(back_index(5, 3, 0), 3);
    assert_eq!(back_index(5, 3, 2), 1);
    assert_eq!(back_index(5, 3, 3), 0);
    assert_eq!(back_index(5, 3, 4), 4);
    assert_eq!(back_index(5, 3, 5), 3);
    assert_eq!(back_index(5, 0, 1), 4);
    assert_eq!(back_index(1, 0, 1), 0);
}

#[test]
fn next_index_goes_round() {
    assert_eq!(next_index(5, 0), 1);
    assert_eq!(next_index(5, 3), 4);
    assert_eq!(next_index(5, 4), 0);
    assert_eq!(next_index(1, 0), 0);
}

#[test]
fn gap_at_finds_the_previous_occurrence() {
    let seq = vec![3, 1, 3];
    assert_eq!(gap_at(&seq, 0), 1);
    assert_eq!(gap_at(&seq, 1), 3);
    assert_eq!(gap_at(&seq, 2), 2);
    let seq = vec![5, 1, 5, 2, 5];
    assert_eq!(gap_at(&seq, 0), 1);
    assert_eq!(gap_at(&seq, 1), 5);
    assert_eq!(gap_at(&seq, 2), 2);
    assert_eq!(gap_at(&seq, 3), 5);
    assert_eq!(gap_at(&seq, 4), 2);
    assert_eq!(gap_at(&vec![7], 0), 1);
}

#[test]
fn validate_accepts_the_ones_of_every_period() {
    for period in 1..=20 {
        assert!(validate(&vec![1; period]));
    }
}

#[test]
fn validate_rejects_the_empty_sequence() {
    assert!(!validate(&vec![]));
}

#[test]
fn validate_rejects_near_misses() {
    // right everywhere but at the first element
    assert!(!validate(&vec![5, 1, 5, 2, 5]));
    assert!(!validate(&vec![6, 3, 2, 6, 3, 3]));
    // right everywhere but at the last element
    assert!(!validate(&vec![6, 1, 7, 5, 7, 2, 6]));
    assert!(!validate(&vec![12, 1, 13, 6, 13, 2, 8, 13, 3, 13, 2, 5, 12]));
    // right everywhere but at the last but one
    assert!(!validate(&vec![4, 4, 1, 8, 4, 3, 6, 8]));
    assert!(!validate(&vec![3, 6, 10, 3, 3, 1, 10, 4, 8, 10]));
    assert!(!validate(&vec![4, 11, 2, 6, 11, 3, 11, 2, 5, 9, 11]));
    assert!(!validate(&vec![3, 8, 12, 3, 3, 1, 12, 4, 12, 2, 10, 12]));
}

#[test]
fn validate_rejects_values_that_are_no_distance() {
    assert!(!validate(&vec![0, 0, 0]));
    assert!(!validate(&vec![1, 1, 4]));
    assert!(!validate(&vec![2, 2]));
}

#[test]
fn validate_does_not_depend_on_where_the_period_is_cut() {
    let samples: Vec<Vec<usize>> = vec![
        vec![1, 1, 1, 1],
        vec![5, 1, 5, 2, 5],
        vec![6, 3, 2, 6, 3, 3],
        vec![4, 4, 1, 8, 4, 3, 6, 8],
        vec![2, 1, 2],
        vec![3, 3, 3],
    ];
    for seq in samples {
        let verdict = validate(&seq);
        for r in 0..seq.len() {
            let mut turned = seq.clone();
            turned.rotate_left(r);
            assert_eq!(validate(&turned), verdict);
        }
    }
}

#[test]
fn check_from_walks_the_steps_it_is_given() {
    // 5, 1, 5, 2, 5 is wrong at one step only: the one from the last element
    // round to the first
    let seq = vec![5, 1, 5, 2, 5];
    assert!(check_from(&seq, 0, 0));
    assert!(check_from(&seq, 0, 4));
    assert!(!check_from(&seq, 0, 5));
    assert!(!check_from(&seq, 4, 1));
    assert!(check_from(&seq, 2, 2));
    assert!(!check_from(&seq, 2, 3));
    assert!(!check_from(&seq, 3, 5));
}

#[test]
fn a_cycle_passes_from_every_offset() {
    for period in 1..=9 {
        let seq = vec![1; period];
        assert!(validate(&seq));
        for offset in 0..period {
            for steps in 0..=period {
                assert!(check_from(&seq, offset, steps));
            }
        }
    }
}

#[test]
fn a_whole_walk_agrees_with_validate_from_every_offset() {
    let samples: Vec<Vec<usize>> =
        vec![vec![1, 1, 1], vec![5, 1, 5, 2, 5], vec![6, 3, 2, 6, 3, 3], vec![2, 1], vec![4]];
    for seq in samples {
        for offset in 0..seq.len() {
            assert_eq!(check_from(&seq, offset, seq.len()), validate(&seq));
        }
    }
}
