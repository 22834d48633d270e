use period_search::bits::{bit, contains, low, single, span};
use period_search::domain::Domain;

fn domain(masks: Vec<u64>) -> Domain {
    Domain { masks, changed: false, impossible: false }
}

#[test]
fn single_counts_the_bits() {
    assert!(single(0b1000));
    assert!(single(1));
    assert!(single(1 << 63));
    assert!(!single(0));
    assert!(!single(0b1010));
    assert!(!single(u64::MAX));
}

#[test]
fn low_is_the_least_value() {
    assert_eq!(low(0), 64);
    assert_eq!(low(0b1000), 3);
    assert_eq!(low(0b1010), 1);
    assert_eq!(low(1), 0);
    assert_eq!(low(1 << 63), 63);
}

#[test]
fn bit_and_span_build_masks() {
    assert_eq!(bit(0), 1);
    assert_eq!(bit(5), 32);
    assert_eq!(bit(63), 1 << 63);
    assert_eq!(span(1, 4), 0b11110);
    assert_eq!(span(0, 0), 1);
    assert_eq!(span(3, 3), 8);
    assert_eq!(span(0, 63), u64::MAX);
    assert_eq!(span(1, 63), u64::MAX - 1);
}

#[test]
fn contains_reads_one_bit() {
    assert!(contains(0b1010, 1));
    assert!(contains(0b1010, 3));
    assert!(!contains(0b1010, 0));
    assert!(!contains(0b1010, 2));
    assert!(!contains(0b1010, 63));
    assert!(contains(1 << 63, 63));
}

#[test]
fn apply_intersects_and_sets_changed() {
    let mut d = domain(vec![0b0110, 0b1110, 0b0010]);
    d.apply_mask_to_pos(0, 0b0100);
    assert_eq!(d.masks, vec![0b0100, 0b1110, 0b0010]);
    assert!(d.changed);
    assert!(!d.impossible);
}

#[test]
fn apply_that_changes_nothing_sets_no_flag() {
    let mut d = domain(vec![0b0110, 0b1110, 0b0010]);
    d.apply_mask_to_pos(1, 0b11110);
    assert_eq!(d.masks, vec![0b0110, 0b1110, 0b0010]);
    assert!(!d.changed);
    assert!(!d.impossible);
}

#[test]
fn apply_that_empties_sets_impossible_only() {
    let mut d = domain(vec![0b0110, 0b1110, 0b0010]);
    d.apply_mask_to_pos(0, 0b1000);
    assert_eq!(d.masks, vec![0, 0b1110, 0b0010]);
    assert!(!d.changed);
    assert!(d.impossible);
}

#[test]
fn apply_never_adds_values() {
    for mask in [0u64, 1, 0b1010, 0b1111_0000, u64::MAX] {
        for start in [0b0110u64, 0b1111_1110, 1 << 40, u64::MAX] {
            let mut d = domain(vec![start, 2, 2]);
            d.apply_mask_to_pos(0, mask);
            assert!(d.masks[0].count_ones() <= start.count_ones());
            assert_eq!(d.masks[0] & !start, 0);
        }
    }
}

#[test]
fn project_back_intersects_the_two_equal_positions() {
    // position 1 is known to be 1, so positions 0 and 2 hold the same
    let mut d = domain(vec![0b0110, 0b0010, 0b1100]);
    d.project_back(0);
    assert_eq!(d.masks, vec![0b0100, 0b0010, 0b0100]);
    assert!(d.changed);
    assert!(!d.impossible);
}

#[test]
fn project_back_wraps_round_the_period() {
    // position 0 is known to be 2, so positions 3 and 1 hold the same
    let mut d = domain(vec![0b00100, 0b01010, 0b11110, 0b11000]);
    d.project_back(3);
    assert_eq!(d.masks, vec![0b00100, 0b01000, 0b11110, 0b01000]);
}

#[test]
fn project_back_waits_for_a_known_next() {
    let mut d = domain(vec![0b0110, 0b0110, 0b1100]);
    d.project_back(0);
    assert_eq!(d.masks, vec![0b0110, 0b0110, 0b1100]);
    assert!(!d.changed);
    assert!(!d.impossible);
}

#[test]
fn project_back_a_whole_period_back_is_the_position_itself() {
    let mut d = domain(vec![0b0110, 0b1000, 0b1100]);
    d.project_back(0);
    assert_eq!(d.masks, vec![0b0110, 0b1000, 0b1100]);
    assert!(!d.changed);
}

#[test]
fn project_back_detects_a_conflict() {
    let mut d = domain(vec![0b0010, 0b0010, 0b0100]);
    d.project_back(0);
    assert_eq!(d.masks, vec![0, 0b0010, 0]);
    assert!(d.impossible);
    assert!(!d.changed);
}

#[test]
fn eliminate_removes_the_value_inside_the_window() {
    // position 0 is 2 and the next is at least 3: no 2 one or two places back
    let mut d = domain(vec![0b00100, 0b11000, 0b01110, 0b10100]);
    d.eliminate_x_up_to_projection(0);
    assert_eq!(d.masks, vec![0b00100, 0b11000, 0b01010, 0b10000]);
    assert!(d.changed);
    assert!(!d.impossible);
}

#[test]
fn eliminate_leaves_an_open_position_alone() {
    let mut d = domain(vec![0b00110, 0b11000, 0b01110, 0b10100]);
    d.eliminate_x_up_to_projection(0);
    assert_eq!(d.masks, vec![0b00110, 0b11000, 0b01110, 0b10100]);
    assert!(!d.changed);
}

#[test]
fn eliminate_has_no_window_below_distance_two() {
    let mut d = domain(vec![0b00100, 0b11010, 0b01110, 0b10100]);
    d.eliminate_x_up_to_projection(0);
    assert_eq!(d.masks, vec![0b00100, 0b11010, 0b01110, 0b10100]);
}

#[test]
fn eliminate_detects_a_conflict() {
    let mut d = domain(vec![0b1000, 0b1000, 0b1110]);
    d.eliminate_x_up_to_projection(0);
    assert_eq!(d.masks, vec![0b1000, 0, 0b0110]);
    assert!(d.impossible);
}

#[test]
fn bound_range_drops_distances_that_cannot_match() {
    let mut d = domain(vec![0b00110, 0b11110, 0b01000, 0b10000]);
    d.bound_range_of(0);
    assert_eq!(d.masks, vec![0b00110, 0b11000, 0b01000, 0b10000]);
    assert!(d.changed);
}

#[test]
fn bound_range_stops_at_a_known_match() {
    let mut d = domain(vec![0b00100, 0b11110, 0b00100, 0b01010]);
    d.bound_range_of(0);
    assert_eq!(d.masks, vec![0b00100, 0b00100, 0b00100, 0b01010]);
}

#[test]
fn bound_range_keeps_the_whole_period_as_a_distance() {
    // nothing one or two places behind position 0 can be a 1
    let mut d = domain(vec![0b0010, 0b11110, 0b0100, 0b0100]);
    d.bound_range_of(0);
    assert_eq!(d.masks, vec![0b0010, 0b11000, 0b0100, 0b0100]);
    assert!(d.changed);
    assert!(!d.impossible);
}

#[test]
fn bound_range_detects_a_conflict() {
    let mut d = domain(vec![0b0010, 0b0110, 0b0100, 0b0100]);
    d.bound_range_of(0);
    assert_eq!(d.masks, vec![0b0010, 0, 0b0100, 0b0100]);
    assert!(d.impossible);
    assert!(!d.changed);
}

#[test]
fn bound_val_drops_values_known_inside_the_window() {
    let mut d = domain(vec![0b01110, 0b11000, 0b00010, 0b00100]);
    d.bound_val_based_on_min_range(0);
    assert_eq!(d.masks, vec![0b01000, 0b11000, 0b00010, 0b00100]);
    assert!(d.changed);
}

#[test]
fn bound_val_skips_a_known_position() {
    let mut d = domain(vec![0b00100, 0b11000, 0b00010, 0b00100]);
    d.bound_val_based_on_min_range(0);
    assert_eq!(d.masks, vec![0b00100, 0b11000, 0b00010, 0b00100]);
    assert!(!d.changed);
    assert!(!d.impossible);
}

#[test]
fn bound_val_ignores_open_positions_in_the_window() {
    let mut d = domain(vec![0b01110, 0b11000, 0b00110, 0b01100]);
    d.bound_val_based_on_min_range(0);
    assert_eq!(d.masks, vec![0b01110, 0b11000, 0b00110, 0b01100]);
}

#[test]
fn settle_at_stops_at_the_first_empty_set() {
    let mut d = domain(vec![0b1000, 0b1000, 0b1110]);
    d.settle_at(0);
    assert!(d.impossible);
    assert_eq!(d.masks, vec![0b1000, 0, 0b0110]);
}

#[test]
fn propagate_finds_the_contradiction_of_two_periods_in_a_row() {
    let mut d = domain(vec![0b1000, 0b1000, 0b1110]);
    d.propagate();
    assert!(d.impossible);
}

#[test]
fn propagate_leaves_the_ones_alone() {
    let mut d = domain(vec![2, 2, 2, 2, 2]);
    d.propagate();
    assert_eq!(d.masks, vec![2, 2, 2, 2, 2]);
    assert!(!d.impossible);
    assert!(!d.changed);
}

#[test]
fn propagate_twice_changes_nothing_more() {
    for period in 3..=9usize {
        for lead in 1..=period {
            if lead == period - 1 {
                continue;
            }
            for second in 1..=period / 2 {
                let mut d = Domain::new(period);
                d.seed(lead);
                if d.masks[1] & (1 << second) == 0 {
                    continue;
                }
                d.masks[1] = 1 << second;
                d.propagate();
                if d.impossible {
                    assert!(d.masks.iter().any(|&m| m == 0));
                    continue;
                }
                assert!(d.masks.iter().all(|&m| m != 0));
                assert!(!d.changed);
                let first = d.masks.clone();
                d.propagate();
                assert_eq!(d.masks, first);
                assert!(!d.changed);
                assert!(!d.impossible);
                d.sweep();
                assert_eq!(d.masks, first);
                assert!(!d.changed);
            }
        }
    }
}

#[test]
fn propagation_only_narrows() {
    let mut d = Domain::new(7);
    d.seed(5);
    let before = d.masks.clone();
    d.masks[1] = 1 << 2;
    d.ripple_from(2);
    let mid = d.masks.clone();
    for k in 0..7 {
        assert_eq!(mid[k] & !before[k], 0);
    }
    if !d.impossible {
        d.propagate();
        for k in 0..7 {
            assert_eq!(d.masks[k] & !mid[k], 0);
        }
    }
}

#[test]
fn sweep_reports_a_change() {
    let mut d = domain(vec![0b0110, 0b0010, 0b1100]);
    d.sweep();
    assert!(d.changed || d.impossible);
    assert_ne!(d.masks, vec![0b0110, 0b0010, 0b1100]);
}

#[test]
fn commit_fixes_a_position_and_propagates() {
    let mut d = Domain::new(5);
    d.seed(1);
    d.commit(2, 1);
    assert_eq!(d.masks, vec![2, 2, 2, 2, 2]);
    assert!(!d.impossible);
    assert!(!d.changed);
}

#[test]
fn commit_finds_that_a_value_cannot_stand() {
    // behind a 5 in front, a 1 at the second position would have to be
    // followed by another 5 at distance 1
    let mut d = Domain::new(5);
    d.seed(5);
    let before = d.masks.clone();
    d.commit(1, 1);
    for k in 0..5 {
        assert_eq!(d.masks[k] & !before[k], 0);
    }
    assert_eq!(d.impossible, d.masks.iter().any(|&m| m == 0));
    if !d.impossible {
        assert_eq!(d.masks[0], 1 << 5);
        assert_eq!(d.masks[1], 1 << 1);
        let rest = d.masks.clone();
        d.propagate();
        assert_eq!(d.masks, rest);
    }
}

#[test]
fn commit_gives_what_ripple_and_propagate_give() {
    for period in 3..=8usize {
        for value in 1..=period / 2 {
            let mut a = Domain::new(period);
            a.seed(period);
            let mut b = Domain::new(period);
            b.seed(period);
            a.commit(1, value);
            b.masks[1] = 1 << value;
            b.changed = true;
            b.impossible = false;
            b.ripple_from(1);
            if !b.impossible {
                b.propagate();
            }
            assert_eq!(a.masks, b.masks);
            assert_eq!(a.changed, b.changed);
            assert_eq!(a.impossible, b.impossible);
            // the cheap first run does not change where propagation ends
            let mut c = Domain::new(period);
            c.seed(period);
            c.masks[1] = 1 << value;
            c.propagate();
            assert_eq!(a.impossible, c.impossible);
            if !a.impossible {
                assert_eq!(a.masks, c.masks);
            }
        }
    }
}
