use period_search::domain::Domain;
use period_search::recurrence::validate;
use period_search::search::{
    extend_sequence, is_trivial_masks, masks_to_sequence, report, search_period, start_sequence,
    Finding,
};

/// The elements of a finding.
fn sequence_of(finding: &Finding) -> Vec<usize> {
    match finding {
        Finding::Trivial { period } => vec![1; *period],
        Finding::Found { sequence, .. } => sequence.clone(),
    }
}

/// The distance from `pos` back to the previous occurrence of its element,
/// found the slow way.
fn gap(seq: &[usize], pos: usize) -> usize {
    let period = seq.len();
    let mut d = 1;
    while seq[(pos + period - d) % period] != seq[pos] {
        d += 1;
    }
    d
}

fn is_cycle(seq: &[usize]) -> bool {
    let period = seq.len();
    (0..period).all(|pos| seq[(pos + 1) % period] == gap(seq, pos))
}

/// Every cycle of the period that starts with its largest element and goes on
/// with at most half the period, in dictionary order, by trying them all.
fn all_leading_cycles(period: usize) -> Vec<Vec<usize>> {
    let mut out = Vec::new();
    let mut seq = vec![1usize; period];
    loop {
        let largest_first = seq.iter().all(|&x| x <= seq[0]);
        if largest_first && seq[1] <= period / 2 && is_cycle(&seq) {
            out.push(seq.clone());
        }
        let mut k = period;
        loop {
            if k == 0 {
                return out;
            }
            k -= 1;
            if seq[k] < period {
                seq[k] += 1;
                break;
            }
            seq[k] = 1;
        }
    }
}

#[test]
fn search_agrees_with_exhaustive_enumeration() {
    for period in 3..=7 {
        let found: Vec<Vec<usize>> = search_period(period).iter().map(sequence_of).collect();
        assert_eq!(found, all_leading_cycles(period), "period {}", period);
    }
}

#[test]
fn every_finding_passes_the_validator() {
    for period in 3..=12 {
        for finding in search_period(period) {
            let seq = sequence_of(&finding);
            assert_eq!(seq.len(), period);
            assert!(validate(&seq));
        }
    }
}

#[test]
fn trivial_sequence_is_reported_first_for_every_period() {
    for period in 3..=16 {
        let found = search_period(period);
        assert_eq!(found[0], Finding::Trivial { period });
        for finding in &found[1..] {
            assert!(matches!(finding, Finding::Found { .. }));
        }
    }
}

#[test]
fn period_five_terminates_with_its_findings() {
    let found = search_period(5);
    println!("{:?}", found);
    assert_eq!(found, vec![Finding::Trivial { period: 5 }]);
}

#[test]
fn start_sequence_leaves_the_domain_at_its_length() {
    let mut domain = Domain::new(6);
    let found = start_sequence(6, &mut domain);
    assert_eq!(domain.masks.len(), 6);
    assert_eq!(found, search_period(6));
    // the domain is left as it was seeded for the last leading value
    let mut seeded = Domain::new(6);
    seeded.seed(6);
    assert_eq!(domain.masks, seeded.masks);
    assert!(domain.changed);
    assert!(!domain.impossible);
}

#[test]
fn extend_sequence_restores_the_domain() {
    let mut domain = Domain::new(6);
    domain.seed(4);
    let before = domain.masks.clone();
    let changed = domain.changed;
    let impossible = domain.impossible;
    let found = extend_sequence(&mut domain, 1);
    assert_eq!(domain.masks, before);
    assert_eq!(domain.changed, changed);
    assert_eq!(domain.impossible, impossible);
    for finding in found {
        let seq = sequence_of(&finding);
        assert_eq!(seq[0], 4);
        assert!(validate(&seq));
    }
}

#[test]
fn extend_sequence_finds_the_ones_from_their_seed() {
    let mut domain = Domain::new(5);
    domain.seed(1);
    assert_eq!(domain.masks, vec![2, 2, 2, 2, 2]);
    let found = extend_sequence(&mut domain, 1);
    assert_eq!(found, vec![Finding::Trivial { period: 5 }]);
}

#[test]
fn seed_bounds_the_domain() {
    let mut domain = Domain::new(6);
    domain.seed(4);
    // values 1..=4 everywhere, 4 in front, at most 3 behind it
    assert_eq!(domain.masks, vec![0b10000, 0b01110, 0b11110, 0b11110, 0b11110, 0b11110]);
    domain.seed(6);
    // the period less one is left out
    assert_eq!(
        domain.masks,
        vec![0b1000000, 0b0001110, 0b1011110, 0b1011110, 0b1011110, 0b1011110]
    );
    assert!(domain.changed);
    assert!(!domain.impossible);
}

#[test]
fn new_domain_is_empty() {
    let domain = Domain::new(4);
    assert_eq!(domain.masks, vec![0, 0, 0, 0]);
    assert!(!domain.changed);
    assert!(!domain.impossible);
}

#[test]
fn report_accepts_a_cycle_and_rejects_the_rest() {
    assert_eq!(report(&vec![2, 2, 2]), vec![Finding::Trivial { period: 3 }]);
    // 3, 1, 3 does not close: the 1 would have to be a 2
    assert_eq!(report(&vec![8, 2, 8]), vec![]);
    // 5, 1, 5, 2, 5 fails at its first element only
    assert_eq!(report(&vec![32, 2, 32, 4, 32]), vec![]);
}

#[test]
fn masks_to_sequence_reads_values_and_counts() {
    assert_eq!(masks_to_sequence(&vec![2, 32, 8]), vec![1, 5, 3]);
    assert_eq!(masks_to_sequence(&vec![0b110, 0, 0b11110]), vec![10002, 10000, 10004]);
    assert_eq!(masks_to_sequence(&vec![1u64 << 63, u64::MAX]), vec![63, 10064]);
    assert_eq!(masks_to_sequence(&vec![]), Vec::<usize>::new());
}

#[test]
fn is_trivial_masks_wants_two_known_ones() {
    assert!(is_trivial_masks(&vec![2, 2, 4]));
    assert!(!is_trivial_masks(&vec![2, 4, 2]));
    assert!(!is_trivial_masks(&vec![4, 2, 2]));
    assert!(!is_trivial_masks(&vec![2, 6, 2]));
    assert!(!is_trivial_masks(&vec![6, 2, 2]));
}

#[test]
fn findings_come_in_dictionary_order() {
    for period in 3..=14 {
        let found: Vec<Vec<usize>> = search_period(period).iter().map(sequence_of).collect();
        for pair in found.windows(2) {
            assert!(pair[0] < pair[1]);
        }
    }
}

#[test]
fn seed_of_the_smallest_and_the_largest_period() {
    let mut domain = Domain::new(3);
    domain.seed(3);
    // 3 in front, 1 behind it, 1 or 3 at the end: never a 2
    assert_eq!(domain.masks, vec![0b1000, 0b0010, 0b1010]);
    domain.seed(1);
    assert_eq!(domain.masks, vec![2, 2, 2]);
    let mut domain = Domain::new(63);
    domain.seed(63);
    let all = (u64::MAX - 1) & !(1 << 62);
    assert_eq!(domain.masks[0], 1 << 63);
    assert_eq!(domain.masks[1], (1 << 32) - 2);
    for k in 2..63 {
        assert_eq!(domain.masks[k], all);
    }
}

#[test]
fn period_three_has_the_ones_only() {
    assert_eq!(search_period(3), vec![Finding::Trivial { period: 3 }]);
}
