//! The backtracking search: position by position it tries every value that
//! the domain still allows, lets the rules narrow the rest, and collects the
//! sequences that close into a cycle.

use vstd::prelude::*;
use crate::bits::{
    admits, bit, contains, is_single, lemma_admits_and, lemma_admits_bit, lemma_admits_not,
    lemma_admits_zero, lemma_bit_single, lemma_ones_bound, lemma_single, lemma_single_from, lowest,
    ones, single, span, subset,
};
use crate::domain::{
    fits, in_range, keeps_cycles, lemma_subset_of_single, live, well_formed, within, Domain,
};
use crate::propagation::fixed_at;
use crate::recurrence::{
    ahead, all_ones, back, before, holds_at, is_cycle, is_trivial, lemma_all_ones_cycle,
    lemma_cycle_values, lemma_no_adjacent_period, lemma_no_period_less_one,
    lemma_rotation_invariant, lemma_trivial_is_all_ones, next, rotate, validate,
};

verus! {

/// A sequence that the search has found for a period.
#[derive(Debug, PartialEq, Eq)]
pub enum Finding {
    /// The sequence of ones, which is a cycle of every period.
    Trivial { period: usize },
    /// Any other cycle, with its elements.
    Found { sequence: Vec<usize>, period: usize },
}

impl Finding {
    /// The elements of the sequence that was found.
    pub open spec fn sequence(self) -> Seq<usize> {
        match self {
            Finding::Trivial { period } => all_ones(period as nat),
            Finding::Found { sequence, .. } => sequence@,
        }
    }

    /// Whether the finding records its period, and is marked trivial exactly
    /// when its sequence starts with two ones.
    pub open spec fn wf(self) -> bool {
        match self {
            Finding::Trivial { period } => period >= 2,
            Finding::Found { sequence, period } => sequence@.len() == period && !is_trivial(
                sequence@,
            ),
        }
    }
}

/// Whether `a` and `b` have the same elements before position `k`.
pub open spec fn agree_upto(a: Seq<usize>, b: Seq<usize>, k: int) -> bool {
    forall|q: int| 0 <= q < k ==> a[q] == b[q]
}

/// Whether `a` comes before `b` in dictionary order.
pub open spec fn lex_less(a: Seq<usize>, b: Seq<usize>) -> bool {
    exists|k: int| 0 <= k < a.len() && k < b.len() && #[trigger] agree_upto(a, b, k) && a[k] < b[k]
}

/// Whether the findings stand in dictionary order, none twice.
pub open spec fn ascending(found: Seq<Finding>) -> bool {
    forall|i: int, j: int|
        0 <= i < j < found.len() ==> lex_less(
            (#[trigger] found[i]).sequence(),
            (#[trigger] found[j]).sequence(),
        )
}

/// Whether `s` is the sequence of one of the findings.
pub open spec fn listed(found: Seq<Finding>, s: Seq<usize>) -> bool {
    exists|k: int| 0 <= k < found.len() && (#[trigger] found[k]).sequence() == s
}

/// Whether `found` is the list of the cycles that fit the domain `m`: each
/// of them once, in dictionary order, and nothing else.
pub open spec fn lists_cycles(m: Seq<u64>, found: Seq<Finding>) -> bool {
    &&& forall|k: int|
        0 <= k < found.len() ==> (#[trigger] found[k]).wf() && is_cycle(found[k].sequence())
            && fits(m, found[k].sequence())
    &&& forall|s: Seq<usize>| is_cycle(s) && #[trigger] fits(m, s) ==> listed(found, s)
    &&& ascending(found)
}

/// Whether the first `i` positions of the domain are known.
pub open spec fn prefix_known(m: Seq<u64>, i: int) -> bool {
    forall|k: int| 0 <= k < i ==> is_single(#[trigger] m[k])
}

/// What `masks_to_sequence` makes of a domain: the value of each position
/// that is known, and 10000 plus the number of values left at each that is
/// not.
pub open spec fn sequence_of(m: Seq<u64>) -> Seq<usize> {
    Seq::new(
        m.len(),
        |k: int|
            if is_single(m[k]) {
                lowest(m[k]) as usize
            } else {
                (10000 + ones(m[k])) as usize
            },
    )
}

/// Whether the first two positions are both known to hold 1.
pub fn is_trivial_masks(masks: &Vec<u64>) -> (r: bool)
    requires
        masks.len() >= 2,
    ensures
        r == (is_single(masks@[0]) && is_single(masks@[1]) && lowest(masks@[0]) == 1 && lowest(
            masks@[1],
        ) == 1),
{
    masks[0].count_ones() == 1 && masks[1].count_ones() == 1 && masks[0].trailing_zeros() == 1
        && masks[1].trailing_zeros() == 1
}

/// The sequence that a domain stands for: the value of each known position,
/// and 10000 plus the number of values left at each other one.
pub fn masks_to_sequence(masks: &Vec<u64>) -> (seq: Vec<usize>)
    ensures
        seq@ == sequence_of(masks@),
{
    let mut seq: Vec<usize> = Vec::new();
    let mut k: usize = 0;
    while k < masks.len()
        invariant
            k <= masks.len(),
            seq@.len() == k,
            forall|q: int| 0 <= q < k ==> seq@[q] == sequence_of(masks@)[q],
        decreases masks.len() - k,
    {
        let mask = masks[k];
        if mask.count_ones() == 1 {
            seq.push(mask.trailing_zeros() as usize);
        } else {
            proof {
                lemma_ones_bound(mask, 64);
            }
            seq.push(10000 + (mask.count_ones() as usize));
        }
        k += 1;
    }
    proof {
        assert(seq@ =~= sequence_of(masks@));
    }
    seq
}

/// Whether `found` lists the cycles that fit `m` and have an element below
/// `n` at position `i`.
pub open spec fn lists_below(m: Seq<u64>, i: int, n: int, found: Seq<Finding>) -> bool {
    &&& forall|k: int|
        0 <= k < found.len() ==> (#[trigger] found[k]).wf() && is_cycle(found[k].sequence())
            && fits(m, found[k].sequence()) && found[k].sequence()[i] < n
    &&& forall|s: Seq<usize>|
        is_cycle(s) && #[trigger] fits(m, s) && s[i] < n ==> listed(found, s)
    &&& ascending(found)
}

/// Findings that all come after the ones before them can be put behind them.
proof fn lemma_ascending_concat(found: Seq<Finding>, sub: Seq<Finding>)
    requires
        ascending(found),
        ascending(sub),
        forall|a: int, b: int|
            0 <= a < found.len() && 0 <= b < sub.len() ==> lex_less(
                (#[trigger] found[a]).sequence(),
                (#[trigger] sub[b]).sequence(),
            ),
    ensures
        ascending(found + sub),
{
    let all = found + sub;
    assert forall|i: int, j: int| 0 <= i < j < all.len() implies lex_less(
        (#[trigger] all[i]).sequence(),
        (#[trigger] all[j]).sequence(),
    ) by {
        if j < found.len() {
            assert(all[i] == found[i] && all[j] == found[j]);
        } else if i >= found.len() {
            assert(all[i] == sub[i - found.len()] && all[j] == sub[j - found.len()]);
        } else {
            assert(all[i] == found[i] && all[j] == sub[j - found.len()]);
        }
    }
}

/// A sequence that fits a domain with a position fixed fits the domain, and
/// has the fixed value there.
proof fn lemma_fits_fixed(m: Seq<u64>, i: int, n: int, mb: Seq<u64>, s: Seq<usize>)
    requires
        0 <= i < m.len(),
        0 <= n < 64,
        admits(m[i], n),
        within(mb, fixed_at(m, i, n)),
        fits(mb, s),
    ensures
        fits(m, s),
        s[i] == n,
{
    let mn = fixed_at(m, i, n);
    assert forall|q: int| 0 <= q < m.len() implies admits(#[trigger] m[q], s[q] as int) by {
        assert(admits(mb[q], s[q] as int));
        assert(subset(mb[q], mn[q]));
        lemma_admits_bit(n, s[q] as int);
    }
    assert(admits(mb[i], s[i] as int));
    assert(subset(mb[i], mn[i]));
    lemma_admits_bit(n, s[i] as int);
}

/// One value of the branching position done: the findings of its branch go
/// behind the ones of the smaller values.
proof fn lemma_branch(
    m: Seq<u64>,
    i: int,
    n: int,
    mb: Seq<u64>,
    found: Seq<Finding>,
    sub: Seq<Finding>,
)
    requires
        0 <= i < m.len(),
        prefix_known(m, i),
        0 <= n < 64,
        lists_below(m, i, n, found),
        admits(m[i], n),
        within(mb, fixed_at(m, i, n)),
        keeps_cycles(fixed_at(m, i, n), mb),
        lists_cycles(mb, sub),
    ensures
        lists_below(m, i, n + 1, found + sub),
{
    let mn = fixed_at(m, i, n);
    let all = found + sub;
    assert forall|k: int| 0 <= k < all.len() implies (#[trigger] all[k]).wf() && is_cycle(
        all[k].sequence(),
    ) && fits(m, all[k].sequence()) && all[k].sequence()[i] < n + 1 by {
        if k < found.len() {
            assert(all[k] == found[k]);
        } else {
            assert(all[k] == sub[k - found.len()]);
            lemma_fits_fixed(m, i, n, mb, all[k].sequence());
        }
    }
    assert forall|s: Seq<usize>| is_cycle(s) && #[trigger] fits(m, s) && s[i] < n + 1 implies listed(
        all,
        s,
    ) by {
        if s[i] < n {
            assert(listed(found, s));
            let k = choose|k: int| 0 <= k < found.len() && (#[trigger] found[k]).sequence() == s;
            assert(all[k] == found[k]);
        } else {
            assert forall|q: int| 0 <= q < mn.len() implies admits(#[trigger] mn[q], s[q] as int) by {
                assert(admits(m[q], s[q] as int));
                lemma_admits_bit(n, s[q] as int);
            }
            assert(fits(mn, s));
            assert(fits(mb, s));
            assert(listed(sub, s));
            let k = choose|k: int| 0 <= k < sub.len() && (#[trigger] sub[k]).sequence() == s;
            assert(all[found.len() + k] == sub[k]);
        }
    }
    assert forall|a: int, b: int| 0 <= a < found.len() && 0 <= b < sub.len() implies lex_less(
        (#[trigger] found[a]).sequence(),
        (#[trigger] sub[b]).sequence(),
    ) by {
        let sa = found[a].sequence();
        let sb = sub[b].sequence();
        lemma_fits_fixed(m, i, n, mb, sb);
        assert forall|q: int| 0 <= q < i implies sa[q] == sb[q] by {
            assert(is_single(m[q]));
            lemma_single(m[q]);
            assert(admits(m[q], sa[q] as int));
            assert(admits(m[q], sb[q] as int));
        }
        assert(agree_upto(sa, sb, i));
    }
    lemma_ascending_concat(found, sub);
}

/// A branch whose domain has an empty set holds no cycle.
proof fn lemma_dead_branch(m: Seq<u64>, i: int, n: int, mb: Seq<u64>, s: Seq<usize>)
    requires
        0 <= i < m.len(),
        0 <= n < 64,
        keeps_cycles(fixed_at(m, i, n), mb),
        mb.len() == m.len(),
        !live(mb),
        is_cycle(s),
        fits(m, s),
    ensures
        s[i] != n,
{
    let mn = fixed_at(m, i, n);
    if s[i] == n {
        assert forall|q: int| 0 <= q < mn.len() implies admits(#[trigger] mn[q], s[q] as int) by {
            assert(admits(m[q], s[q] as int));
            lemma_admits_bit(n, s[q] as int);
        }
        assert(fits(mn, s));
        assert(fits(mb, s));
        assert forall|q: int| 0 <= q < mb.len() implies #[trigger] mb[q] != 0 by {
            assert(admits(mb[q], s[q] as int));
            lemma_admits_zero(s[q] as int);
        }
    }
}

/// A copy of the masks.
fn copy_masks(masks: &Vec<u64>) -> (r: Vec<u64>)
    ensures
        r@ == masks@,
{
    let r = masks.clone();
    proof {
        assert(r@ =~= masks@);
    }
    r
}

/// What a domain whose positions are all known amounts to: its one sequence
/// if that is a cycle, and nothing if it is not.
pub fn report(masks: &Vec<u64>) -> (found: Vec<Finding>)
    requires
        well_formed(masks@),
        prefix_known(masks@, masks@.len() as int),
    ensures
        lists_cycles(masks@, found@),
{
    let period = masks.len();
    let seq = masks_to_sequence(masks);
    let ghost sv = seq@;
    let mut found: Vec<Finding> = Vec::new();
    proof {
        assert forall|k: int| 0 <= k < masks@.len() implies admits(
            #[trigger] masks@[k],
            sv[k] as int,
        ) by {
            lemma_single(masks@[k]);
        }
        assert(fits(masks@, sv));
    }
    if validate(&seq) {
        if is_trivial_masks(masks) {
            proof {
                lemma_single(masks@[0]);
                lemma_single(masks@[1]);
                lemma_trivial_is_all_ones(sv);
            }
            found.push(Finding::Trivial { period });
        } else {
            found.push(Finding::Found { sequence: seq, period });
        }
        proof {
            assert(found@[0].sequence() == sv);
        }
    }
    proof {
        assert forall|s: Seq<usize>| is_cycle(s) && #[trigger] fits(masks@, s) implies listed(
            found@,
            s,
        ) by {
            assert forall|k: int| 0 <= k < s.len() implies s[k] == sv[k] by {
                lemma_single(masks@[k]);
                assert(admits(masks@[k], s[k] as int));
            }
            assert(s =~= sv);
            assert(found@[0].sequence() == s);
        }
    }
    found
}

/// Finds the cycles that fit the domain, whose positions before `i` are
/// known: it tries each value that position `i` allows, in increasing order,
/// narrows the domain by the rules, and goes on to the next position. The
/// domain is left as it was found.
pub fn extend_sequence(domain: &mut Domain, i: usize) -> (found: Vec<Finding>)
    requires
        old(domain).wf(),
        live(old(domain).masks@),
        1 <= i < old(domain).masks.len(),
        prefix_known(old(domain).masks@, i as int),
    ensures
        final(domain).masks@ == old(domain).masks@,
        final(domain).changed == old(domain).changed,
        final(domain).impossible == old(domain).impossible,
        lists_cycles(old(domain).masks@, found@),
    decreases old(domain).masks.len() - i,
{
    let period = domain.masks.len();
    if single(domain.masks[i]) {
        if i == period - 1 {
            return report(&domain.masks);
        } else {
            return extend_sequence(domain, i + 1);
        }
    }
    let saved = copy_masks(&domain.masks);
    let was_changed = domain.changed;
    let was_impossible = domain.impossible;
    let ghost m = domain.masks@;
    let mut found: Vec<Finding> = Vec::new();
    let mut n: usize = 1;
    proof {
        assert forall|s: Seq<usize>| is_cycle(s) && #[trigger] fits(m, s) implies !(s[i as int]
            < 1) by {
            lemma_cycle_values(s, i as int);
        }
    }
    while n <= period
        invariant
            period == m.len(),
            period == old(domain).masks.len(),
            3 <= period <= 63,
            1 <= i < period,
            1 <= n <= period + 1,
            well_formed(m),
            live(m),
            prefix_known(m, i as int),
            saved@ == m,
            domain.masks@ == m,
            lists_below(m, i as int, n as int, found@),
        decreases period + 1 - n,
    {
        let ghost before = found@;
        if !contains(domain.masks[i], n) {
            proof {
                assert forall|s: Seq<usize>| is_cycle(s) && #[trigger] fits(m, s) implies s[i as int]
                    != n by {
                    assert(admits(m[i as int], s[i as int] as int));
                }
            }
        } else if n == period && domain.masks[i - 1] == bit(n) {
            // the period itself never stands twice in a row
            proof {
                assert forall|s: Seq<usize>| is_cycle(s) && #[trigger] fits(m, s) implies s[i as int]
                    != n by {
                    assert(admits(m[i - 1], s[i - 1] as int));
                    lemma_no_adjacent_period(s, i - 1);
                }
            }
        } else {
            domain.commit(i, n);
            let ghost mn = fixed_at(m, i as int, n as int);
            let ghost mb = domain.masks@;
            if !domain.impossible {
                proof {
                    lemma_bit_single(n as int);
                    assert forall|q: int| 0 <= q < i + 1 implies is_single(#[trigger] mb[q]) by {
                        assert(subset(mb[q], mn[q]));
                        assert(mb[q] != 0);
                        if q < i {
                            assert(is_single(m[q]));
                        }
                        lemma_subset_of_single(mb[q], mn[q]);
                    }
                }
                let mut sub = if i == period - 1 {
                    report(&domain.masks)
                } else {
                    extend_sequence(domain, i + 1)
                };
                proof {
                    lemma_branch(m, i as int, n as int, mb, before, sub@);
                }
                found.append(&mut sub);
            } else {
                proof {
                    assert forall|s: Seq<usize>| is_cycle(s) && #[trigger] fits(m, s) implies s[i as int]
                        != n by {
                        lemma_dead_branch(m, i as int, n as int, mb, s);
                    }
                }
            }
            domain.masks = copy_masks(&saved);
        }
        n += 1;
    }
    domain.changed = was_changed;
    domain.impossible = was_impossible;
    proof {
        assert forall|s: Seq<usize>| is_cycle(s) && #[trigger] fits(m, s) implies listed(found@, s) by {
            lemma_cycle_values(s, i as int);
        }
    }
    found
}

/// Whether a sequence is read from its largest element on, and that element
/// is followed by one that is at most half the period. Every cycle can be
/// read so from one of its positions, so the search looks for these only.
pub open spec fn leads(s: Seq<usize>) -> bool {
    &&& s.len() >= 2
    &&& forall|k: int| 0 <= k < s.len() ==> #[trigger] s[k] <= s[0]
    &&& s[1] <= s.len() / 2
}

/// Whether `m` is the domain that the search starts from for the leading
/// value `n`: `n` at the first position, at most `n` everywhere, at most half
/// the period at the second position, and nowhere the period less one.
pub open spec fn is_start(m: Seq<u64>, n: int) -> bool {
    &&& forall|v: int| admits(m[0], v) <==> v == n
    &&& forall|k: int, v: int|
        1 <= k < m.len() ==> (#[trigger] admits(m[k], v) <==> 1 <= v <= n && v != m.len() - 1 && (k
            == 1 ==> v <= m.len() / 2))
}

/// Whether `found` lists the cycles of the period that are read from their
/// largest element on and begin with an element below `n`.
pub open spec fn lists_leading(period: int, n: int, found: Seq<Finding>) -> bool {
    &&& forall|k: int|
        0 <= k < found.len() ==> (#[trigger] found[k]).wf() && is_cycle(found[k].sequence())
            && found[k].sequence().len() == period && leads(found[k].sequence())
            && found[k].sequence()[0] < n
    &&& forall|s: Seq<usize>|
        is_cycle(s) && s.len() == period && #[trigger] leads(s) && s[0] < n ==> listed(found, s)
    &&& ascending(found)
}

/// Whether `found` is what the search of a period has to find: every cycle
/// of that period that is read from its largest element on, with an element
/// of at most half the period behind it; each of them once, in dictionary
/// order, and nothing else.
pub open spec fn is_search_result(period: int, found: Seq<Finding>) -> bool {
    &&& forall|k: int|
        0 <= k < found.len() ==> (#[trigger] found[k]).wf() && is_cycle(found[k].sequence())
            && found[k].sequence().len() == period && leads(found[k].sequence())
    &&& forall|s: Seq<usize>|
        is_cycle(s) && s.len() == period && #[trigger] leads(s) ==> listed(found, s)
    &&& ascending(found)
}

/// The cycles that fit the start domain of `n` are those that lead with `n`.
proof fn lemma_start_fits(m: Seq<u64>, n: int, s: Seq<usize>)
    requires
        3 <= m.len() <= 63,
        is_start(m, n),
        is_cycle(s),
        s.len() == m.len(),
    ensures
        fits(m, s) <==> leads(s) && s[0] == n,
{
    if fits(m, s) {
        assert(admits(m[0], s[0] as int));
        assert forall|k: int| 0 <= k < s.len() implies #[trigger] s[k] <= s[0] by {
            assert(admits(m[k], s[k] as int));
        }
        assert(admits(m[1], s[1] as int));
    }
    if leads(s) && s[0] == n {
        assert forall|k: int| 0 <= k < m.len() implies admits(#[trigger] m[k], s[k] as int) by {
            lemma_cycle_values(s, k);
            lemma_no_period_less_one(s, k);
            assert(s[k] <= s[0]);
        }
    }
}

/// One leading value done: the findings of its search go behind the ones of
/// the smaller leading values.
proof fn lemma_leading_branch(m: Seq<u64>, n: int, found: Seq<Finding>, sub: Seq<Finding>)
    requires
        3 <= m.len() <= 63,
        is_start(m, n),
        lists_leading(m.len() as int, n, found),
        lists_cycles(m, sub),
    ensures
        lists_leading(m.len() as int, n + 1, found + sub),
{
    let period = m.len() as int;
    let all = found + sub;
    assert forall|k: int| 0 <= k < all.len() implies (#[trigger] all[k]).wf() && is_cycle(
        all[k].sequence(),
    ) && all[k].sequence().len() == period && leads(all[k].sequence()) && all[k].sequence()[0] < n
        + 1 by {
        if k < found.len() {
            assert(all[k] == found[k]);
        } else {
            assert(all[k] == sub[k - found.len()]);
            lemma_start_fits(m, n, all[k].sequence());
        }
    }
    assert forall|s: Seq<usize>|
        is_cycle(s) && s.len() == period && #[trigger] leads(s) && s[0] < n + 1 implies listed(
        all,
        s,
    ) by {
        if s[0] < n {
            assert(listed(found, s));
            let k = choose|k: int| 0 <= k < found.len() && (#[trigger] found[k]).sequence() == s;
            assert(all[k] == found[k]);
        } else {
            lemma_start_fits(m, n, s);
            assert(listed(sub, s));
            let k = choose|k: int| 0 <= k < sub.len() && (#[trigger] sub[k]).sequence() == s;
            assert(all[found.len() + k] == sub[k]);
        }
    }
    assert forall|a: int, b: int| 0 <= a < found.len() && 0 <= b < sub.len() implies lex_less(
        (#[trigger] found[a]).sequence(),
        (#[trigger] sub[b]).sequence(),
    ) by {
        let sa = found[a].sequence();
        let sb = sub[b].sequence();
        lemma_start_fits(m, n, sb);
        assert(agree_upto(sa, sb, 0));
    }
    lemma_ascending_concat(found, sub);
}

/// The search of every period finds the sequence of ones, reports it as the
/// trivial one, ahead of everything else, and reports nothing else as
/// trivial.
pub proof fn lemma_trivial_reported(period: usize, found: Seq<Finding>)
    requires
        period >= 3,
        is_search_result(period as int, found),
    ensures
        found.len() >= 1,
        found[0] == (Finding::Trivial { period }),
        forall|k: int| 1 <= k < found.len() ==> found[k] is Found,
{
    let ones_seq = all_ones(period as nat);
    lemma_all_ones_cycle(period as nat);
    assert(leads(ones_seq));
    assert(listed(found, ones_seq));
    let k = choose|k: int| 0 <= k < found.len() && (#[trigger] found[k]).sequence() == ones_seq;
    assert(found[k].wf());
    if k > 0 {
        let first = found[0].sequence();
        assert(lex_less(first, found[k].sequence()));
        let q = choose|q: int|
            0 <= q < first.len() && q < ones_seq.len() && #[trigger] agree_upto(first, ones_seq, q)
                && first[q] < ones_seq[q];
        assert(found[0].wf());
        lemma_cycle_values(first, q);
    }
    match found[0] {
        Finding::Trivial { period: p } => {
            assert(all_ones(p as nat).len() == ones_seq.len());
        },
        Finding::Found { sequence, period: p } => {},
    }
    assert forall|j: int| 1 <= j < found.len() implies found[j] is Found by {
        assert(found[j].wf());
        assert(lex_less(found[0].sequence(), found[j].sequence()));
        if found[j] is Trivial {
            let sj = found[j].sequence();
            assert(is_cycle(sj) && sj.len() == period);
            assert(sj =~= ones_seq);
            let q = choose|q: int|
                0 <= q < ones_seq.len() && q < sj.len() && #[trigger] agree_upto(ones_seq, sj, q)
                    && ones_seq[q] < sj[q];
        }
    }
}

/// A position among the first `k` whose element is the largest of them.
proof fn lemma_largest(s: Seq<usize>, k: int) -> (a: int)
    requires
        1 <= k <= s.len(),
    ensures
        0 <= a < k,
        forall|j: int| 0 <= j < k ==> s[j] <= s[a],
    decreases k,
{
    if k == 1 {
        0
    } else {
        let a = lemma_largest(s, k - 1);
        if s[k - 1] > s[a] {
            k - 1
        } else {
            a
        }
    }
}

/// Every cycle can be read from a position that holds its largest element
/// and is followed by at most half the period: of two occurrences of the
/// largest element, one is no further than that from the other. The position
/// is returned.
pub proof fn lemma_some_rotation_leads(s: Seq<usize>) -> (r: int)
    requires
        is_cycle(s),
        s.len() >= 2,
    ensures
        0 <= r < s.len(),
        is_cycle(rotate(s, r)),
        leads(rotate(s, r)),
{
    let n = s.len() as int;
    let a = lemma_largest(s, n);
    let d = s[next(n, a)] as int;
    assert(holds_at(s, a));
    let r = if d <= n / 2 {
        a
    } else {
        let b = back(n, a, d);
        assert(before(s, a, d) == s[a]);
        if b == a {
            lemma_cycle_values(s, a);
            lemma_no_adjacent_period(s, a);
        }
        assert(holds_at(s, b));
        let e = s[next(n, b)] as int;
        assert(back(n, b, n - d) == a);
        if e > n - d {
            assert(before(s, b, n - d) != s[b]);
        }
        b
    };
    let t = rotate(s, r);
    assert(t[0] == s[r]);
    assert(t[1] == s[next(n, r)]);
    assert forall|k: int| 0 <= k < t.len() implies #[trigger] t[k] <= t[0] by {
        assert(s[ahead(n, k, r)] <= s[a]);
    }
    lemma_rotation_invariant(s, r);
    r
}

/// The search of a period misses no cycle of that period: each is found,
/// read from one of its positions.
pub proof fn lemma_search_finds_every_cycle(period: usize, found: Seq<Finding>, s: Seq<usize>)
    requires
        period >= 3,
        is_search_result(period as int, found),
        is_cycle(s),
        s.len() == period,
    ensures
        exists|r: int| 0 <= r < period && listed(found, #[trigger] rotate(s, r)),
{
    let r = lemma_some_rotation_leads(s);
    assert(listed(found, rotate(s, r)));
}

impl Domain {
    /// Sets the domain up for the leading value `n`. A period can be read
    /// from any of its positions, so the first element may be taken to be the
    /// largest: the first position holds `n` and no position more than `n`.
    /// At one of its occurrences the largest element is followed by at most
    /// half the period, so the second position holds at most that. The period
    /// less one stands in no cycle and is left out everywhere.
    pub fn seed(&mut self, n: usize)
        requires
            3 <= old(self).masks.len() <= 63,
            1 <= n <= old(self).masks.len(),
            n != old(self).masks.len() - 1,
        ensures
            final(self).masks@.len() == old(self).masks@.len(),
            is_start(final(self).masks@, n as int),
            final(self).wf(),
            live(final(self).masks@),
            prefix_known(final(self).masks@, 1),
            final(self).changed,
            !final(self).impossible,
    {
        let period = self.masks.len();
        let barred = bit(period - 1);
        let upto = span(1, n);
        let mask = upto & !barred;
        let first = mask & bit(n);
        let half = span(0, period / 2);
        let second = mask & half;
        proof {
            assert forall|v: int| admits(mask, v) <==> 1 <= v <= n && v != period - 1 by {
                lemma_admits_and(upto, !barred, v);
                if 0 <= v < 64 {
                    lemma_admits_not(barred, v);
                }
            }
            assert forall|v: int| admits(first, v) <==> v == n by {
                lemma_admits_and(mask, 1u64 << (n as u64), v);
            }
            assert forall|v: int|
                admits(second, v) <==> 1 <= v <= n && v != period - 1 && v <= period / 2 by {
                lemma_admits_and(mask, half, v);
            }
            lemma_single_from(first, n as int);
            assert(admits(mask, 1));
            assert(admits(second, 1));
            lemma_admits_zero(1);
            lemma_admits_zero(n as int);
        }
        let mut k: usize = 0;
        while k < period
            invariant
                period == self.masks.len(),
                k <= period,
                forall|q: int| 0 <= q < k ==> self.masks@[q] == mask,
            decreases period - k,
        {
            self.masks[k] = mask;
            k += 1;
        }
        self.masks[0] = first;
        self.masks[1] = second;
        self.changed = true;
        self.impossible = false;
        proof {
            let m = self.masks@;
            assert forall|q: int| 0 <= q < m.len() implies in_range(#[trigger] m[q], m.len() as int)
                && m[q] != 0 by {
                assert(q >= 2 ==> m[q] == mask);
            }
            assert forall|k: int, v: int| 1 <= k < m.len() implies (#[trigger] admits(m[k], v) <==> 1
                <= v <= n && v != m.len() - 1 && (k == 1 ==> v <= m.len() / 2)) by {
                assert(k >= 2 ==> m[k] == mask);
            }
        }
    }
}

/// Searches one period with the domain given as working space: for each
/// leading value from 1 up to the period, the period less one left out, it
/// seeds the domain and lets `extend_sequence` find the cycles that begin
/// with that value. The domain is left as it was seeded last, for the
/// period itself.
pub fn start_sequence(period: usize, domain: &mut Domain) -> (found: Vec<Finding>)
    requires
        3 <= period <= 63,
        old(domain).masks.len() == period,
    ensures
        final(domain).masks.len() == period,
        is_start(final(domain).masks@, period as int),
        final(domain).changed,
        !final(domain).impossible,
        is_search_result(period as int, found@),
{
    let mut found: Vec<Finding> = Vec::new();
    let mut n: usize = 1;
    proof {
        assert forall|s: Seq<usize>| is_cycle(s) && s.len() == period && #[trigger] leads(s) implies 
            !(s[0] < 1) by {
            lemma_cycle_values(s, 0);
        }
    }
    while n <= period
        invariant
            3 <= period <= 63,
            domain.masks.len() == period,
            1 <= n <= period + 1,
            n == period + 1 ==> is_start(domain.masks@, period as int) && domain.changed
                && !domain.impossible,
            lists_leading(period as int, n as int, found@),
        decreases period + 1 - n,
    {
        if n != period - 1 {
            domain.seed(n);
            let ghost m = domain.masks@;
            let ghost before = found@;
            let mut sub = extend_sequence(domain, 1);
            proof {
                lemma_leading_branch(m, n as int, before, sub@);
            }
            found.append(&mut sub);
        } else {
            proof {
                assert forall|s: Seq<usize>|
                    is_cycle(s) && s.len() == period && #[trigger] leads(s) implies s[0] != n by {
                    lemma_no_period_less_one(s, 0);
                }
            }
        }
        n += 1;
    }
    proof {
        assert forall|s: Seq<usize>| is_cycle(s) && s.len() == period && #[trigger] leads(s) implies 
            listed(found@, s) by {
            lemma_cycle_values(s, 0);
        }
    }
    found
}

/// Searches one period from scratch, with a domain of its own.
pub fn search_period(period: usize) -> (found: Vec<Finding>)
    requires
        3 <= period <= 63,
    ensures
        is_search_result(period as int, found@),
{
    let mut domain = Domain::new(period);
    start_sequence(period, &mut domain)
}

} // verus!
