//! The domain of a search: for every position of the period the set of values
//! that may still stand there.

use vstd::prelude::*;
use crate::bits::{
    admits, is_single, lemma_admits_zero, lemma_and_subset, lemma_lowest, lemma_mask_ext,
    lemma_ones_within, lemma_single, lemma_subset_ones, lowest, ones, subset,
};
use crate::recurrence::{back, is_cycle, next};

verus! {

/// Whether every value of the mask is a distance of the period: at least 1
/// and at most `period`.
pub open spec fn in_range(m: u64, period: int) -> bool {
    forall|v: int| admits(m, v) ==> 1 <= v <= period
}

/// Whether `m` is the domain of a period between 3 and 63: one mask for each
/// position, with values of the period only.
pub open spec fn well_formed(m: Seq<u64>) -> bool {
    &&& 3 <= m.len() <= 63
    &&& forall|i: int| 0 <= i < m.len() ==> in_range(#[trigger] m[i], m.len() as int)
}

/// Whether every position still has a value left.
pub open spec fn live(m: Seq<u64>) -> bool {
    forall|i: int| 0 <= i < m.len() ==> #[trigger] m[i] != 0
}

/// Whether the sequence `s` takes each of its elements from the set of its
/// position.
pub open spec fn fits(m: Seq<u64>, s: Seq<usize>) -> bool {
    &&& s.len() == m.len()
    &&& forall|i: int| 0 <= i < m.len() ==> admits(#[trigger] m[i], s[i] as int)
}

/// Whether `a` allows at every position only what `b` allows there.
pub open spec fn within(a: Seq<u64>, b: Seq<u64>) -> bool {
    &&& a.len() == b.len()
    &&& forall|i: int| 0 <= i < a.len() ==> subset(#[trigger] a[i], b[i])
}

/// Whether every cycle that fits `pre` fits `post` too: nothing that is part
/// of a solution has been taken away.
pub open spec fn keeps_cycles(pre: Seq<u64>, post: Seq<u64>) -> bool {
    forall|s: Seq<usize>| is_cycle(s) && #[trigger] fits(pre, s) ==> fits(post, s)
}

/// Whether some position has a smaller set in `post` than in `pre`, and one
/// that is not empty.
pub open spec fn narrowed(pre: Seq<u64>, post: Seq<u64>) -> bool {
    exists|i: int| 0 <= i < post.len() && #[trigger] post[i] != 0 && post[i] != pre[i]
}

/// The number of values that the domain allows, all positions together.
pub open spec fn total(m: Seq<u64>) -> nat
    decreases m.len(),
{
    if m.len() == 0 {
        0
    } else {
        total(m.drop_last()) + ones(m.last())
    }
}

/// The mask `j` places before `pos`.
pub open spec fn mask_before(m: Seq<u64>, pos: int, j: int) -> u64 {
    m[back(m.len() as int, pos, j)]
}

/// The mask of the position after `pos`.
pub open spec fn mask_after(m: Seq<u64>, pos: int) -> u64 {
    m[next(m.len() as int, pos)]
}

/// The sets of a domain together with the two flags of a propagation run.
pub struct Domain {
    /// For each position the mask of the values that may stand there.
    pub masks: Vec<u64>,
    /// Set when a step has made a set smaller without emptying it.
    pub changed: bool,
    /// Set when a step has emptied a set: no sequence fits any more.
    pub impossible: bool,
}

/// A domain as a value: its sets and its two flags.
pub struct DomainView {
    pub masks: Seq<u64>,
    pub changed: bool,
    pub impossible: bool,
}

impl View for Domain {
    type V = DomainView;

    open spec fn view(&self) -> DomainView {
        DomainView { masks: self.masks@, changed: self.changed, impossible: self.impossible }
    }
}

/// The domain after a step that leaves the sets `masks`: `impossible` is set
/// where a set is empty, `changed` where a set has become smaller without
/// becoming empty.
pub open spec fn stepped(pre: DomainView, masks: Seq<u64>) -> DomainView {
    DomainView {
        masks,
        changed: pre.changed || narrowed(pre.masks, masks),
        impossible: pre.impossible || !live(masks),
    }
}

/// A domain within a domain of the period is one of the period too.
pub proof fn lemma_within_well_formed(a: Seq<u64>, b: Seq<u64>)
    requires
        within(a, b),
        well_formed(b),
    ensures
        well_formed(a),
{
    assert forall|i: int| 0 <= i < a.len() implies in_range(#[trigger] a[i], a.len() as int) by {
        assert(subset(a[i], b[i]));
        assert(in_range(b[i], b.len() as int));
    }
}

/// A domain within one that is within a third is within the third.
pub proof fn lemma_within_trans(a: Seq<u64>, b: Seq<u64>, c: Seq<u64>)
    requires
        within(a, b),
        within(b, c),
    ensures
        within(a, c),
{
    assert forall|i: int| 0 <= i < a.len() implies subset(#[trigger] a[i], c[i]) by {
        assert(subset(a[i], b[i]));
        assert(subset(b[i], c[i]));
    }
}

/// A domain within another allows no more values in all, and fewer where the
/// two differ.
pub proof fn lemma_total_within(a: Seq<u64>, b: Seq<u64>)
    requires
        within(a, b),
    ensures
        total(a) <= total(b),
        a != b ==> total(a) < total(b),
    decreases a.len(),
{
    if a.len() > 0 {
        let a0 = a.drop_last();
        let b0 = b.drop_last();
        assert forall|i: int| 0 <= i < a0.len() implies subset(#[trigger] a0[i], b0[i]) by {
            assert(subset(a[i], b[i]));
        }
        lemma_total_within(a0, b0);
        assert(subset(a[a.len() - 1], b[a.len() - 1]));
        lemma_subset_ones(a.last(), b.last());
        if a0 == b0 && a.last() == b.last() {
            assert forall|i: int| 0 <= i < a.len() implies a[i] == b[i] by {
                if i < a.len() - 1 {
                    assert(a0[i] == b0[i]);
                }
            }
            assert(a =~= b);
        }
    } else {
        assert(a =~= b);
    }
}

/// The domain of a period allows at most the period times the period values
/// in all.
pub proof fn lemma_total_bound(m: Seq<u64>)
    requires
        well_formed(m),
    ensures
        total(m) <= m.len() * m.len(),
{
    lemma_total_upto(m, m.len() as int);
}

/// Sets with at most `top` values each have at most `top` times their number
/// of values in all.
proof fn lemma_total_upto(m: Seq<u64>, top: int)
    requires
        0 <= top,
        forall|i: int| 0 <= i < m.len() ==> in_range(#[trigger] m[i], top),
    ensures
        total(m) <= m.len() * top,
    decreases m.len(),
{
    if m.len() > 0 {
        let rest = m.drop_last();
        assert forall|i: int| 0 <= i < rest.len() implies in_range(#[trigger] rest[i], top) by {
            assert(rest[i] == m[i]);
        }
        lemma_total_upto(rest, top);
        assert(in_range(m[m.len() - 1], top));
        lemma_ones_within(m.last(), top, 64);
        assert((m.len() - 1) * top + top == m.len() * top) by (nonlinear_arith);
    } else {
        assert(m.len() * top == 0) by (nonlinear_arith)
            requires
                m.len() == 0,
        ;
    }
}

/// A domain between two equal ones equals them.
pub proof fn lemma_within_squeeze(a: Seq<u64>, b: Seq<u64>, c: Seq<u64>)
    requires
        within(a, b),
        within(b, c),
    ensures
        a == c ==> b == c,
        b != c ==> a != c,
{
    lemma_total_within(a, b);
    lemma_total_within(b, c);
}

/// A domain within one that has an empty set has an empty set too.
pub proof fn lemma_within_live(a: Seq<u64>, b: Seq<u64>)
    requires
        within(a, b),
        live(a),
    ensures
        live(b),
{
    assert forall|i: int| 0 <= i < b.len() implies #[trigger] b[i] != 0 by {
        assert(a[i] != 0);
        assert(subset(a[i], b[i]));
        lemma_lowest(a[i]);
        if b[i] == 0 {
            lemma_admits_zero(lowest(a[i]));
        }
    }
}

/// A set within a single value is that value, unless it is empty.
pub proof fn lemma_subset_of_single(a: u64, b: u64)
    requires
        subset(a, b),
        is_single(b),
        a != 0,
    ensures
        a == b,
{
    lemma_single(b);
    lemma_lowest(a);
    lemma_mask_ext(a, b);
}

impl Domain {
    /// Whether the masks are the domain of a period between 3 and 63.
    pub open spec fn wf(&self) -> bool {
        well_formed(self.masks@)
    }

    /// A domain of `period` positions with no value anywhere, for
    /// `start_sequence` to fill.
    pub fn new(period: usize) -> (domain: Domain)
        ensures
            domain.masks@.len() == period,
            forall|k: int| 0 <= k < period ==> domain.masks@[k] == 0,
            !domain.changed,
            !domain.impossible,
    {
        let mut masks: Vec<u64> = Vec::new();
        let mut k: usize = 0;
        while k < period
            invariant
                k <= period,
                masks@.len() == k,
                forall|q: int| 0 <= q < k ==> masks@[q] == 0,
            decreases period - k,
        {
            masks.push(0);
            k += 1;
        }
        Domain { masks, changed: false, impossible: false }
    }

    /// Intersects the set at `pos` with `mask` and records in the flags
    /// whether that set became smaller or empty.
    pub fn apply_mask_to_pos(&mut self, pos: usize, mask: u64)
        requires
            pos < old(self).masks.len(),
        ensures
            final(self).masks@ == old(self).masks@.update(
                pos as int,
                old(self).masks@[pos as int] & mask,
            ),
            final(self).impossible == (old(self).impossible || final(self).masks@[pos as int]
                == 0),
            final(self).changed == (old(self).changed || (final(self).masks@[pos as int] != 0
                && final(self).masks@[pos as int] != old(self).masks@[pos as int])),
            ones(final(self).masks@[pos as int]) <= ones(old(self).masks@[pos as int]),
            subset(final(self).masks@[pos as int], old(self).masks@[pos as int]),
    {
        let prev_mask = self.masks[pos];
        let new_mask = prev_mask & mask;
        self.masks[pos] = new_mask;
        if new_mask == 0 {
            self.impossible = true;
        } else if new_mask != prev_mask {
            self.changed = true;
        }
        proof {
            lemma_and_subset(prev_mask, mask);
        }
    }
}

} // verus!
