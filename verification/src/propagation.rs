//! Propagation: the rules applied position after position and round after
//! round, until they have nothing left to do or a set is empty.

use vstd::prelude::*;
use crate::bits::{bit, lemma_admits_zero, subset};
use crate::domain::{
    in_range, lemma_total_within, lemma_within_live, lemma_within_squeeze, lemma_within_trans, live,
    narrowed, stepped, total, well_formed, within, Domain, DomainView,
};
use crate::rules::{
    bound_range_masks, bound_val_masks, converged, eliminate_masks, project_back_masks, stable_at,
    step_follows, tightens,
};

verus! {

/// The domain after `settle_at`: the four rules at `pos`, in their order, up
/// to the first that empties a set.
pub open spec fn settled(s: DomainView, pos: int) -> DomainView {
    let a = stepped(s, project_back_masks(s.masks, pos));
    if a.impossible {
        a
    } else {
        let b = stepped(a, eliminate_masks(a.masks, pos));
        if b.impossible {
            b
        } else {
            let c = stepped(b, bound_range_masks(b.masks, pos));
            if c.impossible {
                c
            } else {
                stepped(c, bound_val_masks(c.masks, pos))
            }
        }
    }
}

/// The domain after the first `k` positions of a `sweep`: each is settled in
/// turn, up to the first at which a set is empty.
pub open spec fn swept(s: DomainView, k: int) -> DomainView
    decreases k,
{
    if k <= 0 {
        s
    } else {
        let a = swept(s, k - 1);
        if a.impossible {
            a
        } else {
            settled(a, k - 1)
        }
    }
}

/// The domain after the loop of `ripple_from` has gone on from position `j`:
/// `bound_range_of` and then `project_back` at each position, for as long as
/// each of them changes something there and empties no set.
pub open spec fn rippled_on(s: DomainView, period: int, j: int) -> DomainView
    decreases period - j,
{
    if j >= period {
        s
    } else {
        let fresh = DomainView { masks: s.masks, changed: false, impossible: s.impossible };
        let a = stepped(fresh, bound_range_masks(s.masks, j));
        if !a.changed || a.impossible {
            a
        } else {
            let b = stepped(a, project_back_masks(a.masks, j));
            if !b.changed || b.impossible {
                b
            } else {
                rippled_on(b, period, j + 1)
            }
        }
    }
}

/// The domain after `ripple_from`: `project_back` at the position before
/// `from`, and then the loop from `from` on unless a set is empty.
pub open spec fn rippled(s: DomainView, from: int) -> DomainView {
    let a = stepped(s, project_back_masks(s.masks, from - 1));
    if a.impossible {
        a
    } else {
        rippled_on(a, s.masks.len() as int, from)
    }
}

/// The domain after `k` rounds of `propagate`, or after fewer if an earlier
/// round changed nothing or emptied a set: each round is a `sweep` that starts
/// with `changed` put out.
pub open spec fn after_rounds(s: DomainView, k: nat) -> DomainView
    decreases k,
{
    if k == 0 {
        s
    } else {
        let p = after_rounds(s, (k - 1) as nat);
        if !p.changed || p.impossible {
            p
        } else {
            swept(
                DomainView { masks: p.masks, changed: false, impossible: p.impossible },
                p.masks.len() as int,
            )
        }
    }
}

/// Whether propagation ends at `s`: its last round changed nothing, or left a
/// set empty.
pub open spec fn at_rest(s: DomainView) -> bool {
    !s.changed || s.impossible
}

/// The domain after `propagate`: the first of the rounds to end at rest,
/// the first round starting with `changed` set. Every round before the last
/// takes a value away, so there is at most one round more than the domain
/// allows values.
pub open spec fn propagated(s: DomainView, post: DomainView) -> bool {
    &&& at_rest(post)
    &&& exists|k: nat|
        k <= total(s.masks) + 1 && post == #[trigger] after_rounds(
            DomainView { masks: s.masks, changed: true, impossible: s.impossible },
            k,
        )
}

/// The sets with position `pos` fixed to `value`.
pub open spec fn fixed_at(m: Seq<u64>, pos: int, value: int) -> Seq<u64> {
    m.update(pos, 1u64 << (value as u64))
}

/// Whether `post` is the domain after `commit`: position `pos` is fixed to
/// `value` and both flags are reset, `ripple_from` runs from there, and
/// `propagate` after it unless a set is empty by then.
pub open spec fn committed(s: DomainView, pos: int, value: int, post: DomainView) -> bool {
    let a = rippled(
        DomainView { masks: fixed_at(s.masks, pos, value), changed: true, impossible: false },
        pos,
    );
    if a.impossible {
        post == a
    } else {
        propagated(a, post)
    }
}

/// What holds of every run of several propagation steps: the sets are
/// tightened, `impossible` says whether a set is empty, and `changed` is set
/// when the run began with it set or made a set smaller; it is set at the end
/// of every run that made a set smaller and emptied none.
pub open spec fn run_follows(pre: DomainView, post: DomainView) -> bool {
    &&& tightens(pre.masks, post.masks)
    &&& post.impossible == (pre.impossible || !live(post.masks))
    &&& pre.changed ==> post.changed
    &&& post.changed ==> pre.changed || post.masks != pre.masks
    &&& post.masks != pre.masks ==> post.changed || post.impossible
}

/// Whether the domain `post` is what a propagation run may leave of the sets
/// `pre`: these tightened, with `impossible` set exactly when a set is empty.
pub open spec fn narrows(pre: Seq<u64>, post: DomainView) -> bool {
    &&& tightens(pre, post.masks)
    &&& post.impossible == !live(post.masks)
}

/// A single step is a run.
pub proof fn lemma_step_is_run(pre: DomainView, post: DomainView)
    requires
        step_follows(pre, post),
    ensures
        run_follows(pre, post),
{
    let a = pre.masks;
    let b = post.masks;
    if narrowed(a, b) {
        let i = choose|i: int| 0 <= i < b.len() && #[trigger] b[i] != 0 && b[i] != a[i];
        assert(a != b);
    }
    if a != b && !post.impossible {
        assert(live(b));
        if !narrowed(a, b) {
            assert forall|i: int| 0 <= i < b.len() implies #[trigger] b[i] == a[i] by {
                if b[i] != a[i] {
                    assert(b[i] != 0);
                }
            }
            assert(a =~= b);
        }
    }
}

/// A domain follows from itself by the empty run.
pub proof fn lemma_run_same(d: DomainView)
    requires
        well_formed(d.masks),
        !d.impossible,
        live(d.masks),
    ensures
        run_follows(d, d),
{
    assert forall|i: int| 0 <= i < d.masks.len() implies subset(
        #[trigger] d.masks[i],
        d.masks[i],
    ) by {}
}

/// Two runs, one after the other, are a run.
pub proof fn lemma_run_chain(a: DomainView, b: DomainView, c: DomainView)
    requires
        run_follows(a, b),
        run_follows(b, c),
    ensures
        run_follows(a, c),
{
    lemma_within_trans(c.masks, b.masks, a.masks);
    lemma_within_squeeze(c.masks, b.masks, a.masks);
    if live(c.masks) {
        lemma_within_live(c.masks, b.masks);
    }
    if c.masks != b.masks && b.masks == a.masks {
        assert(c.masks != a.masks);
    }
}

/// A step after a run that has emptied no set narrows the domain that the
/// run began with.
pub proof fn lemma_narrows_step(m: Seq<u64>, mid: DomainView, post: DomainView)
    requires
        narrows(m, mid),
        !mid.impossible,
        step_follows(mid, post) || run_follows(mid, post) || narrows(mid.masks, post),
    ensures
        narrows(m, post),
{
    lemma_within_trans(post.masks, mid.masks, m);
}

/// A domain narrows itself.
pub proof fn lemma_narrows_same(d: DomainView)
    requires
        well_formed(d.masks),
        d.impossible == !live(d.masks),
    ensures
        narrows(d.masks, d),
{
    assert forall|i: int| 0 <= i < d.masks.len() implies subset(
        #[trigger] d.masks[i],
        d.masks[i],
    ) by {}
}

/// Once a set is empty a sweep goes no further.
pub proof fn lemma_swept_stops(s: DomainView, k: int, upto: int)
    requires
        0 <= k <= upto,
        swept(s, k).impossible,
    ensures
        swept(s, upto) == swept(s, k),
    decreases upto - k,
{
    if k < upto {
        lemma_swept_stops(s, k, upto - 1);
    }
}

/// Rounds after the one that came to rest change nothing more, so the
/// domain that `propagated` describes is one domain only.
pub proof fn lemma_rounds_rest(s: DomainView, k: nat, later: nat)
    requires
        at_rest(after_rounds(s, k)),
        k <= later,
    ensures
        after_rounds(s, later) == after_rounds(s, k),
    decreases later - k,
{
    if k < later {
        lemma_rounds_rest(s, k, (later - 1) as nat);
    }
}

/// What propagation leaves of a domain is determined by the domain: whether
/// a set ends up empty, and if none does, every set. It is the largest live
/// domain within the given one at which the rules have nothing left to do,
/// and a set ends up empty exactly when there is no such domain.
pub proof fn lemma_propagation_determined(pre: Seq<u64>, a: DomainView, b: DomainView)
    requires
        narrows(pre, a),
        narrows(pre, b),
        !a.impossible ==> converged(a.masks),
        !b.impossible ==> converged(b.masks),
    ensures
        a.impossible == b.impossible,
        !a.impossible ==> a.masks == b.masks,
        a.impossible <==> !exists|c: Seq<u64>| live(c) && converged(c) && #[trigger] within(c, pre),
{
    if !a.impossible {
        assert(within(a.masks, b.masks));
        lemma_within_live(a.masks, b.masks);
    }
    if !b.impossible {
        assert(within(b.masks, a.masks));
        lemma_within_live(b.masks, a.masks);
    }
    if !a.impossible {
        lemma_total_within(a.masks, b.masks);
        lemma_total_within(b.masks, a.masks);
    }
    if a.impossible {
        if exists|c: Seq<u64>| live(c) && converged(c) && #[trigger] within(c, pre) {
            let c = choose|c: Seq<u64>| live(c) && converged(c) && #[trigger] within(c, pre);
            assert(within(c, a.masks));
            lemma_within_live(c, a.masks);
        }
    }
}

impl Domain {
    /// Applies the four rules at `pos`, one after the other, and stops as
    /// soon as a set is empty.
    pub fn settle_at(&mut self, pos: usize)
        requires
            old(self).wf(),
            live(old(self).masks@),
            !old(self).impossible,
            pos < old(self).masks.len(),
        ensures
            final(self)@ == settled(old(self)@, pos as int),
            run_follows(old(self)@, final(self)@),
            final(self).masks@ == old(self).masks@ <==> stable_at(old(self).masks@, pos as int),
    {
        let ghost d0 = self@;
        self.project_back(pos);
        let ghost d1 = self@;
        proof {
            lemma_step_is_run(d0, d1);
        }
        if self.impossible {
            return ;
        }
        self.eliminate_x_up_to_projection(pos);
        let ghost d2 = self@;
        proof {
            lemma_step_is_run(d1, d2);
            lemma_run_chain(d0, d1, d2);
            lemma_within_squeeze(d2.masks, d1.masks, d0.masks);
        }
        if self.impossible {
            return ;
        }
        self.bound_range_of(pos);
        let ghost d3 = self@;
        proof {
            lemma_step_is_run(d2, d3);
            lemma_run_chain(d0, d2, d3);
            lemma_within_squeeze(d3.masks, d2.masks, d0.masks);
        }
        if self.impossible {
            return ;
        }
        self.bound_val_based_on_min_range(pos);
        proof {
            let d4 = self@;
            lemma_step_is_run(d3, d4);
            lemma_run_chain(d0, d3, d4);
            lemma_within_squeeze(d4.masks, d3.masks, d0.masks);
        }
    }

    /// One round of the rules over all positions, from the first to the last,
    /// which stops as soon as a set is empty.
    pub fn sweep(&mut self)
        requires
            old(self).wf(),
            live(old(self).masks@),
            !old(self).impossible,
        ensures
            final(self)@ == swept(old(self)@, old(self).masks@.len() as int),
            run_follows(old(self)@, final(self)@),
            final(self).masks@ == old(self).masks@ <==> converged(old(self).masks@),
    {
        let period = self.masks.len();
        let ghost d0 = self@;
        let mut pos: usize = 0;
        proof {
            lemma_run_same(d0);
        }
        while pos < period && !self.impossible
            invariant
                period == self.masks.len(),
                pos <= period,
                d0.masks.len() == period,
                live(d0.masks),
                run_follows(d0, self@),
                self@ == swept(d0, pos as int),
                self.masks@ == d0.masks ==> forall|q: int|
                    0 <= q < pos ==> #[trigger] stable_at(d0.masks, q),
                converged(d0.masks) ==> self.masks@ == d0.masks,
            decreases period - pos,
        {
            let ghost d1 = self@;
            proof {
                assert(live(d1.masks));
                if converged(d0.masks) {
                    assert(stable_at(d0.masks, pos as int));
                }
            }
            self.settle_at(pos);
            proof {
                lemma_run_chain(d0, d1, self@);
                lemma_within_squeeze(self.masks@, d1.masks, d0.masks);
            }
            pos += 1;
        }
        proof {
            if self.masks@ == d0.masks {
                assert(live(self.masks@));
            }
            if self.impossible {
                lemma_swept_stops(d0, pos as int, period as int);
            }
        }
    }

    /// A first, cheap run after the position before `from` has been fixed:
    /// `project_back` there, then `bound_range_of` and `project_back` from
    /// `from` on for as long as each position still changes something.
    pub fn ripple_from(&mut self, from: usize)
        requires
            old(self).wf(),
            live(old(self).masks@),
            !old(self).impossible,
            1 <= from < old(self).masks.len(),
        ensures
            final(self)@ == rippled(old(self)@, from as int),
            narrows(old(self).masks@, final(self)@),
    {
        let period = self.masks.len();
        let ghost m0 = self.masks@;
        let ghost target = rippled(self@, from as int);
        proof {
            lemma_narrows_same(self@);
        }
        let ghost d0 = self@;
        self.project_back(from - 1);
        proof {
            lemma_narrows_step(m0, d0, self@);
        }
        let mut j: usize = from;
        let mut going: bool = !self.impossible;
        while going && j < period
            invariant
                period == self.masks.len(),
                from <= j <= period,
                narrows(m0, self@),
                going ==> !self.impossible,
                target == if going {
                    rippled_on(self@, period as int, j as int)
                } else {
                    self@
                },
            decreases period - j + if going { 1nat } else { 0nat },
        {
            self.changed = false;
            let ghost d1 = self@;
            self.bound_range_of(j);
            proof {
                lemma_narrows_step(m0, d1, self@);
            }
            if !self.changed || self.impossible {
                going = false;
            } else {
                let ghost d2 = self@;
                self.project_back(j);
                proof {
                    lemma_narrows_step(m0, d2, self@);
                }
                if !self.changed || self.impossible {
                    going = false;
                } else {
                    j += 1;
                }
            }
        }
    }

    /// Runs the rules round after round until a whole round changes nothing,
    /// or until a set is empty.
    pub fn propagate(&mut self)
        requires
            old(self).wf(),
            live(old(self).masks@),
            !old(self).impossible,
        ensures
            propagated(old(self)@, final(self)@),
            narrows(old(self).masks@, final(self)@),
            !final(self).impossible ==> converged(final(self).masks@),
            converged(old(self).masks@) ==> final(self).masks@ == old(self).masks@,
    {
        let ghost d0 = self@;
        self.changed = true;
        let ghost start = self@;
        let ghost rounds: nat = 0;
        proof {
            lemma_narrows_same(self@);
        }
        while self.changed && !self.impossible
            invariant
                narrows(d0.masks, self@),
                self@ == after_rounds(start, rounds),
                rounds + total(self.masks@) <= total(d0.masks) + if self.changed
                    && !self.impossible {
                    0nat
                } else {
                    1nat
                },
                !self.changed && !self.impossible ==> converged(self.masks@),
                converged(d0.masks) ==> self.masks@ == d0.masks,
            decreases
                    total(self.masks@) + if self.changed && !self.impossible {
                        1nat
                    } else {
                        0nat
                    },
        {
            self.changed = false;
            let ghost d1 = self@;
            self.sweep();
            proof {
                lemma_narrows_step(d0.masks, d1, self@);
                lemma_total_within(self.masks@, d1.masks);
                rounds = rounds + 1;
            }
        }
    }

    /// Fixes position `pos` to `value` for the time being, and lets the rules
    /// draw from it what follows for the other positions.
    pub fn commit(&mut self, pos: usize, value: usize)
        requires
            old(self).wf(),
            live(old(self).masks@),
            1 <= pos < old(self).masks.len(),
            1 <= value <= old(self).masks.len(),
        ensures
            committed(old(self)@, pos as int, value as int, final(self)@),
            narrows(fixed_at(old(self).masks@, pos as int, value as int), final(self)@),
            !final(self).impossible ==> converged(final(self).masks@),
    {
        let ghost m = self.masks@;
        let ghost fixed = fixed_at(m, pos as int, value as int);
        self.masks[pos] = bit(value);
        self.changed = true;
        self.impossible = false;
        proof {
            assert(self.masks@ =~= fixed);
            assert forall|q: int| 0 <= q < fixed.len() implies in_range(
                #[trigger] fixed[q],
                fixed.len() as int,
            ) && fixed[q] != 0 by {
                assert(in_range(m[q], m.len() as int));
                assert(m[q] != 0);
                lemma_admits_zero(value as int);
            }
        }
        self.ripple_from(pos);
        if !self.impossible {
            let ghost mid = self@;
            self.propagate();
            proof {
                lemma_narrows_step(fixed, mid, self@);
            }
        }
    }
}

} // verus!
