//! The four rules that narrow a domain. Each states something that holds of
//! every cycle, and takes away the values that cannot stand with it.

use vstd::prelude::*;
use crate::bits::{
    admits, bit, is_single, lemma_admits_and, lemma_admits_not, lemma_admits_zero,
    lemma_and_subset, lemma_lowest, lemma_mask_ext, lemma_single, low, lowest, single, span,
    subset,
};
use crate::domain::{
    fits, in_range, keeps_cycles, lemma_subset_of_single, lemma_within_well_formed, live,
    mask_after, mask_before, narrowed, stepped, well_formed, within, Domain, DomainView,
};
use crate::recurrence::{
    back, back_index, before, holds_at, is_cycle, lemma_cycle_values, next, next_index,
};

verus! {

/// The domain after `project_back` at `pos`: where the next position is known
/// to hold `d`, the position `d` places back and `pos` hold the same element,
/// so both keep only what both allow.
pub open spec fn project_back_masks(m: Seq<u64>, pos: int) -> Seq<u64> {
    if is_single(mask_after(m, pos)) {
        let loc = back(m.len() as int, pos, lowest(mask_after(m, pos)));
        let overlap = m[pos] & m[loc];
        m.update(pos, overlap).update(loc, overlap)
    } else {
        m
    }
}

/// The domain after `eliminate_x_up_to_projection` at `pos`: where `pos` is
/// known to hold `x`, the positions nearer behind it than the least value of
/// the next position lose `x`.
pub open spec fn eliminate_masks(m: Seq<u64>, pos: int) -> Seq<u64> {
    Seq::new(
        m.len(),
        |q: int|
            if is_single(m[pos]) && 1 <= back(m.len() as int, pos, q) < lowest(mask_after(m, pos)) {
                m[q] & !m[pos]
            } else {
                m[q]
            },
    )
}

/// Whether the position `j` places before `pos` is known to hold the same
/// element as `pos`: both are single values, and the same one.
pub open spec fn is_match(m: Seq<u64>, pos: int, j: int) -> bool {
    is_single(m[pos]) && mask_before(m, pos, j) == m[pos]
}

/// Whether the position `j` places before `pos` cannot hold the same element
/// as `pos`: the two sets share no value.
pub open spec fn is_apart(m: Seq<u64>, pos: int, j: int) -> bool {
    mask_before(m, pos, j) & m[pos] == 0
}

/// Whether `bound_range_of` leaves `v` to the position after `pos`: the
/// element `v` places back may equal the one at `pos`, and no nearer one is
/// known to equal it.
pub open spec fn range_allows(m: Seq<u64>, pos: int, v: int) -> bool {
    &&& forall|j: int| 1 <= j < m.len() && j < v ==> !#[trigger] is_match(m, pos, j)
    &&& !(1 <= v < m.len() && is_apart(m, pos, v))
}

/// Whether `post` is the domain after `bound_range_of` at `pos`.
pub open spec fn range_bound(m: Seq<u64>, pos: int, post: Seq<u64>) -> bool {
    &&& post.len() == m.len()
    &&& forall|q: int|
        0 <= q < m.len() && q != next(m.len() as int, pos) ==> #[trigger] post[q] == m[q]
    &&& forall|v: int|
        #[trigger] admits(mask_after(post, pos), v) <==> admits(mask_after(m, pos), v)
            && range_allows(
            m,
            pos,
            v,
        )
}

/// The sets after `bound_range_of` at `pos`.
pub open spec fn bound_range_masks(m: Seq<u64>, pos: int) -> Seq<u64> {
    choose|post: Seq<u64>| range_bound(m, pos, post)
}

/// Whether `bound_val_based_on_min_range` leaves `v` to `pos`: no position
/// nearer behind `pos` than the least value of the next position is known to
/// hold `v`.
pub open spec fn val_allows(m: Seq<u64>, pos: int, v: int) -> bool {
    forall|j: int|
        1 <= j < lowest(mask_after(m, pos)) ==> !(is_single(#[trigger] mask_before(m, pos, j))
            && admits(mask_before(m, pos, j), v))
}

/// Whether `post` is the domain after `bound_val_based_on_min_range` at
/// `pos`.
pub open spec fn val_bound(m: Seq<u64>, pos: int, post: Seq<u64>) -> bool {
    &&& post.len() == m.len()
    &&& forall|q: int| 0 <= q < m.len() && q != pos ==> #[trigger] post[q] == m[q]
    &&& forall|v: int|
        #[trigger] admits(post[pos], v) <==> admits(m[pos], v) && (is_single(m[pos]) || val_allows(
            m,
            pos,
            v,
        ))
}

/// The sets after `bound_val_based_on_min_range` at `pos`.
pub open spec fn bound_val_masks(m: Seq<u64>, pos: int) -> Seq<u64> {
    choose|post: Seq<u64>| val_bound(m, pos, post)
}

/// Whether `bound_range_of` at `pos` would change nothing.
pub open spec fn range_stable(m: Seq<u64>, pos: int) -> bool {
    forall|v: int| admits(mask_after(m, pos), v) ==> range_allows(m, pos, v)
}

/// Whether `bound_val_based_on_min_range` at `pos` would change nothing.
pub open spec fn val_stable(m: Seq<u64>, pos: int) -> bool {
    is_single(m[pos]) || forall|v: int| admits(m[pos], v) ==> val_allows(m, pos, v)
}

/// Whether none of the four rules would change anything at `pos`.
pub open spec fn stable_at(m: Seq<u64>, pos: int) -> bool {
    &&& project_back_masks(m, pos) == m
    &&& eliminate_masks(m, pos) == m
    &&& range_stable(m, pos)
    &&& val_stable(m, pos)
}

/// Whether the rules have nothing left to do anywhere in the domain.
pub open spec fn converged(m: Seq<u64>) -> bool {
    forall|pos: int| 0 <= pos < m.len() ==> #[trigger] stable_at(m, pos)
}

/// Whether every live domain within `pre` at which the rules have nothing
/// left to do lies within `post` too: no rule goes below a converged domain.
pub open spec fn keeps_converged(pre: Seq<u64>, post: Seq<u64>) -> bool {
    forall|c: Seq<u64>| live(c) && converged(c) && #[trigger] within(c, pre) ==> within(c, post)
}

/// What every rule does to the sets, whatever else it does: they only
/// shrink, they stay the domain of the period, no cycle is lost, and no
/// converged domain is undercut.
pub open spec fn tightens(pre: Seq<u64>, post: Seq<u64>) -> bool {
    &&& within(post, pre)
    &&& well_formed(post)
    &&& keeps_cycles(pre, post)
    &&& keeps_converged(pre, post)
}

/// What holds of every propagation step besides its own rule: the sets are
/// tightened, and the two flags record what happened to them.
pub open spec fn step_follows(pre: DomainView, post: DomainView) -> bool {
    &&& tightens(pre.masks, post.masks)
    &&& post == stepped(pre, post.masks)
}

/// Changing a set that was still as at the start narrows the domain exactly
/// when the new set is smaller and not empty, or the domain was narrowed
/// before.
proof fn lemma_narrowed_update(pre: Seq<u64>, cur: Seq<u64>, loc: int, new: u64)
    requires
        cur.len() == pre.len(),
        0 <= loc < cur.len(),
        cur[loc] == pre[loc],
    ensures
        narrowed(pre, cur.update(loc, new)) == (narrowed(pre, cur) || (new != 0 && new
            != pre[loc])),
{
    let nxt = cur.update(loc, new);
    if narrowed(pre, cur) {
        let i = choose|i: int| 0 <= i < cur.len() && #[trigger] cur[i] != 0 && cur[i] != pre[i];
        assert(nxt[i] != 0 && nxt[i] != pre[i]);
    }
    if new != 0 && new != pre[loc] {
        assert(nxt[loc] != 0 && nxt[loc] != pre[loc]);
    }
    if narrowed(pre, nxt) {
        let i = choose|i: int| 0 <= i < nxt.len() && #[trigger] nxt[i] != 0 && nxt[i] != pre[i];
        if i != loc {
            assert(cur[i] != 0 && cur[i] != pre[i]);
        }
    }
}

/// After a set that was not empty is changed, every position has a value
/// left exactly when every position had one and the new set is not empty.
proof fn lemma_live_update(cur: Seq<u64>, loc: int, new: u64)
    requires
        0 <= loc < cur.len(),
        cur[loc] != 0,
    ensures
        live(cur.update(loc, new)) == (live(cur) && new != 0),
{
    let nxt = cur.update(loc, new);
    if live(cur) && new != 0 {
        assert forall|i: int| 0 <= i < nxt.len() implies #[trigger] nxt[i] != 0 by {
            assert(cur[i] != 0);
        }
    }
    if live(nxt) {
        assert(nxt[loc] != 0);
        assert forall|i: int| 0 <= i < cur.len() implies #[trigger] cur[i] != 0 by {
            assert(nxt[i] != 0);
        }
    }
}

/// Every value below 64 belongs to the full mask.
proof fn lemma_admits_full(v: int)
    requires
        0 <= v < 64,
    ensures
        admits(u64::MAX, v),
{
    assert(u64::MAX == !0u64) by (bit_vector);
    lemma_admits_not(0u64, v);
    lemma_admits_zero(v);
}

/// A set within another has its lowest value no lower.
proof fn lemma_lowest_subset(a: u64, b: u64)
    requires
        subset(a, b),
        a != 0,
    ensures
        b != 0,
        lowest(b) <= lowest(a),
{
    lemma_lowest(a);
    lemma_admits_zero(lowest(a));
    lemma_lowest(b);
}

/// `project_back` takes nothing from a cycle.
pub proof fn lemma_project_back_sound(m: Seq<u64>, pos: int, s: Seq<usize>)
    requires
        well_formed(m),
        0 <= pos < m.len(),
        is_cycle(s),
        fits(m, s),
    ensures
        fits(project_back_masks(m, pos), s),
{
    let n = m.len() as int;
    let after = next(n, pos);
    if is_single(m[after]) {
        lemma_single(m[after]);
        let d = lowest(m[after]);
        let loc = back(n, pos, d);
        assert(admits(m[after], s[after] as int));
        assert(holds_at(s, pos));
        assert(before(s, pos, d) == s[pos]);
        assert(admits(m[loc], s[loc] as int));
        lemma_admits_and(m[pos], m[loc], s[pos] as int);
    }
}

/// `project_back` does not go below a converged domain.
pub proof fn lemma_project_back_keeps(m: Seq<u64>, pos: int, c: Seq<u64>)
    requires
        well_formed(m),
        0 <= pos < m.len(),
        live(c),
        converged(c),
        within(c, m),
    ensures
        within(c, project_back_masks(m, pos)),
{
    let n = m.len() as int;
    let after = next(n, pos);
    let post = project_back_masks(m, pos);
    if is_single(m[after]) {
        lemma_single(m[after]);
        assert(in_range(m[after], n));
        assert(admits(m[after], lowest(m[after])));
        assert(subset(c[after], m[after]));
        assert(c[after] != 0);
        lemma_subset_of_single(c[after], m[after]);
        let loc = back(n, pos, lowest(m[after]));
        assert(stable_at(c, pos));
        let o = c[pos] & c[loc];
        let fixed = c.update(pos, o).update(loc, o);
        assert(fixed == c);
        assert(fixed[loc] == o);
        assert(o & o == o) by (bit_vector);
        assert(c[loc] == o);
        assert(c[pos] == o) by {
            if pos != loc {
                assert(fixed[pos] == o);
            } else {
                let a = c[pos];
                assert(a & a == a) by (bit_vector);
            }
        }
        assert(subset(c[pos], m[pos]));
        assert(subset(c[loc], m[loc]));
        assert forall|v: int| admits(o, v) implies admits(m[pos] & m[loc], v) by {
            lemma_admits_and(m[pos], m[loc], v);
        }
        assert forall|i: int| 0 <= i < c.len() implies subset(#[trigger] c[i], post[i]) by {
            assert(subset(c[i], m[i]));
        }
    }
}

/// `eliminate_x_up_to_projection` takes nothing from a cycle.
pub proof fn lemma_eliminate_sound(m: Seq<u64>, pos: int, s: Seq<usize>)
    requires
        well_formed(m),
        live(m),
        0 <= pos < m.len(),
        is_cycle(s),
        fits(m, s),
    ensures
        fits(eliminate_masks(m, pos), s),
{
    let n = m.len() as int;
    let post = eliminate_masks(m, pos);
    let after = next(n, pos);
    if is_single(m[pos]) {
        lemma_single(m[pos]);
        assert(m[after] != 0);
        lemma_lowest(m[after]);
        assert(admits(m[after], s[after] as int));
        assert(admits(m[pos], s[pos] as int));
        assert(holds_at(s, pos));
        assert forall|q: int| 0 <= q < n implies admits(#[trigger] post[q], s[q] as int) by {
            assert(admits(m[q], s[q] as int));
            let j = back(n, pos, q);
            if 1 <= j < lowest(m[after]) {
                assert(back(n, pos, j) == q);
                assert(before(s, pos, j) != s[pos]);
                lemma_cycle_values(s, q);
                lemma_admits_not(m[pos], s[q] as int);
                lemma_admits_and(m[q], !m[pos], s[q] as int);
            }
        }
    } else {
        assert(post =~= m);
    }
}

/// `eliminate_x_up_to_projection` does not go below a converged domain.
pub proof fn lemma_eliminate_keeps(m: Seq<u64>, pos: int, c: Seq<u64>)
    requires
        well_formed(m),
        live(m),
        0 <= pos < m.len(),
        live(c),
        converged(c),
        within(c, m),
    ensures
        within(c, eliminate_masks(m, pos)),
{
    let n = m.len() as int;
    let after = next(n, pos);
    let post = eliminate_masks(m, pos);
    assert forall|q: int| 0 <= q < c.len() implies subset(#[trigger] c[q], post[q]) by {
        assert(subset(c[q], m[q]));
        if is_single(m[pos]) && 1 <= back(n, pos, q) < lowest(m[after]) {
            assert(subset(c[pos], m[pos]));
            assert(c[pos] != 0);
            lemma_subset_of_single(c[pos], m[pos]);
            assert(subset(c[after], m[after]));
            assert(c[after] != 0);
            lemma_lowest_subset(c[after], m[after]);
            assert(stable_at(c, pos));
            assert(eliminate_masks(c, pos)[q] == c[q]);
            assert(c[q] & !c[pos] == c[q]);
            assert forall|v: int| admits(c[q], v) implies admits(m[q] & !m[pos], v) by {
                lemma_admits_and(c[q], !c[pos], v);
                lemma_admits_and(m[q], !m[pos], v);
            }
        }
    }
}

/// `bound_range_of` leaves to the next position the element that a cycle has
/// there.
pub proof fn lemma_range_sound(m: Seq<u64>, pos: int, s: Seq<usize>)
    requires
        well_formed(m),
        0 <= pos < m.len(),
        is_cycle(s),
        fits(m, s),
    ensures
        range_allows(m, pos, s[next(m.len() as int, pos)] as int),
{
    let n = m.len() as int;
    let d = s[next(n, pos)] as int;
    assert(holds_at(s, pos));
    assert(admits(m[pos], s[pos] as int));
    assert forall|j: int| 1 <= j < n && j < d implies !#[trigger] is_match(m, pos, j) by {
        if is_match(m, pos, j) {
            let loc = back(n, pos, j);
            lemma_single(m[pos]);
            assert(admits(m[loc], s[loc] as int));
            assert(before(s, pos, j) != s[pos]);
        }
    }
    if 1 <= d < n && is_apart(m, pos, d) {
        let loc = back(n, pos, d);
        assert(before(s, pos, d) == s[pos]);
        assert(admits(m[loc], s[loc] as int));
        lemma_admits_and(m[loc], m[pos], s[pos] as int);
        lemma_admits_zero(s[pos] as int);
    }
}

/// `bound_range_of` does not go below a converged domain.
pub proof fn lemma_range_keeps(m: Seq<u64>, pos: int, post: Seq<u64>, c: Seq<u64>)
    requires
        well_formed(m),
        0 <= pos < m.len(),
        range_bound(m, pos, post),
        live(c),
        converged(c),
        within(c, m),
    ensures
        within(c, post),
{
    let n = m.len() as int;
    let after = next(n, pos);
    assert(stable_at(c, pos));
    assert(subset(c[pos], m[pos]));
    assert(c[pos] != 0);
    assert(mask_after(post, pos) == post[after]);
    assert forall|v: int| admits(c[after], v) implies admits(post[after], v) by {
        assert(subset(c[after], m[after]));
        assert(range_allows(c, pos, v));
        assert forall|j: int| 1 <= j < n && j < v implies !#[trigger] is_match(m, pos, j) by {
            if is_match(m, pos, j) {
                let loc = back(n, pos, j);
                assert(subset(c[loc], m[loc]));
                assert(c[loc] != 0);
                lemma_subset_of_single(c[pos], m[pos]);
                lemma_subset_of_single(c[loc], m[loc]);
                assert(is_match(c, pos, j));
            }
        }
        if 1 <= v < n && is_apart(m, pos, v) {
            let loc = back(n, pos, v);
            assert(subset(c[loc], m[loc]));
            let o = c[loc] & c[pos];
            assert(o != 0);
            lemma_lowest(o);
            lemma_admits_and(c[loc], c[pos], lowest(o));
            lemma_admits_and(m[loc], m[pos], lowest(o));
            lemma_admits_zero(lowest(o));
        }
        assert(range_allows(m, pos, v));
    }
    assert forall|i: int| 0 <= i < c.len() implies subset(#[trigger] c[i], post[i]) by {
        assert(subset(c[i], m[i]));
    }
}

/// The sets that `range_bound` describes are the ones of `bound_range_masks`.
pub proof fn lemma_range_unique(m: Seq<u64>, pos: int, post: Seq<u64>)
    requires
        0 <= pos < m.len(),
        range_bound(m, pos, post),
    ensures
        bound_range_masks(m, pos) == post,
{
    let other = bound_range_masks(m, pos);
    let after = next(m.len() as int, pos);
    assert(range_bound(m, pos, other));
    assert forall|v: int| 0 <= v < 64 implies admits(other[after], v) == admits(post[after], v) by {
        assert(admits(mask_after(other, pos), v) == admits(mask_after(post, pos), v));
    }
    lemma_mask_ext(other[after], post[after]);
    assert(other =~= post);
}

/// `bound_val_based_on_min_range` leaves to `pos` the element that a cycle
/// has there.
pub proof fn lemma_val_sound(m: Seq<u64>, pos: int, s: Seq<usize>)
    requires
        well_formed(m),
        live(m),
        0 <= pos < m.len(),
        is_cycle(s),
        fits(m, s),
    ensures
        val_allows(m, pos, s[pos] as int),
{
    let n = m.len() as int;
    let after = next(n, pos);
    assert(holds_at(s, pos));
    assert(m[after] != 0);
    lemma_lowest(m[after]);
    assert(admits(m[after], s[after] as int));
    assert(in_range(m[after], n));
    assert forall|j: int| 1 <= j < lowest(mask_after(m, pos)) implies !(is_single(
        #[trigger] mask_before(m, pos, j),
    ) && admits(mask_before(m, pos, j), s[pos] as int)) by {
        let loc = back(n, pos, j);
        if is_single(m[loc]) && admits(m[loc], s[pos] as int) {
            lemma_single(m[loc]);
            assert(admits(m[loc], s[loc] as int));
            assert(before(s, pos, j) != s[pos]);
        }
    }
}

/// `bound_val_based_on_min_range` does not go below a converged domain.
pub proof fn lemma_val_keeps(m: Seq<u64>, pos: int, post: Seq<u64>, c: Seq<u64>)
    requires
        well_formed(m),
        live(m),
        0 <= pos < m.len(),
        val_bound(m, pos, post),
        live(c),
        converged(c),
        within(c, m),
    ensures
        within(c, post),
{
    let n = m.len() as int;
    let after = next(n, pos);
    assert(stable_at(c, pos));
    assert(subset(c[after], m[after]));
    assert(c[after] != 0);
    lemma_lowest_subset(c[after], m[after]);
    lemma_lowest(m[after]);
    assert(in_range(m[after], n));
    assert(lowest(m[after]) <= n);
    assert forall|v: int| admits(c[pos], v) implies admits(post[pos], v) by {
        assert(subset(c[pos], m[pos]));
        if !is_single(m[pos]) {
            assert forall|j: int| 1 <= j < lowest(mask_after(m, pos)) implies !(is_single(
                #[trigger] mask_before(m, pos, j),
            ) && admits(mask_before(m, pos, j), v)) by {
                let loc = back(n, pos, j);
                if is_single(m[loc]) && admits(m[loc], v) {
                    assert(subset(c[loc], m[loc]));
                    assert(c[loc] != 0);
                    lemma_subset_of_single(c[loc], m[loc]);
                    assert(mask_before(c, pos, j) == c[loc]);
                    if is_single(c[pos]) {
                        lemma_single(c[pos]);
                        assert(back(n, pos, loc) == j);
                        assert(eliminate_masks(c, pos)[loc] == c[loc]);
                        assert(c[loc] & !c[pos] == c[loc]);
                        lemma_admits_and(c[loc], !c[pos], v);
                        lemma_admits_not(c[pos], v);
                    } else {
                        assert(val_allows(c, pos, v));
                    }
                }
            }
            assert(val_allows(m, pos, v));
        }
    }
    assert forall|i: int| 0 <= i < c.len() implies subset(#[trigger] c[i], post[i]) by {
        assert(subset(c[i], m[i]));
    }
}

/// The sets that `val_bound` describes are the ones of `bound_val_masks`.
pub proof fn lemma_val_unique(m: Seq<u64>, pos: int, post: Seq<u64>)
    requires
        0 <= pos < m.len(),
        val_bound(m, pos, post),
    ensures
        bound_val_masks(m, pos) == post,
{
    let other = bound_val_masks(m, pos);
    assert(val_bound(m, pos, other));
    assert forall|v: int| 0 <= v < 64 implies admits(other[pos], v) == admits(post[pos], v) by {}
    lemma_mask_ext(other[pos], post[pos]);
    assert(other =~= post);
}

impl Domain {
    /// If the element after `pos` is known, say it is `d`, then the element
    /// at `pos` and the element `d` places back are the same: both keep only
    /// the values that both allow.
    pub fn project_back(&mut self, pos: usize)
        requires
            old(self).wf(),
            live(old(self).masks@),
            pos < old(self).masks.len(),
        ensures
            final(self).masks@ == project_back_masks(old(self).masks@, pos as int),
            step_follows(old(self)@, final(self)@),
    {
        let period = self.masks.len();
        let after = next_index(period, pos);
        let next_mask = self.masks[after];
        if single(next_mask) {
            proof {
                lemma_single(next_mask);
                assert(in_range(self.masks@[after as int], period as int));
            }
            let d = low(next_mask);
            let loc = back_index(period, pos, d);
            let overlap = self.masks[pos] & self.masks[loc];
            self.apply_mask_to_pos(pos, overlap);
            self.apply_mask_to_pos(loc, overlap);
            proof {
                let pre = old(self).masks@;
                let post = self.masks@;
                let a = pre[pos as int];
                let b = pre[loc as int];
                lemma_and_subset(a, b);
                assert(a & (a & b) == a & b && b & (a & b) == a & b && (a & b) & (a & b) == a & b)
                    by (bit_vector);
                assert(post =~= project_back_masks(pre, pos as int));
                assert(within(post, pre));
                if self.changed != (old(self).changed || narrowed(pre, post)) {
                    if narrowed(pre, post) {
                        let i = choose|i: int|
                            0 <= i < post.len() && #[trigger] post[i] != 0 && post[i] != pre[i];
                        assert(i == pos || i == loc);
                    } else {
                        assert(post[pos as int] == overlap);
                        assert(post[loc as int] == overlap);
                    }
                }
            }
        }
        proof {
            let pre = old(self).masks@;
            let post = self.masks@;
            lemma_within_well_formed(post, pre);
            assert forall|s: Seq<usize>| is_cycle(s) && #[trigger] fits(pre, s) implies fits(
                post,
                s,
            ) by {
                lemma_project_back_sound(pre, pos as int, s);
            }
            assert forall|c: Seq<u64>| live(c) && converged(c) && #[trigger] within(c, pre) implies within(
                c,
                post,
            ) by {
                lemma_project_back_keeps(pre, pos as int, c);
            }
        }
    }

    /// If the element at `pos` is known, say it is `x`, then `x` stands
    /// nowhere between `pos` and the least distance back that the next
    /// position still allows: those positions lose `x`.
    pub fn eliminate_x_up_to_projection(&mut self, pos: usize)
        requires
            old(self).wf(),
            live(old(self).masks@),
            pos < old(self).masks.len(),
        ensures
            final(self).masks@ == eliminate_masks(old(self).masks@, pos as int),
            step_follows(old(self)@, final(self)@),
    {
        let period = self.masks.len();
        let x = self.masks[pos];
        let ghost pre = self.masks@;
        let ghost pre_changed = self.changed;
        let ghost pre_impossible = self.impossible;
        if single(x) {
            let after = next_index(period, pos);
            proof {
                assert(pre[after as int] != 0);
                lemma_lowest(pre[after as int]);
                assert(in_range(pre[after as int], period as int));
            }
            let min_d = low(self.masks[after]);
            let mut j: usize = 1;
            while j < min_d
                invariant
                    period == self.masks.len(),
                    period == pre.len(),
                    pos < period,
                    1 <= j <= min_d,
                    1 <= min_d <= period,
                    live(pre),
                    x == pre[pos as int],
                    forall|q: int|
                        0 <= q < period ==> #[trigger] self.masks@[q] == if 1 <= back(
                            period as int,
                            pos as int,
                            q,
                        ) < j {
                            pre[q] & !x
                        } else {
                            pre[q]
                        },
                    self.impossible == (pre_impossible || !live(self.masks@)),
                    self.changed == (pre_changed || narrowed(pre, self.masks@)),
                decreases min_d - j,
            {
                let loc = back_index(period, pos, j);
                let ghost cur = self.masks@;
                proof {
                    assert(back(period as int, pos as int, loc as int) == j);
                    assert(cur[loc as int] == pre[loc as int]);
                    assert(pre[loc as int] != 0);
                    lemma_narrowed_update(pre, cur, loc as int, cur[loc as int] & !x);
                    lemma_live_update(cur, loc as int, cur[loc as int] & !x);
                }
                self.apply_mask_to_pos(loc, !x);
                j += 1;
            }
            proof {
                assert(self.masks@ =~= eliminate_masks(pre, pos as int));
            }
        } else {
            proof {
                assert(self.masks@ =~= eliminate_masks(pre, pos as int));
                assert(!narrowed(pre, self.masks@));
            }
        }
        proof {
            let post = self.masks@;
            assert forall|i: int| 0 <= i < post.len() implies subset(#[trigger] post[i], pre[i]) by {
                lemma_and_subset(pre[i], !x);
            }
            lemma_within_well_formed(post, pre);
            assert forall|s: Seq<usize>| is_cycle(s) && #[trigger] fits(pre, s) implies fits(
                post,
                s,
            ) by {
                lemma_eliminate_sound(pre, pos as int, s);
            }
            assert forall|c: Seq<u64>| live(c) && converged(c) && #[trigger] within(c, pre) implies within(
                c,
                post,
            ) by {
                lemma_eliminate_keeps(pre, pos as int, c);
            }
        }
    }

    /// The element after `pos` is the distance back to the previous occurrence
    /// of the element at `pos`. It is not `j` where the position `j` back
    /// shares no value with `pos`, and it is at most `j` where `pos` is known
    /// and the position `j` back is known to hold the same.
    pub fn bound_range_of(&mut self, pos: usize)
        requires
            old(self).wf(),
            live(old(self).masks@),
            pos < old(self).masks.len(),
        ensures
            range_bound(old(self).masks@, pos as int, final(self).masks@),
            final(self).masks@ == bound_range_masks(old(self).masks@, pos as int),
            final(self).masks@ == old(self).masks@ <==> range_stable(old(self).masks@, pos as int),
            step_follows(old(self)@, final(self)@),
    {
        let period = self.masks.len();
        let of_mask = self.masks[pos];
        let of_single = single(of_mask);
        let after = next_index(period, pos);
        let ghost pre = self.masks@;
        let mut range_mask: u64 = u64::MAX;
        let mut j: usize = 1;
        proof {
            assert forall|v: int| 0 <= v < 64 implies admits(range_mask, v) by {
                lemma_admits_full(v);
            }
        }
        while j < period
            invariant_except_break
                forall|v: int|
                    0 <= v < 64 ==> (admits(range_mask, v) <==> !(1 <= v < j && is_apart(
                        pre,
                        pos as int,
                        v,
                    ))),
                forall|i: int| 1 <= i < j ==> !#[trigger] is_match(pre, pos as int, i),
            invariant
                period == self.masks.len(),
                self.masks@ == pre,
                3 <= period <= 63,
                pos < period,
                1 <= j <= period,
                of_mask == pre[pos as int],
                of_mask != 0,
                of_single == is_single(of_mask),
            ensures
                forall|v: int|
                    0 <= v < 64 ==> (admits(range_mask, v) <==> range_allows(pre, pos as int, v)),
            decreases period - j,
        {
            let loc = back_index(period, pos, j);
            let m = self.masks[loc];
            if m & of_mask == 0 {
                let ghost before_mask = range_mask;
                range_mask = range_mask & !bit(j);
                proof {
                    assert forall|v: int| 0 <= v < 64 implies (admits(range_mask, v) <==> !(1 <= v
                        < j + 1 && is_apart(pre, pos as int, v))) by {
                        lemma_admits_and(before_mask, !(1u64 << (j as u64)), v);
                        lemma_admits_not(1u64 << (j as u64), v);
                    }
                    assert(!is_match(pre, pos as int, j as int)) by {
                        assert(of_mask & of_mask == of_mask) by (bit_vector);
                    }
                }
            } else if of_single && m == of_mask {
                let ghost before_mask = range_mask;
                let upto = span(0, j);
                range_mask = range_mask & upto;
                proof {
                    assert(is_match(pre, pos as int, j as int));
                    assert(!is_apart(pre, pos as int, j as int));
                    assert forall|v: int| 0 <= v < 64 implies (admits(range_mask, v)
                        <==> range_allows(pre, pos as int, v)) by {
                        lemma_admits_and(before_mask, upto, v);
                    }
                }
                break ;
            } else {
                proof {
                    assert(!is_match(pre, pos as int, j as int));
                    assert(!is_apart(pre, pos as int, j as int));
                }
            }
            j += 1;
        }
        proof {
            let new = pre[after as int] & range_mask;
            lemma_narrowed_update(pre, pre, after as int, new);
            lemma_live_update(pre, after as int, new);
            lemma_and_subset(pre[after as int], range_mask);
            assert forall|v: int|
                admits(new, v) <==> admits(pre[after as int], v) && range_allows(
                    pre,
                    pos as int,
                    v,
                ) by {
                lemma_admits_and(pre[after as int], range_mask, v);
            }
            if range_stable(pre, pos as int) {
                lemma_mask_ext(new, pre[after as int]);
            }
        }
        self.apply_mask_to_pos(after, range_mask);
        proof {
            let post = self.masks@;
            assert(post =~= pre.update(after as int, pre[after as int] & range_mask));
            if post[after as int] == pre[after as int] {
                assert(post =~= pre);
            }
            lemma_range_unique(pre, pos as int, post);
            assert(within(post, pre));
            lemma_within_well_formed(post, pre);
            assert forall|s: Seq<usize>| is_cycle(s) && #[trigger] fits(pre, s) implies fits(
                post,
                s,
            ) by {
                lemma_range_sound(pre, pos as int, s);
                assert(admits(pre[after as int], s[after as int] as int));
                assert forall|i: int| 0 <= i < post.len() implies admits(
                    #[trigger] post[i],
                    s[i] as int,
                ) by {
                    assert(admits(pre[i], s[i] as int));
                }
            }
            assert forall|c: Seq<u64>| live(c) && converged(c) && #[trigger] within(c, pre) implies within(
                c,
                post,
            ) by {
                lemma_range_keeps(pre, pos as int, post, c);
            }
        }
    }

    /// If the element after `pos` is at least `d`, then the element at `pos`
    /// is none of the elements known to stand in the `d - 1` positions before
    /// it. A position that is known already is left alone.
    pub fn bound_val_based_on_min_range(&mut self, pos: usize)
        requires
            old(self).wf(),
            live(old(self).masks@),
            pos < old(self).masks.len(),
        ensures
            val_bound(old(self).masks@, pos as int, final(self).masks@),
            final(self).masks@ == bound_val_masks(old(self).masks@, pos as int),
            final(self).masks@ == old(self).masks@ <==> val_stable(old(self).masks@, pos as int),
            step_follows(old(self)@, final(self)@),
    {
        let period = self.masks.len();
        let ghost pre = self.masks@;
        if single(self.masks[pos]) {
            proof {
                assert(!narrowed(pre, self.masks@));
                lemma_within_well_formed(pre, pre);
                lemma_val_unique(pre, pos as int, pre);
            }
            return ;
        }
        let after = next_index(period, pos);
        proof {
            assert(pre[after as int] != 0);
            lemma_lowest(pre[after as int]);
            assert(in_range(pre[after as int], period as int));
        }
        let min_d = low(self.masks[after]);
        let mut val_mask: u64 = u64::MAX;
        let mut j: usize = 1;
        proof {
            assert forall|v: int| 0 <= v < 64 implies admits(val_mask, v) by {
                lemma_admits_full(v);
            }
        }
        while j < min_d
            invariant
                period == self.masks.len(),
                self.masks@ == pre,
                pos < period,
                1 <= j <= min_d,
                1 <= min_d <= period,
                forall|v: int|
                    0 <= v < 64 ==> (admits(val_mask, v) <==> forall|i: int|
                        1 <= i < j ==> !(is_single(#[trigger] mask_before(pre, pos as int, i))
                            && admits(mask_before(pre, pos as int, i), v))),
            decreases min_d - j,
        {
            let loc = back_index(period, pos, j);
            let m = self.masks[loc];
            if single(m) {
                let ghost before_mask = val_mask;
                val_mask = val_mask & !m;
                proof {
                    assert forall|v: int| 0 <= v < 64 implies (admits(val_mask, v) <==> forall|
                        i: int,
                    |
                        1 <= i < j + 1 ==> !(is_single(#[trigger] mask_before(pre, pos as int, i))
                            && admits(mask_before(pre, pos as int, i), v))) by {
                        lemma_admits_and(before_mask, !m, v);
                        lemma_admits_not(m, v);
                        assert(mask_before(pre, pos as int, j as int) == m);
                    }
                }
            } else {
                proof {
                    assert(mask_before(pre, pos as int, j as int) == m);
                }
            }
            j += 1;
        }
        proof {
            let new = pre[pos as int] & val_mask;
            lemma_narrowed_update(pre, pre, pos as int, new);
            lemma_live_update(pre, pos as int, new);
            lemma_and_subset(pre[pos as int], val_mask);
            assert forall|v: int|
                admits(new, v) <==> admits(pre[pos as int], v) && val_allows(pre, pos as int, v) by {
                lemma_admits_and(pre[pos as int], val_mask, v);
            }
            if val_stable(pre, pos as int) {
                lemma_mask_ext(new, pre[pos as int]);
            }
        }
        self.apply_mask_to_pos(pos, val_mask);
        proof {
            let post = self.masks@;
            assert(post =~= pre.update(pos as int, pre[pos as int] & val_mask));
            if post[pos as int] == pre[pos as int] {
                assert(post =~= pre);
            }
            lemma_val_unique(pre, pos as int, post);
            assert(within(post, pre));
            lemma_within_well_formed(post, pre);
            assert forall|s: Seq<usize>| is_cycle(s) && #[trigger] fits(pre, s) implies fits(
                post,
                s,
            ) by {
                lemma_val_sound(pre, pos as int, s);
                assert(admits(pre[pos as int], s[pos as int] as int));
                assert forall|i: int| 0 <= i < post.len() implies admits(
                    #[trigger] post[i],
                    s[i] as int,
                ) by {
                    assert(admits(pre[i], s[i] as int));
                }
            }
            assert forall|c: Seq<u64>| live(c) && converged(c) && #[trigger] within(c, pre) implies within(
                c,
                post,
            ) by {
                lemma_val_keeps(pre, pos as int, post, c);
            }
        }
    }
}

} // verus!
