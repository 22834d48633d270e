//! The recurrence that a periodic sequence has to satisfy: each element is the
//! distance from the element before it back to that element's previous
//! occurrence, counted round the period.

use vstd::prelude::*;

verus! {

/// The position `j` places before `pos`, going round a period of `period`.
pub open spec fn back(period: int, pos: int, j: int) -> int {
    if j <= pos {
        pos - j
    } else {
        period + pos - j
    }
}

/// The position after `pos`, going round a period of `period`.
pub open spec fn next(period: int, pos: int) -> int {
    if pos + 1 == period {
        0
    } else {
        pos + 1
    }
}

/// The position `r` places after `pos`, going round a period of `period`.
pub open spec fn ahead(period: int, pos: int, r: int) -> int {
    if pos + r < period {
        pos + r
    } else {
        pos + r - period
    }
}

/// The element `j` places before `pos`.
pub open spec fn before(s: Seq<usize>, pos: int, j: int) -> usize {
    s[back(s.len() as int, pos, j)]
}

/// Whether `d` is the distance from `pos` back to the previous occurrence of
/// the element at `pos`. An element that occurs once is its own previous
/// occurrence, a whole period back.
pub open spec fn is_gap(s: Seq<usize>, pos: int, d: int) -> bool {
    &&& 1 <= d <= s.len()
    &&& before(s, pos, d) == s[pos]
    &&& forall|j: int| 1 <= j < d ==> #[trigger] before(s, pos, j) != s[pos]
}

/// Whether the element after `pos` is the gap of the element at `pos`.
pub open spec fn holds_at(s: Seq<usize>, pos: int) -> bool {
    is_gap(s, pos, s[next(s.len() as int, pos)] as int)
}

/// Whether the recurrence holds at every position of `s`, the step from the
/// last element round to the first included.
pub open spec fn is_cycle(s: Seq<usize>) -> bool {
    s.len() >= 1 && forall|pos: int| 0 <= pos < s.len() ==> #[trigger] holds_at(s, pos)
}

/// `s` read from position `r` on, going round.
pub open spec fn rotate(s: Seq<usize>, r: int) -> Seq<usize> {
    Seq::new(s.len(), |i: int| s[ahead(s.len() as int, i, r)])
}

/// The sequence of `period` ones.
pub open spec fn all_ones(period: nat) -> Seq<usize> {
    Seq::new(period, |i: int| 1usize)
}

/// Whether a sequence starts with two ones.
pub open spec fn is_trivial(s: Seq<usize>) -> bool {
    s.len() >= 2 && s[0] == 1 && s[1] == 1
}

/// An element has one gap only.
pub proof fn lemma_gap_unique(s: Seq<usize>, pos: int, d1: int, d2: int)
    requires
        is_gap(s, pos, d1),
        is_gap(s, pos, d2),
    ensures
        d1 == d2,
{
    if d1 < d2 {
        assert(before(s, pos, d1) != s[pos]);
    }
    if d2 < d1 {
        assert(before(s, pos, d2) != s[pos]);
    }
}

/// Every element of a cycle is a distance: at least 1 and at most the period.
pub proof fn lemma_cycle_values(s: Seq<usize>, pos: int)
    requires
        is_cycle(s),
        0 <= pos < s.len(),
    ensures
        1 <= s[pos] <= s.len(),
{
    let prev = back(s.len() as int, pos, 1);
    assert(holds_at(s, prev));
}

/// A cycle read from any of its positions is a cycle again: the recurrence
/// does not depend on where the period is cut.
pub proof fn lemma_rotation_invariant(s: Seq<usize>, r: int)
    requires
        is_cycle(s),
        0 <= r < s.len(),
    ensures
        is_cycle(rotate(s, r)),
{
    let t = rotate(s, r);
    let n = s.len() as int;
    assert forall|pos: int| 0 <= pos < t.len() implies #[trigger] holds_at(t, pos) by {
        let q = ahead(n, pos, r);
        assert(holds_at(s, q));
        let d = s[next(n, q)] as int;
        assert(t[next(n, pos)] == s[next(n, q)]);
        assert(before(t, pos, d) == before(s, q, d));
        assert forall|j: int| 1 <= j < d implies #[trigger] before(t, pos, j) != t[pos] by {
            assert(before(t, pos, j) == before(s, q, j));
        }
    }
}

/// The sequence of ones is a cycle of every period, and a trivial one from
/// period 2 on.
pub proof fn lemma_all_ones_cycle(period: nat)
    requires
        period >= 1,
    ensures
        is_cycle(all_ones(period)),
        period >= 2 ==> is_trivial(all_ones(period)),
{
    let s = all_ones(period);
    assert forall|pos: int| 0 <= pos < s.len() implies #[trigger] holds_at(s, pos) by {
        assert(is_gap(s, pos, 1));
    }
}

/// A cycle that starts with two ones holds nothing but ones.
pub proof fn lemma_trivial_is_all_ones(s: Seq<usize>)
    requires
        is_cycle(s),
        is_trivial(s),
    ensures
        s == all_ones(s.len()),
{
    let n = s.len() as int;
    assert forall|k: int| 0 <= k < n implies s[back(n, 0, k)] == 1 by {
        lemma_ones_backwards(s, k);
    }
    assert forall|i: int| 0 <= i < n implies s[i] == 1 by {
        let k = if i == 0 {
            0
        } else {
            n - i
        };
        assert(back(n, 0, k) == i);
    }
    assert(s =~= all_ones(s.len()));
}

/// In a cycle that starts with two ones, the element `k` places before the
/// first is a one.
proof fn lemma_ones_backwards(s: Seq<usize>, k: int)
    requires
        is_cycle(s),
        is_trivial(s),
        0 <= k < s.len(),
    ensures
        s[back(s.len() as int, 0, k)] == 1,
    decreases k,
{
    let n = s.len() as int;
    if k > 0 {
        // the element at `q` and the one after it are ones, so the element
        // before `q` stands one place back and equals it
        let q = back(n, 0, k - 1);
        lemma_ones_backwards(s, k - 1);
        if k >= 2 {
            lemma_ones_backwards(s, k - 2);
            assert(next(n, q) == back(n, 0, k - 2));
        }
        assert(holds_at(s, q));
        assert(before(s, q, 1) == s[q]);
        assert(back(n, q, 1) == back(n, 0, k));
    }
}

/// In a cycle of period 2 or more the period itself never stands twice in a
/// row.
pub proof fn lemma_no_adjacent_period(s: Seq<usize>, pos: int)
    requires
        is_cycle(s),
        s.len() >= 2,
        0 <= pos < s.len(),
        s[pos] == s.len(),
    ensures
        s[next(s.len() as int, pos)] != s.len(),
{
    let n = s.len() as int;
    assert(holds_at(s, pos));
    if s[next(n, pos)] == n {
        assert(back(n, pos, n - 1) == next(n, pos));
        assert(before(s, pos, n - 1) != s[pos]);
    }
}

/// In a cycle of period 3 or more no element is the period less one.
pub proof fn lemma_no_period_less_one(s: Seq<usize>, pos: int)
    requires
        is_cycle(s),
        s.len() >= 3,
        0 <= pos < s.len(),
    ensures
        s[pos] != s.len() - 1,
{
    let n = s.len() as int;
    if s[pos] == n - 1 {
        let p = back(n, pos, 1);
        assert(next(n, p) == pos);
        assert(holds_at(s, p));
        assert(back(n, p, n - 1) == pos);
        assert(before(s, p, n - 1) == s[p]);
        let pp = back(n, p, 1);
        assert(next(n, pp) == p);
        assert(holds_at(s, pp));
        assert(back(n, pp, n - 1) == p);
        assert(before(s, pp, n - 1) == s[pp]);
        assert(before(s, p, 1) != s[p]);
    }
}

/// The position `j` places before `pos`.
pub fn back_index(period: usize, pos: usize, j: usize) -> (r: usize)
    requires
        pos < period,
        j <= period,
    ensures
        r == back(period as int, pos as int, j as int),
        r < period,
{
    if j <= pos {
        pos - j
    } else {
        period - j + pos
    }
}

/// The position after `pos`.
pub fn next_index(period: usize, pos: usize) -> (r: usize)
    requires
        pos < period,
    ensures
        r == next(period as int, pos as int),
        r < period,
{
    if pos + 1 == period {
        0
    } else {
        pos + 1
    }
}

/// The distance from `pos` back to the previous occurrence of its element.
pub fn gap_at(seq: &Vec<usize>, pos: usize) -> (d: usize)
    requires
        pos < seq.len(),
    ensures
        is_gap(seq@, pos as int, d as int),
{
    let period = seq.len();
    let mut d: usize = 1;
    while d < period
        invariant
            period == seq.len(),
            pos < period,
            1 <= d <= period,
            forall|j: int| 1 <= j < d ==> #[trigger] before(seq@, pos as int, j) != seq@[pos as int],
        ensures
            is_gap(seq@, pos as int, d as int),
        decreases period - d,
    {
        let at = back_index(period, pos, d);
        if seq[at] == seq[pos] {
            break ;
        }
        d += 1;
    }
    d
}

/// Whether the recurrence holds at the `steps` positions from `offset` on,
/// going round.
pub open spec fn holds_from(s: Seq<usize>, offset: int, steps: int) -> bool {
    forall|k: int| 0 <= k < steps ==> #[trigger] holds_at(s, ahead(s.len() as int, offset, k))
}

/// A cycle passes the check from every position, for any number of steps:
/// what `validate` accepts from the first position is accepted from any
/// other.
pub proof fn lemma_cycle_holds_from(s: Seq<usize>, offset: int, steps: int)
    requires
        is_cycle(s),
        0 <= offset < s.len(),
        0 <= steps <= s.len(),
    ensures
        holds_from(s, offset, steps),
{
}

/// A check of the whole period is the same from every position.
pub proof fn lemma_whole_walk(s: Seq<usize>, offset: int)
    requires
        s.len() >= 1,
        0 <= offset < s.len(),
    ensures
        holds_from(s, offset, s.len() as int) == is_cycle(s),
{
    let n = s.len() as int;
    if holds_from(s, offset, n) {
        assert forall|pos: int| 0 <= pos < n implies #[trigger] holds_at(s, pos) by {
            let k = back(n, pos, offset);
            assert(ahead(n, offset, k) == pos);
        }
    }
}

/// Walks `steps` positions from `offset` on, going round, and checks at each
/// that the element after it is its gap.
pub fn check_from(seq: &Vec<usize>, offset: usize, steps: usize) -> (ok: bool)
    requires
        offset < seq.len(),
        steps <= seq.len(),
    ensures
        ok == holds_from(seq@, offset as int, steps as int),
{
    let period = seq.len();
    let mut pos: usize = offset;
    let mut k: usize = 0;
    while k < steps
        invariant
            period == seq.len(),
            offset < period,
            k <= steps <= period,
            pos < period,
            k < period ==> pos == ahead(period as int, offset as int, k as int),
            holds_from(seq@, offset as int, k as int),
        decreases steps - k,
    {
        let d = gap_at(seq, pos);
        let after = next_index(period, pos);
        if seq[after] != d {
            proof {
                if holds_at(seq@, pos as int) {
                    lemma_gap_unique(seq@, pos as int, d as int, seq@[after as int] as int);
                }
            }
            return false;
        }
        pos = after;
        k += 1;
    }
    true
}

/// Checks a whole period against the recurrence, the step round the end
/// included.
pub fn validate(seq: &Vec<usize>) -> (ok: bool)
    ensures
        ok == is_cycle(seq@),
{
    let period = seq.len();
    if period == 0 {
        return false;
    }
    proof {
        lemma_whole_walk(seq@, 0);
    }
    check_from(seq, 0, period)
}

} // verus!
