//! Bit masks as sets of small numbers: bit `v` of a mask says that the value
//! `v` belongs to the set.

use vstd::prelude::*;
use vstd::std_specs::bits::{axiom_u64_trailing_zeros, u64_trailing_zeros};

verus! {

/// Whether the value `v` belongs to the set that `m` stands for.
pub open spec fn admits(m: u64, v: int) -> bool {
    0 <= v < 64 && (m >> (v as u64)) & 1 == 1
}

/// How many of the values below `k` belong to `m`.
pub open spec fn ones_below(m: u64, k: nat) -> nat
    decreases k,
{
    if k == 0 {
        0
    } else {
        ones_below(m, (k - 1) as nat) + if admits(m, k - 1) {
            1nat
        } else {
            0nat
        }
    }
}

/// The number of values that belong to `m`.
pub open spec fn ones(m: u64) -> nat {
    ones_below(m, 64)
}

/// Whether exactly one value belongs to `m`.
pub open spec fn is_single(m: u64) -> bool {
    ones(m) == 1
}

/// The least value that belongs to `m`; 64 for the empty set.
pub open spec fn lowest(m: u64) -> int {
    u64_trailing_zeros(m) as int
}

/// Whether every value of `a` belongs to `b` as well.
pub open spec fn subset(a: u64, b: u64) -> bool {
    forall|v: int| admits(a, v) ==> admits(b, v)
}

/// `u64::count_ones` of std: the number of bits of `i` that are one, stated
/// as the count of the positions below 64 at which `i` has a one bit.
pub assume_specification[ u64::count_ones ](i: u64) -> (r: u32)
    ensures
        r == ones(i),
;

/// The intersection holds the values that both sides hold.
pub proof fn lemma_admits_and(a: u64, b: u64, v: int)
    ensures
        admits(a & b, v) == (admits(a, v) && admits(b, v)),
{
    if 0 <= v < 64 {
        let w = v as u64;
        assert((((a & b) >> w) & 1 == 1) == ((a >> w) & 1 == 1 && (b >> w) & 1 == 1))
            by (bit_vector);
    }
}

/// The complement holds the values below 64 that the mask does not hold.
pub proof fn lemma_admits_not(a: u64, v: int)
    requires
        0 <= v < 64,
    ensures
        admits(!a, v) == !admits(a, v),
{
    let w = v as u64;
    assert((((!a) >> w) & 1 == 1) == !((a >> w) & 1 == 1)) by (bit_vector)
        requires
            w < 64,
    ;
}

/// The mask of one value holds that value and no other.
pub proof fn lemma_admits_bit(n: int, v: int)
    requires
        0 <= n < 64,
    ensures
        admits(1u64 << (n as u64), v) == (v == n),
{
    if 0 <= v < 64 {
        let w = v as u64;
        let k = n as u64;
        assert((((1u64 << k) >> w) & 1 == 1) == (w == k)) by (bit_vector)
            requires
                w < 64,
                k < 64,
        ;
    }
}

/// The empty mask holds no value.
pub proof fn lemma_admits_zero(v: int)
    ensures
        !admits(0u64, v),
{
    if 0 <= v < 64 {
        let w = v as u64;
        assert((0u64 >> w) & 1 == 0) by (bit_vector);
    }
}

/// A set that is not empty holds its lowest value, and none below it.
pub proof fn lemma_lowest(m: u64)
    requires
        m != 0,
    ensures
        admits(m, lowest(m)),
        forall|v: int| admits(m, v) ==> lowest(m) <= v,
{
    axiom_u64_trailing_zeros(m);
    let t = u64_trailing_zeros(m);
    assert forall|v: int| admits(m, v) implies lowest(m) <= v by {
        if v < t {
            let w = v as u64;
            assert((m >> w) & 1u64 == 0u64);
        }
    }
}

/// Two masks that hold the same values are the same mask.
pub proof fn lemma_mask_ext(a: u64, b: u64)
    requires
        forall|v: int| 0 <= v < 64 ==> admits(a, v) == admits(b, v),
    ensures
        a == b,
{
    let c = a ^ b;
    if c != 0 {
        lemma_lowest(c);
        let t = u64_trailing_zeros(c);
        let w = t as u64;
        assert(admits(c, t as int));
        assert(((a ^ b) >> w) & 1 == 1 ==> ((a >> w) & 1 == 1) != ((b >> w) & 1 == 1))
            by (bit_vector);
        assert(admits(a, t as int) != admits(b, t as int));
    }
    assert(a ^ b == 0 ==> a == b) by (bit_vector);
}

/// Below any bound, a smaller set has no more values.
pub proof fn lemma_ones_below_subset(a: u64, b: u64, k: nat)
    requires
        forall|v: int| 0 <= v < k && admits(a, v) ==> admits(b, v),
    ensures
        ones_below(a, k) <= ones_below(b, k),
    decreases k,
{
    if k > 0 {
        lemma_ones_below_subset(a, b, (k - 1) as nat);
    }
}

/// Below a bound, a smaller set that lacks a value of the larger one has
/// fewer values.
pub proof fn lemma_ones_below_strict(a: u64, b: u64, k: nat, w: int)
    requires
        forall|v: int| 0 <= v < k && admits(a, v) ==> admits(b, v),
        0 <= w < k,
        admits(b, w),
        !admits(a, w),
    ensures
        ones_below(a, k) < ones_below(b, k),
    decreases k,
{
    if w == k - 1 {
        lemma_ones_below_subset(a, b, (k - 1) as nat);
    } else {
        lemma_ones_below_strict(a, b, (k - 1) as nat, w);
    }
}

/// A smaller set has no more values, and fewer where the two differ.
pub proof fn lemma_subset_ones(a: u64, b: u64)
    requires
        subset(a, b),
    ensures
        ones(a) <= ones(b),
        a != b ==> ones(a) < ones(b),
{
    lemma_ones_below_subset(a, b, 64);
    if a != b {
        if forall|v: int| 0 <= v < 64 ==> admits(a, v) == admits(b, v) {
            lemma_mask_ext(a, b);
        }
        let w = choose|v: int| 0 <= v < 64 && admits(a, v) != admits(b, v);
        lemma_ones_below_strict(a, b, 64, w);
    }
}

/// A mask has at most 64 values.
pub proof fn lemma_ones_bound(m: u64, k: nat)
    ensures
        ones_below(m, k) <= k,
    decreases k,
{
    if k > 0 {
        lemma_ones_bound(m, (k - 1) as nat);
    }
}

/// A mask whose values lie between 1 and `top` has at most `top` of them.
pub proof fn lemma_ones_within(m: u64, top: int, k: nat)
    requires
        0 <= top,
        forall|v: int| admits(m, v) ==> 1 <= v <= top,
    ensures
        ones_below(m, k) <= top,
        k >= 1 ==> ones_below(m, k) <= k - 1,
    decreases k,
{
    if k > 0 {
        lemma_ones_within(m, top, (k - 1) as nat);
    }
}

/// The count below a bound is 0 exactly when no value below it belongs to
/// the mask.
pub proof fn lemma_ones_below_none(m: u64, k: nat)
    ensures
        ones_below(m, k) == 0 <==> (forall|v: int| 0 <= v < k ==> !admits(m, v)),
    decreases k,
{
    if k > 0 {
        lemma_ones_below_none(m, (k - 1) as nat);
    }
}

/// Where a value below a bound belongs to the mask, the count below the bound
/// is 1 exactly when it is the only one.
pub proof fn lemma_ones_below_one(m: u64, k: nat, w: int)
    requires
        0 <= w < k,
        admits(m, w),
    ensures
        ones_below(m, k) == 1 <==> (forall|v: int| 0 <= v < k && admits(m, v) ==> v == w),
    decreases k,
{
    lemma_ones_below_none(m, (k - 1) as nat);
    if w < k - 1 {
        lemma_ones_below_one(m, (k - 1) as nat, w);
    }
}

/// The empty set has no value and is no single value.
pub proof fn lemma_ones_zero()
    ensures
        ones(0u64) == 0,
        !is_single(0u64),
{
    assert forall|v: int| 0 <= v < 64 implies !admits(0u64, v) by {
        lemma_admits_zero(v);
    }
    lemma_ones_below_none(0u64, 64);
}

/// A single value is the lowest of its set and the only one in it.
pub proof fn lemma_single(m: u64)
    requires
        is_single(m),
    ensures
        m != 0,
        0 <= lowest(m) < 64,
        forall|v: int| admits(m, v) <==> v == lowest(m),
{
    lemma_ones_zero();
    lemma_lowest(m);
    lemma_ones_below_one(m, 64, lowest(m));
}

/// A set with a value that is its only one is a single value.
pub proof fn lemma_single_from(m: u64, w: int)
    requires
        admits(m, w),
        forall|v: int| admits(m, v) ==> v == w,
    ensures
        is_single(m),
        lowest(m) == w,
{
    lemma_ones_below_one(m, 64, w);
    lemma_admits_zero(w);
    lemma_lowest(m);
}

/// The mask of one value is a single value.
pub proof fn lemma_bit_single(n: int)
    requires
        0 <= n < 64,
    ensures
        is_single(1u64 << (n as u64)),
        lowest(1u64 << (n as u64)) == n,
{
    let m = 1u64 << (n as u64);
    assert forall|v: int| admits(m, v) <==> v == n by {
        lemma_admits_bit(n, v);
    }
    lemma_single_from(m, n);
}

/// The intersection is a subset of both sides.
pub proof fn lemma_and_subset(a: u64, b: u64)
    ensures
        subset(a & b, a),
        subset(a & b, b),
        ones(a & b) <= ones(a),
{
    assert forall|v: int| admits(a & b, v) implies admits(a, v) && admits(b, v) by {
        lemma_admits_and(a, b, v);
    }
    lemma_subset_ones(a & b, a);
}

/// Whether the mask holds exactly one value.
pub fn single(m: u64) -> (r: bool)
    ensures
        r == is_single(m),
{
    m.count_ones() == 1
}

/// Whether the value `v` belongs to the mask.
pub fn contains(m: u64, v: usize) -> (r: bool)
    requires
        v < 64,
    ensures
        r == admits(m, v as int),
{
    (m >> (v as u64)) & 1 == 1
}

/// The least value of a set, and 64 where the set is empty.
pub fn low(m: u64) -> (r: usize)
    ensures
        r == lowest(m),
        r <= 64,
        m != 0 ==> r < 64 && admits(m, r as int),
{
    proof {
        axiom_u64_trailing_zeros(m);
        if m != 0 {
            lemma_lowest(m);
        }
    }
    m.trailing_zeros() as usize
}

/// The mask of the one value `n`.
pub fn bit(n: usize) -> (r: u64)
    requires
        n < 64,
    ensures
        r == 1u64 << (n as u64),
        is_single(r),
        lowest(r) == n,
        forall|v: int| admits(r, v) <==> v == n,
{
    proof {
        lemma_bit_single(n as int);
        lemma_single(1u64 << (n as u64));
    }
    1u64 << (n as u64)
}

/// The mask of the values from `lo` to `hi`, both included.
pub fn span(lo: usize, hi: usize) -> (r: u64)
    requires
        lo <= hi < 64,
    ensures
        forall|v: int| admits(r, v) <==> lo <= v <= hi,
{
    let a: u64 = lo as u64;
    let c: u64 = (63 - hi) as u64;
    let r: u64 = (u64::MAX >> c) & (u64::MAX << a);
    proof {
        assert forall|v: int| admits(r, v) <==> lo <= v <= hi by {
            if 0 <= v < 64 {
                let w = v as u64;
                assert(((((0xffff_ffff_ffff_ffffu64 >> c) & (0xffff_ffff_ffff_ffffu64 << a)) >> w)
                    & 1 == 1) == (a <= w && w + c <= 63)) by (bit_vector)
                    requires
                        w < 64,
                        a < 64,
                        c < 64,
                ;
            }
        }
    }
    r
}

} // verus!
