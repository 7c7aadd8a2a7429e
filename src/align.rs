use vstd::arithmetic::power2::is_pow2;
use vstd::prelude::*;

verus! {

/// `v` rounded up to the least multiple of `a` that is not below it.
pub open spec fn spec_ceil_align(v: int, a: int) -> int
    recommends
        a > 0,
{
    if v % a == 0 {
        v
    } else {
        v + (a - v % a)
    }
}

/// A power of two is positive.
pub proof fn lemma_pow2_positive(a: int)
    requires
        is_pow2(a),
    ensures
        a > 0,
{
    reveal(is_pow2);
}

/// Rounding up to a power of two `a` never lowers `v`, lands on a multiple of
/// `a`, and overshoots `v` by less than `a`.
pub proof fn lemma_ceil_align_bounds(v: int, a: int)
    requires
        v >= 0,
        is_pow2(a),
    ensures
        spec_ceil_align(v, a) >= v,
        spec_ceil_align(v, a) % a == 0,
        spec_ceil_align(v, a) - a < v,
{
    lemma_pow2_positive(a);
    lemma_ceil_align_facts(v, a);
}

/// The same bounds for any positive `a`.
pub proof fn lemma_ceil_align_facts(v: int, a: int)
    requires
        v >= 0,
        a > 0,
    ensures
        spec_ceil_align(v, a) >= v,
        spec_ceil_align(v, a) % a == 0,
        spec_ceil_align(v, a) - a < v,
        v % a == 0 ==> spec_ceil_align(v, a) == v,
{
    let r = v % a;
    assert(0 <= r < a) by (nonlinear_arith)
        requires a > 0, r == v % a;
    if r != 0 {
        assert((v + (a - r)) % a == 0) by (nonlinear_arith)
            requires a > 0, r == v % a;
    }
}

/// Rounds `value` up to a multiple of `to`, which is a power of two.
pub fn ceil_align(value: usize, to: usize) -> (r: usize)
    requires
        is_pow2(to as int),
        spec_ceil_align(value as int, to as int) <= usize::MAX,
    ensures
        r == spec_ceil_align(value as int, to as int),
{
    proof {
        lemma_pow2_positive(to as int);
    }
    let rem: usize = value % to;
    if rem == 0 {
        value
    } else {
        value + (to - rem)
    }
}

} // verus!
