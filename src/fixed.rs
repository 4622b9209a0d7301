//! Fixed-point reals held in an `i64`: the value `v` stands for `v / SCALE`.
//!
//! The escape-time engine computes with these so that every result is
//! exactly reproducible and provable; products are rounded toward zero.
use vstd::prelude::*;
use crate::complex::trunc_div;

verus! {

/// The fixed-point unit: `SCALE` stands for `1.0`.
pub const SCALE: i64 = 0x1_0000_0000;

/// The largest magnitude `mul_fixed` accepts for either factor.
pub const MUL_BOUND: i64 = 0x400_0000_0000;

/// Whether `x` lies in `[-bound, bound]`.
pub open spec fn within(x: int, bound: int) -> bool {
    -bound <= x <= bound
}

/// The fixed-point product of `a` and `b`, rounded toward zero.
pub open spec fn fixed_mul(a: int, b: int) -> int {
    trunc_div(a * b, SCALE as int)
}

/// A quotient by `SCALE` of a dividend bounded by `bound · SCALE` is bounded
/// by `bound`.
pub proof fn lemma_fixed_div_bound(p: int, bound: int)
    requires
        bound >= 0,
        within(p, bound * SCALE),
    ensures
        within(trunc_div(p, SCALE as int), bound),
{
    let y = if p >= 0 { p } else { -p };
    vstd::arithmetic::div_mod::lemma_div_is_ordered(y, bound * SCALE, SCALE as int);
    vstd::arithmetic::div_mod::lemma_div_multiples_vanish(bound, SCALE as int);
    vstd::arithmetic::div_mod::lemma_div_pos_is_pos(y, SCALE as int);
    assert(bound * SCALE == SCALE * bound) by (nonlinear_arith);
}

/// Factors bounded by `a_bound` and `b_bound` give a product bounded by
/// `bound` whenever `a_bound · b_bound ≤ bound · SCALE`.
pub proof fn lemma_fixed_mul_bound(a: int, b: int, a_bound: int, b_bound: int, bound: int)
    requires
        a_bound >= 0,
        b_bound >= 0,
        bound >= 0,
        within(a, a_bound),
        within(b, b_bound),
        a_bound * b_bound <= bound * SCALE,
    ensures
        within(fixed_mul(a, b), bound),
{
    assert(within(a * b, a_bound * b_bound)) by (nonlinear_arith)
        requires within(a, a_bound), within(b, b_bound), a_bound >= 0, b_bound >= 0;
    lemma_fixed_div_bound(a * b, bound);
}

/// The fixed-point product of `a` and `b`, rounded toward zero.
pub fn mul_fixed(a: i64, b: i64) -> (r: i64)
    requires
        within(a as int, MUL_BOUND as int),
        within(b as int, MUL_BOUND as int),
    ensures
        r == fixed_mul(a as int, b as int),
{
    proof {
        lemma_fixed_mul_bound(a as int, b as int, MUL_BOUND as int, MUL_BOUND as int, 0x100_0000_0000_0000);
        assert(within(a * b, 0x10_0000_0000_0000_0000_0000)) by (nonlinear_arith)
            requires within(a as int, MUL_BOUND as int), within(b as int, MUL_BOUND as int);
    }
    let p: i128 = (a as i128) * (b as i128);
    let scale: i128 = SCALE as i128;
    let q: i128 = if p >= 0 {
        p / scale
    } else {
        -((-p) / scale)
    };
    q as i64
}

} // verus!
