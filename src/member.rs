//! Membership of one point in the Mandelbrot set, by escape time.
//!
//! Points are `Complex<i64>` in fixed point (see `fixed`). The orbit is
//! seeded with the point itself, `z₀ = c`, and the bound is tested before
//! each update: `calculate` returns `No(i)` for the first `i` with
//! `|zᵢ|² > 4`, where `zᵢ₊₁ = zᵢ² + c`. Seeding with `0` and testing after each
//! update visits the same values at the same indices, so both conventions
//! report the same count.
use vstd::prelude::*;
use crate::complex::Complex;
use crate::fixed::{fixed_mul, lemma_fixed_mul_bound, mul_fixed, within, SCALE};

verus! {

/// Whether a point belongs to the Mandelbrot set. `No(i)` holds the index of
/// the first orbit value found outside the radius-2 disc.
#[derive(Debug, PartialEq, Eq, Structural, Copy, Clone)]
pub enum Membership {
    Yes,
    No(u32),
}

/// A bound on every orbit value that `calculate` computes.
pub const ORBIT_BOUND: i64 = 0x200_0000_0000;

/// The escape radius squared, `4.0`.
pub const ESCAPE: i64 = 4 * SCALE;

/// The largest magnitude of either component of a point that can stay
/// within the escape radius: `4.0`.
pub const NEAR: i64 = 0x4_0000_0000;

/// Whether both components of `c` lie within `NEAR`.
pub open spec fn is_near(c: Complex<int>) -> bool {
    within(c.re, NEAR as int) && within(c.im, NEAR as int)
}

/// The fixed-point squared magnitude of `z`.
pub open spec fn fixed_norm_sq(z: Complex<int>) -> int {
    fixed_mul(z.re, z.re) + fixed_mul(z.im, z.im)
}

/// Whether `z` lies outside the disc of radius 2.
pub open spec fn escapes(z: Complex<int>) -> bool {
    fixed_norm_sq(z) > ESCAPE
}

/// One step of the iteration in fixed point: `z² + c`.
pub open spec fn step(z: Complex<int>, c: Complex<int>) -> Complex<int> {
    Complex {
        re: fixed_mul(z.re, z.re) - fixed_mul(z.im, z.im) + c.re,
        im: fixed_mul(z.re, z.im) + fixed_mul(z.im, z.re) + c.im,
    }
}

/// The `n`th value of the orbit of `c`, seeded with `c` itself.
pub open spec fn orbit(c: Complex<int>, n: nat) -> Complex<int>
    decreases n,
{
    if n == 0 {
        c
    } else {
        step(orbit(c, (n - 1) as nat), c)
    }
}

/// The membership of `c` after looking at the first `limit` orbit values.
pub open spec fn membership(c: Complex<int>, limit: nat) -> Membership
    decreases limit,
{
    if limit == 0 {
        Membership::Yes
    } else {
        match membership(c, (limit - 1) as nat) {
            Membership::No(i) => Membership::No(i),
            Membership::Yes => if escapes(orbit(c, (limit - 1) as nat)) {
                Membership::No((limit - 1) as u32)
            } else {
                Membership::Yes
            },
        }
    }
}

/// `membership` is `Yes` exactly when none of the first `limit` orbit values
/// escapes.
pub proof fn lemma_in_set_iff_no_escape(c: Complex<int>, limit: nat)
    ensures
        membership(c, limit) == Membership::Yes <==> forall|j: nat|
            j < limit ==> !escapes(#[trigger] orbit(c, j)),
    decreases limit,
{
    if limit > 0 {
        lemma_in_set_iff_no_escape(c, (limit - 1) as nat);
        if membership(c, (limit - 1) as nat) != Membership::Yes {
            let j = choose|j: nat| j < limit - 1 && escapes(#[trigger] orbit(c, j));
            assert(j < limit && escapes(orbit(c, j)));
        }
    }
}

/// `membership` is `No(i)` exactly when the orbit value at `i` is the first
/// that escapes, and `i` is below the limit.
pub proof fn lemma_escape_is_first(c: Complex<int>, limit: nat, i: u32)
    requires
        limit <= u32::MAX,
    ensures
        membership(c, limit) == Membership::No(i) <==> {
            &&& i < limit
            &&& escapes(orbit(c, i as nat))
            &&& forall|j: nat| j < i ==> !escapes(#[trigger] orbit(c, j))
        },
    decreases limit,
{
    if limit > 0 {
        let prev = (limit - 1) as nat;
        lemma_escape_is_first(c, prev, i);
        lemma_in_set_iff_no_escape(c, prev);
        match membership(c, prev) {
            Membership::No(k) => {
                lemma_escape_is_first(c, prev, k);
                if i == prev && escapes(orbit(c, i as nat)) && forall|j: nat| j < i ==> !escapes(
                    #[trigger] orbit(c, j),
                ) {
                    assert(!escapes(orbit(c, k as nat)));
                }
            },
            Membership::Yes => {
                if i < prev {
                    assert(!escapes(orbit(c, i as nat)));
                }
            },
        }
    }
}

/// A larger limit never changes an escape already found: the count depends
/// on the point alone, not on how long the search ran.
pub proof fn lemma_membership_monotonic(c: Complex<int>, limit1: nat, limit2: nat, i: u32)
    requires
        membership(c, limit1) == Membership::No(i),
        limit1 <= limit2,
    ensures
        membership(c, limit2) == Membership::No(i),
    decreases limit2,
{
    if limit2 > limit1 {
        lemma_membership_monotonic(c, limit1, (limit2 - 1) as nat, i);
    }
}

/// A point that stays through a larger limit stays through a smaller one.
pub proof fn lemma_in_set_for_smaller_limit(c: Complex<int>, limit1: nat, limit2: nat)
    requires
        membership(c, limit2) == Membership::Yes,
        limit1 <= limit2,
    ensures
        membership(c, limit1) == Membership::Yes,
{
    lemma_in_set_iff_no_escape(c, limit1);
    lemma_in_set_iff_no_escape(c, limit2);
}

/// The orbit of the origin stays at the origin.
proof fn lemma_origin_orbit(n: nat)
    ensures
        orbit(Complex { re: 0, im: 0 }, n) == (Complex::<int> { re: 0, im: 0 }),
    decreases n,
{
    if n > 0 {
        lemma_origin_orbit((n - 1) as nat);
    }
}

/// The origin belongs to the set, whatever the limit.
pub proof fn lemma_origin_in_set(limit: nat)
    ensures
        membership(Complex { re: 0, im: 0 }, limit) == Membership::Yes,
    decreases limit,
{
    if limit > 0 {
        lemma_origin_in_set((limit - 1) as nat);
        lemma_origin_orbit((limit - 1) as nat);
    }
}

/// A point that has not escaped has components below `2^34`, that is `4.0`.
proof fn lemma_inside_is_small(z: Complex<int>)
    requires
        !escapes(z),
    ensures
        within(z.re, 0x4_0000_0000),
        within(z.im, 0x4_0000_0000),
{
    lemma_square_nonneg(z.re);
    lemma_square_nonneg(z.im);
    lemma_large_square(z.re);
    lemma_large_square(z.im);
}

proof fn lemma_square_nonneg(x: int)
    ensures
        fixed_mul(x, x) >= 0,
{
    assert(x * x >= 0) by (nonlinear_arith);
    vstd::arithmetic::div_mod::lemma_div_pos_is_pos(x * x, SCALE as int);
}

proof fn lemma_large_square(x: int)
    ensures
        !within(x, 0x4_0000_0000) ==> fixed_mul(x, x) > ESCAPE,
{
    if !within(x, 0x4_0000_0000) {
        assert(x * x >= 0x10_0000_0000_0000_0000) by (nonlinear_arith)
            requires !within(x, 0x4_0000_0000);
        vstd::arithmetic::div_mod::lemma_div_is_ordered(0x10_0000_0000_0000_0000, x * x, SCALE as int);
    }
}

/// Whether `z` lies outside the disc of radius 2.
fn escaped(z: Complex<i64>) -> (r: bool)
    requires
        within(z.re as int, ORBIT_BOUND as int),
        within(z.im as int, ORBIT_BOUND as int),
    ensures
        r == escapes(z@),
{
    proof {
        lemma_fixed_mul_bound(z.re as int, z.re as int, ORBIT_BOUND as int, ORBIT_BOUND as int, 0x4_0000_0000_0000);
        lemma_fixed_mul_bound(z.im as int, z.im as int, ORBIT_BOUND as int, ORBIT_BOUND as int, 0x4_0000_0000_0000);
    }
    mul_fixed(z.re, z.re) + mul_fixed(z.im, z.im) > ESCAPE
}

/// `z² + c` in fixed point, for a `z` that has not escaped.
fn next(z: Complex<i64>, c: Complex<i64>) -> (r: Complex<i64>)
    requires
        !escapes(z@),
        is_near(c@),
    ensures
        r@ == step(z@, c@),
        within(r.re as int, ORBIT_BOUND as int),
        within(r.im as int, ORBIT_BOUND as int),
{
    proof {
        lemma_inside_is_small(z@);
        let b: int = 0x4_0000_0000;
        let p: int = 0x10_0000_0000;
        lemma_fixed_mul_bound(z.re as int, z.re as int, b, b, p);
        lemma_fixed_mul_bound(z.im as int, z.im as int, b, b, p);
        lemma_fixed_mul_bound(z.re as int, z.im as int, b, b, p);
        lemma_fixed_mul_bound(z.im as int, z.re as int, b, b, p);
    }
    let re = mul_fixed(z.re, z.re) - mul_fixed(z.im, z.im) + c.re;
    let im = mul_fixed(z.re, z.im) + mul_fixed(z.im, z.re) + c.im;
    Complex { re, im }
}

/// Calculates whether `c` is in the Mandelbrot set, looking at no more than
/// `limit` values of its orbit.
pub fn calculate(c: Complex<i64>, limit: u32) -> (r: Membership)
    ensures
        r == membership(c@, limit as nat),
{
    if limit == 0 {
        return Membership::Yes;
    }
    if c.re < -NEAR || c.re > NEAR || c.im < -NEAR || c.im > NEAR {
        // The point itself lies outside the escape radius.
        proof {
            lemma_square_nonneg(c.re as int);
            lemma_square_nonneg(c.im as int);
            lemma_large_square(c.re as int);
            lemma_large_square(c.im as int);
            lemma_escape_is_first(c@, limit as nat, 0);
        }
        return Membership::No(0);
    }
    let mut z = c;
    let mut i: u32 = 0;
    while i < limit
        invariant
            i <= limit,
            is_near(c@),
            z@ == orbit(c@, i as nat),
            within(z.re as int, ORBIT_BOUND as int),
            within(z.im as int, ORBIT_BOUND as int),
            membership(c@, i as nat) == Membership::Yes,
        decreases limit - i,
    {
        if escaped(z) {
            proof {
                assert(membership(c@, (i + 1) as nat) == Membership::No(i));
                lemma_membership_monotonic(c@, (i + 1) as nat, limit as nat, i);
            }
            return Membership::No(i);
        }
        z = next(z, c);
        i = i + 1;
    }
    Membership::Yes
}

} // verus!
