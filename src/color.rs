//! From memberships to colors.
//!
//! Points in the set are black. Escape counts in the lower half of the
//! iteration range ramp from black to red; those in the upper half ramp from
//! red to white. `halfway` is the limit halved and rounded up, so the upper
//! half never reaches a second period of the ramp and never falls back to red.
use vstd::prelude::*;
use crate::member::Membership;

verus! {

/// Where the upper half of the iteration range starts: `limit / 2` rounded up.
pub open spec fn halfway(limit: u32) -> int {
    (limit + 1) / 2
}

/// `i · 255 / halfway`, rounded to the nearest integer, halves rounded up.
pub open spec fn ramp(i: int, halfway: int) -> int {
    (510 * i + halfway) / (2 * halfway)
}

/// The color of a membership, as red, green and blue.
pub open spec fn color_of(membership: Membership, limit: u32) -> (u8, u8, u8) {
    match membership {
        Membership::Yes => (0, 0, 0),
        Membership::No(i) => if i < halfway(limit) {
            (ramp(i as int, halfway(limit)) as u8, 0, 0)
        } else {
            let c = ramp((i as int) % halfway(limit), halfway(limit)) as u8;
            (255, c, c)
        },
    }
}

/// Below `halfway`, the ramp stays within a byte and grows with `i`.
pub proof fn lemma_ramp_bounds(i: int, j: int, halfway: int)
    requires
        halfway >= 1,
        0 <= i <= j < halfway,
    ensures
        0 <= ramp(i, halfway) <= ramp(j, halfway) <= 255,
{
    let d = 2 * halfway;
    vstd::arithmetic::div_mod::lemma_div_pos_is_pos(510 * i + halfway, d);
    vstd::arithmetic::div_mod::lemma_div_is_ordered(510 * i + halfway, 510 * j + halfway, d);
    vstd::arithmetic::div_mod::lemma_fundamental_div_mod(510 * j + halfway, d);
    let q = (510 * j + halfway) / d;
    let r = (510 * j + halfway) % d;
    assert(q <= 255) by (nonlinear_arith)
        requires 510 * j + halfway == d * q + r, 0 <= r, j <= halfway - 1, d == 2 * halfway, halfway >= 1;
}

/// The color of a membership: black for points in the set, a red ramp for
/// escape counts below `halfway`, a red-to-white ramp above it.
pub fn colorize(membership: Membership, limit: u32) -> (r: (u8, u8, u8))
    requires
        limit >= 1,
    ensures
        r == color_of(membership, limit),
{
    // The limit halved and rounded up, without overflow.
    let halfway: u32 = limit / 2 + limit % 2;
    match membership {
        Membership::Yes => (0, 0, 0),
        Membership::No(iterations) => {
            if iterations < halfway {
                proof {
                    lemma_ramp_bounds(iterations as int, iterations as int, halfway as int);
                }
                let c = ((510 * iterations as u64 + halfway as u64) / (2 * halfway as u64)) as u8;
                (c, 0, 0)
            } else {
                let after_halfway = iterations % halfway;
                proof {
                    lemma_ramp_bounds(after_halfway as int, after_halfway as int, halfway as int);
                }
                let c = ((510 * after_halfway as u64 + halfway as u64) / (2 * halfway as u64)) as u8;
                (255, c, c)
            }
        },
    }
}

/// A point in the set is black.
pub proof fn lemma_in_set_is_black(limit: u32)
    ensures
        color_of(Membership::Yes, limit) == (0u8, 0u8, 0u8),
{
}

/// The first escape count and the last one before `halfway` get different
/// colors, once the lower half holds two counts.
pub proof fn lemma_lower_half_distinct(limit: u32)
    requires
        halfway(limit) >= 2,
    ensures
        color_of(Membership::No(0), limit) != color_of(Membership::No((halfway(limit) - 1) as u32), limit),
{
    let h = halfway(limit);
    assert(ramp(0, h) == 0) by {
        vstd::arithmetic::div_mod::lemma_basic_div(h, 2 * h);
    }
    vstd::arithmetic::div_mod::lemma_div_is_ordered(2 * h, 510 * (h - 1) + h, 2 * h);
    vstd::arithmetic::div_mod::lemma_div_by_self(2 * h);
    lemma_ramp_bounds(h - 1, h - 1, h);
}

/// Across the upper half of the range, below `limit`, the color is one
/// unwrapped ramp from red toward white: the green and blue parts never fall
/// back as the count grows, so the top of the range is not painted red.
pub proof fn lemma_upper_half_single_ramp(limit: u32, i: u32, j: u32)
    requires
        limit >= 1,
        halfway(limit) <= i <= j < limit,
    ensures
        color_of(Membership::No(i), limit) == {
            let c = ramp(i - halfway(limit), halfway(limit)) as u8;
            (255u8, c, c)
        },
        color_of(Membership::No(i), limit).1 <= color_of(Membership::No(j), limit).1,
{
    let h = halfway(limit);
    vstd::arithmetic::div_mod::lemma_fundamental_div_mod_converse(i as int, h, 1, i - h);
    vstd::arithmetic::div_mod::lemma_fundamental_div_mod_converse(j as int, h, 1, j - h);
    lemma_ramp_bounds(i - h, j - h, h);
}

/// The colors of a row-major buffer of memberships, three bytes per pixel.
pub fn to_rgb(memberships: &[Membership], limit: u32) -> (r: Vec<u8>)
    requires
        limit >= 1,
        3 * memberships@.len() <= usize::MAX,
    ensures
        r@.len() == 3 * memberships@.len(),
        forall|i: int| 0 <= i < memberships@.len() ==> {
            let c = #[trigger] color_of(memberships@[i], limit);
            &&& r@[3 * i] == c.0
            &&& r@[3 * i + 1] == c.1
            &&& r@[3 * i + 2] == c.2
        },
{
    let mut rgb: Vec<u8> = Vec::new();
    let mut i: usize = 0;
    while i < memberships.len()
        invariant
            limit >= 1,
            i <= memberships@.len(),
            3 * memberships@.len() <= usize::MAX,
            rgb@.len() == 3 * i,
            forall|k: int| 0 <= k < i ==> {
                let c = #[trigger] color_of(memberships@[k], limit);
                &&& rgb@[3 * k] == c.0
                &&& rgb@[3 * k + 1] == c.1
                &&& rgb@[3 * k + 2] == c.2
            },
        decreases memberships@.len() - i,
    {
        let color = colorize(memberships[i], limit);
        rgb.push(color.0);
        rgb.push(color.1);
        rgb.push(color.2);
        i = i + 1;
    }
    rgb
}

} // verus!
