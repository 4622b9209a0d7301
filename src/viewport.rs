//! From pixel coordinates to points of the plane.
//!
//! A viewport is described either by its upper-left corner and a uniform
//! pixel step (`pixel_to_point`), or by its upper-left and lower-right corners
//! (`pixel_to_corner_point`). Rows grow downward, so the imaginary part falls
//! as the row index rises.
use vstd::prelude::*;
use crate::complex::{trunc_div, Complex};

verus! {

/// The point of pixel `(x, y)` when neighbouring pixels lie `delta` apart.
pub open spec fn point_at(upper_left: Complex<int>, delta: int, x: int, y: int) -> Complex<int> {
    Complex { re: upper_left.re + delta * x, im: upper_left.im - delta * y }
}

/// The point of pixel `(x, y)` in a `width × height` grid spread over the
/// rectangle with corners `upper_left` and `lower_right`.
pub open spec fn corner_point_at(
    bounds: (usize, usize),
    x: int,
    y: int,
    upper_left: Complex<int>,
    lower_right: Complex<int>,
) -> Complex<int> {
    Complex {
        re: upper_left.re + trunc_div(x * (lower_right.re - upper_left.re), bounds.0 as int),
        im: upper_left.im - trunc_div(y * (upper_left.im - lower_right.im), bounds.1 as int),
    }
}

/// Whether the point of pixel `(x, y)` fits in an `i64`.
pub open spec fn point_fits(upper_left: Complex<int>, delta: int, x: int, y: int) -> bool {
    let p = point_at(upper_left, delta, x, y);
    i64::MIN <= p.re <= i64::MAX && i64::MIN <= p.im <= i64::MAX
}

/// Whether `x` lies well inside the range of `i128`.
pub open spec fn within_i128(x: int) -> bool {
    -0x4000_0000_0000_0000_0000_0000_0000_0000 <= x <= 0x4000_0000_0000_0000_0000_0000_0000_0000
}

/// The point of the plane that pixel `pixel` of a grid of `bounds` stands for,
/// given the grid's upper-left point and the distance between neighbouring
/// pixels.
pub fn pixel_to_point(
    bounds: (usize, usize),
    pixel: (usize, usize),
    upper_left: Complex<i64>,
    pixel_delta: i64,
) -> (r: Complex<i64>)
    requires
        pixel.0 < bounds.0,
        pixel.1 < bounds.1,
        point_fits(upper_left@, pixel_delta as int, pixel.0 as int, pixel.1 as int),
    ensures
        r@ == point_at(upper_left@, pixel_delta as int, pixel.0 as int, pixel.1 as int),
{
    let re = upper_left.re as i128 + pixel_delta as i128 * pixel.0 as i128;
    let im = upper_left.im as i128 - pixel_delta as i128 * pixel.1 as i128;

    Complex::new(re as i64, im as i64)
}

/// The point of the plane that pixel `pixel` of a grid of `bounds` stands for,
/// when the grid spans the rectangle from `upper_left` to `lower_right`.
pub fn pixel_to_corner_point(
    bounds: (usize, usize),
    pixel: (usize, usize),
    upper_left: Complex<i64>,
    lower_right: Complex<i64>,
) -> (r: Complex<i64>)
    requires
        pixel.0 < bounds.0,
        pixel.1 < bounds.1,
        upper_left.re <= lower_right.re,
        lower_right.im <= upper_left.im,
        within_i128(pixel.0 * (lower_right.re - upper_left.re)),
        within_i128(pixel.1 * (upper_left.im - lower_right.im)),
    ensures
        r@ == corner_point_at(bounds, pixel.0 as int, pixel.1 as int, upper_left@, lower_right@),
        upper_left.re <= r.re <= lower_right.re,
        lower_right.im <= r.im <= upper_left.im,
{
    let width = lower_right.re as i128 - upper_left.re as i128;
    let height = upper_left.im as i128 - lower_right.im as i128;
    proof {
        lemma_share_below_whole(pixel.0 as int, bounds.0 as int, width as int);
        lemma_share_below_whole(pixel.1 as int, bounds.1 as int, height as int);
    }
    let dx = (pixel.0 as i128 * width) / (bounds.0 as i128);
    let dy = (pixel.1 as i128 * height) / (bounds.1 as i128);

    Complex::new((upper_left.re as i128 + dx) as i64, (upper_left.im as i128 - dy) as i64)
}

/// `x · span / n` stays within `[0, span]` when `x < n`.
proof fn lemma_share_below_whole(x: int, n: int, span: int)
    requires
        0 <= x < n,
        0 <= span,
    ensures
        0 <= (x * span) / n <= span,
{
    assert(0 <= x * span <= n * span) by (nonlinear_arith)
        requires 0 <= x < n, 0 <= span;
    vstd::arithmetic::div_mod::lemma_div_is_ordered(x * span, n * span, n);
    vstd::arithmetic::div_mod::lemma_div_multiples_vanish(span, n);
    vstd::arithmetic::div_mod::lemma_div_pos_is_pos(x * span, n);
    assert(n * span == span * n) by (nonlinear_arith);
}

} // verus!
