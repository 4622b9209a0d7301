//! Panning and zooming a viewport, one command at a time.
//!
//! A viewport is the point of its upper-left pixel and the distance between
//! neighbouring pixels. Zooming in shrinks that distance to `10/11` of itself
//! and moves the corner toward the centre; zooming out grows it to `11/10`
//! and moves the corner away. Panning moves the corner by a tenth of the
//! shorter side of the grid. Only a command whose result cannot be held in
//! fixed point is refused: a pixel whose point would not fit in an `i64`, or
//! a distance that would shrink to nothing or pass `i64::MAX`.
use vstd::prelude::*;
use crate::complex::Complex;
use crate::render::pixels_fit;

verus! {

/// Where the grid lies on the plane.
#[derive(Debug, PartialEq, Eq, Structural, Copy, Clone)]
pub struct Viewport {
    /// The point of the upper-left pixel.
    pub upper_left: Complex<i64>,
    /// The distance between neighbouring pixels.
    pub pixel_delta: i64,
}

/// A change of viewport.
#[derive(Debug, PartialEq, Eq, Structural, Copy, Clone)]
pub enum Command {
    ZoomIn,
    ZoomOut,
    PanUp,
    PanDown,
    PanLeft,
    PanRight,
}

/// The distance by which a pan moves: a tenth of the shorter side, in pixels,
/// times the pixel distance.
pub open spec fn pan_step(bounds: (usize, usize), delta: int) -> int {
    let shortest = if bounds.0 < bounds.1 { bounds.0 } else { bounds.1 };
    delta * (shortest / 10) as int
}

/// The pixel distance after a command.
pub open spec fn delta_after(command: Command, delta: int) -> int {
    match command {
        Command::ZoomIn => (delta * 10) / 11,
        Command::ZoomOut => (delta * 11) / 10,
        _ => delta,
    }
}

/// How far the upper-left point moves under a command.
pub open spec fn shift_of(command: Command, bounds: (usize, usize), delta: int) -> Complex<int> {
    let d = delta_after(command, delta);
    let step = pan_step(bounds, delta);
    match command {
        Command::ZoomIn => Complex { re: d * (bounds.0 / 18) as int, im: -(d * (bounds.1 / 18) as int) },
        Command::ZoomOut => Complex { re: -(d * (bounds.0 / 18) as int), im: d * (bounds.1 / 18) as int },
        Command::PanUp => Complex { re: 0, im: step },
        Command::PanDown => Complex { re: 0, im: -step },
        Command::PanLeft => Complex { re: -step, im: 0 },
        Command::PanRight => Complex { re: step, im: 0 },
    }
}

/// Whether a grid of `bounds` with this corner and pixel distance is not
/// empty and the point of each of its pixels fits in an `i64`.
pub open spec fn view_fits(bounds: (usize, usize), upper_left: Complex<int>, delta: int) -> bool {
    bounds.0 > 0 && bounds.1 > 0 && pixels_fit(bounds, upper_left, delta)
}

/// Whether a grid of `bounds` with this corner and pixel distance is not
/// empty and the point of each of its pixels fits in an `i64`, as `render`
/// asks.
pub fn viewport_fits(bounds: (usize, usize), upper_left: Complex<i64>, pixel_delta: i64) -> (r: bool)
    ensures
        r == view_fits(bounds, upper_left@, pixel_delta as int),
{
    if bounds.0 == 0 || bounds.1 == 0 {
        return false;
    }
    let re = upper_left.re as i128;
    let im = upper_left.im as i128;
    let delta = pixel_delta as i128;
    proof {
        lemma_wide_product(pixel_delta as int, (bounds.0 - 1) as int);
        lemma_wide_product(pixel_delta as int, (bounds.1 - 1) as int);
    }
    let far_re = re + delta * ((bounds.0 - 1) as i128);
    let far_im = im - delta * ((bounds.1 - 1) as i128);
    i64::MIN as i128 <= far_re && far_re <= i64::MAX as i128 && i64::MIN as i128 <= far_im && far_im
        <= i64::MAX as i128
}

/// The product of an `i64` and a `usize` leaves room in an `i128` for one
/// more `i64`.
proof fn lemma_wide_product(a: int, b: int)
    requires
        i64::MIN <= a <= i64::MAX,
        0 <= b <= usize::MAX,
    ensures
        -0x7fff_ffff_ffff_ffff_8000_0000_0000_0000 <= a * b <= 0x7fff_ffff_ffff_ffff_8000_0000_0000_0000,
{
    assert(-0x8000_0000_0000_0000 * 0xffff_ffff_ffff_ffff <= a * b <= 0x8000_0000_0000_0000
        * 0xffff_ffff_ffff_ffff) by (nonlinear_arith)
        requires
            -0x8000_0000_0000_0000 <= a <= 0x8000_0000_0000_0000,
            0 <= b <= 0xffff_ffff_ffff_ffff,
    ;
}

/// Applies `command` to a viewport on a grid of `bounds`. Gives `None`, and so
/// leaves the viewport to the caller as it was, when the pixel distance is not
/// positive before or after the move or passes `i64::MAX`, or when the point
/// of some pixel of the moved grid would not fit in an `i64`.
pub fn navigate(view: Viewport, command: Command, bounds: (usize, usize)) -> (r: Option<Viewport>)
    ensures
        ({
            let d = delta_after(command, view.pixel_delta as int);
            let corner = Complex {
                re: view.upper_left.re + shift_of(command, bounds, view.pixel_delta as int).re,
                im: view.upper_left.im + shift_of(command, bounds, view.pixel_delta as int).im,
            };
            &&& r is Some <==> view.pixel_delta > 0 && 0 < d <= i64::MAX && view_fits(bounds, corner, d)
            &&& r matches Some(v) ==> v.upper_left@ == corner && v.pixel_delta == d
        }),
{
    let delta = view.pixel_delta;
    if delta <= 0 {
        return None;
    }
    let ghost shift = shift_of(command, bounds, delta as int);
    let shortest = if bounds.0 < bounds.1 {
        bounds.0
    } else {
        bounds.1
    };
    let new_delta: i128 = match command {
        Command::ZoomIn => (delta as i128 * 10) / 11,
        Command::ZoomOut => (delta as i128 * 11) / 10,
        _ => delta as i128,
    };
    proof {
        lemma_zoom_bounds(delta as int);
        lemma_small_product(delta as int, (shortest / 10) as int);
        lemma_small_product(new_delta as int, (bounds.0 / 18) as int);
        lemma_small_product(new_delta as int, (bounds.1 / 18) as int);
    }
    let step = delta as i128 * (shortest / 10) as i128;
    let shift_re: i128 = match command {
        Command::ZoomIn => new_delta * (bounds.0 / 18) as i128,
        Command::ZoomOut => -(new_delta * (bounds.0 / 18) as i128),
        Command::PanLeft => -step,
        Command::PanRight => step,
        _ => 0,
    };
    let shift_im: i128 = match command {
        Command::ZoomIn => -(new_delta * (bounds.1 / 18) as i128),
        Command::ZoomOut => new_delta * (bounds.1 / 18) as i128,
        Command::PanUp => step,
        Command::PanDown => -step,
        _ => 0,
    };
    assert(shift_re == shift.re && shift_im == shift.im);
    if new_delta <= 0 || new_delta > i64::MAX as i128 {
        return None;
    }
    let re = view.upper_left.re as i128 + shift_re;
    let im = view.upper_left.im as i128 + shift_im;
    if re < i64::MIN as i128 || re > i64::MAX as i128 || im < i64::MIN as i128 || im > i64::MAX as i128 {
        return None;
    }
    let moved = Viewport { upper_left: Complex::new(re as i64, im as i64), pixel_delta: new_delta as i64 };
    if viewport_fits(bounds, moved.upper_left, moved.pixel_delta) {
        Some(moved)
    } else {
        None
    }
}

/// A zoom keeps a positive pixel distance within `2^64`.
proof fn lemma_zoom_bounds(delta: int)
    requires
        0 < delta <= i64::MAX,
    ensures
        0 <= (delta * 10) / 11 <= delta,
        0 <= (delta * 11) / 10 <= 2 * delta,
{
    vstd::arithmetic::div_mod::lemma_div_pos_is_pos(delta * 11, 10);
    vstd::arithmetic::div_mod::lemma_div_is_ordered(delta * 11, delta * 20, 10);
    vstd::arithmetic::div_mod::lemma_div_multiples_vanish(2 * delta, 10);
    vstd::arithmetic::div_mod::lemma_div_pos_is_pos(delta * 10, 11);
    vstd::arithmetic::div_mod::lemma_div_is_ordered(delta * 10, delta * 11, 11);
    vstd::arithmetic::div_mod::lemma_div_multiples_vanish(delta, 11);
}

/// A pixel distance below `2^64` times a tenth of a side stays far inside an
/// `i128`.
proof fn lemma_small_product(a: int, k: int)
    requires
        0 <= a <= 0x1_0000_0000_0000_0000,
        0 <= k <= usize::MAX / 10,
    ensures
        0 <= a * k <= 0x2000_0000_0000_0000_0000_0000_0000_0000,
{
    assert(0 <= a * k <= 0x1_0000_0000_0000_0000 * 0x1999_9999_9999_9999) by (nonlinear_arith)
        requires 0 <= a <= 0x1_0000_0000_0000_0000, 0 <= k <= 0x1999_9999_9999_9999;
}

} // verus!
