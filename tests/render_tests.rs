use mandelbrot::color::{colorize, to_rgb};
use mandelbrot::complex::Complex;
use mandelbrot::fixed::SCALE;
use mandelbrot::member::{calculate, Membership};
use mandelbrot::render::{bands, map_membership, render, rows_per_band, RenderError};
use mandelbrot::viewport::pixel_to_point;

fn fx(x: f64) -> i64 {
    (x * SCALE as f64).round() as i64
}

fn check_partition(height: usize, threads: usize) {
    let upper_left = Complex::new(fx(-2.0), fx(1.0));
    let plan = bands((3, height), upper_left, fx(0.01), threads);
    let mut next = 0;
    for band in &plan {
        assert_eq!(band.top, next);
        assert!(band.height > 0);
        assert!(band.height <= rows_per_band(height, threads));
        assert_eq!(band.upper_left, pixel_to_point((3, height), (0, band.top), upper_left, fx(0.01)));
        next += band.height;
    }
    assert_eq!(next, height);
}

#[test]
fn bands_cover_every_row_once() {
    for height in [0usize, 1, 2, 7, 8, 9, 100, 101] {
        for threads in [1usize, 2, 3, 4, 8, 16] {
            check_partition(height, threads);
        }
    }
}

#[test]
fn band_sizes_for_uneven_split() {
    assert_eq!(rows_per_band(10, 4), 3);
    let plan = bands((1, 10), Complex::new(0, 0), 1, 4);
    let heights: Vec<usize> = plan.iter().map(|b| b.height).collect();
    assert_eq!(heights, vec![3, 3, 3, 1]);
    let plan = bands((1, 8), Complex::new(0, 0), 1, 4);
    let heights: Vec<usize> = plan.iter().map(|b| b.height).collect();
    assert_eq!(heights, vec![3, 3, 2]);
}

fn frame(bounds: (usize, usize), threads: usize) -> Vec<Membership> {
    let mut out = vec![Membership::No(0); bounds.0 * bounds.1];
    render(&mut out, bounds, Complex::new(fx(-1.95), fx(1.15)), fx(0.05), 64, threads).unwrap();
    out
}

#[test]
fn band_count_does_not_change_the_frame() {
    let bounds = (37, 23);
    let one = frame(bounds, 1);
    assert_eq!(one, frame(bounds, 8));
    assert_eq!(one, frame(bounds, 3));
    assert_eq!(one, frame(bounds, 64));
}

#[test]
fn frame_holds_each_pixel_membership() {
    let bounds = (5, 4);
    let upper_left = Complex::new(fx(-1.5), fx(1.0));
    let delta = fx(0.5);
    let mut out = vec![Membership::Yes; 20];
    render(&mut out, bounds, upper_left, delta, 100, 2).unwrap();
    for row in 0..4 {
        for column in 0..5 {
            let p = pixel_to_point(bounds, (column, row), upper_left, delta);
            assert_eq!(out[row * 5 + column], calculate(p, 100));
        }
    }
    let mut direct = vec![Membership::Yes; 20];
    map_membership(&mut direct, bounds, upper_left, delta, 100);
    assert_eq!(out, direct);
}

#[test]
fn render_rejects_wrong_buffer_sizes() {
    let upper_left = Complex::new(fx(-1.0), fx(1.0));
    let mut short = vec![Membership::Yes; 5];
    assert_eq!(
        render(&mut short, (3, 2), upper_left, fx(0.1), 10, 2),
        Err(RenderError::InvalidDimensions)
    );
    assert_eq!(short, vec![Membership::Yes; 5]);
    let mut empty: Vec<Membership> = Vec::new();
    assert_eq!(
        render(&mut empty, (0, 4), upper_left, fx(0.1), 10, 2),
        Err(RenderError::InvalidDimensions)
    );
}

#[test]
fn colors_of_the_ramp() {
    assert_eq!(colorize(Membership::Yes, 256), (0, 0, 0));
    assert_eq!(colorize(Membership::No(0), 256), (0, 0, 0));
    assert_eq!(colorize(Membership::No(64), 256), (128, 0, 0));
    assert_eq!(colorize(Membership::No(127), 256), (253, 0, 0));
    assert_eq!(colorize(Membership::No(128), 256), (255, 0, 0));
    assert_eq!(colorize(Membership::No(255), 256), (255, 253, 253));
    assert_ne!(colorize(Membership::No(0), 256), colorize(Membership::No(127), 256));
}

#[test]
fn odd_limit_has_no_red_seam_at_the_top() {
    // halfway is 128 for 255: the last count stays near white.
    assert_eq!(colorize(Membership::No(254), 255), (255, 251, 251));
    let mut previous = 0;
    for i in 128..255 {
        let (r, g, b) = colorize(Membership::No(i), 255);
        assert_eq!(r, 255);
        assert_eq!(g, b);
        assert!(g >= previous);
        previous = g;
    }
}

#[test]
fn rgb_buffer_has_three_bytes_per_pixel() {
    let memberships = vec![Membership::Yes, Membership::No(64), Membership::No(255)];
    let rgb = to_rgb(&memberships, 256);
    assert_eq!(rgb, vec![0, 0, 0, 128, 0, 0, 255, 253, 253]);
}
