use mandelbrot::complex::Complex;
use mandelbrot::fixed::SCALE;
use mandelbrot::viewport::{pixel_to_corner_point, pixel_to_point};

fn fx(x: f64) -> i64 {
    (x * SCALE as f64).round() as i64
}

fn to_float(v: i64) -> f64 {
    v as f64 / SCALE as f64
}

#[test]
fn corner_form_first_and_last_pixels() {
    let upper_left = Complex::new(fx(-1.0), fx(1.0));
    let lower_right = Complex::new(fx(1.0), fx(-1.0));
    let first = pixel_to_corner_point((100, 100), (0, 0), upper_left, lower_right);
    assert_eq!(first, upper_left);
    let last = pixel_to_corner_point((100, 100), (99, 99), upper_left, lower_right);
    assert!((to_float(last.re) - 0.98).abs() < 1e-9);
    assert!((to_float(last.im) + 0.98).abs() < 1e-9);
}

#[test]
fn corner_form_middle_pixel() {
    let upper_left = Complex::new(fx(-2.0), fx(1.0));
    let lower_right = Complex::new(fx(2.0), fx(-1.0));
    let middle = pixel_to_corner_point((4, 2), (2, 1), upper_left, lower_right);
    assert_eq!(middle, Complex::new(0, 0));
}

#[test]
fn delta_form_steps_right_and_down() {
    let upper_left = Complex::new(fx(-1.95), fx(1.15));
    let delta = fx(0.5);
    assert_eq!(pixel_to_point((800, 800), (0, 0), upper_left, delta), upper_left);
    let p = pixel_to_point((800, 800), (3, 2), upper_left, delta);
    assert_eq!(p, Complex::new(upper_left.re + 3 * delta, upper_left.im - 2 * delta));
}
