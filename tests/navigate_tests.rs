use mandelbrot::complex::Complex;
use mandelbrot::fixed::SCALE;
use mandelbrot::navigate::{navigate, viewport_fits, Command, Viewport};

fn start() -> Viewport {
    Viewport {
        upper_left: Complex::new(-2 * SCALE, SCALE),
        pixel_delta: 1000,
    }
}

#[test]
fn pans_move_by_a_tenth_of_the_shorter_side() {
    let bounds = (800, 600);
    let step = 1000 * 60;
    let v = start();
    let up = navigate(v, Command::PanUp, bounds).unwrap();
    assert_eq!(up.upper_left, Complex::new(-2 * SCALE, SCALE + step));
    assert_eq!(up.pixel_delta, 1000);
    let down = navigate(v, Command::PanDown, bounds).unwrap();
    assert_eq!(down.upper_left, Complex::new(-2 * SCALE, SCALE - step));
    let left = navigate(v, Command::PanLeft, bounds).unwrap();
    assert_eq!(left.upper_left, Complex::new(-2 * SCALE - step, SCALE));
    let right = navigate(v, Command::PanRight, bounds).unwrap();
    assert_eq!(right.upper_left, Complex::new(-2 * SCALE + step, SCALE));
}

#[test]
fn zooms_scale_the_pixel_distance() {
    let bounds = (800, 600);
    let v = start();
    let zoomed_in = navigate(v, Command::ZoomIn, bounds).unwrap();
    assert_eq!(zoomed_in.pixel_delta, 909);
    assert_eq!(
        zoomed_in.upper_left,
        Complex::new(-2 * SCALE + 909 * 44, SCALE - 909 * 33)
    );
    let zoomed_out = navigate(v, Command::ZoomOut, bounds).unwrap();
    assert_eq!(zoomed_out.pixel_delta, 1100);
    assert_eq!(
        zoomed_out.upper_left,
        Complex::new(-2 * SCALE - 1100 * 44, SCALE + 1100 * 33)
    );
}

#[test]
fn moves_far_from_the_origin_are_kept() {
    let bounds = (100, 100);
    let far = Viewport {
        upper_left: Complex::new(-256 * SCALE, 0),
        pixel_delta: SCALE,
    };
    let left = navigate(far, Command::PanLeft, bounds).unwrap();
    assert_eq!(left.upper_left, Complex::new(-266 * SCALE, 0));
}

#[test]
fn moves_past_the_fixed_point_range_are_refused() {
    let bounds = (100, 100);
    let edge = Viewport {
        upper_left: Complex::new(i64::MIN + 5, 0),
        pixel_delta: 1,
    };
    assert!(viewport_fits(bounds, edge.upper_left, edge.pixel_delta));
    assert_eq!(navigate(edge, Command::PanLeft, bounds), None);
    let low = Viewport {
        upper_left: Complex::new(0, i64::MIN + 105),
        pixel_delta: 1,
    };
    assert_eq!(navigate(low, Command::PanRight, bounds).map(|v| v.upper_left.re), Some(10));
    assert_eq!(navigate(low, Command::PanDown, bounds), None);
    let tiny = Viewport {
        upper_left: Complex::new(0, 0),
        pixel_delta: 1,
    };
    assert_eq!(navigate(tiny, Command::ZoomIn, bounds), None);
    let negative = Viewport {
        upper_left: Complex::new(0, 0),
        pixel_delta: -5,
    };
    assert_eq!(navigate(negative, Command::PanUp, bounds), None);
}

#[test]
fn viewport_fit_checks_both_corners() {
    assert!(viewport_fits((10, 10), Complex::new(0, 0), SCALE));
    assert!(viewport_fits((300, 10), Complex::new(0, 0), SCALE));
    assert!(!viewport_fits((10, 10), Complex::new(i64::MAX - 5, 0), 1));
    assert!(!viewport_fits((10, 10), Complex::new(0, i64::MIN + 5), 1));
    assert!(!viewport_fits((0, 10), Complex::new(0, 0), SCALE));
    assert!(viewport_fits((10, 10), Complex::new(257 * SCALE, 0), 1));
}
