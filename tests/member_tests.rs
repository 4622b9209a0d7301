use mandelbrot::complex::Complex;
use mandelbrot::fixed::{mul_fixed, SCALE};
use mandelbrot::member::{calculate, Membership};

fn fx(x: f64) -> i64 {
    (x * SCALE as f64).round() as i64
}

fn point(re: f64, im: f64) -> Complex<i64> {
    Complex::new(fx(re), fx(im))
}

#[test]
fn fixed_product() {
    assert_eq!(mul_fixed(fx(1.5), fx(2.0)), fx(3.0));
    assert_eq!(mul_fixed(fx(-0.5), fx(0.5)), fx(-0.25));
    // 3 · 3 units is 9 / SCALE units: rounded toward zero.
    assert_eq!(mul_fixed(3, 3), 0);
    assert_eq!(mul_fixed(-3, 3), 0);
}

#[test]
fn origin_is_in_the_set() {
    for limit in [0u32, 1, 2, 10, 256, 1000] {
        assert_eq!(calculate(point(0.0, 0.0), limit), Membership::Yes);
    }
}

#[test]
fn two_escapes_after_one_step() {
    // |2|² = 4 is not above 4, so the seed itself stays; 2² + 2 = 6 escapes.
    assert_eq!(calculate(point(2.0, 0.0), 256), Membership::No(1));
    assert_eq!(calculate(point(3.0, 0.0), 256), Membership::No(0));
    assert_eq!(calculate(point(0.0, 2.5), 256), Membership::No(0));
}

#[test]
fn escape_count_does_not_depend_on_a_larger_limit() {
    let c = point(-0.75, 0.1);
    let small = calculate(c, 50);
    let large = calculate(c, 1000);
    match small {
        Membership::No(i) => {
            assert_eq!(i, 32);
            assert_eq!(large, Membership::No(i));
        }
        Membership::Yes => panic!("-0.75+0.1i escapes within 50 steps"),
    }
}

#[test]
fn far_points_escape_at_once() {
    assert_eq!(calculate(Complex::new(i64::MAX, 0), 256), Membership::No(0));
    assert_eq!(calculate(Complex::new(0, i64::MIN), 256), Membership::No(0));
    assert_eq!(calculate(point(-1000.0, 0.5), 1), Membership::No(0));
    assert_eq!(calculate(point(4.5, 0.0), 0), Membership::Yes);
}

#[test]
fn limit_zero_looks_at_nothing() {
    assert_eq!(calculate(point(3.0, 0.0), 0), Membership::Yes);
}

#[test]
fn known_members_stay_in_the_set() {
    assert_eq!(calculate(point(-1.0, 0.0), 256), Membership::Yes);
    assert_eq!(calculate(point(-0.5, 0.5), 256), Membership::Yes);
    assert_eq!(calculate(point(0.25, 0.0), 256), Membership::Yes);
}

#[test]
fn known_outsiders_escape() {
    assert!(matches!(calculate(point(0.5, 0.5), 256), Membership::No(_)));
    assert!(matches!(calculate(point(-2.1, 0.0), 256), Membership::No(_)));
}
