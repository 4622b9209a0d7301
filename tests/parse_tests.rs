use mandelbrot::complex::Complex;
use mandelbrot::fixed::SCALE;
use mandelbrot::decimal::parse_fixed;
use mandelbrot::parse::{parse_complex, parse_pair};

#[test]
fn pair_of_sizes() {
    assert_eq!(parse_pair("800x600", 'x'), Some((800, 600)));
    assert_eq!(parse_pair("+3x04", 'x'), Some((3, 4)));
    assert_eq!(parse_pair("10,20", ','), Some((10, 20)));
}

#[test]
fn pair_needs_two_unsigned_values() {
    assert_eq!(parse_pair("800", 'x'), None);
    assert_eq!(parse_pair("x600", 'x'), None);
    assert_eq!(parse_pair("800x", 'x'), None);
    assert_eq!(parse_pair("-8x6", 'x'), None);
    assert_eq!(parse_pair("8x6x2", 'x'), None);
    assert_eq!(parse_pair("8.5x6", 'x'), None);
    assert_eq!(parse_pair("99999999999999999999999x1", 'x'), None);
}

#[test]
fn decimals_in_fixed_point() {
    assert_eq!(parse_fixed("1"), Some(SCALE));
    assert_eq!(parse_fixed("-2.5"), Some(-5 * SCALE / 2));
    assert_eq!(parse_fixed("+0.25"), Some(SCALE / 4));
    assert_eq!(parse_fixed(".5"), Some(SCALE / 2));
    assert_eq!(parse_fixed("3."), Some(3 * SCALE));
    assert_eq!(parse_fixed("-1.95"), Some(-8375186227));
    assert_eq!(parse_fixed("0.1"), Some(429496729));
    assert_eq!(parse_fixed("-0.1"), Some(-429496729));
}

#[test]
fn malformed_or_huge_decimals_are_refused() {
    assert_eq!(parse_fixed(""), None);
    assert_eq!(parse_fixed("-"), None);
    assert_eq!(parse_fixed("."), None);
    assert_eq!(parse_fixed("1.2.3"), None);
    assert_eq!(parse_fixed("1e"), None);
    assert_eq!(parse_fixed("1e+"), None);
    assert_eq!(parse_fixed("e5"), None);
    assert_eq!(parse_fixed("1e5.0"), None);
    assert_eq!(parse_fixed("inf"), None);
    assert_eq!(parse_fixed("NaN"), None);
    assert_eq!(parse_fixed("3000000000"), None);
    assert_eq!(parse_fixed("-2147483648"), Some(i64::MIN));
    assert_eq!(parse_fixed("-2.147483648e9"), Some(i64::MIN));
    assert_eq!(parse_fixed("2147483648"), None);
    assert_eq!(parse_fixed("2147483648e0"), None);
    assert_eq!(parse_fixed("1e99999999999999999999999"), None);
}

#[test]
fn exponents_and_long_fractions() {
    assert_eq!(parse_fixed("1e5"), Some(100000 * SCALE));
    assert_eq!(parse_fixed("1e-3"), Some(4294967));
    assert_eq!(parse_fixed("+2.5E2"), Some(1073741824000));
    assert_eq!(parse_fixed("-0.000001e3"), Some(-4294967));
    assert_eq!(parse_fixed("0.1234567890123456789"), Some(530242871));
    assert_eq!(
        parse_fixed("3.14159265358979323846264338327950288419716939937510"),
        Some(13493037704)
    );
    assert_eq!(parse_fixed("0e99999999999999999999999"), Some(0));
    assert_eq!(parse_fixed("5e-99999999999999999999999"), Some(0));
    assert_eq!(parse_fixed("-5e-30"), Some(0));
    assert_eq!(parse_fixed("123456e-5"), parse_fixed("1.23456"));
}

#[test]
fn complex_from_text() {
    assert_eq!(
        parse_complex("-1.95,1.15"),
        Some(Complex::new(-8375186227, 4939212390))
    );
    assert_eq!(parse_complex("800x800"), None);
    assert_eq!(parse_complex("1,"), None);
    assert_eq!(
        parse_complex("-1.95e0,115e-2"),
        Some(Complex::new(-8375186227, 4939212390))
    );
}
