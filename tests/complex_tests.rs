use mandelbrot::complex::{Complex, ComplexError};

#[test]
fn add() {
    assert_eq!(
        Complex { re: 2, im: 3 } + Complex { re: 3, im: 2 },
        Complex { re: 5, im: 5 }
    );
}

#[test]
fn add_assign() {
    let mut t = Complex { re: 1, im: 1 };
    t += Complex { re: 2, im: 1 };
    assert_eq!(t, Complex { re: 3, im: 2 });
}

#[test]
fn sub() {
    assert_eq!(
        Complex { re: 5, im: 4 } - Complex { re: 2, im: 1 },
        Complex { re: 3, im: 3 }
    );
}

#[test]
fn sub_assign() {
    let mut t = Complex { re: 1, im: 1 };
    t -= Complex { re: 2, im: 1 };
    assert_eq!(t, Complex { re: -1, im: 0 });
}

#[test]
fn sign_formatting() {
    let negative_complex = Complex { re: 1, im: -2 };
    let negative_complex = negative_complex.to_string();

    assert_eq!(negative_complex, "1-2i".to_string());

    let identity = Complex::<i32>::identity();
    let identity = identity.to_string();

    assert_eq!(identity, "0+0i".to_string());
}

#[test]
fn formatting_of_larger_values() {
    assert_eq!(Complex::<i64>::new(-120, 3405).to_string(), "-120+3405i");
    assert_eq!(Complex::<i64>::new(i64::MIN, -7).to_string(), "-9223372036854775808-7i");
}

#[test]
fn add_commutes_and_sub_undoes_add() {
    let a = Complex::<i64>::new(17, -4);
    let b = Complex::<i64>::new(-250, 99);
    assert_eq!(a + b, b + a);
    assert_eq!((a + b) - b, a);
}

#[test]
fn mul_follows_the_product_rule() {
    let a = Complex::<i32>::new(1, 2);
    let b = Complex::<i32>::new(3, -4);
    assert_eq!(a * b, Complex { re: 11, im: 2 });
    assert_eq!(a * 3, Complex { re: 3, im: 6 });
    let mut c = a;
    c *= b;
    assert_eq!(c, Complex { re: 11, im: 2 });
}

#[test]
fn div_then_mul_gives_back_the_dividend() {
    let a = Complex::<i64>::new(11, 2);
    let b = Complex::<i64>::new(3, -4);
    let q = a.checked_div(b).unwrap();
    assert_eq!(q, Complex { re: 1, im: 2 });
    assert_eq!(q * b, a);
    assert_eq!(a / b, q);
}

#[test]
fn div_rounds_toward_zero() {
    let a = Complex::<i32>::new(-7, 7);
    let b = Complex::<i32>::new(2, 0);
    assert_eq!(a.checked_div(b), Ok(Complex { re: -3, im: 3 }));
}

#[test]
fn div_by_zero_fails() {
    let a = Complex::<i32>::new(1, 1);
    assert_eq!(
        a.checked_div(Complex::<i32>::identity()),
        Err(ComplexError::DivisionByZero)
    );
    let b = Complex::<i64>::new(0, 0);
    assert_eq!(
        Complex::<i64>::new(5, 0).checked_div(b),
        Err(ComplexError::DivisionByZero)
    );
}

#[test]
fn abs_squared_is_sum_of_squares() {
    assert_eq!(Complex::<i32>::new(3, -4).abs_squared(), 25);
    assert_eq!(Complex::<i64>::new(-6, 0).abs_squared(), 36);
    assert_eq!(Complex::<i64>::identity().abs_squared(), 0);
}

#[test]
fn transform_moves_in_place() {
    let mut z = Complex::<i64>::new(10, -10);
    z.transform(5, 7);
    assert_eq!(z, Complex { re: 15, im: -3 });
    z.transform_re(-15);
    assert_eq!(z, Complex { re: 0, im: -3 });
    z.transform_im(3);
    assert_eq!(z, Complex::<i64>::identity());
}

#[test]
fn div_assign_in_place() {
    let mut a = Complex::<i64>::new(11, 2);
    assert_eq!(a.checked_div_assign(Complex::new(3, -4)), Ok(()));
    assert_eq!(a, Complex { re: 1, im: 2 });
    let mut b = Complex::<i32>::new(7, -3);
    assert_eq!(
        b.checked_div_assign(Complex::<i32>::identity()),
        Err(ComplexError::DivisionByZero)
    );
    assert_eq!(b, Complex { re: 7, im: -3 });
}

#[test]
fn only_the_origin_divides_by_zero() {
    let a = Complex::<i64>::new(4, 6);
    assert!(a.checked_div(Complex::new(0, 1)).is_ok());
    assert!(a.checked_div(Complex::new(-1, 0)).is_ok());
    assert_eq!(a.checked_div(Complex::new(0, 0)), Err(ComplexError::DivisionByZero));
}
