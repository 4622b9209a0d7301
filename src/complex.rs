//! Complex numbers over integer scalars.
//!
//! Each concrete scalar type views its values as `Complex<int>`, and every
//! operation is specified by one of the spec functions below on that view.
use vstd::prelude::*;

verus! {

/// A complex number `re + im·i`.
#[derive(Debug, PartialEq, Eq, Structural, Copy, Clone)]
pub struct Complex<T> {
    /// The real component
    pub re: T,
    /// The imaginary component
    pub im: T,
}

/// Why a complex operation could not produce a value.
#[derive(Debug, PartialEq, Eq, Structural, Copy, Clone)]
pub enum ComplexError {
    /// The divisor has squared magnitude zero.
    DivisionByZero,
}

/// Component-wise sum.
pub open spec fn plus(a: Complex<int>, b: Complex<int>) -> Complex<int> {
    Complex { re: a.re + b.re, im: a.im + b.im }
}

/// Component-wise difference.
pub open spec fn minus(a: Complex<int>, b: Complex<int>) -> Complex<int> {
    Complex { re: a.re - b.re, im: a.im - b.im }
}

/// `(a + bi)(c + di) = (ac − bd) + (ad + bc)i`.
pub open spec fn times(a: Complex<int>, b: Complex<int>) -> Complex<int> {
    Complex { re: a.re * b.re - a.im * b.im, im: a.re * b.im + a.im * b.re }
}

/// Both components multiplied by the scalar `k`.
pub open spec fn scale(a: Complex<int>, k: int) -> Complex<int> {
    Complex { re: a.re * k, im: a.im * k }
}

/// `re² + im²`.
pub open spec fn norm_sq(a: Complex<int>) -> int {
    a.re * a.re + a.im * a.im
}

/// Integer division rounding toward zero, as Rust's `/` does.
pub open spec fn trunc_div(x: int, d: int) -> int {
    if x >= 0 {
        x / d
    } else {
        -((-x) / d)
    }
}

/// `(a + bi) / (c + di) = ((ac + bd) + (bc − ad)i) / (c² + d²)`, each
/// component rounded toward zero.
pub open spec fn over(a: Complex<int>, b: Complex<int>) -> Complex<int> {
    Complex {
        re: trunc_div(a.re * b.re + a.im * b.im, norm_sq(b)),
        im: trunc_div(a.im * b.re - a.re * b.im, norm_sq(b)),
    }
}

impl<T> Complex<T> {
    pub fn new(re: T, im: T) -> (r: Complex<T>)
        ensures
            r.re == re,
            r.im == im,
    {
        Complex { re, im }
    }
}

/// The character of a decimal digit.
pub open spec fn digit_char(d: nat) -> char {
    if d == 0 {
        '0'
    } else if d == 1 {
        '1'
    } else if d == 2 {
        '2'
    } else if d == 3 {
        '3'
    } else if d == 4 {
        '4'
    } else if d == 5 {
        '5'
    } else if d == 6 {
        '6'
    } else if d == 7 {
        '7'
    } else if d == 8 {
        '8'
    } else {
        '9'
    }
}

/// The digit characters of a natural number, most significant first.
pub open spec fn digits_of(n: nat) -> Seq<char>
    decreases n,
{
    if n < 10 {
        seq![digit_char(n)]
    } else {
        digits_of(n / 10).push(digit_char(n % 10))
    }
}

/// The text of one decimal digit.
fn digit_text(d: u64) -> (r: &'static str)
    requires
        d < 10,
    ensures
        r@ == seq![digit_char(d as nat)],
{
    proof {
        reveal_strlit("0");
        reveal_strlit("1");
        reveal_strlit("2");
        reveal_strlit("3");
        reveal_strlit("4");
        reveal_strlit("5");
        reveal_strlit("6");
        reveal_strlit("7");
        reveal_strlit("8");
        reveal_strlit("9");
    }
    if d == 0 {
        "0"
    } else if d == 1 {
        "1"
    } else if d == 2 {
        "2"
    } else if d == 3 {
        "3"
    } else if d == 4 {
        "4"
    } else if d == 5 {
        "5"
    } else if d == 6 {
        "6"
    } else if d == 7 {
        "7"
    } else if d == 8 {
        "8"
    } else {
        "9"
    }
}

/// The characters of the digits `v`, from the last to the first.
spec fn reversed_digits(v: Seq<u64>) -> Seq<char>
    decreases v.len(),
{
    if v.len() == 0 {
        seq![]
    } else {
        seq![digit_char(v.last() as nat)] + reversed_digits(v.drop_last())
    }
}

proof fn lemma_reversed_prepend(a: u64, v: Seq<u64>)
    ensures
        reversed_digits(seq![a] + v) == reversed_digits(v) + seq![digit_char(a as nat)],
    decreases v.len(),
{
    if v.len() == 0 {
        assert(seq![a] + v =~= seq![a]);
        assert(seq![a].drop_last() =~= Seq::<u64>::empty());
        assert(reversed_digits(seq![a]) =~= seq![digit_char(a as nat)] + reversed_digits(Seq::<u64>::empty()));
        assert(reversed_digits(v) + seq![digit_char(a as nat)] =~= seq![digit_char(a as nat)]);
    } else {
        lemma_reversed_prepend(a, v.drop_last());
        assert((seq![a] + v).drop_last() =~= seq![a] + v.drop_last());
        assert((seq![a] + v).last() == v.last());
        assert(reversed_digits(seq![a] + v) =~= seq![digit_char(v.last() as nat)] + (reversed_digits(
            v.drop_last(),
        ) + seq![digit_char(a as nat)]));
    }
}

/// The decimal text of `x`: its digits, with a leading `-` when it is
/// negative.
fn decimal(x: i64) -> (r: String)
    ensures
        r@ == decimal_of(x as int),
{
    let magnitude: u64 = if x < 0 {
        (-(x as i128)) as u64
    } else {
        x as u64
    };
    let ghost n = magnitude as nat;
    // The digits below the leading one, least significant first.
    let mut low: Vec<u64> = Vec::new();
    let mut m: u64 = magnitude;
    while m >= 10
        invariant
            digits_of(n) == digits_of(m as nat) + reversed_digits(low@),
            forall|i: int| 0 <= i < low@.len() ==> low@[i] < 10,
        decreases m,
    {
        let ghost before = low@;
        low.push(m % 10);
        proof {
            assert(low@.drop_last() =~= before);
            assert(digits_of(m as nat) == digits_of((m / 10) as nat).push(digit_char((m % 10) as nat)));
            assert(digits_of(m as nat) + reversed_digits(before) =~= digits_of((m / 10) as nat)
                + reversed_digits(low@));
        }
        m = m / 10;
    }
    let mut s = String::new();
    if x < 0 {
        s.append("-");
    }
    s.append(digit_text(m));
    let ghost head = s@;
    proof {
        reveal_strlit("-");
        assert(digits_of(m as nat) == seq![digit_char(m as nat)]);
    }
    let mut i: usize = low.len();
    proof {
        assert(low@.subrange(low@.len() as int, low@.len() as int) =~= Seq::<u64>::empty());
        assert(s@ =~= head + reversed_digits(Seq::<u64>::empty()));
    }
    while i > 0
        invariant
            i <= low@.len(),
            forall|k: int| 0 <= k < low@.len() ==> low@[k] < 10,
            s@ == head + reversed_digits(low@.subrange(i as int, low@.len() as int)),
        decreases i,
    {
        let ghost done = low@.subrange(i as int, low@.len() as int);
        s.append(digit_text(low[i - 1]));
        i = i - 1;
        proof {
            lemma_reversed_prepend(low@[i as int], done);
            assert(seq![low@[i as int]] + done =~= low@.subrange(i as int, low@.len() as int));
            assert(s@ =~= head + reversed_digits(low@.subrange(i as int, low@.len() as int)));
        }
    }
    proof {
        assert(low@.subrange(0, low@.len() as int) =~= low@);
        assert(s@ =~= decimal_of(x as int));
    }
    s
}

/// The decimal text of an integer.
pub open spec fn decimal_of(x: int) -> Seq<char> {
    if x < 0 {
        seq!['-'].add(digits_of((-x) as nat))
    } else {
        digits_of(x as nat)
    }
}

/// The text `re`, then `+` when `im` is not negative, then `im` and `i`.
pub open spec fn text_of(z: Complex<int>) -> Seq<char> {
    decimal_of(z.re) + (if z.im >= 0 { seq!['+'] } else { seq![] }) + decimal_of(z.im) + seq!['i']
}

/// An integer scalar that widens to `i64` without loss.
pub trait Scalar: Copy {
    /// The value as a mathematical integer.
    spec fn as_int(&self) -> int;

    fn widen(&self) -> (r: i64)
        ensures
            r == self.as_int(),
    ;
}

impl Scalar for i32 {
    open spec fn as_int(&self) -> int {
        *self as int
    }

    fn widen(&self) -> (r: i64) {
        *self as i64
    }
}

impl Scalar for i64 {
    open spec fn as_int(&self) -> int {
        *self as int
    }

    fn widen(&self) -> (r: i64) {
        *self
    }
}

impl<T: Scalar> Complex<T> {
    /// The text `re±imi`, as in `1-2i` or `0+0i`.
    pub fn to_string(&self) -> (r: String)
        ensures
            r@ == text_of(Complex { re: self.re.as_int(), im: self.im.as_int() }),
    {
        let re = self.re.widen();
        let im = self.im.widen();
        let mut s = decimal(re);
        if im >= 0 {
            s.append("+");
        }
        let im_text = decimal(im);
        s.append(im_text.as_str());
        s.append("i");
        proof {
            reveal_strlit("+");
            reveal_strlit("i");
            assert(s@ =~= text_of(Complex { re: self.re.as_int(), im: self.im.as_int() }));
        }
        s
    }
}

/// Addition commutes.
pub proof fn lemma_add_commutes(a: Complex<int>, b: Complex<int>)
    ensures
        plus(a, b) == plus(b, a),
{
}

/// Subtracting what was added gives back the first operand.
pub proof fn lemma_add_then_sub(a: Complex<int>, b: Complex<int>)
    ensures
        minus(plus(a, b), b) == a,
{
}

/// The squared magnitude is zero exactly at `0 + 0i`, so division fails
/// exactly for that divisor.
pub proof fn lemma_norm_sq_zero(z: Complex<int>)
    ensures
        norm_sq(z) == 0 <==> z.re == 0 && z.im == 0,
{
    assert(z.re * z.re >= 0 && z.im * z.im >= 0) by (nonlinear_arith);
    assert(z.re * z.re == 0 ==> z.re == 0) by (nonlinear_arith);
    assert(z.im * z.im == 0 ==> z.im == 0) by (nonlinear_arith);
}

/// A division with no remainder in either component, multiplied back by the
/// divisor, gives the dividend.
pub proof fn lemma_exact_div_then_mul(a: Complex<int>, b: Complex<int>)
    requires
        norm_sq(b) != 0,
        (a.re * b.re + a.im * b.im) % norm_sq(b) == 0,
        (a.im * b.re - a.re * b.im) % norm_sq(b) == 0,
    ensures
        times(over(a, b), b) == a,
{
    let m = norm_sq(b);
    let x = a.re * b.re + a.im * b.im;
    let y = a.im * b.re - a.re * b.im;
    lemma_norm_sq_nonneg(b);
    lemma_exact_trunc_div(x, m);
    lemma_exact_trunc_div(y, m);
    let q = over(a, b);
    assert(q.re * m == x && q.im * m == y);
    assert(times(q, b).re * m == a.re * m) by (nonlinear_arith)
        requires q.re * m == x, q.im * m == y, x == a.re * b.re + a.im * b.im,
            y == a.im * b.re - a.re * b.im, m == b.re * b.re + b.im * b.im,
            times(q, b).re == q.re * b.re - q.im * b.im;
    assert(times(q, b).im * m == a.im * m) by (nonlinear_arith)
        requires q.re * m == x, q.im * m == y, x == a.re * b.re + a.im * b.im,
            y == a.im * b.re - a.re * b.im, m == b.re * b.re + b.im * b.im,
            times(q, b).im == q.re * b.im + q.im * b.re;
    lemma_cancel(times(q, b).re, a.re, m);
    lemma_cancel(times(q, b).im, a.im, m);
}

proof fn lemma_exact_trunc_div(x: int, m: int)
    requires
        m > 0,
        x % m == 0,
    ensures
        trunc_div(x, m) * m == x,
{
    vstd::arithmetic::div_mod::lemma_fundamental_div_mod(x, m);
    let k = x / m;
    assert(x == m * k);
    if x < 0 {
        assert(-x == m * (-k)) by (nonlinear_arith)
            requires x == m * k;
        vstd::arithmetic::div_mod::lemma_div_multiples_vanish(-k, m);
        assert((-x) / m == -k);
        assert(trunc_div(x, m) == k);
    }
    assert(k * m == x) by (nonlinear_arith)
        requires x == m * k;
}

/// Rounding toward zero never moves a quotient past its dividend.
proof fn lemma_trunc_div_bound(x: int, m: int)
    requires
        m > 0,
    ensures
        0 <= x ==> 0 <= trunc_div(x, m) <= x,
        x < 0 ==> x <= trunc_div(x, m) <= 0,
{
    let y = if x >= 0 { x } else { -x };
    vstd::arithmetic::div_mod::lemma_fundamental_div_mod(y, m);
    let q = y / m;
    let r = y % m;
    assert(0 <= q <= y) by (nonlinear_arith)
        requires y >= 0, m > 0, y == m * q + r, 0 <= r < m;
}

/// The squared magnitude is never negative.
proof fn lemma_norm_sq_nonneg(z: Complex<int>)
    ensures
        norm_sq(z) >= 0,
{
    assert(z.re * z.re >= 0 && z.im * z.im >= 0) by (nonlinear_arith);
}

proof fn lemma_cancel(p: int, q: int, m: int)
    requires
        m > 0,
        p * m == q * m,
    ensures
        p == q,
{
    assert(p == q) by (nonlinear_arith)
        requires m > 0, p * m == q * m;
}

impl View for Complex<i32> {
    type V = Complex<int>;

    open spec fn view(&self) -> Complex<int> {
        Complex { re: self.re as int, im: self.im as int }
    }
}

/// Whether `x` is a value of `i32`.
pub open spec fn in_i32(x: int) -> bool {
    i32::MIN <= x <= i32::MAX
}

/// Whether both components are values of `i32`.
pub open spec fn fits_i32(z: Complex<int>) -> bool {
    in_i32(z.re) && in_i32(z.im)
}

/// Whether every partial product of `a · b` is a value of `i32`.
pub open spec fn mul_fits_i32(a: Complex<int>, b: Complex<int>) -> bool {
    &&& in_i32(a.re * b.re)
    &&& in_i32(a.im * b.im)
    &&& in_i32(a.re * b.im)
    &&& in_i32(a.im * b.re)
    &&& fits_i32(times(a, b))
}

/// Whether every intermediate value of `a / b` is a value of `i32`.
pub open spec fn div_fits_i32(a: Complex<int>, b: Complex<int>) -> bool {
    &&& in_i32(b.re * b.re)
    &&& in_i32(b.im * b.im)
    &&& in_i32(norm_sq(b))
    &&& in_i32(a.re * b.re)
    &&& in_i32(a.im * b.im)
    &&& in_i32(a.re * b.re + a.im * b.im)
    &&& in_i32(a.im * b.re)
    &&& in_i32(a.re * b.im)
    &&& in_i32(a.im * b.re - a.re * b.im)
}

impl Complex<i32> {
    /// The additive identity `0 + 0i`.
    pub fn identity() -> (r: Complex<i32>)
        ensures
            r@ == (Complex::<int> { re: 0, im: 0 }),
    {
        Complex { re: 0, im: 0 }
    }

    /// `re² + im²`, without the square root.
    pub fn abs_squared(&self) -> (r: i32)
        requires
            in_i32(self.re * self.re),
            in_i32(self.im * self.im),
            in_i32(norm_sq(self@)),
        ensures
            r == norm_sq(self@),
    {
        self.re * self.re + self.im * self.im
    }

    /// Moves the number by `re + im·i` in place.
    pub fn transform(&mut self, re: i32, im: i32)
        requires
            fits_i32(plus(old(self)@, Complex { re: re as int, im: im as int })),
        ensures
            final(self)@ == plus(old(self)@, Complex { re: re as int, im: im as int }),
    {
        self.re = self.re + re;
        self.im = self.im + im;
    }

    /// Moves the real component by `re` in place.
    pub fn transform_re(&mut self, re: i32)
        requires
            in_i32(old(self).re + re),
        ensures
            final(self).re == old(self).re + re,
            final(self).im == old(self).im,
    {
        self.re = self.re + re;
    }

    /// Moves the imaginary component by `im` in place.
    pub fn transform_im(&mut self, im: i32)
        requires
            in_i32(old(self).im + im),
        ensures
            final(self).re == old(self).re,
            final(self).im == old(self).im + im,
    {
        self.im = self.im + im;
    }

    /// The quotient `self / other`, or `DivisionByZero` exactly when the
    /// divisor is `0 + 0i`.
    pub fn checked_div(self, other: Complex<i32>) -> (r: Result<Complex<i32>, ComplexError>)
        requires
            div_fits_i32(self@, other@),
        ensures
            r is Err <==> norm_sq(other@) == 0,
            r is Err ==> r == Err::<Complex<i32>, ComplexError>(ComplexError::DivisionByZero),
            r matches Ok(q) ==> q@ == over(self@, other@),
    {
        let divisor = other.re * other.re + other.im * other.im;
        if divisor == 0 {
            Err(ComplexError::DivisionByZero)
        } else {
            proof {
                lemma_norm_sq_nonneg(other@);
                lemma_trunc_div_bound(self.re * other.re + self.im * other.im, divisor as int);
                lemma_trunc_div_bound(self.im * other.re - self.re * other.im, divisor as int);
            }
            Ok(self / other)
        }
    }

    /// Divides in place by `other`. Fails with `DivisionByZero`, leaving the
    /// number as it was, exactly when the divisor is `0 + 0i`.
    pub fn checked_div_assign(&mut self, other: Complex<i32>) -> (r: Result<(), ComplexError>)
        requires
            div_fits_i32(old(self)@, other@),
        ensures
            r is Err <==> norm_sq(other@) == 0,
            r is Err ==> r == Err::<(), ComplexError>(ComplexError::DivisionByZero) && *final(self)
                == *old(self),
            r is Ok ==> final(self)@ == over(old(self)@, other@),
    {
        match self.checked_div(other) {
            Ok(q) => {
                *self = q;
                Ok(())
            },
            Err(e) => Err(e),
        }
    }
}

impl std::ops::Add for Complex<i32> {
    type Output = Self;

    fn add(self, other: Self) -> (r: Self) {
        Complex { re: self.re + other.re, im: self.im + other.im }
    }
}

impl vstd::std_specs::ops::AddSpecImpl for Complex<i32> {
    open spec fn obeys_add_spec() -> bool {
        true
    }

    open spec fn add_req(self, other: Self) -> bool {
        fits_i32(plus(self@, other@))
    }

    open spec fn add_spec(self, other: Self) -> Self {
        Complex { re: (self.re + other.re) as i32, im: (self.im + other.im) as i32 }
    }
}

impl std::ops::Sub for Complex<i32> {
    type Output = Self;

    fn sub(self, other: Self) -> (r: Self) {
        Complex { re: self.re - other.re, im: self.im - other.im }
    }
}

impl vstd::std_specs::ops::SubSpecImpl for Complex<i32> {
    open spec fn obeys_sub_spec() -> bool {
        true
    }

    open spec fn sub_req(self, other: Self) -> bool {
        fits_i32(minus(self@, other@))
    }

    open spec fn sub_spec(self, other: Self) -> Self {
        Complex { re: (self.re - other.re) as i32, im: (self.im - other.im) as i32 }
    }
}

impl std::ops::Mul for Complex<i32> {
    type Output = Self;

    fn mul(self, other: Self) -> (r: Self) {
        Complex {
            re: self.re * other.re - self.im * other.im,
            im: self.re * other.im + self.im * other.re,
        }
    }
}

impl vstd::std_specs::ops::MulSpecImpl for Complex<i32> {
    open spec fn obeys_mul_spec() -> bool {
        true
    }

    open spec fn mul_req(self, other: Self) -> bool {
        mul_fits_i32(self@, other@)
    }

    open spec fn mul_spec(self, other: Self) -> Self {
        Complex {
            re: (self.re * other.re - self.im * other.im) as i32,
            im: (self.re * other.im + self.im * other.re) as i32,
        }
    }
}

impl std::ops::Mul<i32> for Complex<i32> {
    type Output = Self;

    fn mul(self, k: i32) -> (r: Self) {
        Complex { re: self.re * k, im: self.im * k }
    }
}

impl vstd::std_specs::ops::MulSpecImpl<i32> for Complex<i32> {
    open spec fn obeys_mul_spec() -> bool {
        true
    }

    open spec fn mul_req(self, k: i32) -> bool {
        fits_i32(scale(self@, k as int))
    }

    open spec fn mul_spec(self, k: i32) -> Self {
        Complex { re: (self.re * k) as i32, im: (self.im * k) as i32 }
    }
}

impl std::ops::Div for Complex<i32> {
    type Output = Self;

    fn div(self, other: Self) -> (r: Self) {
        let a = self.re;
        let b = self.im;
        let c = other.re;
        let d = other.im;

        let divisor = c * c + d * d;
        proof {
            lemma_norm_sq_nonneg(other@);
            lemma_trunc_div_bound(a * c + b * d, divisor as int);
            lemma_trunc_div_bound(b * c - a * d, divisor as int);
        }

        let re = (a * c + b * d) / divisor;
        let im = (b * c - a * d) / divisor;

        Complex { re, im }
    }
}

impl vstd::std_specs::ops::DivSpecImpl for Complex<i32> {
    open spec fn obeys_div_spec() -> bool {
        true
    }

    open spec fn div_req(self, other: Self) -> bool {
        norm_sq(other@) != 0 && div_fits_i32(self@, other@)
    }

    open spec fn div_spec(self, other: Self) -> Self {
        Complex { re: over(self@, other@).re as i32, im: over(self@, other@).im as i32 }
    }
}

/// Wraps around on overflow, as the plain operator does in release builds.
impl std::ops::AddAssign for Complex<i32> {
    fn add_assign(&mut self, other: Self)
        ensures
            final(self).re == old(self).re.wrapping_add(other.re),
            final(self).im == old(self).im.wrapping_add(other.im),
    {
        self.re = self.re.wrapping_add(other.re);
        self.im = self.im.wrapping_add(other.im);
    }
}

/// Wraps around on overflow, as the plain operator does in release builds.
impl std::ops::SubAssign for Complex<i32> {
    fn sub_assign(&mut self, other: Self)
        ensures
            final(self).re == old(self).re.wrapping_sub(other.re),
            final(self).im == old(self).im.wrapping_sub(other.im),
    {
        self.re = self.re.wrapping_sub(other.re);
        self.im = self.im.wrapping_sub(other.im);
    }
}

/// Wraps around on overflow, as the plain operator does in release builds.
impl std::ops::MulAssign for Complex<i32> {
    fn mul_assign(&mut self, other: Self)
        ensures
            mul_fits_i32(old(self)@, other@) ==> final(self)@ == times(old(self)@, other@),
    {
        let re = self.re.wrapping_mul(other.re).wrapping_sub(self.im.wrapping_mul(other.im));
        let im = self.re.wrapping_mul(other.im).wrapping_add(self.im.wrapping_mul(other.re));
        *self = Complex { re, im };
    }
}

impl View for Complex<i64> {
    type V = Complex<int>;

    open spec fn view(&self) -> Complex<int> {
        Complex { re: self.re as int, im: self.im as int }
    }
}

/// Whether `x` is a value of `i64`.
pub open spec fn in_i64(x: int) -> bool {
    i64::MIN <= x <= i64::MAX
}

/// Whether both components are values of `i64`.
pub open spec fn fits_i64(z: Complex<int>) -> bool {
    in_i64(z.re) && in_i64(z.im)
}

/// Whether every partial product of `a · b` is a value of `i64`.
pub open spec fn mul_fits_i64(a: Complex<int>, b: Complex<int>) -> bool {
    &&& in_i64(a.re * b.re)
    &&& in_i64(a.im * b.im)
    &&& in_i64(a.re * b.im)
    &&& in_i64(a.im * b.re)
    &&& fits_i64(times(a, b))
}

/// Whether every intermediate value of `a / b` is a value of `i64`.
pub open spec fn div_fits_i64(a: Complex<int>, b: Complex<int>) -> bool {
    &&& in_i64(b.re * b.re)
    &&& in_i64(b.im * b.im)
    &&& in_i64(norm_sq(b))
    &&& in_i64(a.re * b.re)
    &&& in_i64(a.im * b.im)
    &&& in_i64(a.re * b.re + a.im * b.im)
    &&& in_i64(a.im * b.re)
    &&& in_i64(a.re * b.im)
    &&& in_i64(a.im * b.re - a.re * b.im)
}

impl Complex<i64> {
    /// The additive identity `0 + 0i`.
    pub fn identity() -> (r: Complex<i64>)
        ensures
            r@ == (Complex::<int> { re: 0, im: 0 }),
    {
        Complex { re: 0, im: 0 }
    }

    /// `re² + im²`, without the square root.
    pub fn abs_squared(&self) -> (r: i64)
        requires
            in_i64(self.re * self.re),
            in_i64(self.im * self.im),
            in_i64(norm_sq(self@)),
        ensures
            r == norm_sq(self@),
    {
        self.re * self.re + self.im * self.im
    }

    /// Moves the number by `re + im·i` in place.
    pub fn transform(&mut self, re: i64, im: i64)
        requires
            fits_i64(plus(old(self)@, Complex { re: re as int, im: im as int })),
        ensures
            final(self)@ == plus(old(self)@, Complex { re: re as int, im: im as int }),
    {
        self.re = self.re + re;
        self.im = self.im + im;
    }

    /// Moves the real component by `re` in place.
    pub fn transform_re(&mut self, re: i64)
        requires
            in_i64(old(self).re + re),
        ensures
            final(self).re == old(self).re + re,
            final(self).im == old(self).im,
    {
        self.re = self.re + re;
    }

    /// Moves the imaginary component by `im` in place.
    pub fn transform_im(&mut self, im: i64)
        requires
            in_i64(old(self).im + im),
        ensures
            final(self).re == old(self).re,
            final(self).im == old(self).im + im,
    {
        self.im = self.im + im;
    }

    /// The quotient `self / other`, or `DivisionByZero` exactly when the
    /// divisor is `0 + 0i`.
    pub fn checked_div(self, other: Complex<i64>) -> (r: Result<Complex<i64>, ComplexError>)
        requires
            div_fits_i64(self@, other@),
        ensures
            r is Err <==> norm_sq(other@) == 0,
            r is Err ==> r == Err::<Complex<i64>, ComplexError>(ComplexError::DivisionByZero),
            r matches Ok(q) ==> q@ == over(self@, other@),
    {
        let divisor = other.re * other.re + other.im * other.im;
        if divisor == 0 {
            Err(ComplexError::DivisionByZero)
        } else {
            proof {
                lemma_norm_sq_nonneg(other@);
                lemma_trunc_div_bound(self.re * other.re + self.im * other.im, divisor as int);
                lemma_trunc_div_bound(self.im * other.re - self.re * other.im, divisor as int);
            }
            Ok(self / other)
        }
    }

    /// Divides in place by `other`. Fails with `DivisionByZero`, leaving the
    /// number as it was, exactly when the divisor is `0 + 0i`.
    pub fn checked_div_assign(&mut self, other: Complex<i64>) -> (r: Result<(), ComplexError>)
        requires
            div_fits_i64(old(self)@, other@),
        ensures
            r is Err <==> norm_sq(other@) == 0,
            r is Err ==> r == Err::<(), ComplexError>(ComplexError::DivisionByZero) && *final(self)
                == *old(self),
            r is Ok ==> final(self)@ == over(old(self)@, other@),
    {
        match self.checked_div(other) {
            Ok(q) => {
                *self = q;
                Ok(())
            },
            Err(e) => Err(e),
        }
    }
}

impl std::ops::Add for Complex<i64> {
    type Output = Self;

    fn add(self, other: Self) -> (r: Self) {
        Complex { re: self.re + other.re, im: self.im + other.im }
    }
}

impl vstd::std_specs::ops::AddSpecImpl for Complex<i64> {
    open spec fn obeys_add_spec() -> bool {
        true
    }

    open spec fn add_req(self, other: Self) -> bool {
        fits_i64(plus(self@, other@))
    }

    open spec fn add_spec(self, other: Self) -> Self {
        Complex { re: (self.re + other.re) as i64, im: (self.im + other.im) as i64 }
    }
}

impl std::ops::Sub for Complex<i64> {
    type Output = Self;

    fn sub(self, other: Self) -> (r: Self) {
        Complex { re: self.re - other.re, im: self.im - other.im }
    }
}

impl vstd::std_specs::ops::SubSpecImpl for Complex<i64> {
    open spec fn obeys_sub_spec() -> bool {
        true
    }

    open spec fn sub_req(self, other: Self) -> bool {
        fits_i64(minus(self@, other@))
    }

    open spec fn sub_spec(self, other: Self) -> Self {
        Complex { re: (self.re - other.re) as i64, im: (self.im - other.im) as i64 }
    }
}

impl std::ops::Mul for Complex<i64> {
    type Output = Self;

    fn mul(self, other: Self) -> (r: Self) {
        Complex {
            re: self.re * other.re - self.im * other.im,
            im: self.re * other.im + self.im * other.re,
        }
    }
}

impl vstd::std_specs::ops::MulSpecImpl for Complex<i64> {
    open spec fn obeys_mul_spec() -> bool {
        true
    }

    open spec fn mul_req(self, other: Self) -> bool {
        mul_fits_i64(self@, other@)
    }

    open spec fn mul_spec(self, other: Self) -> Self {
        Complex {
            re: (self.re * other.re - self.im * other.im) as i64,
            im: (self.re * other.im + self.im * other.re) as i64,
        }
    }
}

impl std::ops::Mul<i64> for Complex<i64> {
    type Output = Self;

    fn mul(self, k: i64) -> (r: Self) {
        Complex { re: self.re * k, im: self.im * k }
    }
}

impl vstd::std_specs::ops::MulSpecImpl<i64> for Complex<i64> {
    open spec fn obeys_mul_spec() -> bool {
        true
    }

    open spec fn mul_req(self, k: i64) -> bool {
        fits_i64(scale(self@, k as int))
    }

    open spec fn mul_spec(self, k: i64) -> Self {
        Complex { re: (self.re * k) as i64, im: (self.im * k) as i64 }
    }
}

impl std::ops::Div for Complex<i64> {
    type Output = Self;

    fn div(self, other: Self) -> (r: Self) {
        let a = self.re;
        let b = self.im;
        let c = other.re;
        let d = other.im;

        let divisor = c * c + d * d;
        proof {
            lemma_norm_sq_nonneg(other@);
            lemma_trunc_div_bound(a * c + b * d, divisor as int);
            lemma_trunc_div_bound(b * c - a * d, divisor as int);
        }

        let re = (a * c + b * d) / divisor;
        let im = (b * c - a * d) / divisor;

        Complex { re, im }
    }
}

impl vstd::std_specs::ops::DivSpecImpl for Complex<i64> {
    open spec fn obeys_div_spec() -> bool {
        true
    }

    open spec fn div_req(self, other: Self) -> bool {
        norm_sq(other@) != 0 && div_fits_i64(self@, other@)
    }

    open spec fn div_spec(self, other: Self) -> Self {
        Complex { re: over(self@, other@).re as i64, im: over(self@, other@).im as i64 }
    }
}

/// Wraps around on overflow, as the plain operator does in release builds.
impl std::ops::AddAssign for Complex<i64> {
    fn add_assign(&mut self, other: Self)
        ensures
            final(self).re == old(self).re.wrapping_add(other.re),
            final(self).im == old(self).im.wrapping_add(other.im),
    {
        self.re = self.re.wrapping_add(other.re);
        self.im = self.im.wrapping_add(other.im);
    }
}

/// Wraps around on overflow, as the plain operator does in release builds.
impl std::ops::SubAssign for Complex<i64> {
    fn sub_assign(&mut self, other: Self)
        ensures
            final(self).re == old(self).re.wrapping_sub(other.re),
            final(self).im == old(self).im.wrapping_sub(other.im),
    {
        self.re = self.re.wrapping_sub(other.re);
        self.im = self.im.wrapping_sub(other.im);
    }
}

/// Wraps around on overflow, as the plain operator does in release builds.
impl std::ops::MulAssign for Complex<i64> {
    fn mul_assign(&mut self, other: Self)
        ensures
            mul_fits_i64(old(self)@, other@) ==> final(self)@ == times(old(self)@, other@),
    {
        let re = self.re.wrapping_mul(other.re).wrapping_sub(self.im.wrapping_mul(other.im));
        let im = self.re.wrapping_mul(other.im).wrapping_add(self.im.wrapping_mul(other.re));
        *self = Complex { re, im };
    }
}

} // verus!
