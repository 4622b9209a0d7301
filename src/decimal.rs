//! Reading decimals into fixed point.
//!
//! A decimal is an optional sign, digits with an optional `.` among or after
//! them (at least one digit in all), and an optional exponent: `e` or `E`,
//! an optional sign and one or more digits. Its fixed-point value is the
//! exact value of the text times `SCALE`, rounded toward zero.
use vstd::prelude::*;
use crate::fixed::SCALE;
use vstd::string::StrSliceExecFns;
use crate::parse::{
    all_digits, digits_value, find, find_char, is_digit, lemma_digits_below_pow, lemma_find_bounds,
    lemma_pow10_monotonic, pow10, power_of_ten, read_digits, unsigned_part,
};

verus! {

/// The index of the first `e` or `E` in `s`, or the length of `s`.
pub open spec fn exponent_index(s: Seq<char>) -> int
    decreases s.len(),
{
    if s.len() == 0 {
        0
    } else if s[0] == 'e' || s[0] == 'E' {
        0
    } else {
        1 + exponent_index(s.drop_first())
    }
}

/// The text of a decimal after its sign and before its exponent.
pub open spec fn mantissa(s: Seq<char>) -> Seq<char> {
    let body = unsigned_part(s);
    body.subrange(0, exponent_index(body))
}

/// Whether the decimal has an exponent.
pub open spec fn has_exponent(s: Seq<char>) -> bool {
    exponent_index(unsigned_part(s)) < unsigned_part(s).len()
}

/// The text of the exponent, after its `e`.
pub open spec fn exponent_text(s: Seq<char>) -> Seq<char> {
    let body = unsigned_part(s);
    body.subrange(exponent_index(body) + 1, body.len() as int)
}

/// The digits of the mantissa before its point.
pub open spec fn whole_digits(s: Seq<char>) -> Seq<char> {
    let m = mantissa(s);
    m.subrange(0, find_char(m, '.'))
}

/// The digits of the mantissa after its point.
pub open spec fn fraction_digits(s: Seq<char>) -> Seq<char> {
    let m = mantissa(s);
    let dot = find_char(m, '.');
    if dot < m.len() {
        m.subrange(dot + 1, m.len() as int)
    } else {
        seq![]
    }
}

/// Whether `t` is an optional sign and one or more digits.
pub open spec fn is_signed_integer(t: Seq<char>) -> bool {
    unsigned_part(t).len() > 0 && all_digits(unsigned_part(t))
}

/// The value of an optional sign and digits.
pub open spec fn signed_value(t: Seq<char>) -> int {
    if t.len() > 0 && t[0] == '-' {
        -digits_value(unsigned_part(t))
    } else {
        digits_value(unsigned_part(t)) as int
    }
}

/// The power of ten that the exponent stands for; `0` without one.
pub open spec fn exponent_value(s: Seq<char>) -> int {
    if has_exponent(s) {
        signed_value(exponent_text(s))
    } else {
        0
    }
}

/// `n · SCALE / 10^q`, rounded down.
pub open spec fn scaled(n: nat, q: int) -> nat {
    if q <= 0 {
        n * (SCALE as nat) * pow10((-q) as nat)
    } else {
        (n * (SCALE as nat)) / (pow10(q as nat) as int) as nat
    }
}

/// The fixed-point magnitude of a decimal: its digits, read as one number,
/// scaled past its fraction digits and by its exponent.
pub open spec fn decimal_magnitude(s: Seq<char>) -> nat {
    let w = whole_digits(s);
    let f = fraction_digits(s);
    scaled(digits_value(w + f), f.len() - exponent_value(s))
}

/// The fixed-point value of a decimal, rounded toward zero.
pub open spec fn decimal_value(s: Seq<char>) -> int {
    if s.len() > 0 && s[0] == '-' {
        -decimal_magnitude(s)
    } else {
        decimal_magnitude(s) as int
    }
}

/// Whether `s` is the text of a decimal whose fixed-point value fits in an
/// `i64`.
pub open spec fn is_decimal(s: Seq<char>) -> bool {
    let w = whole_digits(s);
    let f = fraction_digits(s);
    &&& w.len() + f.len() > 0
    &&& all_digits(w)
    &&& all_digits(f)
    &&& has_exponent(s) ==> is_signed_integer(exponent_text(s))
    &&& i64::MIN <= decimal_value(s) <= i64::MAX
}

/// `10^(a + b) = 10^a · 10^b`.
proof fn lemma_pow10_add(a: nat, b: nat)
    ensures
        pow10(a + b) == pow10(a) * pow10(b),
        pow10(a) >= 1,
    decreases a,
{
    if a > 0 {
        let a1 = (a - 1) as nat;
        lemma_pow10_add(a1, b);
        assert(pow10(a + b) == 10 * pow10(a1 + b));
        assert(pow10(a) == 10 * pow10(a1));
        let x = pow10(a1);
        let y = pow10(b);
        assert(10 * (x * y) == (10 * x) * y) by (nonlinear_arith);
        assert(pow10(a + b) == pow10(a) * pow10(b));
    } else {
        assert(pow10(0) == 1);
        assert(a + b == b);
        assert(pow10(a + b) == pow10(b));
    }
}

/// Reading `a` then `b` is reading `a`, shifting it past `b`, and adding `b`.
proof fn lemma_digits_concat(a: Seq<char>, b: Seq<char>)
    ensures
        digits_value(a + b) == digits_value(a) * pow10(b.len()) + digits_value(b),
    decreases b.len(),
{
    if b.len() == 0 {
        assert(a + b =~= a);
        assert(pow10(0) == 1);
        assert(digits_value(b) == 0);
    } else {
        let c = b.drop_last();
        lemma_digits_concat(a, c);
        assert((a + b).drop_last() =~= a + c);
        assert((a + b).last() == b.last());
        assert(pow10(b.len()) == 10 * pow10(c.len()));
        let last = ((b.last() as int - '0' as int) as nat);
        assert(digits_value(b) == digits_value(c) * 10 + last);
        assert(digits_value(a + b) == digits_value(a + c) * 10 + last);
        let va = digits_value(a);
        let pc = pow10(c.len());
        let vc = digits_value(c);
        assert((va * pc + vc) * 10 + last == va * (10 * pc) + (vc * 10 + last)) by (nonlinear_arith);
    }
}

/// The fraction `0.d` of digits `d` read into fixed point, rounded down: one
/// leading digit at a time, from the last.
proof fn lemma_fraction_step(c: char, f: Seq<char>)
    requires
        is_digit(c),
    ensures
        ({
            let p = pow10(f.len()) as int;
            let dv = c as int - '0' as int;
            (SCALE * digits_value(seq![c] + f)) / (10 * p) == (SCALE * dv + (SCALE * digits_value(f))
                / p) / 10
        }),
{
    let p = pow10(f.len()) as int;
    let dv = c as int - '0' as int;
    lemma_digits_concat(seq![c], f);
    lemma_pow10_add(f.len(), 0);
    assert(seq![c].drop_last() =~= Seq::<char>::empty());
    assert(seq![c].last() == c);
    assert(digits_value(Seq::<char>::empty()) == 0);
    assert(digits_value(seq![c]) == dv);
    let x = SCALE * digits_value(f);
    assert(SCALE * digits_value(seq![c] + f) == x + (SCALE * dv) * p) by (nonlinear_arith)
        requires digits_value(seq![c] + f) == dv * p + digits_value(f), x == SCALE * digits_value(f);
    assert(x >= 0) by (nonlinear_arith)
        requires x == SCALE * digits_value(f);
    vstd::arithmetic::div_mod::lemma_div_denominator(x + (SCALE * dv) * p, p, 10);
    vstd::arithmetic::div_mod::lemma_hoist_over_denominator(x, SCALE * dv, p as nat);
    assert(p * 10 == 10 * p);
}

/// A number written in `b` more digits splits into its leading part, scaled,
/// and the fraction that the last digits give.
proof fn lemma_scaled_split(h: nat, l: nat, p: nat)
    requires
        p >= 1,
    ensures
        (SCALE * (h * p + l)) / (p as int) == SCALE * h + (SCALE * l) / (p as int),
{
    assert(SCALE * (h * p + l) == SCALE * l + (SCALE * h) * p) by (nonlinear_arith);
    assert(SCALE * l >= 0) by (nonlinear_arith);
    vstd::arithmetic::div_mod::lemma_hoist_over_denominator(SCALE * l, SCALE * h, p);
}

proof fn lemma_exponent_index(s: Seq<char>, i: int)
    requires
        0 <= i <= s.len(),
        forall|j: int| 0 <= j < i ==> s[j] != 'e' && s[j] != 'E',
        i == s.len() || s[i] == 'e' || s[i] == 'E',
    ensures
        exponent_index(s) == i,
    decreases i,
{
    if i > 0 {
        lemma_exponent_index(s.drop_first(), i - 1);
    }
}

/// The index of the first `e` or `E` in `s`, or the length of `s`.
fn find_exponent(s: &str) -> (r: usize)
    ensures
        r == exponent_index(s@),
{
    let n = s.unicode_len();
    let mut i: usize = 0;
    while i < n
        invariant
            i <= n,
            n == s@.len(),
            forall|j: int| 0 <= j < i ==> s@[j] != 'e' && s@[j] != 'E',
        decreases n - i,
    {
        let c = s.get_char(i);
        if c == 'e' || c == 'E' {
            proof {
                lemma_exponent_index(s@, i as int);
            }
            return i;
        }
        i = i + 1;
    }
    proof {
        lemma_exponent_index(s@, i as int);
    }
    i
}

/// Whether the characters of `s` from `from` to `to` are all digits.
fn digits_only(s: &str, from: usize, to: usize) -> (r: bool)
    requires
        from <= to <= s@.len(),
    ensures
        r == all_digits(s@.subrange(from as int, to as int)),
{
    let ghost d = s@.subrange(from as int, to as int);
    let mut i: usize = from;
    while i < to
        invariant
            from <= i <= to <= s@.len(),
            d == s@.subrange(from as int, to as int),
            forall|j: int| 0 <= j < i - from ==> is_digit(#[trigger] d[j]),
        decreases to - i,
    {
        let c = s.get_char(i);
        if c < '0' || c > '9' {
            assert(!is_digit(d[i - from]));
            return false;
        }
        i = i + 1;
    }
    true
}

/// Appends the characters of `s` from `from` to `to` to `v`.
fn push_chars(v: &mut Vec<char>, s: &str, from: usize, to: usize)
    requires
        from <= to <= s@.len(),
    ensures
        final(v)@ == old(v)@ + s@.subrange(from as int, to as int),
{
    let mut i: usize = from;
    while i < to
        invariant
            from <= i <= to <= s@.len(),
            v@ == old(v)@ + s@.subrange(from as int, i as int),
        decreases to - i,
    {
        let c = s.get_char(i);
        v.push(c);
        i = i + 1;
        assert(v@ =~= old(v)@ + s@.subrange(from as int, i as int));
    }
}

/// The number that the digits `d[from..to]` write, or `None` when it passes
/// `cap`.
fn value_up_to(d: &Vec<char>, from: usize, to: usize, cap: u64) -> (r: Option<u64>)
    requires
        from <= to <= d@.len(),
        all_digits(d@),
    ensures
        r is Some <==> digits_value(d@.subrange(from as int, to as int)) <= cap,
        r matches Some(v) ==> v == digits_value(d@.subrange(from as int, to as int)),
{
    let ghost part = d@.subrange(from as int, to as int);
    let mut value: u64 = 0;
    let mut i: usize = from;
    while i < to
        invariant
            from <= i <= to <= d@.len(),
            all_digits(d@),
            part == d@.subrange(from as int, to as int),
            value == digits_value(part.subrange(0, i - from)),
            value <= cap,
        decreases to - i,
    {
        let c = d[i];
        assert(is_digit(d@[i as int]));
        assert(part.subrange(0, i - from + 1).drop_last() =~= part.subrange(0, i - from));
        let digit = (c as u32 - '0' as u32) as u64;
        if digit > cap || value > (cap - digit) / 10 {
            proof {
                assert(all_digits(part)) by {
                    assert forall|j: int| 0 <= j < part.len() implies is_digit(#[trigger] part[j]) by {
                        assert(part[j] == d@[from + j]);
                    }
                }
                if digit <= cap {
                    vstd::arithmetic::div_mod::lemma_fundamental_div_mod((cap - digit) as int, 10);
                }
                assert(value * 10 + digit > cap) by (nonlinear_arith)
                    requires
                        digit > cap || value > (cap - digit) / 10,
                        digit <= cap ==> (cap - digit) == 10 * ((cap - digit) / 10) + (cap - digit) % 10,
                        digit <= cap ==> (cap - digit) % 10 < 10,
                        value >= 0,
                ;
                crate::parse::lemma_digits_prefix(part, i - from + 1);
            }
            return None;
        }
        value = value * 10 + digit;
        i = i + 1;
    }
    assert(part.subrange(0, to - from) =~= part);
    Some(value)
}

/// `SCALE · 0.f`, rounded down, for the digits `f = d[from..to]`.
fn fraction_floor(d: &Vec<char>, from: usize, to: usize) -> (r: u64)
    requires
        from <= to <= d@.len(),
        all_digits(d@),
    ensures
        r == (SCALE * digits_value(d@.subrange(from as int, to as int))) / (pow10((to - from) as nat) as int),
        r < SCALE,
{
    let mut acc: u64 = 0;
    let mut j: usize = to;
    proof {
        assert(d@.subrange(to as int, to as int) =~= Seq::<char>::empty());
        assert(digits_value(Seq::<char>::empty()) == 0);
        assert(pow10(0) == 1);
    }
    while j > from
        invariant
            from <= j <= to <= d@.len(),
            all_digits(d@),
            acc == (SCALE * digits_value(d@.subrange(j as int, to as int))) / (pow10((to - j) as nat) as int),
            acc < SCALE,
        decreases j - from,
    {
        let c = d[j - 1];
        let ghost f = d@.subrange(j as int, to as int);
        proof {
            assert(is_digit(d@[j - 1]));
            lemma_fraction_step(c, f);
            assert(seq![c] + f =~= d@.subrange(j - 1, to as int));
            assert(pow10((to - (j - 1)) as nat) == 10 * pow10((to - j) as nat));
        }
        let digit = (c as u32 - '0' as u32) as u64;
        acc = (SCALE as u64 * digit + acc) / 10;
        j = j - 1;
    }
    acc
}

/// `10^10`, and powers of ten up to it.
proof fn lemma_pow10_ten(p: nat)
    requires
        p <= 10,
    ensures
        1 <= pow10(p) <= 10_000_000_000,
        pow10(10) == 10_000_000_000,
        pow10(11) == 100_000_000_000,
{
    reveal_with_fuel(pow10, 12);
    lemma_pow10_monotonic(p, 10);
}

/// `scaled(n, q)` for the number `n` that the digits `d` write, or `None`
/// when that passes `bound`.
fn magnitude(d: &Vec<char>, q: i128, bound: u64) -> (r: Option<u64>)
    requires
        all_digits(d@),
        bound <= 0x8000_0000_0000_0000,
    ensures
        r is Some <==> scaled(digits_value(d@), q as int) <= bound,
        r matches Some(m) ==> m == scaled(digits_value(d@), q as int),
{
    let n = d.len();
    let ghost number = digits_value(d@);
    let ghost sc = SCALE as nat;
    proof {
        assert(d@.subrange(0, n as int) =~= d@);
    }
    if q <= 0 {
        let ghost p = (-q) as nat;
        proof {
            lemma_pow10_add(p, 0);
        }
        let value = match value_up_to(d, 0, n, 0x8000_0000) {
            Some(v) => v,
            None => {
                proof {
                    let pw = pow10(p);
                    assert(number * sc * pw > 0x8000_0000_0000_0000) by (nonlinear_arith)
                        requires number > 0x8000_0000, sc == 0x1_0000_0000, pw >= 1;
                }
                return None;
            },
        };
        if value == 0 {
            proof {
                let pw = pow10(p);
                assert(number * sc * pw == 0) by (nonlinear_arith)
                    requires number == 0;
            }
            return Some(0);
        }
        if q < -10 {
            proof {
                lemma_pow10_ten(10);
                lemma_pow10_monotonic(11, p);
                let pw = pow10(p);
                assert(number * sc * pw > 0x8000_0000_0000_0000) by (nonlinear_arith)
                    requires number >= 1, sc == 0x1_0000_0000, pw >= 100_000_000_000;
            }
            return None;
        }
        let power = power_of_ten((-q) as usize);
        proof {
            lemma_pow10_ten(p);
            assert(value * sc * power <= 0x8000_0000 * 0x1_0000_0000 * 10_000_000_000) by (nonlinear_arith)
                requires value <= 0x8000_0000, sc == 0x1_0000_0000, power <= 10_000_000_000;
        }
        let m: u128 = value as u128 * SCALE as u128 * power;
        if m > bound as u128 {
            None
        } else {
            Some(m as u64)
        }
    } else if q < n as i128 {
        let h = n - q as usize;
        let ghost high_digits = d@.subrange(0, h as int);
        let ghost low_digits = d@.subrange(h as int, n as int);
        let ghost pw = pow10(q as nat);
        proof {
            lemma_digits_concat(high_digits, low_digits);
            assert(high_digits + low_digits =~= d@);
            lemma_pow10_add(q as nat, 0);
            lemma_scaled_split(digits_value(high_digits), digits_value(low_digits), pw);
            assert(number * sc == SCALE * (digits_value(high_digits) * pw + digits_value(low_digits)));
            assert(SCALE * digits_value(low_digits) >= 0) by (nonlinear_arith);
            vstd::arithmetic::div_mod::lemma_div_pos_is_pos(SCALE * digits_value(low_digits), pw as int);
        }
        let high = match value_up_to(d, 0, h, 0x8000_0000) {
            Some(v) => v,
            None => {
                proof {
                    assert(SCALE * digits_value(high_digits) > 0x8000_0000_0000_0000) by (nonlinear_arith)
                        requires digits_value(high_digits) > 0x8000_0000;
                }
                return None;
            },
        };
        let low = fraction_floor(d, h, n);
        proof {
            assert(high * SCALE <= 0x8000_0000_0000_0000) by (nonlinear_arith)
                requires high <= 0x8000_0000;
        }
        let m: u64 = high * SCALE as u64 + low;
        if m > bound {
            None
        } else {
            Some(m)
        }
    } else {
        let low = fraction_floor(d, 0, n);
        let z = q - n as i128;
        let ghost pn = pow10(n as nat);
        let ghost pz = pow10(z as nat);
        proof {
            lemma_pow10_add(n as nat, z as nat);
            lemma_pow10_add(z as nat, 0);
            assert(n as nat + z as nat == q as nat);
            assert(number * sc == SCALE * number) by (nonlinear_arith)
                requires sc == SCALE;
            assert(SCALE * number >= 0) by (nonlinear_arith);
            vstd::arithmetic::div_mod::lemma_div_denominator(SCALE * number, pn as int, pz as int);
        }
        if z >= 10 {
            proof {
                lemma_pow10_ten(10);
                lemma_pow10_monotonic(10, z as nat);
                vstd::arithmetic::div_mod::lemma_basic_div(low as int, pz as int);
            }
            return Some(0);
        }
        let power = power_of_ten(z as usize);
        proof {
            lemma_pow10_ten(z as nat);
            vstd::arithmetic::div_mod::lemma_div_is_ordered_by_denominator(low as int, 1, power as int);
        }
        let m: u64 = low / (power as u64);
        if m > bound {
            None
        } else {
            Some(m)
        }
    }
}

proof fn lemma_exponent_bounds(s: Seq<char>)
    ensures
        0 <= exponent_index(s) <= s.len(),
    decreases s.len(),
{
    if s.len() > 0 {
        lemma_exponent_bounds(s.drop_first());
    }
}

/// Shifting a number of `nd` digits at least ten places past the point
/// leaves nothing above the fixed-point unit.
proof fn lemma_vanishing(number: nat, nd: nat, q: int)
    requires
        number < pow10(nd),
        q >= nd + 10,
    ensures
        scaled(number, q) == 0,
{
    lemma_pow10_ten(10);
    lemma_pow10_add(nd, 10);
    lemma_pow10_monotonic(nd + 10, q as nat);
    let pn = pow10(nd);
    assert(number * SCALE < pn * 10_000_000_000) by (nonlinear_arith)
        requires number < pn, SCALE == 0x1_0000_0000;
    assert(number * SCALE >= 0) by (nonlinear_arith);
    vstd::arithmetic::div_mod::lemma_basic_div(number * SCALE, pow10(q as nat) as int);
}

/// A non-zero number shifted at least eleven places before the point passes
/// every `i64`.
proof fn lemma_overflowing(number: nat, q: int)
    requires
        number >= 1,
        q <= -11,
    ensures
        scaled(number, q) > 0x8000_0000_0000_0000,
{
    lemma_pow10_ten(10);
    lemma_pow10_monotonic(11, (-q) as nat);
    let pw = pow10((-q) as nat);
    assert(number * (SCALE as nat) * pw > 0x8000_0000_0000_0000) by (nonlinear_arith)
        requires number >= 1, SCALE == 0x1_0000_0000, pw >= 100_000_000_000;
}

/// `scaled(n, k - e)` for the number `n` that the digits `d` write and the
/// exponent `e` that `text` writes, or `None` when that passes `bound`.
fn exponent_magnitude(digits: &Vec<char>, k: usize, text: &str, bound: u64) -> (r: Option<u64>)
    requires
        all_digits(digits@),
        k <= digits@.len(),
        digits@.len() + text@.len() + 1 <= usize::MAX,
        is_signed_integer(text@),
        bound <= 0x8000_0000_0000_0000,
    ensures
        r is Some <==> scaled(digits_value(digits@), k - signed_value(text@)) <= bound,
        r matches Some(m) ==> m == scaled(digits_value(digits@), k - signed_value(text@)),
{
    let nd = digits.len();
    let text_len = text.unicode_len();
    let c = text.get_char(0);
    let exponent_negative = c == '-';
    let sign: usize = if c == '+' || c == '-' {
        1
    } else {
        0
    };
    let ghost ed = unsigned_part(text@);
    proof {
        assert(ed =~= text@.subrange(sign as int, text_len as int));
    }
    match read_digits(text, sign, text_len, u64::MAX) {
        Some(v) => {
            let e: i128 = if exponent_negative {
                -(v as i128)
            } else {
                v as i128
            };
            magnitude(digits, k as i128 - e, bound)
        },
        None => {
            proof {
                lemma_digits_below_pow(ed);
                reveal_with_fuel(pow10, 20);
                if ed.len() <= 19 {
                    lemma_pow10_monotonic(ed.len(), 19);
                }
                assert(ed.len() >= 20);
            }
            if exponent_negative {
                proof {
                    lemma_digits_below_pow(digits@);
                    lemma_vanishing(digits_value(digits@), nd as nat, k - signed_value(text@));
                }
                Some(0)
            } else {
                match value_up_to(digits, 0, nd, 0) {
                    Some(_) => {
                        proof {
                            assert(digits@.subrange(0, nd as int) =~= digits@);
                            let pw = pow10((signed_value(text@) - k) as nat);
                            assert(digits_value(digits@) * (SCALE as nat) * pw == 0) by (nonlinear_arith)
                                requires digits_value(digits@) == 0;
                        }
                        Some(0)
                    },
                    None => {
                        proof {
                            assert(digits@.subrange(0, nd as int) =~= digits@);
                            lemma_overflowing(digits_value(digits@), k - signed_value(text@));
                        }
                        None
                    },
                }
            }
        },
    }
}

/// Reads a decimal into fixed point, rounding toward zero: `-1.95`, `.5`,
/// `3.`, `1e-3` and `+2.5E2` all are decimals.
pub fn parse_fixed(s: &str) -> (r: Option<i64>)
    ensures
        r is Some <==> is_decimal(s@),
        r matches Some(v) ==> v == decimal_value(s@),
{
    let n = s.unicode_len();
    let first = if n > 0 {
        s.get_char(0)
    } else {
        ' '
    };
    let negative = n > 0 && first == '-';
    let start: usize = if n > 0 && (first == '+' || first == '-') {
        1
    } else {
        0
    };
    let body = s.substring_char(start, n);
    let ghost t = s@;
    proof {
        assert(body@ =~= unsigned_part(t));
    }
    let body_len = n - start;
    let x = find_exponent(body);
    proof {
        lemma_exponent_bounds(body@);
    }
    let mant = body.substring_char(0, x);
    let dot = find(mant, '.');
    proof {
        assert(mant@ =~= mantissa(t));
        lemma_find_bounds(mant@, '.');
    }
    let fraction_start = if dot < x {
        dot + 1
    } else {
        x
    };
    let k = x - fraction_start;
    proof {
        assert(whole_digits(t) =~= mant@.subrange(0, dot as int));
        assert(fraction_digits(t) =~= mant@.subrange(fraction_start as int, x as int));
    }
    if dot + k == 0 {
        return None;
    }
    if !digits_only(mant, 0, dot) || !digits_only(mant, fraction_start, x) {
        return None;
    }
    let mut digits: Vec<char> = Vec::new();
    push_chars(&mut digits, mant, 0, dot);
    push_chars(&mut digits, mant, fraction_start, x);
    let ghost w = whole_digits(t);
    let ghost f = fraction_digits(t);
    proof {
        assert(digits@ =~= w + f);
        assert forall|i: int| 0 <= i < digits@.len() implies is_digit(#[trigger] digits@[i]) by {
            if i < w.len() {
                assert(digits@[i] == w[i]);
            } else {
                assert(digits@[i] == f[i - w.len()]);
            }
        }
    }
    let nd = digits.len();
    let bound: u64 = if negative {
        0x8000_0000_0000_0000
    } else {
        0x7fff_ffff_ffff_ffff
    };
    let found = if x < body_len {
        let text = body.substring_char(x + 1, body_len);
        let text_len = body_len - (x + 1);
        proof {
            assert(text@ =~= exponent_text(t));
        }
        let c = if text_len > 0 {
            text.get_char(0)
        } else {
            ' '
        };
        let exponent_negative = text_len > 0 && c == '-';
        let sign: usize = if text_len > 0 && (c == '+' || c == '-') {
            1
        } else {
            0
        };
        proof {
            assert(unsigned_part(text@) =~= text@.subrange(sign as int, text_len as int));
        }
        if sign == text_len || !digits_only(text, sign, text_len) {
            return None;
        }
        proof {
            assert(nd + text_len + 1 <= n);
        }
        exponent_magnitude(&digits, k, text, bound)
    } else {
        magnitude(&digits, k as i128, bound)
    };
    match found {
        None => None,
        Some(m) => {
            if negative {
                Some((-(m as i128)) as i64)
            } else {
                Some(m as i64)
            }
        },
    }
}

} // verus!
