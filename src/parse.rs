//! Reading grid sizes and corner points from text.
//!
//! A pair is two values around the first occurrence of a separator, as in
//! `800x600` or `-1.95,1.15`. An unsigned value is an optional `+` and one or
//! more decimal digits; decimals are read as `decimal` describes.
use vstd::prelude::*;
use vstd::string::StrSliceExecFns;
use crate::complex::Complex;
use crate::decimal::{decimal_value, is_decimal, parse_fixed};

verus! {

/// Whether `c` is one of `0` to `9`.
pub open spec fn is_digit(c: char) -> bool {
    '0' <= c && c <= '9'
}

/// Whether every character of `s` is a digit.
pub open spec fn all_digits(s: Seq<char>) -> bool {
    forall|i: int| 0 <= i < s.len() ==> is_digit(#[trigger] s[i])
}

/// The number that the digits `s` write in base ten.
pub open spec fn digits_value(s: Seq<char>) -> nat
    decreases s.len(),
{
    if s.len() == 0 {
        0
    } else {
        digits_value(s.drop_last()) * 10 + ((s.last() as int - '0' as int) as nat)
    }
}

/// `10ⁿ`.
pub open spec fn pow10(n: nat) -> nat
    decreases n,
{
    if n == 0 {
        1
    } else {
        10 * pow10((n - 1) as nat)
    }
}

/// The index of the first `c` in `s`, or the length of `s` when there is none.
pub open spec fn find_char(s: Seq<char>, c: char) -> int
    decreases s.len(),
{
    if s.len() == 0 {
        0
    } else if s[0] == c {
        0
    } else {
        1 + find_char(s.drop_first(), c)
    }
}

/// The digits of an unsigned value: the text without a leading `+`.
pub open spec fn unsigned_digits(s: Seq<char>) -> Seq<char> {
    if s.len() > 0 && s[0] == '+' {
        s.drop_first()
    } else {
        s
    }
}

/// Whether `s` is the text of an unsigned value that fits in a `usize`.
pub open spec fn is_unsigned(s: Seq<char>) -> bool {
    let d = unsigned_digits(s);
    &&& d.len() > 0
    &&& all_digits(d)
    &&& digits_value(d) <= usize::MAX
}

/// How many characters of sign `s` starts with.
pub open spec fn sign_len(s: Seq<char>) -> int {
    if s.len() > 0 && (s[0] == '+' || s[0] == '-') {
        1
    } else {
        0
    }
}

/// The text after a leading sign.
pub open spec fn unsigned_part(s: Seq<char>) -> Seq<char> {
    s.subrange(sign_len(s), s.len() as int)
}

/// `find_char` gives the first `c`, or the length when there is none.
pub proof fn lemma_find_char(s: Seq<char>, c: char, i: int)
    requires
        0 <= i <= s.len(),
        forall|j: int| 0 <= j < i ==> s[j] != c,
        i == s.len() || s[i] == c,
    ensures
        find_char(s, c) == i,
    decreases i,
{
    if i > 0 {
        lemma_find_char(s.drop_first(), c, i - 1);
    }
}

/// Reading one more digit.
proof fn lemma_digits_push(s: Seq<char>, i: int)
    requires
        0 <= i < s.len(),
    ensures
        digits_value(s.subrange(0, i + 1)) == digits_value(s.subrange(0, i)) * 10 + ((s[i] as int
            - '0' as int) as nat),
{
    assert(s.subrange(0, i + 1).drop_last() =~= s.subrange(0, i));
}

/// The digits before a position are worth no more than all of them.
pub proof fn lemma_digits_prefix(s: Seq<char>, i: int)
    requires
        0 <= i <= s.len(),
        all_digits(s),
    ensures
        digits_value(s.subrange(0, i)) <= digits_value(s),
    decreases s.len() - i,
{
    if i < s.len() {
        lemma_digits_prefix(s, i + 1);
        lemma_digits_push(s, i);
    } else {
        assert(s.subrange(0, i) =~= s);
    }
}

/// `n` digits write a number below `10ⁿ`.
pub proof fn lemma_digits_below_pow(s: Seq<char>)
    requires
        all_digits(s),
    ensures
        digits_value(s) < pow10(s.len()),
    decreases s.len(),
{
    if s.len() > 0 {
        let t = s.drop_last();
        assert(all_digits(t)) by {
            assert forall|i: int| 0 <= i < t.len() implies is_digit(#[trigger] t[i]) by {
                assert(t[i] == s[i]);
            }
        }
        lemma_digits_below_pow(t);
        assert(is_digit(s[s.len() - 1]));
    }
}

/// Reads the digits of `s` from `start` to `end`, giving `None` when they are
/// not all digits or their value passes `cap`.
pub(crate) fn read_digits(s: &str, start: usize, end: usize, cap: u64) -> (r: Option<u64>)
    requires
        start <= end <= s@.len(),
    ensures
        ({
            let d = s@.subrange(start as int, end as int);
            &&& r is Some <==> all_digits(d) && digits_value(d) <= cap
            &&& r matches Some(v) ==> v == digits_value(d)
        }),
{
    let ghost d = s@.subrange(start as int, end as int);
    let mut value: u64 = 0;
    let mut i: usize = start;
    while i < end
        invariant
            start <= i <= end <= s@.len(),
            d == s@.subrange(start as int, end as int),
            all_digits(d.subrange(0, i - start)),
            value == digits_value(d.subrange(0, i - start)),
            value <= cap,
        decreases end - i,
    {
        let c = s.get_char(i);
        proof {
            lemma_digits_push(d, i - start);
            assert(d[i - start] == c);
        }
        if c < '0' || c > '9' {
            return None;
        }
        let digit = (c as u32 - '0' as u32) as u64;
        if digit > cap || value > (cap - digit) / 10 {
            proof {
                if digit <= cap {
                    vstd::arithmetic::div_mod::lemma_fundamental_div_mod((cap - digit) as int, 10);
                }
                assert(value * 10 + digit > cap) by (nonlinear_arith)
                    requires
                        digit > cap || value > (cap - digit) / 10,
                        digit <= cap ==> (cap - digit) == 10 * ((cap - digit) / 10) + (cap - digit) % 10,
                        digit <= cap ==> (cap - digit) % 10 < 10,
                        value >= 0,
                ;
                if all_digits(d) {
                    lemma_digits_prefix(d, i - start + 1);
                }
            }
            return None;
        }
        value = value * 10 + digit;
        i = i + 1;
        proof {
            assert forall|j: int| 0 <= j < i - start implies is_digit(
                #[trigger] d.subrange(0, i - start)[j],
            ) by {
                if j < i - start - 1 {
                    assert(d.subrange(0, i - start)[j] == d.subrange(0, i - start - 1)[j]);
                }
            }
        }
    }
    proof {
        assert(d.subrange(0, end - start) =~= d);
    }
    Some(value)
}

/// The index of the first `c` in `s`, or the length of `s`.
pub(crate) fn find(s: &str, c: char) -> (r: usize)
    ensures
        r == find_char(s@, c),
{
    let n = s.unicode_len();
    let mut i: usize = 0;
    while i < n
        invariant
            i <= n,
            n == s@.len(),
            forall|j: int| 0 <= j < i ==> s@[j] != c,
        decreases n - i,
    {
        if s.get_char(i) == c {
            proof {
                lemma_find_char(s@, c, i as int);
            }
            return i;
        }
        i = i + 1;
    }
    proof {
        lemma_find_char(s@, c, i as int);
    }
    i
}

/// The value of an unsigned text.
pub open spec fn unsigned_value(s: Seq<char>) -> nat {
    digits_value(unsigned_digits(s))
}

/// Reads an unsigned value that fits in a `usize`.
fn parse_unsigned(s: &str) -> (r: Option<usize>)
    ensures
        r is Some <==> is_unsigned(s@),
        r matches Some(v) ==> v == unsigned_value(s@),
{
    let n = s.unicode_len();
    let start: usize = if n > 0 && s.get_char(0) == '+' {
        1
    } else {
        0
    };
    proof {
        assert(unsigned_digits(s@) =~= s@.subrange(start as int, n as int));
    }
    if start == n {
        return None;
    }
    match read_digits(s, start, n, usize::MAX as u64) {
        Some(v) => Some(v as usize),
        None => None,
    }
}

/// `10ⁿ`, for `n` up to 18.
pub(crate) fn power_of_ten(n: usize) -> (r: u128)
    requires
        n <= 18,
    ensures
        r == pow10(n as nat),
        r >= 1,
{
    let mut r: u128 = 1;
    let mut i: usize = 0;
    proof {
        lemma_pow10_monotonic(0, 18);
    }
    while i < n
        invariant
            i <= n <= 18,
            r == pow10(i as nat),
            1 <= r <= pow10(18),
        decreases n - i,
    {
        proof {
            lemma_pow10_monotonic((i + 1) as nat, 18);
        }
        r = r * 10;
        i = i + 1;
    }
    r
}

/// `10ⁱ ≤ 10ʲ` for `i ≤ j`, and `10¹⁸` is what it is.
pub proof fn lemma_pow10_monotonic(i: nat, j: nat)
    requires
        i <= j,
    ensures
        1 <= pow10(i) <= pow10(j),
        pow10(18) == 1_000_000_000_000_000_000,
    decreases j,
{
    reveal_with_fuel(pow10, 19);
    if i < j {
        lemma_pow10_monotonic(i, (j - 1) as nat);
    } else if i > 0 {
        lemma_pow10_monotonic((i - 1) as nat, (i - 1) as nat);
    }
}

/// Reads two unsigned values around the first `separator`, as in `800x600`.
pub fn parse_pair(s: &str, separator: char) -> (r: Option<(usize, usize)>)
    ensures
        ({
            let i = find_char(s@, separator);
            let left = s@.subrange(0, i);
            let right = s@.subrange(i + 1, s@.len() as int);
            &&& r is Some <==> i < s@.len() && is_unsigned(left) && is_unsigned(right)
            &&& r matches Some(p) ==> p.0 == unsigned_value(left) && p.1 == unsigned_value(right)
        }),
{
    let n = s.unicode_len();
    let i = find(s, separator);
    proof {
        lemma_find_bounds(s@, separator);
    }
    if i == n {
        return None;
    }
    let left = s.substring_char(0, i);
    let right = s.substring_char(i + 1, n);
    match (parse_unsigned(left), parse_unsigned(right)) {
        (Some(l), Some(r)) => Some((l, r)),
        _ => None,
    }
}

/// Reads a point from two decimals around the first `,`, as in `-1.95,1.15`.
pub fn parse_complex(s: &str) -> (r: Option<Complex<i64>>)
    ensures
        ({
            let i = find_char(s@, ',');
            let left = s@.subrange(0, i);
            let right = s@.subrange(i + 1, s@.len() as int);
            &&& r is Some <==> i < s@.len() && is_decimal(left) && is_decimal(right)
            &&& r matches Some(z) ==> z.re == decimal_value(left) && z.im == decimal_value(right)
        }),
{
    let n = s.unicode_len();
    let i = find(s, ',');
    proof {
        lemma_find_bounds(s@, ',');
    }
    if i == n {
        return None;
    }
    let left = s.substring_char(0, i);
    let right = s.substring_char(i + 1, n);
    match (parse_fixed(left), parse_fixed(right)) {
        (Some(re), Some(im)) => Some(Complex::new(re, im)),
        _ => None,
    }
}

/// `find_char` gives an index within `s` or its length.
pub proof fn lemma_find_bounds(s: Seq<char>, c: char)
    ensures
        0 <= find_char(s, c) <= s.len(),
    decreases s.len(),
{
    if s.len() > 0 {
        lemma_find_bounds(s.drop_first(), c);
    }
}

} // verus!
