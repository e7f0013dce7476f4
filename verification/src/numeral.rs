//! Numbers as text gives them: decimal, with a fraction and an exponent or without.
//!
//! A numeral is read as the double nearest to the number that it writes down,
//! however many digits it has.

use crate::digits::{at_most, digits_in, digits_of, high_part, low_part, multiply, shifted, to_u128};
use crate::number::{nearest, round_scaled, Number};
use crate::text::{is_digit_char, same_text, slice_chars, split_at, to_chars};
use vstd::prelude::*;

verus! {

// ---------------------------------------------------------------------------
// How numerals are written
// ---------------------------------------------------------------------------

/// The small letter of a capital one; any other character as it is.
pub open spec fn lower(c: char) -> char {
    if 'A' <= c <= 'Z' {
        (c as int + 32) as char
    } else {
        c
    }
}

/// A text with small letters for capital ones.
pub open spec fn lowered(s: Seq<char>) -> Seq<char> {
    s.map_values(|c: char| lower(c))
}

/// A number without its sign.
pub open spec fn unsigned_part(s: Seq<char>) -> Seq<char> {
    if s.len() > 0 && (s[0] == '-' || s[0] == '+') {
        s.skip(1)
    } else {
        s
    }
}

/// Whether a number has a minus sign.
pub open spec fn has_minus(s: Seq<char>) -> bool {
    s.len() > 0 && s[0] == '-'
}

/// Digits with at most one point among them: the number that they denote without
/// the point, and how many of them come after it.
pub open spec fn coefficient(s: Seq<char>) -> Option<(nat, nat)> {
    let parts = crate::text::pieces(s, '.');
    let (digits, places) = if parts.len() == 2 {
        (parts[0] + parts[1], parts[1].len())
    } else {
        (s, 0)
    };
    if digits.len() > 0 && crate::text::all_digits(digits) {
        Some((crate::text::digits_value(digits), places))
    } else {
        None
    }
}

/// Digits with a sign or without.
pub open spec fn exponent(s: Seq<char>) -> Option<int> {
    let digits = unsigned_part(s);
    if digits.len() > 0 && crate::text::all_digits(digits) {
        if has_minus(s) {
            Some(-crate::text::digits_value(digits))
        } else {
            Some(crate::text::digits_value(digits) as int)
        }
    } else {
        None
    }
}

/// A coefficient, and after an `e` an exponent: `n` and `x`, where the number is
/// `n * 10^x`.
pub open spec fn decimal_parts(s: Seq<char>) -> Option<(nat, int)> {
    let halves = crate::text::pieces(s, 'e');
    if halves.len() == 1 {
        match coefficient(halves[0]) {
            Some((n, places)) => Some((n, -(places as int))),
            None => None,
        }
    } else if halves.len() == 2 {
        match (coefficient(halves[0]), exponent(halves[1])) {
            (Some((n, places)), Some(x)) => Some((n, x - places)),
            _ => None,
        }
    } else {
        None
    }
}

/// Ten to the power of `x`, or one where `x` is negative.
pub open spec fn tens(x: int) -> nat {
    if x > 0 {
        crate::power::pow10(x as nat)
    } else {
        1
    }
}

/// The double nearest to `n * 10^x`.
pub open spec fn decimal_number(negative: bool, n: nat, x: int) -> Number {
    nearest(negative, ((n * tens(x)) * crate::power::pow2(1074)) as int, tens(-x) as int)
}

/// What `s` stands for, if it is a numeral: a sign or none, then `inf`, `infinity`,
/// `nan`, or a decimal number; capital letters will do.
pub open spec fn numeral(s: Seq<char>) -> Option<Number> {
    let negative = has_minus(s);
    let body = lowered(unsigned_part(s));
    if body == "inf"@ || body == "infinity"@ {
        Some(Number::Infinite { negative })
    } else if body == "nan"@ {
        Some(Number::NotANumber)
    } else {
        match decimal_parts(body) {
            Some((n, x)) => Some(decimal_number(negative, n, x)),
            None => None,
        }
    }
}

// ---------------------------------------------------------------------------
// Reading
// ---------------------------------------------------------------------------

/// A text with small letters for capital ones.
fn lower_chars(s: &Vec<char>) -> (r: Vec<char>)
    ensures
        r@ == lowered(s@),
{
    let mut r: Vec<char> = Vec::new();
    let mut i: usize = 0;
    while i < s.len()
        invariant
            i <= s@.len(),
            r@ == lowered(s@).take(i as int),
        decreases s@.len() - i,
    {
        let c: char = s[i];
        let low: char = if 'A' <= c && c <= 'Z' {
            ((c as u32 - 65) as u8 + 97) as char
        } else {
            c
        };
        r.push(low);
        assert(lowered(s@).take(i + 1) =~= lowered(s@).take(i as int).push(lower(c)));
        i += 1;
    }
    assert(lowered(s@).take(s@.len() as int) =~= lowered(s@));
    r
}

/// A number without its sign.
fn drop_sign(s: &Vec<char>) -> (r: Vec<char>)
    ensures
        r@ == unsigned_part(s@),
{
    let from: usize = if s.len() > 0 && (s[0] == '-' || s[0] == '+') {
        1
    } else {
        0
    };
    let r: Vec<char> = slice_chars(s, from, s.len());
    assert(r@ =~= unsigned_part(s@));
    r
}

/// Whether a text is made of digits, at least one.
fn is_digits(s: &Vec<char>) -> (r: bool)
    ensures
        r == (s@.len() > 0 && crate::text::all_digits(s@)),
{
    let mut i: usize = 0;
    while i < s.len()
        invariant
            i <= s@.len(),
            forall|k: int| 0 <= k < i ==> crate::text::is_digit(#[trigger] s@[k]),
        decreases s@.len() - i,
    {
        if !is_digit_char(s[i]) {
            assert(!crate::text::is_digit(s@[i as int]));
            return false;
        }
        i += 1;
    }
    s.len() > 0
}

/// The digits of a coefficient, and how many of them come after the point.
fn read_coefficient(s: &Vec<char>) -> (r: Option<(Vec<u8>, usize)>)
    ensures
        match r {
            Some((digits, places)) => {
                &&& coefficient(s@) == Some((crate::digits::value(digits@), places as nat))
                &&& crate::digits::digits(digits@)
                &&& crate::digits::trim(digits@)
            },
            None => coefficient(s@) is None,
        },
{
    let parts: Vec<Vec<char>> = split_at(s, '.');
    let ghost texts = parts@.map_values(|p: Vec<char>| p@);
    let mut all: Vec<char> = Vec::new();
    let mut places: usize = 0;
    if parts.len() == 2 {
        assert(texts[0] == parts@[0]@ && texts[1] == parts@[1]@);
        all = slice_chars(&parts[0], 0, parts[0].len());
        places = parts[1].len();
        let mut rest: Vec<char> = slice_chars(&parts[1], 0, parts[1].len());
        all.append(&mut rest);
        assert(all@ =~= texts[0] + texts[1]);
    } else {
        all = slice_chars(s, 0, s.len());
        assert(all@ =~= s@);
    }
    if is_digits(&all) {
        Some((digits_in(&all), places))
    } else {
        None
    }
}

/// No exponent needs to be told from another that is as large as this.
pub const EXPONENT_CAP: i128 = 0x40_0000_0000_0000_0000;

/// The number that digits denote, or the cap if it is more.
fn read_capped(s: &Vec<char>) -> (r: i128)
    requires
        crate::text::all_digits(s@),
    ensures
        0 <= r <= EXPONENT_CAP,
        r < EXPONENT_CAP ==> r == crate::text::digits_value(s@),
        r <= crate::text::digits_value(s@),
{
    let mut n: i128 = 0;
    let mut i: usize = 0;
    while i < s.len()
        invariant
            i <= s@.len(),
            crate::text::all_digits(s@),
            0 <= n <= EXPONENT_CAP,
            n < EXPONENT_CAP ==> n == crate::text::digits_value(s@.take(i as int)),
            n <= crate::text::digits_value(s@.take(i as int)),
        decreases s@.len() - i,
    {
        let c: char = s[i];
        assert(crate::text::is_digit(s@[i as int]));
        assert(s@.take(i + 1).drop_last() =~= s@.take(i as int));
        let next: i128 = 10 * n + (c as u32 - 48) as i128;
        n = if next < EXPONENT_CAP {
            next
        } else {
            EXPONENT_CAP
        };
        i += 1;
    }
    assert(s@.take(s@.len() as int) =~= s@);
    n
}

/// `x` stands for the exponent `exact`: it is the same, or both are far out on the
/// same side.
spec fn stands_for(x: int, exact: int) -> bool {
    ||| x == exact
    ||| 2 * x >= EXPONENT_CAP && exact >= x
    ||| 2 * x <= -EXPONENT_CAP && exact <= x
}

/// The exponent that is written, with `places` taken off.
fn read_exponent(s: &Vec<char>, places: usize) -> (r: Option<i128>)
    ensures
        match r {
            Some(x) => {
                &&& exponent(s@) is Some
                &&& stands_for(x as int, exponent(s@)->0 - places)
                &&& -2 * EXPONENT_CAP <= x <= 2 * EXPONENT_CAP
            },
            None => exponent(s@) is None,
        },
{
    let digits: Vec<char> = drop_sign(s);
    if !is_digits(&digits) {
        return None;
    }
    let n: i128 = read_capped(&digits);
    if s.len() > 0 && s[0] == '-' {
        Some(-n - places as i128)
    } else {
        Some(n - places as i128)
    }
}

/// A number with so many digits before the point is too large for a double.
proof fn lemma_too_large(negative: bool, n: nat, len: nat, x: int)
    requires
        len > 0,
        n >= crate::power::pow10((len - 1) as nat),
        len - 1 + x >= 342,
    ensures
        decimal_number(negative, n, x) == (Number::Infinite { negative }),
{
    let p = crate::power::pow10((len - 1) as nat);
    let top = (len - 1 + x) as nat;
    let h = crate::power::pow10(top);
    let g = crate::power::pow2(1026);
    crate::power::lemma_pow10_above_pow2(342);
    crate::power::lemma_pow10_adds(342, (top - 342) as nat);
    crate::power::lemma_pow10((top - 342) as nat);
    let (a, b) = (crate::power::pow10(342), crate::power::pow10((top - 342) as nat));
    assert(a * b >= a) by (nonlinear_arith)
        requires
            b >= 1,
    ;
    assert(h >= g);
    let (t, d) = (tens(x), tens(-x));
    if x > 0 {
        crate::power::lemma_pow10_adds((len - 1) as nat, x as nat);
        assert((len - 1) as nat + x as nat == top);
        assert(p * t == h * d) by (nonlinear_arith)
            requires
                p * t == h,
                d == 1,
        ;
    } else if x < 0 {
        crate::power::lemma_pow10_adds(top, (-x) as nat);
        assert(top + (-x) as nat == (len - 1) as nat);
        assert(p * t == h * d) by (nonlinear_arith)
            requires
                p == h * d,
                t == 1,
        ;
    }
    let one = crate::power::pow2(1074);
    crate::power::lemma_pow2_adds(1026, 1074);
    crate::power::lemma_pow2_monotonic(2098, 2100);
    let far = crate::power::pow2(2098);
    crate::power::lemma_pow10((-x) as nat);
    assert((n * t) * one >= d * far) by (nonlinear_arith)
        requires
            n >= p,
            p * t == h * d,
            h >= g,
            far <= g * one,
            t >= 0,
            d >= 0,
            one >= 0,
    {
        assert(n * t >= p * t);
        assert(h * d >= g * d);
        assert((n * t) * one >= (g * d) * one);
        assert((g * d) * one == d * (g * one));
        assert(d * (g * one) >= d * far);
    }
    crate::number::lemma_nearest_far(negative, ((n * t) * one) as int, d as int);
}

/// A number with so many zeros after the point is nothing to a double.
proof fn lemma_too_small(negative: bool, n: nat, len: nat, x: int)
    requires
        n < crate::power::pow10(len),
        len + x <= -359,
    ensures
        decimal_number(negative, n, x) == (Number::Finite { negative, mantissa: 0, power: 0 }),
{
    let p = crate::power::pow10(len);
    let rest = (-x - len) as nat;
    crate::power::lemma_pow10_adds(len, rest);
    crate::power::lemma_pow10_adds(359, (rest - 359) as nat);
    crate::power::lemma_pow10_above_pow2(359);
    crate::power::lemma_pow10((rest - 359) as nat);
    crate::power::lemma_pow2_monotonic(1075, 1077);
    let (a, b) = (crate::power::pow10(359), crate::power::pow10((rest - 359) as nat));
    let (q, f) = (crate::power::pow10(rest), crate::power::pow2(1075));
    let (d, one) = (tens(-x), crate::power::pow2(1074));
    assert(a * b >= a) by (nonlinear_arith)
        requires
            b >= 1,
    ;
    assert(n * f <= p * q) by (nonlinear_arith)
        requires
            n <= p,
            f <= q,
    ;
    assert(len + rest == (-x) as nat);
    assert(2 * ((n * 1) * one) == n * f) by (nonlinear_arith)
        requires
            f == 2 * one,
    ;
    assert((n * 1) * one >= 0) by (nonlinear_arith);
    crate::power::lemma_pow10((-x) as nat);
    crate::number::lemma_nearest_nothing(negative, ((n * 1) * one) as int, d as int);
}

/// The whole part of `d / 10^zeros`, if it fits, and whether there is more.
fn split_point(d: &Vec<u8>, zeros: u128) -> (r: (Option<u128>, bool))
    requires
        crate::digits::digits(d@),
        crate::digits::trim(d@),
    ensures
        ({
            let (v, unit) = (crate::digits::value(d@), crate::power::pow10(zeros as nat));
            &&& match r.0 {
                Some(n) => n == v / unit,
                None => v / unit > u128::MAX,
            }
            &&& r.1 == (v % unit != 0)
        }),
{
    if zeros >= d.len() as u128 {
        proof {
            crate::digits::lemma_value_below(d@, zeros as nat);
            vstd::arithmetic::div_mod::lemma_basic_div(
                crate::digits::value(d@) as int,
                crate::power::pow10(zeros as nat) as int,
            );
            vstd::arithmetic::div_mod::lemma_small_mod(
                crate::digits::value(d@),
                crate::power::pow10(zeros as nat),
            );
        }
        return (Some(0), !at_most(d, &digits_of(0)));
    }
    let k: usize = zeros as usize;
    let low: Vec<u8> = low_part(d, k);
    (to_u128(&high_part(d, k)), !at_most(&low, &digits_of(0)))
}

/// Halving once more: five times the digits, and one more of them after the point.
proof fn lemma_halved(v: nat, v0: nat, f: nat, u: nat, u0: nat)
    requires
        (v * f) * u0 == v0 * u,
    ensures
        ((v * 5) * (2 * f)) * u0 == v0 * (10 * u),
{
    assert(((v * 5) * (2 * f)) * u0 == 10 * ((v * f) * u0)) by (nonlinear_arith);
    assert(v0 * (10 * u) == 10 * (v0 * u)) by (nonlinear_arith);
}

/// Two quotients of one number have the same whole part, and both leave something
/// over or neither does.
proof fn lemma_same_quotient(x: int, y: int, a: int, b: int)
    requires
        x >= 0,
        y > 0,
        a >= 0,
        b > 0,
        x * b == a * y,
    ensures
        x / y == a / b,
        (x % y != 0) == (a % b != 0),
{
    crate::number::lemma_cancel_factor(x, y, b);
    crate::number::lemma_cancel_factor(a, b, y);
    assert(y * b == b * y) by (nonlinear_arith);
}

/// What the halved or doubled digits say is what the rounding takes.
proof fn lemma_digits_scaled(v0: nat, u0: nat, v: nat, u: nat, h: nat, j: nat)
    requires
        u0 > 0,
        u > 0,
        j <= 1075 + h,
        (v * crate::power::pow2(h)) * u0 == (v0 * u) * crate::power::pow2(j),
    ensures
        crate::number::scaled(
            (v0 * crate::power::pow2(1074)) as int,
            u0 as int,
            (v / u) as int,
            v % u != 0,
            1075 + h - j,
        ),
{
    let shift = (1075 + h - j) as nat;
    let (f, g, w) = (crate::power::pow2(h), crate::power::pow2(j), crate::power::pow2(shift));
    let one = crate::power::pow2(1074);
    let e = crate::power::pow2(1075);
    crate::power::lemma_pow2_adds(shift, j);
    crate::power::lemma_pow2_adds(1075, h);
    crate::power::lemma_pow2_positive(j);
    crate::power::lemma_pow2_positive(shift);
    assert(shift + j == 1075 + h);
    let a = 2 * (v0 * one);
    let b = u0 * w;
    assert(a == v0 * e) by (nonlinear_arith)
        requires
            a == 2 * (v0 * one),
            e == 2 * one,
    ;
    assert((v * b) * g == (a * u) * g) by (nonlinear_arith)
        requires
            b == u0 * w,
            a == v0 * e,
            w * g == e * f,
            (v * f) * u0 == (v0 * u) * g,
    {
        assert((v * (u0 * w)) * g == (v * u0) * (w * g));
        assert((v * u0) * (e * f) == ((v * f) * u0) * e);
        assert(((v0 * u) * g) * e == ((v0 * e) * u) * g);
    }
    assert(v * b == a * u) by (nonlinear_arith)
        requires
            (v * b) * g == (a * u) * g,
            g > 0,
    ;
    assert(b > 0) by (nonlinear_arith)
        requires
            b == u0 * w,
            u0 > 0,
            w > 0,
    ;
    lemma_same_quotient(v as int, u as int, a as int, b as int);
}

/// A number that is still too large after so many halvings is too large for a
/// double.
proof fn lemma_never_fits(negative: bool, v0: nat, u0: nat, v: nat, u: nat)
    requires
        u0 > 0,
        u > 0,
        (v * crate::power::pow2(2000)) * u0 == v0 * u,
        v / u > u128::MAX,
    ensures
        nearest(negative, (v0 * crate::power::pow2(1074)) as int, u0 as int) == (
        Number::Infinite { negative }),
{
    let f = crate::power::pow2(2000);
    let (one, far) = (crate::power::pow2(1074), crate::power::pow2(2098));
    crate::power::lemma_pow2_adds(2000, 1074);
    crate::power::lemma_pow2_monotonic(2098, 3074);
    vstd::arithmetic::div_mod::lemma_fundamental_div_mod(v as int, u as int);
    let q = v / u;
    assert(v >= u) by (nonlinear_arith)
        requires
            v == u * q + v % u,
            v % u >= 0,
            q >= 1,
    ;
    assert(v0 * u >= (u * f) * u0) by (nonlinear_arith)
        requires
            (v * f) * u0 == v0 * u,
            v >= u,
    ;
    assert(v0 >= f * u0) by (nonlinear_arith)
        requires
            v0 * u >= (u * f) * u0,
            u > 0,
    ;
    assert(v0 * one >= u0 * far) by (nonlinear_arith)
        requires
            v0 >= f * u0,
            far <= f * one,
    {
        assert(v0 * one >= (f * u0) * one);
        assert((f * u0) * one == u0 * (f * one));
        assert(u0 * (f * one) >= u0 * far);
    }
    crate::number::lemma_nearest_far(negative, (v0 * one) as int, u0 as int);
}

/// The double nearest to `digits / 10^zeros`.
fn round_digits(negative: bool, digits: Vec<u8>, zeros: u128) -> (r: Number)
    requires
        crate::digits::digits(digits@),
        crate::digits::trim(digits@),
        zeros <= 0xffff_ffff_ffff_ffff_ffff,
    ensures
        r == nearest(
            negative,
            (crate::digits::value(digits@) * crate::power::pow2(1074)) as int,
            crate::power::pow10(zeros as nat) as int,
        ),
        r.wf(),
{
    let ghost v0 = crate::digits::value(digits@);
    let ghost u0 = crate::power::pow10(zeros as nat);
    let mut d: Vec<u8> = digits;
    let mut z: u128 = zeros;
    let mut h: u32 = 0;
    let mut split: (Option<u128>, bool) = split_point(&d, z);
    proof {
        crate::power::lemma_pow10(zeros as nat);
        assert((v0 * 1) * u0 == v0 * u0) by (nonlinear_arith);
    }
    while split.0.is_none() && h < 2000
        invariant
            crate::digits::digits(d@),
            crate::digits::trim(d@),
            h <= 2000,
            z == zeros + h,
            zeros <= 0xffff_ffff_ffff_ffff_ffff,
            (crate::digits::value(d@) * crate::power::pow2(h as nat)) * u0 == v0
                * crate::power::pow10(z as nat),
            match split.0 {
                Some(n) => n == crate::digits::value(d@) / crate::power::pow10(z as nat),
                None => crate::digits::value(d@) / crate::power::pow10(z as nat) > u128::MAX,
            },
            split.1 == (crate::digits::value(d@) % crate::power::pow10(z as nat) != 0),
        decreases 2000 - h,
    {
        proof {
            lemma_halved(
                crate::digits::value(d@),
                v0,
                crate::power::pow2(h as nat),
                crate::power::pow10(z as nat),
                u0,
            );
        }
        d = multiply(&d, 5);
        z += 1;
        h += 1;
        split = split_point(&d, z);
    }
    let ghost u = crate::power::pow10(z as nat);
    proof {
        crate::power::lemma_pow10(z as nat);
    }
    if split.0.is_none() {
        proof {
            lemma_never_fits(negative, v0, u0, crate::digits::value(d@), u);
        }
        return Number::Infinite { negative };
    }
    let mut j: u32 = 0;
    proof {
        let rhs = v0 * u;
        assert(rhs * 1 == rhs) by (nonlinear_arith);
    }
    while split.0.is_some() && split.0.unwrap_or(0) < 0x1_0000_0000_0000_0000 && j < 1075 + h
        invariant
            crate::digits::digits(d@),
            crate::digits::trim(d@),
            h <= 2000,
            j <= 1075 + h,
            u == crate::power::pow10(z as nat),
            (crate::digits::value(d@) * crate::power::pow2(h as nat)) * u0 == (v0 * u)
                * crate::power::pow2(j as nat),
            split.0 is Some,
            split.0->0 == crate::digits::value(d@) / u,
            split.1 == (crate::digits::value(d@) % u != 0),
            u > 0,
        decreases 1075 + h - j,
    {
        let ghost v = crate::digits::value(d@);
        let ghost (f, g) = (crate::power::pow2(h as nat), crate::power::pow2(j as nat));
        proof {
            assert(((v * 2) * f) * u0 == (v0 * u) * (2 * g)) by (nonlinear_arith)
                requires
                    (v * f) * u0 == (v0 * u) * g,
            {
                assert(((v * 2) * f) * u0 == 2 * ((v * f) * u0));
                assert((v0 * u) * (2 * g) == 2 * ((v0 * u) * g));
            }
            vstd::arithmetic::div_mod::lemma_fundamental_div_mod(v as int, u as int);
            let q = (v / u) as int;
            assert((v * 2) / u <= 2 * q + 1) by (nonlinear_arith)
                requires
                    v == u * q + v % u,
                    v % u < u,
                    u > 0,
            {
                vstd::arithmetic::div_mod::lemma_fundamental_div_mod((v * 2) as int, u as int);
            }
        }
        d = multiply(&d, 2);
        j += 1;
        split = split_point(&d, z);
    }
    let n: u128 = split.0.unwrap_or(0);
    proof {
        lemma_digits_scaled(v0, u0, crate::digits::value(d@), u, h as nat, j as nat);
        let one = crate::power::pow2(1074);
        assert(v0 * one >= 0) by (nonlinear_arith);
    }
    round_scaled(
        negative,
        n,
        split.1,
        1075 + h as i32 - j as i32,
        Ghost((v0 * crate::power::pow2(1074)) as int),
        Ghost(u0 as int),
    )
}

/// The double nearest to `n` times ten to the power of `x`.
fn round_decimal(negative: bool, n: Vec<u8>, x: i128, Ghost(exact): Ghost<int>) -> (r: Number)
    requires
        crate::digits::digits(n@),
        crate::digits::trim(n@),
        stands_for(x as int, exact),
        -2 * EXPONENT_CAP <= x <= 2 * EXPONENT_CAP,
    ensures
        r == decimal_number(negative, crate::digits::value(n@), exact),
        r.wf(),
{
    let ghost v = crate::digits::value(n@);
    if n.len() == 1 && n[0] == 0 {
        proof {
            reveal_with_fuel(crate::digits::value, 2);
            let (t, one) = (tens(exact), crate::power::pow2(1074));
            crate::power::lemma_pow10((-exact) as nat);
            assert((0 * t) * one == 0) by (nonlinear_arith);
            crate::number::lemma_nearest_nothing(negative, 0, tens(-exact) as int);
        }
        return Number::Finite { negative, mantissa: 0, power: 0 };
    }
    proof {
        crate::digits::lemma_value_bounds(n@);
    }
    let len: i128 = n.len() as i128;
    if len - 1 + x >= 342 {
        proof {
            lemma_too_large(negative, v, n@.len(), exact);
        }
        return Number::Infinite { negative };
    }
    if len + x <= -359 {
        proof {
            lemma_too_small(negative, v, n@.len(), exact);
        }
        return Number::Finite { negative, mantissa: 0, power: 0 };
    }
    assert(x == exact);
    let (up, zeros): (u128, u128) = if x >= 0 {
        (x as u128, 0)
    } else {
        (0, (-x) as u128)
    };
    proof {
        assert(crate::power::pow10(up as nat) == tens(x as int));
        assert(crate::power::pow10(zeros as nat) == tens(-x as int));
    }
    round_digits(negative, shifted(&n, up), zeros)
}

/// What `s` stands for, if it is a numeral.
pub fn read_numeral(s: &Vec<char>) -> (r: Option<Number>)
    ensures
        r == numeral(s@),
        r matches Some(x) ==> x.wf(),
{
    let negative: bool = s.len() > 0 && s[0] == '-';
    let body: Vec<char> = lower_chars(&drop_sign(s));
    if same_text(&body, &to_chars("inf")) || same_text(&body, &to_chars("infinity")) {
        return Some(Number::Infinite { negative });
    }
    if same_text(&body, &to_chars("nan")) {
        return Some(Number::NotANumber);
    }
    let halves: Vec<Vec<char>> = split_at(&body, 'e');
    let ghost texts = halves@.map_values(|p: Vec<char>| p@);
    if halves.len() == 0 || halves.len() > 2 {
        return None;
    }
    assert(texts[0] == halves@[0]@);
    match read_coefficient(&halves[0]) {
        None => None,
        Some((n, places)) => {
            let ghost exact = (decimal_parts(body@)->0).1;
            if halves.len() == 1 {
                let x: i128 = -(places as i128);
                return Some(round_decimal(negative, n, x, Ghost(exact)));
            }
            assert(texts[1] == halves@[1]@);
            match read_exponent(&halves[1], places) {
                None => None,
                Some(x) => Some(round_decimal(negative, n, x, Ghost(exact))),
            }
        },
    }
}

// ---------------------------------------------------------------------------
// Laws
// ---------------------------------------------------------------------------

/// A whole number that is written in digits alone is read as the double nearest to
/// it.
pub proof fn lemma_whole_numeral(n: nat)
    ensures
        numeral(crate::text::decimal(n)) == Some(Number::whole(n as int)),
{
    let s = crate::text::decimal(n);
    crate::text::lemma_decimal_digits(n);
    crate::text::lemma_decimal_value(n);
    assert(crate::text::is_digit(s[0]));
    assert forall|i: int| 0 <= i < s.len() implies lower(#[trigger] s[i]) == s[i] by {
        assert(crate::text::is_digit(s[i]));
    }
    assert(lowered(s) =~= s);
    assert(crate::text::free_of(s, 'e') && crate::text::free_of(s, '.')) by {
        assert forall|i: int| 0 <= i < s.len() implies crate::text::is_digit(#[trigger] s[i]) by {}
    }
    crate::text::lemma_pieces_of_free(s, 'e');
    crate::text::lemma_pieces_of_free(s, '.');
    reveal_strlit("inf");
    reveal_strlit("infinity");
    reveal_strlit("nan");
    assert("inf"@[0] == 'i' && "infinity"@[0] == 'i' && "nan"@[0] == 'n');
    assert(decimal_parts(s) == Some((n, 0int)));
    assert(n * 1 == n) by (nonlinear_arith);
}

} // verus!
