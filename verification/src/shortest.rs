//! The shortest text that tells a double from its neighbours.
//!
//! A double stands for every number that is nearer to it than to any other
//! double.  Of all decimal numbers in that range the one with the fewest digits
//! is written; of two with equally few, the nearer.

use crate::digits::{
    at_most, digits_of, high_part, low_part, multiply, power_of_ten, push_digits, push_low_digits,
    sum,
};
use crate::number::{Number, MANTISSA_END, MANTISSA_NORMAL, POWER_MAX};
use vstd::prelude::*;

verus! {

/// Five to the power of `k`.
pub open spec fn pow5(k: nat) -> nat
    decreases k,
{
    if k == 0 {
        1
    } else {
        5 * pow5((k - 1) as nat)
    }
}

/// How many decimals it takes to write a quarter of the last bit of a mantissa
/// exactly.
pub open spec fn exact_decimals(power: nat) -> nat {
    if power < 1076 {
        (1076 - power) as nat
    } else {
        0
    }
}

/// A quarter of the last bit of a mantissa, in units of the last of those
/// decimals.
pub open spec fn exact_quarter(power: nat) -> nat {
    if power < 1076 {
        pow5((1076 - power) as nat)
    } else {
        crate::power::pow2((power - 1076) as nat)
    }
}

/// Something at this distance is within reach.
pub open spec fn reaches(distance: int, reach: int, closed: bool) -> bool {
    distance < reach || (closed && distance == reach)
}

/// Without its last `c` digits, rounded down or up, `a` stays within reach.
pub open spec fn cut_fits(a: int, below: int, above: int, closed: bool, c: nat) -> bool {
    let unit = crate::power::pow10(c) as int;
    reaches(a % unit, below, closed) || reaches(unit - a % unit, above, closed)
}

/// The most digits, up to `n`, that can be cut off.
pub open spec fn largest_cut(a: int, below: int, above: int, closed: bool, n: nat) -> nat
    decreases n,
{
    if n == 0 || cut_fits(a, below, above, closed, n) {
        n
    } else {
        largest_cut(a, below, above, closed, (n - 1) as nat)
    }
}

/// `a` without its last `c` digits, rounded to stay within reach: up or down,
/// whichever fits, and to the nearer one when both do.
pub open spec fn cut(a: int, below: int, above: int, closed: bool, c: nat) -> int {
    let unit = crate::power::pow10(c) as int;
    let rest = a % unit;
    let down = reaches(rest, below, closed);
    let up = reaches(unit - rest, above, closed);
    if up && (!down || 2 * rest >= unit) {
        a / unit + 1
    } else {
        a / unit
    }
}

/// `d * 10^c / 10^s`, written out.
pub open spec fn placed(d: nat, c: nat, s: nat) -> Seq<char> {
    if c >= s {
        crate::text::decimal(d * crate::power::pow10((c - s) as nat))
    } else {
        crate::number::point_text(d, (s - c) as nat)
    }
}

/// The shortest text of a double other than zero.
pub open spec fn shortest_digits(mantissa: nat, power: nat) -> Seq<char> {
    let quarter = exact_quarter(power) as int;
    let a = 4 * mantissa * quarter;
    let below = if mantissa == MANTISSA_NORMAL {
        quarter
    } else {
        2 * quarter
    };
    let above = 2 * quarter;
    let closed = mantissa % 2 == 0;
    let c = largest_cut(a, below, above, closed, crate::text::decimal(a as nat).len());
    placed(cut(a, below, above, closed, c) as nat, c, exact_decimals(power))
}

impl Number {
    /// The shortest text that tells a double from its neighbours.
    pub open spec fn shortest_text(self) -> Seq<char> {
        match self {
            Number::NotANumber => "NaN"@,
            Number::Infinite { negative } => if negative {
                "-inf"@
            } else {
                "inf"@
            },
            Number::Finite { negative, mantissa, power } => {
                let text = if mantissa == 0 {
                    seq!['0']
                } else {
                    shortest_digits(mantissa as nat, power as nat)
                };
                if negative {
                    seq!['-'] + text
                } else {
                    text
                }
            },
        }
    }

    /// Appends the shortest text that tells a double from its neighbours.
    pub fn push_shortest(self, out: &mut String)
        requires
            self.wf(),
        ensures
            final(out)@ == old(out)@ + self.shortest_text(),
    {
        match self {
            Number::NotANumber => {
                out.append("NaN");
            },
            Number::Infinite { negative } => {
                if negative {
                    out.append("-inf");
                } else {
                    out.append("inf");
                }
            },
            Number::Finite { negative, mantissa, power } => {
                if negative {
                    out.push('-');
                }
                if mantissa == 0 {
                    out.push('0');
                } else {
                    push_shortest_digits(out, mantissa, power);
                }
                assert(out@ =~= old(out)@ + self.shortest_text());
            },
        }
    }

    /// The shortest text that tells a double from its neighbours.
    pub fn shortest(self) -> (r: String)
        requires
            self.wf(),
        ensures
            r@ == self.shortest_text(),
    {
        let mut r: String = String::new();
        self.push_shortest(&mut r);
        assert(r@ =~= self.shortest_text());
        r
    }
}

/// `n` times a quarter of the last bit of a mantissa.
fn exact_digits(n: u64, power: u32) -> (r: Vec<u8>)
    requires
        power <= POWER_MAX,
    ensures
        crate::digits::digits(r@),
        crate::digits::trim(r@),
        crate::digits::value(r@) == n * exact_quarter(power as nat),
        r@.len() <= 1200,
{
    let mut r: Vec<u8> = digits_of(n);
    let mut i: u32 = 0;
    assert(n * 1 == n) by (nonlinear_arith);
    if power < 1076 {
        let s: u32 = 1076 - power;
        while i < s
            invariant
                i <= s <= 1076,
                crate::digits::digits(r@),
                crate::digits::trim(r@),
                crate::digits::value(r@) == n * pow5(i as nat),
                r@.len() <= 20 + i,
            decreases s - i,
        {
            let ghost f = pow5(i as nat);
            assert((n * f) * 5 == n * (5 * f)) by (nonlinear_arith);
            r = multiply(&r, 5);
            i += 1;
        }
    } else {
        let s: u32 = power - 1076;
        while i < s
            invariant
                i <= s <= 1000,
                crate::digits::digits(r@),
                crate::digits::trim(r@),
                crate::digits::value(r@) == n * crate::power::pow2(i as nat),
                r@.len() <= 20 + i,
            decreases s - i,
        {
            let ghost f = crate::power::pow2(i as nat);
            assert((n * f) * 2 == n * (2 * f)) by (nonlinear_arith);
            r = multiply(&r, 2);
            i += 1;
        }
    }
    r
}

/// What is left below a cut, and whether rounding down and rounding up stay within
/// reach.
fn test_cut(a: &Vec<u8>, below: &Vec<u8>, above: &Vec<u8>, closed: bool, c: usize) -> (r: (
    bool,
    bool,
    bool,
))
    requires
        crate::digits::digits(a@),
        crate::digits::digits(below@),
        crate::digits::digits(above@),
        a@.len() <= 1200,
        above@.len() <= 1200,
        c <= 1200,
    ensures
        ({
            let unit = crate::power::pow10(c as nat) as int;
            let rest = crate::digits::value(a@) as int % unit;
            &&& r.0 == reaches(rest, crate::digits::value(below@) as int, closed)
            &&& r.1 == reaches(unit - rest, crate::digits::value(above@) as int, closed)
            &&& r.2 == (2 * rest >= unit)
        }),
{
    let rest: Vec<u8> = low_part(a, c);
    let unit: Vec<u8> = power_of_ten(c);
    let reach: Vec<u8> = sum(&rest, above);
    let twice: Vec<u8> = sum(&rest, &rest);
    let down: bool = if closed {
        at_most(&rest, below)
    } else {
        !at_most(below, &rest)
    };
    let up: bool = if closed {
        at_most(&unit, &reach)
    } else {
        !at_most(&reach, &unit)
    };
    (down, up, at_most(&unit, &twice))
}

/// Appends `d * 10^c / 10^s`, written out.
fn push_placed(out: &mut String, d: &Vec<u8>, c: usize, s: usize)
    requires
        crate::digits::digits(d@),
        crate::digits::trim(d@),
        c <= 1200,
        s <= 1200,
    ensures
        final(out)@ == old(out)@ + placed(crate::digits::value(d@), c as nat, s as nat),
{
    if c >= s {
        let mut e: Vec<u8> = high_part(d, 0);
        let mut i: usize = s;
        proof {
            let v = crate::digits::value(d@);
            assert(crate::power::pow10(0) == 1);
            assert(v * 1 == v) by (nonlinear_arith);
        }
        while i < c
            invariant
                s <= i <= c,
                crate::digits::digits(e@),
                crate::digits::trim(e@),
                crate::digits::value(e@) == crate::digits::value(d@) * crate::power::pow10(
                    (i - s) as nat,
                ),
            decreases c - i,
        {
            let ghost v = crate::digits::value(d@);
            let ghost f = crate::power::pow10((i - s) as nat);
            assert((v * f) * 10 == v * (10 * f)) by (nonlinear_arith);
            e = multiply(&e, 10);
            i += 1;
        }
        push_digits(out, &e);
    } else {
        let k: usize = s - c;
        let whole: Vec<u8> = high_part(d, k);
        let fraction: Vec<u8> = low_part(d, k);
        push_digits(out, &whole);
        out.push('.');
        push_low_digits(out, &fraction, 0, k);
        assert(fraction@.skip(0) =~= fraction@);
        assert(out@ =~= old(out)@ + placed(crate::digits::value(d@), c as nat, s as nat));
    }
}

/// Appends the shortest text of a double other than zero.
fn push_shortest_digits(out: &mut String, mantissa: u64, power: u32)
    requires
        0 < mantissa < MANTISSA_END,
        power <= POWER_MAX,
    ensures
        final(out)@ == old(out)@ + shortest_digits(mantissa as nat, power as nat),
{
    let ghost quarter = exact_quarter(power as nat) as int;
    let a: Vec<u8> = exact_digits(4 * mantissa, power);
    let below: Vec<u8> = exact_digits(
        if mantissa == MANTISSA_NORMAL {
            1
        } else {
            2
        },
        power,
    );
    let above: Vec<u8> = exact_digits(2, power);
    let closed: bool = mantissa % 2 == 0;
    let ghost x = crate::digits::value(a@) as int;
    let ghost lo = crate::digits::value(below@) as int;
    let ghost hi = crate::digits::value(above@) as int;
    proof {
        assert((4 * mantissa) * quarter == 4 * mantissa * quarter);
        assert(1 * quarter == quarter) by (nonlinear_arith);
        crate::digits::lemma_decimal_len(a@);
    }
    let mut c: usize = a.len();
    let mut tested: (bool, bool, bool) = test_cut(&a, &below, &above, closed, c);
    while c > 0 && !tested.0 && !tested.1
        invariant
            crate::digits::digits(a@),
            crate::digits::digits(below@),
            crate::digits::digits(above@),
            a@.len() <= 1200,
            above@.len() <= 1200,
            c <= a@.len(),
            x == crate::digits::value(a@),
            lo == crate::digits::value(below@),
            hi == crate::digits::value(above@),
            largest_cut(x, lo, hi, closed, a@.len()) == largest_cut(x, lo, hi, closed, c as nat),
            ({
                let unit = crate::power::pow10(c as nat) as int;
                let rest = x % unit;
                &&& tested.0 == reaches(rest, lo, closed)
                &&& tested.1 == reaches(unit - rest, hi, closed)
                &&& tested.2 == (2 * rest >= unit)
            }),
        decreases c,
    {
        c -= 1;
        tested = test_cut(&a, &below, &above, closed, c);
    }
    let floor: Vec<u8> = high_part(&a, c);
    let d: Vec<u8> = if tested.1 && (!tested.0 || tested.2) {
        sum(&floor, &digits_of(1))
    } else {
        floor
    };
    let s: usize = if power < 1076 {
        (1076 - power) as usize
    } else {
        0
    };
    push_placed(out, &d, c, s);
}

// ---------------------------------------------------------------------------
// Laws
// ---------------------------------------------------------------------------

/// The exact decimals are exact: `4 * mantissa` quarters, with as many decimals as
/// they take, are the double.
pub proof fn lemma_exact_decimals(mantissa: nat, power: nat)
    ensures
        (4 * mantissa * exact_quarter(power)) * crate::power::pow2(1074) == (mantissa
            * crate::power::pow2(power)) * crate::power::pow10(exact_decimals(power)),
{
    let one = crate::power::pow2(1074);
    let steps = crate::power::pow2(power);
    assert(crate::power::pow2(1075) == 2 * one && crate::power::pow2(1076) == 4 * one);
    if power < 1076 {
        let s = (1076 - power) as nat;
        let (five, two) = (pow5(s), crate::power::pow2(s));
        lemma_pow10_splits(s);
        crate::power::lemma_pow2_adds(power, s);
        assert((4 * mantissa * five) * one == (mantissa * steps) * (two * five))
            by (nonlinear_arith)
            requires
                4 * one == steps * two,
        ;
    } else {
        let s = (power - 1076) as nat;
        let two = crate::power::pow2(s);
        crate::power::lemma_pow2_adds(1076, s);
        assert((4 * mantissa * two) * one == (mantissa * steps) * 1) by (nonlinear_arith)
            requires
                steps == (4 * one) * two,
        ;
    }
}

/// Ten is two times five, to any power.
proof fn lemma_pow10_splits(k: nat)
    ensures
        crate::power::pow10(k) == crate::power::pow2(k) * pow5(k),
    decreases k,
{
    if k > 0 {
        lemma_pow10_splits((k - 1) as nat);
        let (two, five) = (crate::power::pow2((k - 1) as nat), pow5((k - 1) as nat));
        assert(10 * (two * five) == (2 * two) * (5 * five)) by (nonlinear_arith);
    } else {
        assert(crate::power::pow2(0) == 1 && pow5(0) == 1);
    }
}

/// What is written stays within reach of the double: it is less than half-way to
/// either neighbour, or half-way where that still reads as this double.
pub proof fn lemma_cut_within_reach(a: int, below: int, above: int, closed: bool, n: nat)
    requires
        a >= 0,
        below > 0,
        above > 0,
    ensures
        ({
            let c = largest_cut(a, below, above, closed, n);
            let written = cut(a, below, above, closed, c) * crate::power::pow10(c);
            if written <= a {
                reaches(a - written, below, closed)
            } else {
                reaches(written - a, above, closed)
            }
        }),
{
    lemma_largest_cut_fits(a, below, above, closed, n);
    let c = largest_cut(a, below, above, closed, n);
    let unit = crate::power::pow10(c) as int;
    crate::power::lemma_pow10(c);
    vstd::arithmetic::div_mod::lemma_fundamental_div_mod(a, unit);
    let q = a / unit;
    assert(unit * q == q * unit) by (nonlinear_arith);
    assert((q + 1) * unit == q * unit + unit) by (nonlinear_arith);
}

proof fn lemma_largest_cut_fits(a: int, below: int, above: int, closed: bool, n: nat)
    requires
        a >= 0,
        below > 0,
    ensures
        cut_fits(a, below, above, closed, largest_cut(a, below, above, closed, n)),
    decreases n,
{
    if n == 0 {
        assert(a % 1 == 0);
    } else if !cut_fits(a, below, above, closed, n) {
        lemma_largest_cut_fits(a, below, above, closed, (n - 1) as nat);
    }
}

/// No more digits could have been cut off.
pub proof fn lemma_cut_is_largest(a: int, below: int, above: int, closed: bool, n: nat, c: nat)
    requires
        largest_cut(a, below, above, closed, n) < c <= n,
    ensures
        !cut_fits(a, below, above, closed, c),
    decreases n,
{
    if c < n {
        lemma_cut_is_largest(a, below, above, closed, (n - 1) as nat, c);
    }
}

} // verus!
