//! How doubles are ordered, and that rounding keeps the order.

use crate::number::{half_even, nearest, packed, Number, MANTISSA_END, MANTISSA_NORMAL};
use vstd::prelude::*;

verus! {

// ---------------------------------------------------------------------------
// The order itself
// ---------------------------------------------------------------------------

/// Of two numbers, one is at most the other.
pub proof fn lemma_at_most_total(a: Number, b: Number)
    requires
        !(a is NotANumber),
        !(b is NotANumber),
    ensures
        a.at_most(b) || b.at_most(a),
{
}

/// The order is transitive.
pub proof fn lemma_at_most_transitive(a: Number, b: Number, c: Number)
    requires
        a.at_most(b),
        b.at_most(c),
    ensures
        a.at_most(c),
{
}

/// The smaller of two numbers is at most each of them.
pub proof fn lemma_lesser(a: Number, b: Number)
    ensures
        a is NotANumber || a.lesser(b).at_most(a),
        b is NotANumber || a.lesser(b).at_most(b),
{
}

// ---------------------------------------------------------------------------
// Rounding
// ---------------------------------------------------------------------------

/// The power at which the rounding of `num / den` steps stops, from `j` on.
proof fn lemma_power_from(num: int, den: int, j: nat) -> (p: nat)
    requires
        num >= 0,
        den > 0,
        j > 0 ==> num >= den * crate::power::pow2((j - 1) as nat) * MANTISSA_END,
    ensures
        num < den * crate::power::pow2(p) * MANTISSA_END,
        p > 0 ==> num >= den * crate::power::pow2((p - 1) as nat) * MANTISSA_END,
    decreases num - den * crate::power::pow2(j),
{
    let d = den * crate::power::pow2(j);
    crate::power::lemma_pow2_positive(j);
    assert(d > 0) by (nonlinear_arith)
        requires
            d == den * crate::power::pow2(j),
            den > 0,
            crate::power::pow2(j) > 0,
    ;
    if num < d * MANTISSA_END {
        j
    } else {
        let f = crate::power::pow2(j) as int;
        assert(den * crate::power::pow2(j + 1) == 2 * d) by (nonlinear_arith)
            requires
                d == den * f,
                crate::power::pow2(j + 1) == 2 * f,
        ;
        lemma_power_from(num, den, j + 1)
    }
}

/// What rounding makes of `num / den` steps: `q` full units of `2^p` steps.
proof fn lemma_rounded(negative: bool, num: int, den: int) -> (r: (int, nat))
    requires
        num >= 0,
        den > 0,
    ensures
        ({
            let (q, p) = r;
            &&& num < den * crate::power::pow2(p) * MANTISSA_END
            &&& p > 0 ==> num >= den * crate::power::pow2((p - 1) as nat) * MANTISSA_END
            &&& q == half_even(num, den * crate::power::pow2(p))
            &&& 0 <= q <= MANTISSA_END
            &&& p > 0 ==> q >= MANTISSA_NORMAL
            &&& nearest(negative, num, den) == packed(negative, q, p as int)
            &&& nearest(negative, num, den) matches Number::Finite {
                negative: s,
                mantissa,
                power,
            } ==> nearest(negative, num, den).steps() == q * crate::power::pow2(p)
        }),
{
    let p = lemma_power_from(num, den, 0);
    let d = den * crate::power::pow2(p);
    let q = half_even(num, d);
    crate::power::lemma_pow2_positive(p);
    assert(d > 0) by (nonlinear_arith)
        requires
            d == den * crate::power::pow2(p),
            den > 0,
            crate::power::pow2(p) > 0,
    ;
    assert(den * crate::power::pow2(0) == den) by (nonlinear_arith)
        requires
            crate::power::pow2(0) == 1,
    ;
    crate::number::lemma_nearest_stops_at(negative, num, den, 0, p);
    vstd::arithmetic::div_mod::lemma_fundamental_div_mod(num, d);
    let (w, rest) = (num / d, num % d);
    assert(0 <= w < MANTISSA_END) by (nonlinear_arith)
        requires
            num == d * w + rest,
            0 <= rest < d,
            0 <= num < d * MANTISSA_END,
            d > 0,
    ;
    if p > 0 {
        let g = crate::power::pow2((p - 1) as nat) as int;
        assert(2 * num >= d * MANTISSA_END) by (nonlinear_arith)
            requires
                num >= den * g * MANTISSA_END,
                d == den * (2 * g),
        ;
        assert(w >= MANTISSA_NORMAL) by (nonlinear_arith)
            requires
                2 * num >= d * MANTISSA_END,
                num == d * w + rest,
                rest < d,
                d > 0,
                MANTISSA_END == 2 * MANTISSA_NORMAL,
        ;
    }
    let f = crate::power::pow2(p) as int;
    assert(MANTISSA_NORMAL * (2 * f) == MANTISSA_END * f) by (nonlinear_arith)
        requires
            MANTISSA_END == 2 * MANTISSA_NORMAL,
    ;
    (q, p)
}

/// Rounding to a whole number keeps the order.
proof fn lemma_half_even_monotonic(a1: int, b1: int, a2: int, b2: int)
    requires
        a1 >= 0,
        b1 > 0,
        a2 >= 0,
        b2 > 0,
        a1 * b2 <= a2 * b1,
    ensures
        half_even(a1, b1) <= half_even(a2, b2),
{
    let (q1, r1, q2, r2) = (a1 / b1, a1 % b1, a2 / b2, a2 % b2);
    vstd::arithmetic::div_mod::lemma_fundamental_div_mod(a1, b1);
    vstd::arithmetic::div_mod::lemma_fundamental_div_mod(a2, b2);
    let both = b1 * b2;
    assert(both > 0) by (nonlinear_arith)
        requires
            both == b1 * b2,
            b1 > 0,
            b2 > 0,
    ;
    assert(a1 * b2 == q1 * both + r1 * b2) by (nonlinear_arith)
        requires
            a1 == b1 * q1 + r1,
            both == b1 * b2,
    ;
    assert(a2 * b1 == q2 * both + r2 * b1) by (nonlinear_arith)
        requires
            a2 == b2 * q2 + r2,
            both == b1 * b2,
    ;
    assert(0 <= r1 * b2 && r2 * b1 < both) by (nonlinear_arith)
        requires
            0 <= r1,
            0 <= r2 < b2,
            b1 > 0,
            b2 > 0,
            both == b1 * b2,
    ;
    assert(q1 <= q2) by (nonlinear_arith)
        requires
            q1 * both + r1 * b2 <= q2 * both + r2 * b1,
            0 <= r1 * b2,
            r2 * b1 < both,
            both > 0,
    ;
    if q1 == q2 {
        assert(r1 * b2 <= r2 * b1);
        assert(2 * r1 > b1 ==> 2 * r2 > b2) by (nonlinear_arith)
            requires
                r1 * b2 <= r2 * b1,
                b1 > 0,
                b2 > 0,
        ;
        assert(2 * r1 == b1 ==> 2 * r2 >= b2) by (nonlinear_arith)
            requires
                r1 * b2 <= r2 * b1,
                b1 > 0,
                b2 > 0,
        ;
    }
}

/// Rounding keeps the order: of two numbers that are not negative, the double
/// nearest to the smaller is at most the double nearest to the larger.
pub proof fn lemma_nearest_monotonic(n1: int, d1: int, n2: int, d2: int)
    requires
        n1 >= 0,
        d1 > 0,
        n2 >= 0,
        d2 > 0,
        n1 * d2 <= n2 * d1,
    ensures
        nearest(false, n1, d1).at_most(nearest(false, n2, d2)),
{
    let (q1, p1) = lemma_rounded(false, n1, d1);
    let (q2, p2) = lemma_rounded(false, n2, d2);
    let (f1, f2) = (crate::power::pow2(p1) as int, crate::power::pow2(p2) as int);
    crate::power::lemma_pow2_positive(p1);
    crate::power::lemma_pow2_positive(p2);
    if p1 > p2 {
        let g = crate::power::pow2((p1 - 1) as nat) as int;
        crate::power::lemma_pow2_monotonic(p2, (p1 - 1) as nat);
        assert(n1 * d2 > n2 * d1) by (nonlinear_arith)
            requires
                n1 >= d1 * g * MANTISSA_END,
                n2 < d2 * f2 * MANTISSA_END,
                g >= f2,
                d1 > 0,
                d2 > 0,
        {
            assert(n1 * d2 >= (d1 * g * MANTISSA_END) * d2);
            assert((d1 * g * MANTISSA_END) * d2 == (d1 * d2 * MANTISSA_END) * g);
            assert((d1 * d2 * MANTISSA_END) * g >= (d1 * d2 * MANTISSA_END) * f2) by (nonlinear_arith)
                requires
                    g >= f2,
                    d1 > 0,
                    d2 > 0,
            ;
            assert((d2 * f2 * MANTISSA_END) * d1 == (d1 * d2 * MANTISSA_END) * f2);
            assert(n2 * d1 < (d2 * f2 * MANTISSA_END) * d1);
        }
    } else if p1 == p2 {
        let (b1, b2) = (d1 * f1, d2 * f2);
        assert(b1 > 0 && b2 > 0 && n1 * b2 <= n2 * b1) by (nonlinear_arith)
            requires
                b1 == d1 * f1,
                b2 == d2 * f1,
                f1 > 0,
                d1 > 0,
                d2 > 0,
                n1 * d2 <= n2 * d1,
        {
            assert(n1 * b2 == (n1 * d2) * f1);
            assert(n2 * b1 == (n2 * d1) * f1);
        }
        lemma_half_even_monotonic(n1, b1, n2, b2);
        assert(q1 * f1 <= q2 * f1) by (nonlinear_arith)
            requires
                q1 <= q2,
                f1 > 0,
        ;
    } else {
        let g = crate::power::pow2((p2 - 1) as nat) as int;
        crate::power::lemma_pow2_monotonic(p1, (p2 - 1) as nat);
        assert(q1 * f1 <= q2 * f2) by (nonlinear_arith)
            requires
                0 <= q1 <= MANTISSA_END,
                q2 >= MANTISSA_NORMAL,
                MANTISSA_END == 2 * MANTISSA_NORMAL,
                0 < f1 <= g,
                f2 == 2 * g,
        {
            assert(q1 * f1 <= MANTISSA_END * g);
            assert(MANTISSA_END * g == MANTISSA_NORMAL * (2 * g));
            assert(MANTISSA_NORMAL * f2 <= q2 * f2);
        }
    }
}

/// The sign goes beside the rounding, at every power.
proof fn lemma_sign_from(negative: bool, n: int, d: int, p: int)
    requires
        n >= 0,
        d > 0,
    ensures
        ({
            let x = crate::number::nearest_from(negative, n, d, p);
            let y = crate::number::nearest_from(false, n, d, p);
            &&& !(x is NotANumber)
            &&& x.minus() == negative
            &&& x.steps() == y.steps()
            &&& x is Finite == y is Finite
        }),
    decreases n - d,
{
    if n >= d * MANTISSA_END {
        lemma_sign_from(negative, n, 2 * d, p + 1);
    }
}

/// The sign goes beside the rounding, and what is rounded is a number.
pub proof fn lemma_nearest_sign(negative: bool, num: int, den: int)
    requires
        num >= 0,
        den > 0,
    ensures
        !(nearest(negative, num, den) is NotANumber),
        nearest(negative, num, den).minus() == negative,
        nearest(negative, num, den).steps() == nearest(false, num, den).steps(),
        nearest(negative, num, den) is Finite == nearest(false, num, den) is Finite,
{
    lemma_sign_from(negative, num, den, 0);
}

/// What is at most a double is rounded to at most that double.
pub proof fn lemma_nearest_within(negative: bool, num: int, den: int, mantissa: u64, power: u32)
    requires
        num >= 0,
        den > 0,
        (Number::Finite { negative: false, mantissa, power }).wf(),
        num <= den * (mantissa * crate::power::pow2(power as nat)),
    ensures
        nearest(negative, num, den) is Finite,
        nearest(negative, num, den).minus() == negative,
        0 <= nearest(negative, num, den).steps() <= mantissa * crate::power::pow2(power as nat),
{
    let top = mantissa * crate::power::pow2(power as nat);
    crate::number::lemma_zero_steps(Number::Finite { negative: false, mantissa, power });
    crate::number::lemma_nearest_is_exact(false, mantissa, power);
    assert(top * den == den * top) by (nonlinear_arith);
    lemma_nearest_monotonic(num, den, top, 1);
    lemma_nearest_sign(negative, num, den);
    lemma_nearest_sign(false, num, den);
    crate::number::lemma_zero_steps(nearest(negative, num, den));
}

/// What is at least a double is rounded to at least that double.
pub proof fn lemma_nearest_at_least(negative: bool, num: int, den: int, mantissa: u64, power: u32)
    requires
        num >= 0,
        den > 0,
        (Number::Finite { negative: false, mantissa, power }).wf(),
        num >= den * (mantissa * crate::power::pow2(power as nat)),
    ensures
        nearest(negative, num, den) is Finite ==> nearest(negative, num, den).steps() >= mantissa
            * crate::power::pow2(power as nat),
{
    let top = mantissa * crate::power::pow2(power as nat);
    crate::number::lemma_zero_steps(Number::Finite { negative: false, mantissa, power });
    crate::number::lemma_nearest_is_exact(false, mantissa, power);
    assert(top * den == den * top) by (nonlinear_arith);
    lemma_nearest_monotonic(top, 1, num, den);
    lemma_nearest_sign(negative, num, den);
    lemma_nearest_sign(false, num, den);
}

// ---------------------------------------------------------------------------
// Whole numbers
// ---------------------------------------------------------------------------

/// How many steps make one.
pub open spec fn one() -> int {
    crate::power::pow2(1074) as int
}

/// Powers of two from one on, as doubles.
proof fn lemma_power_of_two(k: nat)
    requires
        k <= 500,
    ensures
        (Number::Finite { negative: false, mantissa: MANTISSA_NORMAL, power: (1022 + k) as u32 }).wf(),
        MANTISSA_NORMAL * crate::power::pow2(1022 + k) == crate::power::pow2(k) * one(),
        MANTISSA_NORMAL * crate::power::pow2(1022) == one(),
        one() > 0,
{
    crate::power::lemma_pow2_values();
    crate::power::lemma_pow2_positive(1074);
    crate::power::lemma_pow2_adds(52, 1022 + k);
    crate::power::lemma_pow2_adds(k, 1074);
    crate::power::lemma_pow2_adds(52, 1022);
    assert(52 + (1022 + k) == k + 1074);
}

/// One, in the form that doubles have.
pub proof fn lemma_one_as_double()
    ensures
        (Number::Finite { negative: false, mantissa: MANTISSA_NORMAL, power: 1022 }).wf(),
        MANTISSA_NORMAL * crate::power::pow2(1022) == one(),
        one() > 0,
{
    lemma_power_of_two(0);
}

/// A whole number is a number, and not a negative one.
pub proof fn lemma_whole_is_number(n: int)
    requires
        n >= 0,
    ensures
        !(Number::whole(n) is NotANumber),
        !Number::whole(n).minus(),
{
    crate::power::lemma_pow2_positive(1074);
    assert(n * one() >= 0) by (nonlinear_arith)
        requires
            n >= 0,
            one() > 0,
    ;
    lemma_nearest_sign(false, n * one(), 1);
}

/// Whole numbers keep their order.
pub proof fn lemma_whole_monotonic(a: int, b: int)
    requires
        0 <= a <= b,
    ensures
        Number::whole(a).at_most(Number::whole(b)),
{
    crate::power::lemma_pow2_positive(1074);
    assert(0 <= a * one() <= b * one()) by (nonlinear_arith)
        requires
            0 <= a <= b,
            one() > 0,
    ;
    lemma_nearest_monotonic(a * one(), 1, b * one(), 1);
}

/// A whole number of some size is finite, no larger than the power of two above
/// it, and at least one unless it is zero.
pub proof fn lemma_whole_finite(n: int, k: nat)
    requires
        0 <= n <= crate::power::pow2(k),
        k <= 500,
    ensures
        Number::whole(n) is Finite,
        !Number::whole(n).minus(),
        0 <= Number::whole(n).steps() <= crate::power::pow2(k) * one(),
        n > 0 ==> Number::whole(n).steps() >= one(),
        n == 0 ==> Number::whole(n) == Number::nought(),
{
    lemma_power_of_two(k);
    let f = crate::power::pow2(k) as int;
    assert(0 <= n * one() <= f * one()) by (nonlinear_arith)
        requires
            0 <= n <= f,
            one() > 0,
    ;
    lemma_nearest_within(false, n * one(), 1, MANTISSA_NORMAL, (1022 + k) as u32);
    if n > 0 {
        assert(n * one() >= one()) by (nonlinear_arith)
            requires
                n >= 1,
                one() > 0,
        ;
        lemma_nearest_at_least(false, n * one(), 1, MANTISSA_NORMAL, 1022);
    } else {
        assert(0 * one() == 0) by (nonlinear_arith);
        crate::number::lemma_nearest_nothing(false, 0, 1);
    }
}

/// A whole number above zero is above zero as a double.
pub proof fn lemma_whole_above_zero(n: int)
    requires
        n > 0,
    ensures
        Number::whole(n).above_zero(),
{
    lemma_whole_is_number(n);
    crate::power::lemma_pow2_values();
    lemma_whole_finite(1, 0);
    lemma_whole_monotonic(1, n);
    crate::number::lemma_zero_steps(Number::whole(n));
    lemma_power_of_two(0);
}

/// A factor on both sides of a quotient does not matter to the rounding.
pub proof fn lemma_nearest_scaled(negative: bool, n: int, d: int, f: int)
    requires
        n >= 0,
        d > 0,
        f > 0,
    ensures
        nearest(negative, n * f, d * f) == nearest(negative, n, d),
{
    lemma_scaled_from(negative, n, d, f, 0);
}

proof fn lemma_scaled_from(negative: bool, n: int, d: int, f: int, p: int)
    requires
        n >= 0,
        d > 0,
        f > 0,
    ensures
        crate::number::nearest_from(negative, n * f, d * f, p) == crate::number::nearest_from(
            negative,
            n,
            d,
            p,
        ),
    decreases n - d,
{
    assert(d * f > 0) by (nonlinear_arith)
        requires
            d > 0,
            f > 0,
    ;
    assert((n * f < (d * f) * MANTISSA_END) == (n < d * MANTISSA_END)) by (nonlinear_arith)
        requires
            f > 0,
    {
        assert((d * f) * MANTISSA_END == (d * MANTISSA_END) * f);
    }
    if n >= d * MANTISSA_END {
        assert((2 * d) * f == 2 * (d * f)) by (nonlinear_arith);
        lemma_scaled_from(negative, n, 2 * d, f, p + 1);
    } else {
        vstd::arithmetic::div_mod::lemma_fundamental_div_mod(n, d);
        let (q, rest) = (n / d, n % d);
        assert(n * f == (d * f) * q + rest * f && 0 <= rest * f < d * f) by (nonlinear_arith)
            requires
                n == d * q + rest,
                0 <= rest < d,
                f > 0,
        ;
        vstd::arithmetic::div_mod::lemma_fundamental_div_mod_converse(n * f, d * f, q, rest * f);
        assert((2 * (rest * f) > d * f) == (2 * rest > d)) by (nonlinear_arith)
            requires
                f > 0,
        ;
        assert((2 * (rest * f) == d * f) == (2 * rest == d)) by (nonlinear_arith)
            requires
                f > 0,
        ;
    }
}

/// The quotient of two whole numbers below `2^53` is rounded once.
pub proof fn lemma_whole_quotient(a: int, b: int)
    requires
        0 <= a < MANTISSA_END,
        0 < b < MANTISSA_END,
    ensures
        Number::over(Number::whole(a), Number::whole(b)) == nearest(false, a * one(), b),
{
    crate::number::lemma_small_whole_is_exact(a);
    crate::number::lemma_small_whole_is_exact(b);
    crate::power::lemma_pow2_positive(1074);
    assert(a * one() >= 0 && b * one() > 0) by (nonlinear_arith)
        requires
            a >= 0,
            b > 0,
            one() > 0,
    ;
    lemma_nearest_scaled(false, a * one(), b, one());
}

/// A quotient that comes out even is exact.
pub proof fn lemma_even_quotient(q: int, b: int)
    requires
        0 <= q * b < MANTISSA_END,
        0 <= q,
        0 < b < MANTISSA_END,
    ensures
        Number::over(Number::whole(q * b), Number::whole(b)) == Number::whole(q),
{
    lemma_whole_quotient(q * b, b);
    crate::power::lemma_pow2_positive(1074);
    assert(q * one() >= 0) by (nonlinear_arith)
        requires
            q >= 0,
            one() > 0,
    ;
    assert((q * b) * one() == (q * one()) * b) by (nonlinear_arith);
    lemma_nearest_scaled(false, q * one(), 1, b);
}

// ---------------------------------------------------------------------------
// Arithmetic
// ---------------------------------------------------------------------------

/// A quotient of finite numbers, the divisor at least one: no more than the
/// dividend.
pub proof fn lemma_over_shrinks(a: Number, b: Number, k: nat)
    requires
        a is Finite,
        b is Finite,
        a.steps() <= crate::power::pow2(k) * one(),
        b.steps() >= one(),
        k <= 500,
    ensures
        Number::over(a, b) is Finite,
        Number::over(a, b).minus() == (a.minus() != b.minus()),
        0 <= Number::over(a, b).steps() <= crate::power::pow2(k) * one(),
        a.steps() == 0 ==> Number::over(a, b).steps() == 0,
{
    let (x, y, f) = (a.steps(), b.steps(), crate::power::pow2(k) as int);
    lemma_power_of_two(k);
    crate::number::lemma_zero_steps(a);
    crate::power::lemma_pow2_positive(k);
    assert(x * one() <= y * (f * one()) && x * one() >= 0) by (nonlinear_arith)
        requires
            0 <= x <= f * one(),
            y >= one(),
            one() > 0,
            f > 0,
    {
        assert(x * one() <= (f * one()) * one());
        assert(one() * (f * one()) <= y * (f * one())) by (nonlinear_arith)
            requires
                one() <= y,
                f > 0,
                one() > 0,
        ;
    }
    let negative = a.minus() != b.minus();
    lemma_nearest_within(negative, x * one(), y, MANTISSA_NORMAL, (1022 + k) as u32);
    if x == 0 {
        assert(0 * one() == 0) by (nonlinear_arith);
        crate::number::lemma_nearest_nothing(negative, 0, y);
        assert(0 * crate::power::pow2(0) == 0) by (nonlinear_arith);
    }
}

/// A finite number over one that is at least as large is at most one.
pub proof fn lemma_share_within_one(a: Number, b: Number)
    requires
        a is Finite,
        b is Finite,
        a.steps() <= b.steps(),
        b.steps() > 0,
    ensures
        Number::over(a, b) is Finite,
        Number::over(a, b).minus() == (a.minus() != b.minus()),
        0 <= Number::over(a, b).steps() <= one(),
{
    let (x, y) = (a.steps(), b.steps());
    lemma_power_of_two(0);
    crate::number::lemma_zero_steps(a);
    assert(0 <= x * one() <= y * one()) by (nonlinear_arith)
        requires
            0 <= x <= y,
            one() > 0,
    ;
    lemma_nearest_within(a.minus() != b.minus(), x * one(), y, MANTISSA_NORMAL, 1022);
}

/// A number that is at most one, times another, is at most the other.
pub proof fn lemma_part_within_whole(a: Number, b: Number)
    requires
        a is Finite,
        b is Finite,
        b.wf(),
        a.steps() <= one(),
    ensures
        Number::times(a, b) is Finite,
        Number::times(a, b).minus() == (a.minus() != b.minus()),
        0 <= Number::times(a, b).steps() <= b.steps(),
        a.steps() == 0 ==> Number::times(a, b).steps() == 0,
{
    let (x, y) = (a.steps(), b.steps());
    lemma_power_of_two(0);
    crate::number::lemma_zero_steps(a);
    crate::number::lemma_zero_steps(b);
    assert(0 <= x * y <= one() * y) by (nonlinear_arith)
        requires
            0 <= x <= one(),
            y >= 0,
    ;
    let negative = a.minus() != b.minus();
    if let Number::Finite { negative: s, mantissa, power } = b {
        lemma_nearest_within(negative, x * y, one(), mantissa, power);
    }
    if x == 0 {
        assert(0 * y == 0) by (nonlinear_arith);
        crate::number::lemma_nearest_nothing(negative, 0, one());
        assert(0 * crate::power::pow2(0) == 0) by (nonlinear_arith);
    }
}

/// A product of finite numbers of some size is finite.
pub proof fn lemma_product_finite(a: Number, b: Number, j: nat, k: nat)
    requires
        a is Finite,
        b is Finite,
        a.steps() <= crate::power::pow2(j) * one(),
        b.steps() <= crate::power::pow2(k) * one(),
        j + k <= 500,
    ensures
        Number::times(a, b) is Finite,
        Number::times(a, b).minus() == (a.minus() != b.minus()),
        0 <= Number::times(a, b).steps() <= crate::power::pow2(j + k) * one(),
{
    let (x, y) = (a.steps(), b.steps());
    let (f, g, h) = (
        crate::power::pow2(j) as int,
        crate::power::pow2(k) as int,
        crate::power::pow2(j + k) as int,
    );
    lemma_power_of_two(j + k);
    crate::power::lemma_pow2_adds(j, k);
    crate::number::lemma_zero_steps(a);
    crate::number::lemma_zero_steps(b);
    assert(0 <= x * y <= one() * (h * one())) by (nonlinear_arith)
        requires
            0 <= x <= f * one(),
            0 <= y <= g * one(),
            h == f * g,
            one() > 0,
            f >= 0,
            g >= 0,
    {
        assert(x * y <= (f * one()) * (g * one()));
        assert((f * one()) * (g * one()) == one() * ((f * g) * one()));
    }
    lemma_nearest_within(
        a.minus() != b.minus(),
        x * y,
        one(),
        MANTISSA_NORMAL,
        (1022 + j + k) as u32,
    );
}

/// A difference of finite numbers that are not negative is finite, and no larger
/// than the larger of them; it is no more than the first, and zero when they are
/// the same.
pub proof fn lemma_difference_bounded(a: Number, b: Number, k: nat)
    requires
        a is Finite,
        b is Finite,
        a.wf(),
        !a.minus(),
        !b.minus(),
        a.steps() <= crate::power::pow2(k) * one(),
        b.steps() <= crate::power::pow2(k) * one(),
        k <= 500,
    ensures
        Number::less(a, b) is Finite,
        0 <= Number::less(a, b).steps() <= crate::power::pow2(k) * one(),
        !Number::less(a, b).minus() ==> Number::less(a, b).steps() <= a.steps(),
        Number::less(a, b).minus() ==> a.steps() < b.steps(),
        a.steps() == b.steps() ==> Number::less(a, b) == Number::nought(),
{
    let (x, y) = (a.steps(), b.steps());
    lemma_power_of_two(k);
    crate::number::lemma_zero_steps(a);
    crate::number::lemma_zero_steps(b);
    assert(b.opposite().steps() == y);
    if x > y {
        lemma_nearest_within(false, x - y, 1, MANTISSA_NORMAL, (1022 + k) as u32);
        if let Number::Finite { negative: s, mantissa, power } = a {
            lemma_nearest_within(false, x - y, 1, mantissa, power);
        }
    } else if x < y {
        lemma_nearest_within(true, y - x, 1, MANTISSA_NORMAL, (1022 + k) as u32);
    } else {
        assert(0 * crate::power::pow2(0) == 0) by (nonlinear_arith);
    }
}

/// A sum of finite numbers that are not negative is finite and not negative, and
/// zero when both are.
pub proof fn lemma_sum_finite(a: Number, b: Number, k: nat)
    requires
        a is Finite,
        b is Finite,
        !a.minus(),
        !b.minus(),
        a.steps() <= crate::power::pow2(k) * one(),
        b.steps() <= crate::power::pow2(k) * one(),
        k <= 499,
    ensures
        Number::plus(a, b) is Finite,
        !Number::plus(a, b).minus(),
        a.steps() == 0 && b.steps() == 0 ==> Number::plus(a, b) == Number::nought(),
{
    let f = crate::power::pow2(k) as int;
    lemma_power_of_two(k + 1);
    crate::number::lemma_zero_steps(a);
    crate::number::lemma_zero_steps(b);
    assert((2 * f) * one() == 2 * (f * one())) by (nonlinear_arith);
    let sum = a.steps() + b.steps();
    if sum > 0 {
        lemma_nearest_within(false, sum, 1, MANTISSA_NORMAL, (1023 + k) as u32);
    }
}

/// Nothing over a finite number other than zero is nothing.
pub proof fn lemma_nothing_over(a: Number, b: Number)
    requires
        a is Finite,
        a.steps() == 0,
        b is Finite,
        b.steps() > 0,
    ensures
        Number::over(a, b).is_nought(),
        Number::over(a, b).minus() == (a.minus() != b.minus()),
{
    assert(0 * one() == 0) by (nonlinear_arith);
    crate::number::lemma_nearest_nothing(a.minus() != b.minus(), 0, b.steps());
}

// ---------------------------------------------------------------------------
// Whole numbers stay whole
// ---------------------------------------------------------------------------

/// The sum of two whole numbers below `2^53` is the double nearest to their sum.
pub proof fn lemma_whole_sum(a: int, b: int)
    requires
        0 <= a < MANTISSA_END,
        0 <= b < MANTISSA_END,
    ensures
        Number::plus(Number::whole(a), Number::whole(b)) == Number::whole(a + b),
{
    crate::number::lemma_small_whole_is_exact(a);
    crate::number::lemma_small_whole_is_exact(b);
    crate::power::lemma_pow2_positive(1074);
    assert(a * one() + b * one() == (a + b) * one()) by (nonlinear_arith);
    assert((a + b) * one() >= 0 && ((a + b) * one() == 0 ==> a + b == 0)) by (nonlinear_arith)
        requires
            a + b >= 0,
            one() > 0,
    ;
    if a + b == 0 {
        crate::power::lemma_pow2_values();
        crate::power::lemma_pow2_monotonic(0, 12);
        lemma_whole_finite(0, 12);
    }
}

/// The difference of two whole numbers below `2^53` is the double nearest to their
/// difference.
pub proof fn lemma_whole_difference(a: int, b: int)
    requires
        0 <= b <= a < MANTISSA_END,
    ensures
        Number::less(Number::whole(a), Number::whole(b)) == Number::whole(a - b),
{
    crate::number::lemma_small_whole_is_exact(a);
    crate::number::lemma_small_whole_is_exact(b);
    crate::power::lemma_pow2_positive(1074);
    assert(a * one() - b * one() == (a - b) * one()) by (nonlinear_arith);
    assert((a - b) * one() >= 0 && ((a - b) * one() == 0 ==> a - b == 0)) by (nonlinear_arith)
        requires
            a - b >= 0,
            one() > 0,
    ;
    assert(Number::whole(b).opposite().steps() == Number::whole(b).steps());
    if a == b {
        crate::power::lemma_pow2_values();
        lemma_whole_finite(0, 12);
    }
}

/// The product of two whole numbers below `2^53` is the double nearest to their
/// product.
pub proof fn lemma_whole_product(a: int, b: int)
    requires
        0 <= a < MANTISSA_END,
        0 <= b < MANTISSA_END,
    ensures
        Number::times(Number::whole(a), Number::whole(b)) == Number::whole(a * b),
{
    crate::number::lemma_small_whole_is_exact(a);
    crate::number::lemma_small_whole_is_exact(b);
    crate::power::lemma_pow2_positive(1074);
    assert((a * one()) * (b * one()) == ((a * b) * one()) * one()) by (nonlinear_arith);
    assert((a * b) * one() >= 0) by (nonlinear_arith)
        requires
            a >= 0,
            b >= 0,
            one() > 0,
    ;
    lemma_nearest_scaled(false, (a * b) * one(), 1, one());
    assert(1 * one() == one());
}

/// The whole part of a whole number below `2^53` is that number.
pub proof fn lemma_whole_part_of_whole(n: int)
    requires
        0 <= n < MANTISSA_END,
    ensures
        Number::whole(n).whole_part() == n,
{
    crate::number::lemma_small_whole_is_exact(n);
    crate::power::lemma_pow2_positive(1074);
    crate::number::lemma_exact_quotient(n * one(), one(), n);
}

/// Thousands of milliseconds are whole seconds.
pub proof fn lemma_whole_seconds(k: int)
    requires
        0 <= k * 1000 < MANTISSA_END,
    ensures
        Number::over(Number::whole(k * 1000), Number::whole(1000)) == Number::whole(k),
{
    lemma_even_quotient(k, 1000);
}

} // verus!
