//! Double-precision numbers as exact values.
//!
//! A measurement reaches the output as a double.  Here a double is what it stands
//! for: a whole number of the smallest step that doubles can tell apart.  Sums,
//! products and quotients are the exact result brought to the nearest double, as
//! the standard for floating-point arithmetic has it, and text is the exact value
//! rounded once.

use crate::digits::{digits_of, multiply, push_digits};
use crate::power::{ten_to, two_to};
use crate::text::push_decimal;
use vstd::prelude::*;

verus! {

/// A double.  A finite one is `mantissa * 2^power` steps of `2^-1074` each.
#[derive(Debug, Clone, Copy, PartialEq, Eq, Structural)]
pub enum Number {
    NotANumber,
    Infinite { negative: bool },
    Finite { negative: bool, mantissa: u64, power: u32 },
}

/// Mantissas are below this.
pub const MANTISSA_END: u64 = 0x20_0000_0000_0000;

/// Mantissas of normal doubles are at least this.
pub const MANTISSA_NORMAL: u64 = 0x10_0000_0000_0000;

/// The largest power of a finite double.
pub const POWER_MAX: u32 = 2045;

/// The power at which a mantissa counts whole ones.
pub const POWER_ONE: u32 = 1074;

/// `n / d`, to the nearest whole number; half-way between two, to the even one.
pub open spec fn half_even(n: int, d: int) -> int {
    let q = n / d;
    let twice = 2 * (n % d);
    if twice > d || (twice == d && q % 2 == 1) {
        q + 1
    } else {
        q
    }
}

/// The double of `q * 2^p` steps, where `q` has at most one bit more than a
/// mantissa; infinite when it is out of range.
pub open spec fn packed(negative: bool, q: int, p: int) -> Number {
    let (m, e) = if q < MANTISSA_END {
        (q, p)
    } else {
        (MANTISSA_NORMAL as int, p + 1)
    };
    if e > POWER_MAX {
        Number::Infinite { negative }
    } else {
        Number::Finite { negative, mantissa: m as u64, power: e as u32 }
    }
}

/// The double nearest to `n / d` times `2^p` steps, when `n / d` may still be too
/// large for a mantissa.
pub open spec fn nearest_from(negative: bool, n: int, d: int, p: int) -> Number
    decreases n - d,
{
    if d <= 0 {
        Number::NotANumber
    } else if n < d * MANTISSA_END {
        packed(negative, half_even(n, d), p)
    } else {
        nearest_from(negative, n, 2 * d, p + 1)
    }
}

/// The double nearest to `n / d` steps.
pub open spec fn nearest(negative: bool, n: int, d: int) -> Number {
    nearest_from(negative, n, d, 0)
}

impl Number {
    /// Each finite double has one form: a full mantissa, or power zero.
    pub open spec fn wf(self) -> bool {
        match self {
            Number::Finite { negative, mantissa, power } => {
                &&& mantissa < MANTISSA_END
                &&& power <= POWER_MAX
                &&& power > 0 ==> mantissa >= MANTISSA_NORMAL
            },
            _ => true,
        }
    }

    /// How many steps a finite double is away from zero.
    pub open spec fn steps(self) -> int {
        match self {
            Number::Finite { negative, mantissa, power } => mantissa * crate::power::pow2(
                power as nat,
            ),
            _ => 0,
        }
    }

    /// The steps with their sign.
    pub open spec fn signed_steps(self) -> int {
        match self {
            Number::Finite { negative, mantissa, power } => if negative {
                -self.steps()
            } else {
                self.steps()
            },
            _ => 0,
        }
    }

    /// Whether the sign is minus.
    pub open spec fn minus(self) -> bool {
        match self {
            Number::NotANumber => false,
            Number::Infinite { negative } => negative,
            Number::Finite { negative, mantissa, power } => negative,
        }
    }

    /// The opposite.
    pub open spec fn opposite(self) -> Number {
        match self {
            Number::NotANumber => Number::NotANumber,
            Number::Infinite { negative } => Number::Infinite { negative: !negative },
            Number::Finite { negative, mantissa, power } => Number::Finite {
                negative: !negative,
                mantissa,
                power,
            },
        }
    }

    /// `a + b`.  A sum of zero is positive unless both are negative.
    pub open spec fn plus(a: Number, b: Number) -> Number {
        match (a, b) {
            (Number::NotANumber, _) => Number::NotANumber,
            (_, Number::NotANumber) => Number::NotANumber,
            (Number::Infinite { negative: s }, Number::Infinite { negative: t }) => if s == t {
                a
            } else {
                Number::NotANumber
            },
            (Number::Infinite { negative }, _) => a,
            (_, Number::Infinite { negative }) => b,
            (_, _) => {
                let sum = a.signed_steps() + b.signed_steps();
                if sum == 0 {
                    Number::Finite { negative: a.minus() && b.minus(), mantissa: 0, power: 0 }
                } else if sum < 0 {
                    nearest(true, -sum, 1)
                } else {
                    nearest(false, sum, 1)
                }
            },
        }
    }

    /// `a - b`.
    pub open spec fn less(a: Number, b: Number) -> Number {
        Number::plus(a, b.opposite())
    }

    /// `a * b`.
    pub open spec fn times(a: Number, b: Number) -> Number {
        let negative = a.minus() != b.minus();
        match (a, b) {
            (Number::NotANumber, _) => Number::NotANumber,
            (_, Number::NotANumber) => Number::NotANumber,
            (Number::Infinite { negative: s }, Number::Infinite { negative: t }) =>
                Number::Infinite { negative },
            (Number::Infinite { negative: s }, _) => if b.steps() == 0 {
                Number::NotANumber
            } else {
                Number::Infinite { negative }
            },
            (_, Number::Infinite { negative: t }) => if a.steps() == 0 {
                Number::NotANumber
            } else {
                Number::Infinite { negative }
            },
            (_, _) => nearest(
                negative,
                a.steps() * b.steps(),
                crate::power::pow2(POWER_ONE as nat) as int,
            ),
        }
    }

    /// `a / b`.  Nothing over nothing is no number, and anything else over nothing
    /// is infinite.
    pub open spec fn over(a: Number, b: Number) -> Number {
        let negative = a.minus() != b.minus();
        match (a, b) {
            (Number::NotANumber, _) => Number::NotANumber,
            (_, Number::NotANumber) => Number::NotANumber,
            (Number::Infinite { negative: s }, Number::Infinite { negative: t }) =>
                Number::NotANumber,
            (Number::Infinite { negative: s }, _) => Number::Infinite { negative },
            (_, Number::Infinite { negative: t }) => Number::Finite {
                negative,
                mantissa: 0,
                power: 0,
            },
            (_, _) => if b.steps() != 0 {
                nearest(
                    negative,
                    a.steps() * crate::power::pow2(POWER_ONE as nat),
                    b.steps(),
                )
            } else if a.steps() != 0 {
                Number::Infinite { negative }
            } else {
                Number::NotANumber
            },
        }
    }

    /// The double nearest to a whole number.
    pub open spec fn whole(n: int) -> Number {
        nearest(false, n * crate::power::pow2(POWER_ONE as nat), 1)
    }

    /// `self > 0`.
    pub open spec fn above_zero(self) -> bool {
        match self {
            Number::NotANumber => false,
            Number::Infinite { negative } => !negative,
            Number::Finite { negative, mantissa, power } => !negative && mantissa > 0,
        }
    }

    /// `self <= other`; never so when one of them is no number.
    pub open spec fn at_most(self, other: Number) -> bool {
        match (self, other) {
            (Number::NotANumber, _) => false,
            (_, Number::NotANumber) => false,
            (Number::Infinite { negative: s }, Number::Infinite { negative: t }) => s || !t,
            (Number::Infinite { negative: s }, _) => s,
            (_, Number::Infinite { negative: t }) => !t,
            (_, _) => self.signed_steps() <= other.signed_steps(),
        }
    }

    /// `self < other`; never so when one of them is no number.
    pub open spec fn below(self, other: Number) -> bool {
        self.at_most(other) && !other.at_most(self)
    }

    /// The smaller of the two, `self` when they are equal; where one is no number,
    /// the other.
    pub open spec fn lesser(self, other: Number) -> Number {
        if self is NotANumber {
            other
        } else if other is NotANumber || self.at_most(other) {
            self
        } else {
            other
        }
    }

    /// The larger of the two, `self` when they are equal; where one is no number,
    /// the other.
    pub open spec fn greater(self, other: Number) -> Number {
        if self is NotANumber {
            other
        } else if other is NotANumber || other.at_most(self) {
            self
        } else {
            other
        }
    }

    /// Zero.
    pub open spec fn nought() -> Number {
        Number::Finite { negative: false, mantissa: 0, power: 0 }
    }

    /// The number is zero, with either sign.
    pub open spec fn is_nought(self) -> bool {
        self matches Number::Finite { negative, mantissa, power } && mantissa == 0
    }

    /// The whole part, held within what a `u64` can be: nought for anything
    /// negative or no number at all, the maximum for anything too large.
    pub open spec fn whole_part(self) -> int {
        match self {
            Number::NotANumber => 0,
            Number::Infinite { negative } => if negative {
                0
            } else {
                u64::MAX as int
            },
            Number::Finite { negative, mantissa, power } => {
                let n = self.steps() / crate::power::pow2(POWER_ONE as nat) as int;
                if negative {
                    0
                } else if n > u64::MAX {
                    u64::MAX as int
                } else {
                    n
                }
            },
        }
    }

    /// The double that a bit pattern stands for.
    pub open spec fn of_bits(bits: u64) -> Number {
        let negative = bits >= 0x8000_0000_0000_0000;
        let exponent = (bits / 0x10_0000_0000_0000) % 0x800;
        let fraction = bits % 0x10_0000_0000_0000;
        if exponent == 0x7ff {
            if fraction == 0 {
                Number::Infinite { negative }
            } else {
                Number::NotANumber
            }
        } else if exponent == 0 {
            Number::Finite { negative, mantissa: fraction, power: 0 }
        } else {
            Number::Finite {
                negative,
                mantissa: (fraction + 0x10_0000_0000_0000) as u64,
                power: (exponent - 1) as u32,
            }
        }
    }

    /// The double that a bit pattern stands for.
    pub fn from_bits(bits: u64) -> (r: Number)
        ensures
            r == Number::of_bits(bits),
            r.wf(),
    {
        let negative: bool = bits >= 0x8000_0000_0000_0000;
        let exponent: u64 = (bits / 0x10_0000_0000_0000) % 0x800;
        let fraction: u64 = bits % 0x10_0000_0000_0000;
        if exponent == 0x7ff {
            if fraction == 0 {
                Number::Infinite { negative }
            } else {
                Number::NotANumber
            }
        } else if exponent == 0 {
            Number::Finite { negative, mantissa: fraction, power: 0 }
        } else {
            Number::Finite {
                negative,
                mantissa: fraction + 0x10_0000_0000_0000,
                power: (exponent - 1) as u32,
            }
        }
    }
}

// ---------------------------------------------------------------------------
// Rounding
// ---------------------------------------------------------------------------

/// The number `num / den` in half steps is `n * 2^shift`, and a little more
/// (less than `2^shift`) when `more` is set.
pub(crate) open spec fn scaled(num: int, den: int, n: int, more: bool, shift: int) -> bool {
    let (a, b) = if shift >= 0 {
        (2 * num, den * crate::power::pow2(shift as nat))
    } else {
        (2 * num * crate::power::pow2((-shift) as nat), den)
    };
    n == a / b && more == (a % b != 0)
}

/// Halving `n` while doubling its weight.
proof fn lemma_scaled_halved(num: int, den: int, n: int, more: bool, shift: int)
    requires
        num >= 0,
        den > 0,
        n >= 0,
        scaled(num, den, n, more, shift),
    ensures
        scaled(num, den, n / 2, more || n % 2 == 1, shift + 1),
{
    if shift >= 0 {
        let a = 2 * num;
        let b = den * crate::power::pow2(shift as nat);
        crate::power::lemma_pow2_positive(shift as nat);
        assert(b > 0) by (nonlinear_arith)
            requires
                den > 0,
                b == den * crate::power::pow2(shift as nat),
                crate::power::pow2(shift as nat) > 0,
        ;
        lemma_halved_quotient(a, b);
        assert(den * crate::power::pow2((shift + 1) as nat) == 2 * b) by (nonlinear_arith)
            requires
                b == den * crate::power::pow2(shift as nat),
                crate::power::pow2((shift + 1) as nat) == 2 * crate::power::pow2(shift as nat),
        ;
    } else {
        let s = (-shift - 1) as nat;
        let a1 = 2 * num * crate::power::pow2(s);
        assert(2 * num * crate::power::pow2((-shift) as nat) == 2 * a1) by (nonlinear_arith)
            requires
                a1 == 2 * num * crate::power::pow2(s),
                crate::power::pow2((-shift) as nat) == 2 * crate::power::pow2(s),
        ;
        crate::power::lemma_pow2_positive(s);
        assert(a1 >= 0) by (nonlinear_arith)
            requires
                a1 == 2 * num * crate::power::pow2(s),
                num >= 0,
                crate::power::pow2(s) > 0,
        ;
        lemma_halved_quotient(2 * a1, den);
        lemma_cancel_two(a1, den);
        if shift == -1 {
            assert(a1 == 2 * num) by (nonlinear_arith)
                requires
                    a1 == 2 * num * crate::power::pow2(s),
                    crate::power::pow2(s) == 1,
            ;
            assert(den * crate::power::pow2(0) == den) by (nonlinear_arith)
                requires
                    crate::power::pow2(0) == 1,
            ;
        }
    }
}

/// Halving a quotient, and what is left over.
proof fn lemma_halved_quotient(a: int, b: int)
    requires
        a >= 0,
        b > 0,
    ensures
        (a / b) / 2 == a / (2 * b),
        (a % (2 * b) != 0) == (a % b != 0 || (a / b) % 2 == 1),
{
    let q = a / b;
    let r = a % b;
    vstd::arithmetic::div_mod::lemma_fundamental_div_mod(a, b);
    let q2 = q / 2;
    let odd = q % 2;
    let r2 = odd * b + r;
    assert(a == (2 * b) * q2 + r2) by (nonlinear_arith)
        requires
            a == b * q + r,
            q == 2 * q2 + odd,
            r2 == odd * b + r,
    ;
    assert(0 <= r2 < 2 * b) by (nonlinear_arith)
        requires
            r2 == odd * b + r,
            0 <= r < b,
            odd == 0 || odd == 1,
    ;
    vstd::arithmetic::div_mod::lemma_fundamental_div_mod_converse(a, 2 * b, q2, r2);
    if odd == 0 {
        assert(r2 == r) by (nonlinear_arith)
            requires
                r2 == odd * b + r,
                odd == 0,
        ;
    } else {
        assert(r2 >= b) by (nonlinear_arith)
            requires
                r2 == odd * b + r,
                odd == 1,
                r >= 0,
        ;
    }
}

/// A factor of two on both sides of a division cancels.
proof fn lemma_cancel_two(a: int, b: int)
    requires
        a >= 0,
        b > 0,
    ensures
        (2 * a) / (2 * b) == a / b,
        ((2 * a) % (2 * b) != 0) == (a % b != 0),
{
    vstd::arithmetic::div_mod::lemma_fundamental_div_mod(a, b);
    let (q, r) = (a / b, a % b);
    assert(2 * a == (2 * b) * q + 2 * r) by (nonlinear_arith)
        requires
            a == b * q + r,
    ;
    vstd::arithmetic::div_mod::lemma_fundamental_div_mod_converse(2 * a, 2 * b, q, 2 * r);
}

/// Doubling an exact `n` while halving its weight.
proof fn lemma_scaled_doubled(num: int, den: int, n: int, shift: int)
    requires
        num >= 0,
        den > 0,
        shift > 0,
        scaled(num, den, n, false, shift),
    ensures
        scaled(num, den, 2 * n, false, shift - 1),
{
    let s = (shift - 1) as nat;
    let b1 = den * crate::power::pow2(s);
    crate::power::lemma_pow2_positive(s);
    assert(b1 > 0) by (nonlinear_arith)
        requires
            den > 0,
            b1 == den * crate::power::pow2(s),
            crate::power::pow2(s) > 0,
    ;
    assert(den * crate::power::pow2(shift as nat) == 2 * b1) by (nonlinear_arith)
        requires
            b1 == den * crate::power::pow2(s),
            crate::power::pow2(shift as nat) == 2 * crate::power::pow2(s),
    ;
    vstd::arithmetic::div_mod::lemma_fundamental_div_mod(2 * num, 2 * b1);
    assert(2 * num == b1 * (2 * n) + 0) by (nonlinear_arith)
        requires
            2 * num == (2 * b1) * n + 0,
    ;
    vstd::arithmetic::div_mod::lemma_fundamental_div_mod_converse(2 * num, b1, 2 * n, 0);
}

/// Rounding to a whole number, from the number of halves and whether there is
/// more.
proof fn lemma_half_even_from_halves(num: int, b: int, n: int, more: bool)
    requires
        num >= 0,
        b > 0,
        n == (2 * num) / b,
        more == ((2 * num) % b != 0),
    ensures
        half_even(num, b) == (if n % 2 == 1 && (more || (n / 2) % 2 == 1) {
            n / 2 + 1
        } else {
            n / 2
        }),
{
    let r = (2 * num) % b;
    vstd::arithmetic::div_mod::lemma_fundamental_div_mod(2 * num, b);
    let q = n / 2;
    let odd = n % 2;
    let rest = num - b * q;
    assert(2 * rest == odd * b + r) by (nonlinear_arith)
        requires
            2 * num == b * n + r,
            n == 2 * q + odd,
            rest == num - b * q,
    ;
    assert(0 <= 2 * rest < 2 * b) by (nonlinear_arith)
        requires
            2 * rest == odd * b + r,
            odd == 0 || odd == 1,
            0 <= r < b,
    ;
    vstd::arithmetic::div_mod::lemma_fundamental_div_mod_converse(num, b, q, rest);
    if odd == 0 {
        assert(2 * rest < b) by (nonlinear_arith)
            requires
                2 * rest == odd * b + r,
                odd == 0,
                r < b,
        ;
    } else {
        assert(2 * rest == b + r) by (nonlinear_arith)
            requires
                2 * rest == odd * b + r,
                odd == 1,
        ;
    }
}

/// What is too large at a power beyond every double's is infinite.
proof fn lemma_beyond_is_infinite(negative: bool, n: int, d: int, p: int)
    requires
        d > 0,
        p > POWER_MAX,
    ensures
        nearest_from(negative, n, d, p) == (Number::Infinite { negative }),
    decreases n - d,
{
    if n >= d * MANTISSA_END {
        assert(n >= 2 * d);
        lemma_beyond_is_infinite(negative, n, 2 * d, p + 1);
    }
}

/// A number far above every double is infinite.
proof fn lemma_far_from(negative: bool, n: int, d: int, p: nat)
    requires
        d > 0,
        p <= POWER_MAX + 1,
        n >= d * crate::power::pow2((2098 - p) as nat),
    ensures
        nearest_from(negative, n, d, p as int) == (Number::Infinite { negative }),
    decreases POWER_MAX + 1 - p,
{
    if p > POWER_MAX {
        lemma_beyond_is_infinite(negative, n, d, p as int);
    } else {
        let (f, g) = (
            crate::power::pow2((2098 - p) as nat) as int,
            crate::power::pow2((2097 - p) as nat) as int,
        );
        crate::power::lemma_pow2_values();
        crate::power::lemma_pow2_monotonic(53, (2098 - p) as nat);
        assert(d * f >= d * 0x20_0000_0000_0000) by (nonlinear_arith)
            requires
                f >= 0x20_0000_0000_0000,
                d > 0,
        ;
        assert((2 * d) * g == d * f) by (nonlinear_arith)
            requires
                f == 2 * g,
        ;
        lemma_far_from(negative, n, 2 * d, p + 1);
    }
}

/// A number far above every double is infinite.
pub proof fn lemma_nearest_far(negative: bool, n: int, d: int)
    requires
        d > 0,
        n >= d * crate::power::pow2(2098),
    ensures
        nearest(negative, n, d) == (Number::Infinite { negative }),
{
    lemma_far_from(negative, n, d, 0);
}

/// A number that is at most half a step is zero.
pub proof fn lemma_nearest_nothing(negative: bool, n: int, d: int)
    requires
        0 <= n,
        0 < d,
        2 * n <= d,
    ensures
        nearest(negative, n, d) == (Number::Finite { negative, mantissa: 0, power: 0 }),
{
    vstd::arithmetic::div_mod::lemma_basic_div(n, d);
    vstd::arithmetic::div_mod::lemma_small_mod(n as nat, d as nat);
}

/// Where the doubling in `nearest_from` stops.
pub(crate) proof fn lemma_nearest_stops_at(negative: bool, num: int, den: int, j: nat, p: nat)
    requires
        num >= 0,
        den > 0,
        j <= p,
        num < den * crate::power::pow2(p) * MANTISSA_END,
        p > 0 ==> num >= den * crate::power::pow2((p - 1) as nat) * MANTISSA_END,
    ensures
        nearest_from(negative, num, den * crate::power::pow2(j), j as int) == packed(
            negative,
            half_even(num, den * crate::power::pow2(p)),
            p as int,
        ),
    decreases p - j,
{
    let d = den * crate::power::pow2(j);
    crate::power::lemma_pow2_positive(j);
    assert(d > 0) by (nonlinear_arith)
        requires
            d == den * crate::power::pow2(j),
            den > 0,
            crate::power::pow2(j) > 0,
    ;
    if j < p {
        crate::power::lemma_pow2_monotonic(j, (p - 1) as nat);
        let top = den * crate::power::pow2((p - 1) as nat);
        assert(d * MANTISSA_END <= top * MANTISSA_END) by (nonlinear_arith)
            requires
                d == den * crate::power::pow2(j),
                top == den * crate::power::pow2((p - 1) as nat),
                den > 0,
                crate::power::pow2(j) <= crate::power::pow2((p - 1) as nat),
        ;
        assert(den * crate::power::pow2(j + 1) == 2 * d) by (nonlinear_arith)
            requires
                d == den * crate::power::pow2(j),
                crate::power::pow2(j + 1) == 2 * crate::power::pow2(j),
        ;
        lemma_nearest_stops_at(negative, num, den, j + 1, p);
    }
}

/// The double nearest to `num / den` steps, given as `n * 2^shift` half steps and
/// whether there is more.
pub(crate) fn round_scaled(
    negative: bool,
    n: u128,
    more: bool,
    shift: i32,
    Ghost(num): Ghost<int>,
    Ghost(den): Ghost<int>,
) -> (r: Number)
    requires
        num >= 0,
        den > 0,
        scaled(num, den, n as int, more, shift as int),
        -10_000 <= shift <= 10_000,
        more ==> shift <= 0 || n >= MANTISSA_END,
    ensures
        r == nearest(negative, num, den),
        r.wf(),
{
    let mut n: u128 = n;
    let mut more: bool = more;
    let mut shift: i32 = shift;
    while shift < 0
        invariant
            num >= 0,
            den > 0,
            scaled(num, den, n as int, more, shift as int),
            shift <= 10_000,
            more ==> shift <= 0 || n >= MANTISSA_END,
        decreases -shift,
    {
        proof {
            lemma_scaled_halved(num, den, n as int, more, shift as int);
        }
        more = more || n % 2 == 1;
        n = n / 2;
        shift = shift + 1;
    }
    let ghost mut bits: nat = 128;
    proof {
        crate::power::lemma_pow2_values();
    }
    while n >= 2 * (MANTISSA_END as u128)
        invariant
            num >= 0,
            den > 0,
            scaled(num, den, n as int, more, shift as int),
            0 <= shift,
            bits <= 128,
            n < crate::power::pow2(bits),
            shift + bits <= 10_128,
            more ==> shift <= 0 || n >= MANTISSA_END,
        decreases n,
    {
        proof {
            lemma_scaled_halved(num, den, n as int, more, shift as int);
            bits = (bits - 1) as nat;
        }
        more = more || n % 2 == 1;
        n = n / 2;
        shift = shift + 1;
    }
    while n < MANTISSA_END as u128 && shift > 0
        invariant
            num >= 0,
            den > 0,
            scaled(num, den, n as int, more, shift as int),
            0 <= shift <= 20_000,
            n < 2 * MANTISSA_END,
            more ==> shift <= 0 || n >= MANTISSA_END,
        decreases shift,
    {
        proof {
            lemma_scaled_doubled(num, den, n as int, shift as int);
        }
        n = 2 * n;
        shift = shift - 1;
    }
    let floor: u128 = n / 2;
    let up: bool = n % 2 == 1 && (more || floor % 2 == 1);
    let q: u64 = if up {
        floor as u64 + 1
    } else {
        floor as u64
    };
    proof {
        let p = shift as nat;
        let b = den * crate::power::pow2(p);
        crate::power::lemma_pow2_positive(p);
        assert(b > 0) by (nonlinear_arith)
            requires
                b == den * crate::power::pow2(p),
                den > 0,
                crate::power::pow2(p) > 0,
        ;
        lemma_half_even_from_halves(num, b, n as int, more);
        vstd::arithmetic::div_mod::lemma_fundamental_div_mod(2 * num, b);
        assert(num < b * MANTISSA_END) by (nonlinear_arith)
            requires
                2 * num == b * n + (2 * num) % b,
                (2 * num) % b < b,
                n + 1 <= 2 * MANTISSA_END,
                b > 0,
        ;
        if p > 0 {
            let below = den * crate::power::pow2((p - 1) as nat);
            assert(b == 2 * below) by (nonlinear_arith)
                requires
                    b == den * crate::power::pow2(p),
                    below == den * crate::power::pow2((p - 1) as nat),
                    crate::power::pow2(p) == 2 * crate::power::pow2((p - 1) as nat),
            ;
            assert(num >= below * MANTISSA_END) by (nonlinear_arith)
                requires
                    2 * num == b * n + (2 * num) % b,
                    (2 * num) % b >= 0,
                    n >= MANTISSA_END,
                    b == 2 * below,
                    b > 0,
            ;
        }
        lemma_nearest_stops_at(negative, num, den, 0, p);
        assert(den * crate::power::pow2(0) == den) by (nonlinear_arith)
            requires
                crate::power::pow2(0) == 1,
        ;
    }
    pack(negative, q, shift as u32)
}

/// The double of `q * 2^p` steps, or infinity.
fn pack(negative: bool, q: u64, p: u32) -> (r: Number)
    requires
        q <= MANTISSA_END,
        p <= 20_000,
        p > 0 ==> q >= MANTISSA_NORMAL,
    ensures
        r == packed(negative, q as int, p as int),
        r.wf(),
{
    let (m, e): (u64, u32) = if q < MANTISSA_END {
        (q, p)
    } else {
        (MANTISSA_NORMAL, p + 1)
    };
    if e > POWER_MAX {
        Number::Infinite { negative }
    } else {
        Number::Finite { negative, mantissa: m, power: e }
    }
}

// ---------------------------------------------------------------------------
// Arithmetic
// ---------------------------------------------------------------------------

/// An exact multiple of the divisor.
pub(crate) proof fn lemma_exact_quotient(a: int, b: int, n: int)
    requires
        b > 0,
        a == n * b,
    ensures
        a / b == n,
        a % b == 0,
{
    assert(a == b * n + 0) by (nonlinear_arith)
        requires
            a == n * b,
    ;
    vstd::arithmetic::div_mod::lemma_fundamental_div_mod_converse(a, b, n, 0);
}

/// A factor on both sides of a division cancels.
pub(crate) proof fn lemma_cancel_factor(x: int, y: int, f: int)
    requires
        x >= 0,
        y > 0,
        f > 0,
    ensures
        y * f > 0,
        (x * f) / (y * f) == x / y,
        ((x * f) % (y * f) != 0) == (x % y != 0),
{
    vstd::arithmetic::div_mod::lemma_fundamental_div_mod(x, y);
    let (q, r) = (x / y, x % y);
    assert(x * f == (y * f) * q + r * f && 0 <= r * f < y * f) by (nonlinear_arith)
        requires
            x == y * q + r,
            0 <= r < y,
            f > 0,
    ;
    vstd::arithmetic::div_mod::lemma_fundamental_div_mod_converse(x * f, y * f, q, r * f);
    assert((r * f != 0) == (r != 0)) by (nonlinear_arith)
        requires
            r >= 0,
            f > 0,
    ;
}

/// A whole number, scaled as the rounding takes it.
proof fn lemma_whole_scaled(v: int)
    requires
        v >= 0,
    ensures
        scaled(v * crate::power::pow2(POWER_ONE as nat), 1, v, false, 1075),
{
    let one = crate::power::pow2(1074) as int;
    crate::power::lemma_pow2_positive(1075);
    let b = 1int * crate::power::pow2(1075);
    assert(2 * (v * one) == v * b) by (nonlinear_arith)
        requires
            b == 2 * one,
    ;
    lemma_exact_quotient(2 * (v * one), b, v);
}

/// A product, scaled as the rounding takes it.
proof fn lemma_product_scaled(m1: int, p1: int, m2: int, p2: int)
    requires
        m1 >= 0,
        m2 >= 0,
        0 <= p1,
        0 <= p2,
    ensures
        scaled(
            (m1 * crate::power::pow2(p1 as nat)) * (m2 * crate::power::pow2(p2 as nat)),
            crate::power::pow2(POWER_ONE as nat) as int,
            m1 * m2,
            false,
            p1 + p2 - 1073,
        ),
{
    let shift = p1 + p2 - 1073;
    let (x, y) = (crate::power::pow2(p1 as nat) as int, crate::power::pow2(p2 as nat) as int);
    let num = (m1 * x) * (m2 * y);
    let den = crate::power::pow2(1074) as int;
    crate::power::lemma_pow2_adds(p1 as nat, p2 as nat);
    let xy = crate::power::pow2((p1 + p2) as nat) as int;
    assert(p1 as nat + p2 as nat == (p1 + p2) as nat);
    assert(num == (m1 * m2) * xy) by (nonlinear_arith)
        requires
            num == (m1 * x) * (m2 * y),
            xy == x * y,
    ;
    crate::power::lemma_pow2_positive(1074);
    if shift >= 0 {
        crate::power::lemma_pow2_adds(1074, shift as nat);
        assert(1074 + shift as nat == (p1 + p2 + 1) as nat);
        let b = den * crate::power::pow2(shift as nat);
        assert(b == 2 * xy);
        crate::power::lemma_pow2_positive((p1 + p2) as nat);
        assert(2 * num == (m1 * m2) * b) by (nonlinear_arith)
            requires
                num == (m1 * m2) * xy,
                b == 2 * xy,
        ;
        lemma_exact_quotient(2 * num, b, m1 * m2);
    } else {
        let t = (-shift) as nat;
        crate::power::lemma_pow2_adds((p1 + p2) as nat, t);
        assert((p1 + p2) as nat + t == 1073);
        let z = crate::power::pow2(t) as int;
        assert(2 * num * z == (m1 * m2) * den) by (nonlinear_arith)
            requires
                num == (m1 * m2) * xy,
                den == 2 * (xy * z),
        ;
        lemma_exact_quotient(2 * num * z, den, m1 * m2);
    }
}

/// A quotient, scaled as the rounding takes it.
proof fn lemma_quotient_scaled(m1: int, p1: int, m2: int, p2: int, k: int)
    requires
        m1 >= 0,
        m2 > 0,
        0 <= p1,
        0 <= p2,
        0 <= k <= 1075,
    ensures
        m2 * crate::power::pow2(p2 as nat) > 0,
        scaled(
            (m1 * crate::power::pow2(p1 as nat)) * crate::power::pow2(POWER_ONE as nat),
            m2 * crate::power::pow2(p2 as nat),
            (m1 * crate::power::pow2(k as nat)) / m2,
            (m1 * crate::power::pow2(k as nat)) % m2 != 0,
            p1 - p2 + 1075 - k,
        ),
{
    let shift = p1 - p2 + 1075 - k;
    let rest = (p1 + 1075 - k) as nat;
    let x = crate::power::pow2(p1 as nat) as int;
    let y = crate::power::pow2(p2 as nat) as int;
    let one = crate::power::pow2(1074) as int;
    let w = crate::power::pow2(k as nat) as int;
    let num = (m1 * x) * one;
    let den = m2 * y;
    crate::power::lemma_pow2_positive(p2 as nat);
    crate::power::lemma_pow2_positive(k as nat);
    assert(den > 0) by (nonlinear_arith)
        requires
            den == m2 * y,
            m2 > 0,
            y > 0,
    ;
    assert(m1 * w >= 0) by (nonlinear_arith)
        requires
            m1 >= 0,
            w > 0,
    ;
    if shift >= 0 {
        let z = crate::power::pow2(shift as nat) as int;
        let f = crate::power::pow2(rest) as int;
        crate::power::lemma_pow2_adds(p2 as nat, shift as nat);
        assert(p2 as nat + shift as nat == rest);
        assert(den * z == m2 * f) by (nonlinear_arith)
            requires
                den == m2 * y,
                f == y * z,
        ;
        crate::power::lemma_pow2_adds(k as nat, rest);
        crate::power::lemma_pow2_adds(p1 as nat, 1074);
        assert(k as nat + rest == (p1 as nat + 1074) + 1);
        assert(2 * num == (m1 * w) * f) by (nonlinear_arith)
            requires
                num == (m1 * x) * one,
                w * f == 2 * (x * one),
        ;
        crate::power::lemma_pow2_positive(rest);
        lemma_cancel_factor(m1 * w, m2, f);
    } else {
        let t = (-shift) as nat;
        let z = crate::power::pow2(t) as int;
        crate::power::lemma_pow2_adds(p1 as nat, 1074);
        crate::power::lemma_pow2_adds(p1 as nat + 1074, t);
        crate::power::lemma_pow2_adds(k as nat, p2 as nat);
        assert(k as nat + p2 as nat == (p1 as nat + 1074 + t) + 1);
        assert(2 * num * z == (m1 * w) * y) by (nonlinear_arith)
            requires
                num == (m1 * x) * one,
                w * y == 2 * ((x * one) * z),
        ;
        lemma_cancel_factor(m1 * w, m2, y);
    }
}

/// `m1 * 2^k` and `m2 / 2^low` counted in the same unit.
proof fn lemma_aligned(m1: int, m2: int, p2: int, k: int, low: int, minus: bool)
    requires
        m1 >= 0,
        m2 >= 0,
        0 <= p2,
        0 <= k,
        0 <= low,
        minus ==> m1 * crate::power::pow2((p2 + low + k) as nat) >= m2 * crate::power::pow2(
            p2 as nat,
        ),
    ensures
        ({
            let x = m2 / crate::power::pow2(low as nat) as int;
            let r = m2 % crate::power::pow2(low as nat) as int;
            let a = m1 * crate::power::pow2((p2 + low + k) as nat);
            let b = m2 * crate::power::pow2(p2 as nat);
            let top = m1 * crate::power::pow2(k as nat);
            if minus {
                scaled(
                    a - b,
                    1,
                    if r != 0 {
                        top - x - 1
                    } else {
                        top - x
                    },
                    r != 0,
                    p2 + low + 1,
                )
            } else {
                scaled(a + b, 1, top + x, r != 0, p2 + low + 1)
            }
        }),
{
    let l = crate::power::pow2(low as nat) as int;
    let kk = crate::power::pow2(k as nat) as int;
    let pp = crate::power::pow2(p2 as nat) as int;
    crate::power::lemma_pow2_positive(low as nat);
    crate::power::lemma_pow2_positive(p2 as nat);
    crate::power::lemma_pow2_adds(p2 as nat, low as nat);
    crate::power::lemma_pow2_adds((p2 + low) as nat, k as nat);
    assert(p2 as nat + low as nat == (p2 + low) as nat);
    assert((p2 + low) as nat + k as nat == (p2 + low + k) as nat);
    let pl = crate::power::pow2((p2 + low) as nat) as int;
    let x = m2 / l;
    let r = m2 % l;
    vstd::arithmetic::div_mod::lemma_fundamental_div_mod(m2, l);
    let a = m1 * crate::power::pow2((p2 + low + k) as nat);
    let b = m2 * pp;
    let top = m1 * kk;
    assert(crate::power::pow2((p2 + low + 1) as nat) == 2 * pl);
    let d = 1int * crate::power::pow2((p2 + low + 1) as nat);
    assert(a == top * pl) by (nonlinear_arith)
        requires
            a == m1 * (pl * kk),
            top == m1 * kk,
    ;
    assert(b == x * pl + r * pp) by (nonlinear_arith)
        requires
            b == m2 * pp,
            m2 == l * x + r,
            pl == pp * l,
    ;
    assert(0 <= r * pp < pl) by (nonlinear_arith)
        requires
            0 <= r < l,
            pp > 0,
            pl == pp * l,
    ;
    assert((r * pp == 0) == (r == 0)) by (nonlinear_arith)
        requires
            r >= 0,
            pp > 0,
    ;
    let rest = r * pp;
    if minus {
        if r != 0 {
            let n = top - x - 1;
            assert(2 * (a - b) == d * n + 2 * (pl - rest)) by (nonlinear_arith)
                requires
                    a == top * pl,
                    b == x * pl + rest,
                    d == 2 * pl,
                    n == top - x - 1,
            ;
            vstd::arithmetic::div_mod::lemma_fundamental_div_mod_converse(
                2 * (a - b),
                d,
                n,
                2 * (pl - rest),
            );
        } else {
            let n = top - x;
            assert(2 * (a - b) == d * n + 0) by (nonlinear_arith)
                requires
                    a == top * pl,
                    b == x * pl + rest,
                    rest == 0,
                    d == 2 * pl,
                    n == top - x,
            ;
            vstd::arithmetic::div_mod::lemma_fundamental_div_mod_converse(2 * (a - b), d, n, 0);
        }
    } else {
        let n = top + x;
        assert(2 * (a + b) == d * n + 2 * rest) by (nonlinear_arith)
            requires
                a == top * pl,
                b == x * pl + rest,
                d == 2 * pl,
                n == top + x,
        ;
        vstd::arithmetic::div_mod::lemma_fundamental_div_mod_converse(2 * (a + b), d, n, 2 * rest);
    }
}

/// A larger power, or the same and a larger mantissa, is a larger double.
proof fn lemma_magnitudes_ordered(m1: u64, p1: u32, m2: u64, p2: u32)
    requires
        m1 < MANTISSA_END,
        m2 < MANTISSA_END,
        p1 > 0 ==> m1 >= MANTISSA_NORMAL,
        p1 > p2 || (p1 == p2 && m1 > m2),
    ensures
        m1 * crate::power::pow2(p1 as nat) > m2 * crate::power::pow2(p2 as nat),
{
    let x = crate::power::pow2(p1 as nat) as int;
    let y = crate::power::pow2(p2 as nat) as int;
    crate::power::lemma_pow2_positive(p2 as nat);
    if p1 > p2 {
        crate::power::lemma_pow2_monotonic((p2 + 1) as nat, p1 as nat);
        assert(m1 * x > m2 * y) by (nonlinear_arith)
            requires
                x >= 2 * y,
                y > 0,
                2 * m1 >= 0x20_0000_0000_0000,
                m2 < 0x20_0000_0000_0000,
        ;
    } else {
        assert(m1 * x > m2 * y) by (nonlinear_arith)
            requires
                x == y,
                y > 0,
                m1 > m2,
        ;
    }
}

/// The nearest double to the sum, or to the difference, of two magnitudes of which
/// the first has the higher power.
fn combine(negative: bool, m1: u64, p1: u32, m2: u64, p2: u32, minus: bool) -> (r: Number)
    requires
        m1 < MANTISSA_END,
        m2 < MANTISSA_END,
        p2 <= p1 <= POWER_MAX,
        p1 > 0 ==> m1 >= MANTISSA_NORMAL,
        minus ==> m1 * crate::power::pow2(p1 as nat) > m2 * crate::power::pow2(p2 as nat),
    ensures
        r == nearest(
            negative,
            if minus {
                m1 * crate::power::pow2(p1 as nat) - m2 * crate::power::pow2(p2 as nat)
            } else {
                m1 * crate::power::pow2(p1 as nat) + m2 * crate::power::pow2(p2 as nat)
            },
            1,
        ),
        r.wf(),
{
    let diff: u32 = p1 - p2;
    let k: u32 = if diff <= 70 {
        diff
    } else {
        70
    };
    let low: u32 = diff - k;
    let ghost unit = crate::power::pow2(low as nat) as int;
    let ghost kk = crate::power::pow2(k as nat) as int;
    proof {
        crate::power::lemma_pow2_values();
        crate::power::lemma_pow2_positive(low as nat);
        crate::power::lemma_pow2_positive(k as nat);
        crate::power::lemma_pow2_monotonic(k as nat, 70);
        crate::power::lemma_pow2_positive(p1 as nat);
        crate::power::lemma_pow2_positive(p2 as nat);
        if low >= 64 {
            crate::power::lemma_pow2_monotonic(64, low as nat);
            vstd::arithmetic::div_mod::lemma_small_mod(m2 as nat, unit as nat);
            vstd::arithmetic::div_mod::lemma_basic_div(m2 as int, unit);
        }
        assert(m1 * kk < 0x20_0000_0000_0000 * 0x40_0000_0000_0000_0000) by (nonlinear_arith)
            requires
                m1 < 0x20_0000_0000_0000,
                0 < kk <= 0x40_0000_0000_0000_0000,
        ;
        assert(m1 * crate::power::pow2(p1 as nat) >= 0 && m2 * crate::power::pow2(p2 as nat) >= 0)
            by (nonlinear_arith);
        lemma_aligned(m1 as int, m2 as int, p2 as int, k as int, low as int, minus);
        if low > 0 {
            assert(m1 * kk >= 0x10_0000_0000_0000 * 0x40_0000_0000_0000_0000) by (nonlinear_arith)
                requires
                    m1 >= 0x10_0000_0000_0000,
                    kk == 0x40_0000_0000_0000_0000,
            ;
        } else {
            assert(m2 as int / 1 == m2 && m2 as int % 1 == 0);
        }
        vstd::arithmetic::div_mod::lemma_fundamental_div_mod(m2 as int, unit);
        assert(0 <= m2 as int / unit <= m2) by (nonlinear_arith)
            requires
                m2 as int == unit * (m2 as int / unit) + (m2 as int % unit),
                unit > 0,
                0 <= m2 as int % unit < unit,
        ;
    }
    let (x, more): (u128, bool) = if low >= 64 {
        (0, m2 > 0)
    } else {
        let u: u128 = two_to(low);
        (m2 as u128 / u, m2 as u128 % u != 0)
    };
    let top: u128 = m1 as u128 * two_to(k);
    let shift: i32 = (p2 + low + 1) as i32;
    if minus {
        proof {
            if low == 0 {
                assert(m1 * kk >= m2) by {
                    crate::power::lemma_pow2_adds(k as nat, p2 as nat);
                    let pp = crate::power::pow2(p2 as nat) as int;
                    assert(k as nat + p2 as nat == p1 as nat);
                    assert(m1 * kk >= m2) by (nonlinear_arith)
                        requires
                            m1 * (kk * pp) > m2 * pp,
                            pp > 0,
                    ;
                }
            }
        }
        let n: u128 = if more {
            top - x - 1
        } else {
            top - x
        };
        round_scaled(
            negative,
            n,
            more,
            shift,
            Ghost(m1 * crate::power::pow2(p1 as nat) - m2 * crate::power::pow2(p2 as nat)),
            Ghost(1),
        )
    } else {
        round_scaled(
            negative,
            top + x,
            more,
            shift,
            Ghost(m1 * crate::power::pow2(p1 as nat) + m2 * crate::power::pow2(p2 as nat)),
            Ghost(1),
        )
    }
}

/// The nearest double to the sum of two finite ones.
fn sum_finite(s1: bool, m1: u64, p1: u32, s2: bool, m2: u64, p2: u32) -> (r: Number)
    requires
        (Number::Finite { negative: s1, mantissa: m1, power: p1 }).wf(),
        (Number::Finite { negative: s2, mantissa: m2, power: p2 }).wf(),
    ensures
        r == Number::plus(
            Number::Finite { negative: s1, mantissa: m1, power: p1 },
            Number::Finite { negative: s2, mantissa: m2, power: p2 },
        ),
        r.wf(),
{
    let ghost a = m1 * crate::power::pow2(p1 as nat);
    let ghost b = m2 * crate::power::pow2(p2 as nat);
    proof {
        crate::power::lemma_pow2_positive(p1 as nat);
        crate::power::lemma_pow2_positive(p2 as nat);
        assert(a >= 0 && (a == 0) == (m1 == 0)) by (nonlinear_arith)
            requires
                a == m1 * crate::power::pow2(p1 as nat),
                crate::power::pow2(p1 as nat) > 0,
        ;
        assert(b >= 0 && (b == 0) == (m2 == 0)) by (nonlinear_arith)
            requires
                b == m2 * crate::power::pow2(p2 as nat),
                crate::power::pow2(p2 as nat) > 0,
        ;
    }
    if s1 == s2 {
        if m1 == 0 && m2 == 0 {
            Number::Finite { negative: s1, mantissa: 0, power: 0 }
        } else if p1 >= p2 {
            combine(s1, m1, p1, m2, p2, false)
        } else {
            combine(s1, m2, p2, m1, p1, false)
        }
    } else if p1 == p2 && m1 == m2 {
        Number::Finite { negative: false, mantissa: 0, power: 0 }
    } else if p1 > p2 || (p1 == p2 && m1 > m2) {
        proof {
            lemma_magnitudes_ordered(m1, p1, m2, p2);
        }
        combine(s1, m1, p1, m2, p2, true)
    } else {
        proof {
            lemma_magnitudes_ordered(m2, p2, m1, p1);
        }
        combine(s2, m2, p2, m1, p1, true)
    }
}

impl Number {
    /// The double nearest to a whole number.
    pub fn from_u64(v: u64) -> (r: Number)
        ensures
            r == Number::whole(v as int),
            r.wf(),
    {
        Number::from_u128(v as u128)
    }

    /// The double nearest to a whole number.
    pub fn from_u128(v: u128) -> (r: Number)
        ensures
            r == Number::whole(v as int),
            r.wf(),
    {
        let ghost one = crate::power::pow2(POWER_ONE as nat) as int;
        proof {
            lemma_whole_scaled(v as int);
            assert(v * one >= 0) by (nonlinear_arith)
                requires
                    one >= 0,
            ;
        }
        round_scaled(false, v, false, 1075, Ghost(v * one), Ghost(1))
    }

    /// `self + other`.
    pub fn sum(self, other: Number) -> (r: Number)
        requires
            self.wf(),
            other.wf(),
        ensures
            r == Number::plus(self, other),
            r.wf(),
    {
        match (self, other) {
            (Number::NotANumber, _) => Number::NotANumber,
            (_, Number::NotANumber) => Number::NotANumber,
            (Number::Infinite { negative: s }, Number::Infinite { negative: t }) => {
                if s == t {
                    self
                } else {
                    Number::NotANumber
                }
            },
            (Number::Infinite { negative: _ }, _) => self,
            (_, Number::Infinite { negative: _ }) => other,
            (
                Number::Finite { negative: s1, mantissa: m1, power: p1 },
                Number::Finite { negative: s2, mantissa: m2, power: p2 },
            ) => sum_finite(s1, m1, p1, s2, m2, p2),
        }
    }

    /// `self - other`.
    pub fn difference(self, other: Number) -> (r: Number)
        requires
            self.wf(),
            other.wf(),
        ensures
            r == Number::less(self, other),
            r.wf(),
    {
        let opposite: Number = match other {
            Number::NotANumber => Number::NotANumber,
            Number::Infinite { negative } => Number::Infinite { negative: !negative },
            Number::Finite { negative, mantissa, power } => Number::Finite {
                negative: !negative,
                mantissa,
                power,
            },
        };
        self.sum(opposite)
    }

    /// `self * other`.
    pub fn product(self, other: Number) -> (r: Number)
        requires
            self.wf(),
            other.wf(),
        ensures
            r == Number::times(self, other),
            r.wf(),
    {
        proof {
            lemma_zero_steps(self);
            lemma_zero_steps(other);
        }
        match (self, other) {
            (Number::NotANumber, _) => Number::NotANumber,
            (_, Number::NotANumber) => Number::NotANumber,
            (Number::Infinite { negative: s }, Number::Infinite { negative: t }) =>
                Number::Infinite { negative: s != t },
            (Number::Infinite { negative: s }, Number::Finite { negative: t, mantissa, .. }) => {
                if mantissa == 0 {
                    Number::NotANumber
                } else {
                    Number::Infinite { negative: s != t }
                }
            },
            (Number::Finite { negative: s, mantissa, .. }, Number::Infinite { negative: t }) => {
                if mantissa == 0 {
                    Number::NotANumber
                } else {
                    Number::Infinite { negative: s != t }
                }
            },
            (
                Number::Finite { negative: s, mantissa: m1, power: p1 },
                Number::Finite { negative: t, mantissa: m2, power: p2 },
            ) => {
                proof {
                    lemma_product_scaled(m1 as int, p1 as int, m2 as int, p2 as int);
                    crate::power::lemma_pow2_positive(POWER_ONE as nat);
                    assert(m1 * m2 <= 0x20_0000_0000_0000 * 0x20_0000_0000_0000)
                        by (nonlinear_arith)
                        requires
                            m1 < 0x20_0000_0000_0000,
                            m2 < 0x20_0000_0000_0000,
                    ;
                    assert(self.steps() * other.steps() >= 0) by (nonlinear_arith)
                        requires
                            self.steps() >= 0,
                            other.steps() >= 0,
                    ;
                }
                round_scaled(
                    s != t,
                    m1 as u128 * m2 as u128,
                    false,
                    p1 as i32 + p2 as i32 - 1073,
                    Ghost(self.steps() * other.steps()),
                    Ghost(crate::power::pow2(POWER_ONE as nat) as int),
                )
            },
        }
    }

    /// `self / other`.
    pub fn quotient(self, other: Number) -> (r: Number)
        requires
            self.wf(),
            other.wf(),
        ensures
            r == Number::over(self, other),
            r.wf(),
    {
        proof {
            lemma_zero_steps(self);
            lemma_zero_steps(other);
        }
        match (self, other) {
            (Number::NotANumber, _) => Number::NotANumber,
            (_, Number::NotANumber) => Number::NotANumber,
            (Number::Infinite { negative: _ }, Number::Infinite { negative: _ }) =>
                Number::NotANumber,
            (Number::Infinite { negative: s }, Number::Finite { negative: t, .. }) =>
                Number::Infinite { negative: s != t },
            (Number::Finite { negative: s, .. }, Number::Infinite { negative: t }) =>
                Number::Finite { negative: s != t, mantissa: 0, power: 0 },
            (
                Number::Finite { negative: s, mantissa: m1, power: p1 },
                Number::Finite { negative: t, mantissa: m2, power: p2 },
            ) => {
                if m2 != 0 {
                    divide_finite(s != t, m1, p1, m2, p2)
                } else if m1 != 0 {
                    Number::Infinite { negative: s != t }
                } else {
                    Number::NotANumber
                }
            },
        }
    }

    /// `self / n`, for a whole number `n`.
    pub fn over_whole(self, n: u64) -> (r: Number)
        requires
            self.wf(),
        ensures
            r == Number::over(self, Number::whole(n as int)),
            r.wf(),
    {
        self.quotient(Number::from_u64(n))
    }

    /// Whether `self <= other`.
    pub fn le(self, other: Number) -> (r: bool)
        requires
            self.wf(),
            other.wf(),
        ensures
            r == self.at_most(other),
    {
        match (self, other) {
            (Number::NotANumber, _) => false,
            (_, Number::NotANumber) => false,
            (Number::Infinite { negative: s }, Number::Infinite { negative: t }) => s || !t,
            (Number::Infinite { negative: s }, _) => s,
            (_, Number::Infinite { negative: t }) => !t,
            (
                Number::Finite { negative: s, mantissa: m1, power: p1 },
                Number::Finite { negative: t, mantissa: m2, power: p2 },
            ) => {
                proof {
                    lemma_zero_steps(self);
                    lemma_zero_steps(other);
                    if p1 > p2 || (p1 == p2 && m1 > m2) {
                        lemma_magnitudes_ordered(m1, p1, m2, p2);
                    } else if p2 > p1 || m2 > m1 {
                        lemma_magnitudes_ordered(m2, p2, m1, p1);
                    }
                }
                let below: bool = p1 < p2 || (p1 == p2 && m1 <= m2);
                let above: bool = p2 < p1 || (p1 == p2 && m2 <= m1);
                if s {
                    !t || above
                } else {
                    (!t && below) || (m1 == 0 && m2 == 0)
                }
            },
        }
    }

    /// Whether `self < other`.
    pub fn lt(self, other: Number) -> (r: bool)
        requires
            self.wf(),
            other.wf(),
        ensures
            r == self.below(other),
    {
        self.le(other) && !other.le(self)
    }

    /// The smaller of the two.
    pub fn min(self, other: Number) -> (r: Number)
        requires
            self.wf(),
            other.wf(),
        ensures
            r == self.lesser(other),
            r.wf(),
    {
        match (self, other) {
            (Number::NotANumber, _) => other,
            (_, Number::NotANumber) => self,
            _ => if self.le(other) {
                self
            } else {
                other
            },
        }
    }

    /// The larger of the two.
    pub fn max(self, other: Number) -> (r: Number)
        requires
            self.wf(),
            other.wf(),
        ensures
            r == self.greater(other),
            r.wf(),
    {
        match (self, other) {
            (Number::NotANumber, _) => other,
            (_, Number::NotANumber) => self,
            _ => if other.le(self) {
                self
            } else {
                other
            },
        }
    }

    /// Zero.
    pub fn zero() -> (r: Number)
        ensures
            r == Number::nought(),
            r.wf(),
    {
        Number::Finite { negative: false, mantissa: 0, power: 0 }
    }

    /// Whether `self > 0`.
    pub fn is_positive(self) -> (r: bool)
        ensures
            r == self.above_zero(),
    {
        match self {
            Number::NotANumber => false,
            Number::Infinite { negative } => !negative,
            Number::Finite { negative, mantissa, .. } => !negative && mantissa > 0,
        }
    }
}

/// The quotient of two finite doubles, the second not zero.
fn divide_finite(negative: bool, m1: u64, p1: u32, m2: u64, p2: u32) -> (r: Number)
    requires
        (Number::Finite { negative, mantissa: m1, power: p1 }).wf(),
        (Number::Finite { negative, mantissa: m2, power: p2 }).wf(),
        m2 > 0,
    ensures
        r == nearest(
            negative,
            (m1 * crate::power::pow2(p1 as nat)) * crate::power::pow2(POWER_ONE as nat),
            m2 * crate::power::pow2(p2 as nat),
        ),
        r.wf(),
{
    let ghost one = crate::power::pow2(POWER_ONE as nat) as int;
    let ghost num = (m1 * crate::power::pow2(p1 as nat)) * one;
    let ghost den = m2 * crate::power::pow2(p2 as nat);
    let mut full: u128 = m1 as u128;
    let mut k: u32 = 0;
    assert(m1 * 1 == m1) by (nonlinear_arith);
    while full < MANTISSA_NORMAL as u128 && k < 53
        invariant
            m1 < MANTISSA_END,
            k <= 53,
            full == m1 * crate::power::pow2(k as nat),
            full < MANTISSA_END,
            m1 > 0 ==> full >= crate::power::pow2(k as nat),
        decreases 53 - k,
    {
        let ghost f = crate::power::pow2(k as nat);
        assert((m1 * f) * 2 == m1 * (2 * f)) by (nonlinear_arith);
        full = full * 2;
        k += 1;
    }
    let wide: u128 = two_to(74);
    proof {
        crate::power::lemma_pow2_values();
        crate::power::lemma_pow2_adds(k as nat, 74);
        crate::power::lemma_pow2_positive(p1 as nat);
        crate::power::lemma_pow2_positive(POWER_ONE as nat);
        let f = crate::power::pow2(k as nat) as int;
        assert((m1 * f) * wide == m1 * (f * wide)) by (nonlinear_arith);
        lemma_quotient_scaled(m1 as int, p1 as int, m2 as int, p2 as int, k + 74);
        assert(full * wide < 0x20_0000_0000_0000 * 0x400_0000_0000_0000_0000) by (nonlinear_arith)
            requires
                full < 0x20_0000_0000_0000,
                wide == 0x400_0000_0000_0000_0000,
        ;
        let x = crate::power::pow2(p1 as nat) as int;
        assert(num >= 0) by (nonlinear_arith)
            requires
                num == (m1 * x) * one,
                x > 0,
                one > 0,
                m1 >= 0,
        ;
    }
    let top: u128 = full * wide;
    let n: u128 = top / m2 as u128;
    let more: bool = top % m2 as u128 != 0;
    proof {
        if m1 == 0 {
            assert(top == 0) by (nonlinear_arith)
                requires
                    top == (m1 * crate::power::pow2(k as nat)) * wide,
                    m1 == 0,
            ;
        } else {
            assert(full >= 0x10_0000_0000_0000);
            assert(top >= 0x10_0000_0000_0000 * 0x400_0000_0000_0000_0000) by (nonlinear_arith)
                requires
                    top == full * wide,
                    full >= 0x10_0000_0000_0000,
                    wide == 0x400_0000_0000_0000_0000,
            ;
            vstd::arithmetic::div_mod::lemma_fundamental_div_mod(top as int, m2 as int);
            assert(n >= 0x20_0000_0000_0000) by (nonlinear_arith)
                requires
                    top == m2 * n + (top as int) % (m2 as int),
                    (top as int) % (m2 as int) < m2,
                    top >= 0x10_0000_0000_0000 * 0x400_0000_0000_0000_0000,
                    0 < m2 < 0x20_0000_0000_0000,
            ;
        }
    }
    round_scaled(
        negative,
        n,
        more,
        p1 as i32 - p2 as i32 + 1001 - k as i32,
        Ghost(num),
        Ghost(den),
    )
}

/// Steps are not negative, and there are none exactly when the mantissa is zero.
pub proof fn lemma_zero_steps(x: Number)
    ensures
        x.steps() >= 0,
        x matches Number::Finite { negative, mantissa, power } ==> (x.steps() == 0) == (mantissa
            == 0),
{
    if let Number::Finite { negative, mantissa, power } = x {
        crate::power::lemma_pow2_positive(power as nat);
        let y = crate::power::pow2(power as nat) as int;
        assert(mantissa * y >= 0 && (mantissa * y == 0) == (mantissa == 0)) by (nonlinear_arith)
            requires
                y > 0,
        ;
    }
}

// ---------------------------------------------------------------------------
// Text
// ---------------------------------------------------------------------------

/// The last `k` digits of `n`, leading zeros included.
pub open spec fn padded(n: nat, k: nat) -> Seq<char>
    decreases k,
{
    if k == 0 {
        Seq::empty()
    } else {
        padded(n / 10, (k - 1) as nat).push(crate::text::digit_char(n % 10))
    }
}

/// `q / 10^k`, written with `k` digits after the point.
pub open spec fn point_text(q: nat, k: nat) -> Seq<char> {
    crate::text::decimal(q / crate::power::pow10(k)).push('.') + padded(
        q % crate::power::pow10(k),
        k,
    )
}

impl Number {
    /// The number of the smallest written steps, `10^-k`, nearest to a finite
    /// double.
    pub open spec fn written_steps(self, k: nat) -> int {
        half_even(
            self.steps() * crate::power::pow10(k),
            crate::power::pow2(POWER_ONE as nat) as int,
        )
    }

    /// The double written with `k` digits after the point: the exact value,
    /// rounded once, half-way cases to the even digit.
    pub open spec fn fixed_text(self, k: nat) -> Seq<char> {
        match self {
            Number::NotANumber => "NaN"@,
            Number::Infinite { negative } => if negative {
                "-inf"@
            } else {
                "inf"@
            },
            Number::Finite { negative, mantissa, power } => {
                let text = point_text(self.written_steps(k) as nat, k);
                if negative {
                    seq!['-'] + text
                } else {
                    text
                }
            },
        }
    }

    /// The whole part, held within what a `u64` can be.
    pub fn to_u64(self) -> (r: u64)
        requires
            self.wf(),
        ensures
            r == self.whole_part(),
    {
        match self {
            Number::NotANumber => 0,
            Number::Infinite { negative } => {
                if negative {
                    0
                } else {
                    u64::MAX
                }
            },
            Number::Finite { negative, mantissa, power } => {
                if negative {
                    0
                } else if power <= POWER_ONE {
                    whole_of_small(mantissa, power)
                } else {
                    whole_of_large(mantissa, power)
                }
            },
        }
    }

    /// Appends the double, written with `k` digits after the point, to `out`.
    pub fn push_fixed(self, out: &mut String, k: u32)
        requires
            self.wf(),
            0 < k <= 18,
        ensures
            final(out)@ == old(out)@ + self.fixed_text(k as nat),
    {
        match self {
            Number::NotANumber => {
                out.append("NaN");
            },
            Number::Infinite { negative } => {
                if negative {
                    out.append("-inf");
                } else {
                    out.append("inf");
                }
            },
            Number::Finite { negative, mantissa, power } => {
                if negative {
                    out.push('-');
                }
                if power >= POWER_ONE {
                    push_whole(out, mantissa, power, k);
                } else {
                    let q: u128 = rounded_steps(mantissa, power, k);
                    push_point_text(out, q, k);
                }
                assert(out@ =~= old(out)@ + self.fixed_text(k as nat));
            },
        }
    }

    /// The double written with `k` digits after the point.
    pub fn fixed(self, k: u32) -> (r: String)
        requires
            self.wf(),
            0 < k <= 18,
        ensures
            r@ == self.fixed_text(k as nat),
    {
        let mut r: String = String::new();
        self.push_fixed(&mut r, k);
        assert(r@ =~= self.fixed_text(k as nat));
        r
    }
}

/// `2^1074` is `2^power` times what is left.
proof fn lemma_split_one(power: nat)
    requires
        power <= POWER_ONE,
    ensures
        crate::power::pow2(POWER_ONE as nat) == crate::power::pow2((POWER_ONE - power) as nat)
            * crate::power::pow2(power),
        crate::power::pow2((POWER_ONE - power) as nat) > 0,
        crate::power::pow2(power) > 0,
{
    crate::power::lemma_pow2_adds((POWER_ONE - power) as nat, power);
    crate::power::lemma_pow2_positive((POWER_ONE - power) as nat);
    crate::power::lemma_pow2_positive(power);
}

/// The whole part of a double that counts in ones or less.
fn whole_of_small(mantissa: u64, power: u32) -> (r: u64)
    requires
        mantissa < MANTISSA_END,
        power <= POWER_ONE,
    ensures
        r == (mantissa * crate::power::pow2(power as nat)) / crate::power::pow2(
            POWER_ONE as nat,
        ) as int,
{
    let s: u32 = POWER_ONE - power;
    let ghost d = crate::power::pow2(s as nat) as int;
    proof {
        lemma_split_one(power as nat);
        lemma_cancel_factor(mantissa as int, d, crate::power::pow2(power as nat) as int);
    }
    if s >= 64 {
        proof {
            crate::power::lemma_pow2_values();
            crate::power::lemma_pow2_monotonic(64, s as nat);
            vstd::arithmetic::div_mod::lemma_basic_div(mantissa as int, d);
        }
        0
    } else {
        let q: u128 = mantissa as u128 / two_to(s);
        proof {
            vstd::arithmetic::div_mod::lemma_div_is_ordered_by_denominator(
                mantissa as int,
                1,
                d,
            );
        }
        q as u64
    }
}

/// The whole part of a double that counts in more than ones, at most `u64::MAX`.
fn whole_of_large(mantissa: u64, power: u32) -> (r: u64)
    requires
        MANTISSA_NORMAL <= mantissa < MANTISSA_END,
        POWER_ONE < power <= POWER_MAX,
    ensures
        ({
            let n = (mantissa * crate::power::pow2(power as nat)) / crate::power::pow2(
                POWER_ONE as nat,
            ) as int;
            r == (if n > u64::MAX {
                u64::MAX as int
            } else {
                n
            })
        }),
{
    let s: u32 = power - POWER_ONE;
    let ghost f = crate::power::pow2(s as nat) as int;
    let ghost one = crate::power::pow2(POWER_ONE as nat) as int;
    proof {
        crate::power::lemma_pow2_positive(POWER_ONE as nat);
        crate::power::lemma_pow2_adds(s as nat, POWER_ONE as nat);
        assert(s as nat + POWER_ONE as nat == power as nat);
        assert(mantissa * (f * one) == (mantissa * f) * one) by (nonlinear_arith);
        lemma_exact_quotient(mantissa * (f * one), one, mantissa * f);
        crate::power::lemma_pow2_values();
    }
    if s > 12 {
        proof {
            crate::power::lemma_pow2_monotonic(12, s as nat);
            assert(mantissa * f >= 0x10_0000_0000_0000 * 0x1000) by (nonlinear_arith)
                requires
                    mantissa >= 0x10_0000_0000_0000,
                    f >= 0x1000,
            ;
        }
        u64::MAX
    } else {
        proof {
            crate::power::lemma_pow2_monotonic(s as nat, 12);
            assert(mantissa * f <= 0x20_0000_0000_0000 * 0x1000) by (nonlinear_arith)
                requires
                    mantissa < 0x20_0000_0000_0000,
                    f <= 0x1000,
            ;
        }
        let n: u128 = mantissa as u128 * two_to(s);
        if n > u64::MAX as u128 {
            u64::MAX
        } else {
            n as u64
        }
    }
}

/// The written steps of a double that counts in less than ones.
fn rounded_steps(mantissa: u64, power: u32, k: u32) -> (r: u128)
    requires
        mantissa < MANTISSA_END,
        power < POWER_ONE,
        k <= 18,
    ensures
        r == half_even(
            (mantissa * crate::power::pow2(power as nat)) * crate::power::pow10(k as nat),
            crate::power::pow2(POWER_ONE as nat) as int,
        ),
{
    let s: u32 = POWER_ONE - power;
    let ghost d = crate::power::pow2(s as nat) as int;
    let ghost f = crate::power::pow2(power as nat) as int;
    let ghost t = crate::power::pow10(k as nat) as int;
    let ghost x = mantissa * t;
    proof {
        crate::power::lemma_pow10(k as nat);
        crate::power::lemma_pow2_values();
        lemma_split_one(power as nat);
        assert(0 <= x < 0x20_0000_0000_0000 * 1_000_000_000_000_000_000) by (nonlinear_arith)
            requires
                x == mantissa * t,
                mantissa < 0x20_0000_0000_0000,
                0 < t <= 1_000_000_000_000_000_000,
        ;
        assert((mantissa * f) * t == x * f) by (nonlinear_arith)
            requires
                x == mantissa * t,
        ;
        lemma_half_even_factor(x, d, f);
    }
    if s >= 127 {
        proof {
            crate::power::lemma_pow2_monotonic(127, s as nat);
            vstd::arithmetic::div_mod::lemma_basic_div(x, d);
            vstd::arithmetic::div_mod::lemma_small_mod(x as nat, d as nat);
        }
        0
    } else {
        let n: u128 = mantissa as u128 * ten_to(k);
        let unit: u128 = two_to(s);
        let q: u128 = n / unit;
        let r: u128 = n % unit;
        proof {
            vstd::arithmetic::div_mod::lemma_div_is_ordered_by_denominator(x, 1, d);
        }
        if r > unit - r || (r == unit - r && q % 2 == 1) {
            q + 1
        } else {
            q
        }
    }
}

/// A factor on both sides does not change what a quotient is rounded to.
proof fn lemma_half_even_factor(x: int, d: int, f: int)
    requires
        x >= 0,
        d > 0,
        f > 0,
    ensures
        half_even(x * f, d * f) == half_even(x, d),
{
    vstd::arithmetic::div_mod::lemma_fundamental_div_mod(x, d);
    let (q, r) = (x / d, x % d);
    assert(x * f == (d * f) * q + r * f && 0 <= r * f < d * f) by (nonlinear_arith)
        requires
            x == d * q + r,
            0 <= r < d,
            f > 0,
    ;
    vstd::arithmetic::div_mod::lemma_fundamental_div_mod_converse(x * f, d * f, q, r * f);
    assert((2 * (r * f) > d * f) == (2 * r > d) && (2 * (r * f) == d * f) == (2 * r == d))
        by (nonlinear_arith)
        requires
            f > 0,
    ;
}

/// Appends `q / 10^k`, written with `k` digits after the point.
pub fn push_point_text(out: &mut String, q: u128, k: u32)
    requires
        k <= 18,
    ensures
        final(out)@ == old(out)@ + point_text(q as nat, k as nat),
{
    let unit: u128 = ten_to(k);
    proof {
        crate::power::lemma_pow10(k as nat);
    }
    push_decimal(out, q / unit);
    out.push('.');
    push_padded(out, q % unit, k);
    assert(out@ =~= old(out)@ + point_text(q as nat, k as nat));
}

/// Appends the last `k` digits of `n`.
fn push_padded(out: &mut String, n: u128, k: u32)
    ensures
        final(out)@ == old(out)@ + padded(n as nat, k as nat),
    decreases k,
{
    if k > 0 {
        push_padded(out, n / 10, k - 1);
        let d: u8 = (n % 10) as u8;
        let c: char = (48u8 + d) as char;
        assert(c == crate::text::digit_char((n % 10) as nat));
        out.push(c);
    }
    assert(out@ =~= old(out)@ + padded(n as nat, k as nat));
}

/// Appends a double that counts in ones or more.
fn push_whole(out: &mut String, mantissa: u64, power: u32, k: u32)
    requires
        POWER_ONE <= power <= POWER_MAX,
        k <= 18,
    ensures
        final(out)@ == old(out)@ + point_text(
            half_even(
                (mantissa * crate::power::pow2(power as nat)) * crate::power::pow10(k as nat),
                crate::power::pow2(POWER_ONE as nat) as int,
            ) as nat,
            k as nat,
        ),
{
    let mut d: Vec<u8> = digits_of(mantissa);
    let mut p: u32 = POWER_ONE;
    assert(mantissa * crate::power::pow2(0) == mantissa) by (nonlinear_arith)
        requires
            crate::power::pow2(0) == 1,
    ;
    while p < power
        invariant
            POWER_ONE <= p <= power,
            crate::digits::digits(d@),
            crate::digits::trim(d@),
            crate::digits::value(d@) == mantissa * crate::power::pow2((p - POWER_ONE) as nat),
        decreases power - p,
    {
        let ghost f = crate::power::pow2((p - POWER_ONE) as nat) as int;
        assert((mantissa * f) * 2 == mantissa * (2 * f)) by (nonlinear_arith);
        d = multiply(&d, 2);
        p += 1;
    }
    let ghost n = crate::digits::value(d@);
    proof {
        let one = crate::power::pow2(POWER_ONE as nat) as int;
        let t = crate::power::pow10(k as nat) as int;
        let f = crate::power::pow2((power - POWER_ONE) as nat) as int;
        crate::power::lemma_pow10(k as nat);
        crate::power::lemma_pow2_positive(POWER_ONE as nat);
        crate::power::lemma_pow2_adds((power - POWER_ONE) as nat, POWER_ONE as nat);
        assert((power - POWER_ONE) as nat + POWER_ONE as nat == power as nat);
        let x = (mantissa * crate::power::pow2(power as nat)) * t;
        assert(x == (n * t) * one) by (nonlinear_arith)
            requires
                x == (mantissa * (f * one)) * t,
                n == mantissa * f,
        ;
        lemma_exact_quotient(x, one, n * t);
        assert(half_even(x, one) == n * t);
        assert(n * t == t * n + 0 && n * t >= 0) by (nonlinear_arith)
            requires
                t > 0,
                n >= 0,
        ;
        vstd::arithmetic::div_mod::lemma_fundamental_div_mod_converse(n * t, t, n as int, 0);
    }
    push_digits(out, &d);
    out.push('.');
    push_padded(out, 0, k);
    assert(out@ =~= old(out)@ + point_text((n * crate::power::pow10(k as nat)) as nat, k as nat));
}

// ---------------------------------------------------------------------------
// Conversions
// ---------------------------------------------------------------------------

impl Number {
    /// The bit pattern of a double; that of the quiet one for what is no number.
    pub open spec fn bits(self) -> int {
        match self {
            Number::NotANumber => 0x7ff8_0000_0000_0000,
            Number::Infinite { negative } => (if negative {
                0x8000_0000_0000_0000int
            } else {
                0
            }) + 0x7ff0_0000_0000_0000,
            Number::Finite { negative, mantissa, power } => (if negative {
                0x8000_0000_0000_0000int
            } else {
                0
            }) + (if mantissa < MANTISSA_NORMAL {
                mantissa as int
            } else {
                (power + 1) * 0x10_0000_0000_0000 + (mantissa - MANTISSA_NORMAL)
            }),
        }
    }

    /// The bit pattern of a double.
    pub fn to_bits(self) -> (r: u64)
        requires
            self.wf(),
        ensures
            r == self.bits(),
    {
        match self {
            Number::NotANumber => 0x7ff8_0000_0000_0000,
            Number::Infinite { negative } => {
                if negative {
                    0xfff0_0000_0000_0000
                } else {
                    0x7ff0_0000_0000_0000
                }
            },
            Number::Finite { negative, mantissa, power } => {
                let sign: u64 = if negative {
                    0x8000_0000_0000_0000
                } else {
                    0
                };
                if mantissa < MANTISSA_NORMAL {
                    sign + mantissa
                } else {
                    sign + ((power + 1) as u64 * 0x10_0000_0000_0000 + (mantissa
                        - MANTISSA_NORMAL))
                }
            },
        }
    }
}

/// A double as it is stored: its bit pattern.
#[derive(Debug, Clone, Copy, PartialEq, Eq, Structural)]
pub struct Double {
    pub bits: u64,
}

impl View for Double {
    type V = Number;

    open spec fn view(&self) -> Number {
        Number::of_bits(self.bits)
    }
}

impl Double {
    /// The number that the bits stand for.
    pub fn number(&self) -> (r: Number)
        ensures
            r == self@,
            r.wf(),
    {
        Number::from_bits(self.bits)
    }

    /// The bits that stand for a number.
    pub fn from_number(n: Number) -> (r: Double)
        requires
            n.wf(),
        ensures
            r@ == n,
    {
        proof {
            lemma_bits_round_trip(n);
        }
        Double { bits: n.to_bits() }
    }

    /// Zero.
    pub fn zero() -> (r: Double)
        ensures
            r@ == Number::nought(),
    {
        Double { bits: 0 }
    }
}

/// A double that is turned into bits and back is what it was.
pub proof fn lemma_bits_round_trip(x: Number)
    requires
        x.wf(),
    ensures
        0 <= x.bits() <= u64::MAX,
        Number::of_bits(x.bits() as u64) == x,
{
}

/// A double is the nearest double to itself.
pub proof fn lemma_nearest_is_exact(negative: bool, mantissa: u64, power: u32)
    requires
        (Number::Finite { negative, mantissa, power }).wf(),
    ensures
        nearest(
            negative,
            (Number::Finite { negative, mantissa, power }).steps(),
            1,
        ) == (Number::Finite { negative, mantissa, power }),
{
    let p = power as nat;
    let f = crate::power::pow2(p) as int;
    let n = mantissa * f;
    crate::power::lemma_pow2_positive(p);
    lemma_zero_steps(Number::Finite { negative, mantissa, power });
    assert(1 * f == f && 1 * crate::power::pow2(0) == 1);
    assert(n < f * MANTISSA_END) by (nonlinear_arith)
        requires
            n == mantissa * f,
            mantissa < MANTISSA_END,
            f > 0,
    ;
    if p > 0 {
        let g = crate::power::pow2((p - 1) as nat) as int;
        assert(n >= (1 * g) * MANTISSA_END) by (nonlinear_arith)
            requires
                n == mantissa * f,
                f == 2 * g,
                g >= 0,
                2 * mantissa >= MANTISSA_END,
        ;
    }
    lemma_nearest_stops_at(negative, n, 1, 0, p);
    lemma_exact_quotient(n, f, mantissa as int);
}

/// Written with `k` decimals, a finite double is off by half a written step at
/// most.
pub proof fn lemma_fixed_is_close(x: Number, k: nat)
    requires
        x is Finite,
    ensures
        ({
            let exact = x.steps() * crate::power::pow10(k);
            let written = x.written_steps(k) * crate::power::pow2(POWER_ONE as nat);
            let one = crate::power::pow2(POWER_ONE as nat) as int;
            -one <= 2 * (written - exact) <= one
        }),
{
    let exact = x.steps() * crate::power::pow10(k);
    let one = crate::power::pow2(POWER_ONE as nat) as int;
    crate::power::lemma_pow2_positive(POWER_ONE as nat);
    vstd::arithmetic::div_mod::lemma_fundamental_div_mod(exact, one);
    let q = exact / one;
    assert(one * q == q * one) by (nonlinear_arith);
    assert((q + 1) * one == q * one + one) by (nonlinear_arith);
}

/// Whole numbers below `2^53` are doubles, so nothing is lost in writing them as
/// one.
pub proof fn lemma_small_whole_is_exact(n: int)
    requires
        0 <= n < MANTISSA_END,
    ensures
        Number::whole(n) is Finite,
        Number::whole(n).steps() == n * crate::power::pow2(POWER_ONE as nat),
        !Number::whole(n).minus(),
{
    lemma_full_mantissa(n, POWER_ONE as nat);
}

/// A whole number that is rounded is in the one form that doubles have.
pub proof fn lemma_whole_wf(n: int)
    requires
        n >= 0,
    ensures
        Number::whole(n).wf(),
{
    let one = crate::power::pow2(POWER_ONE as nat) as int;
    assert(n * one >= 0) by (nonlinear_arith)
        requires
            n >= 0,
            one >= 0,
    ;
    lemma_nearest_wf(false, n * one, 1, 0);
}

/// A quotient is in the one form that doubles have.
pub proof fn lemma_over_wf(a: Number, b: Number)
    ensures
        Number::over(a, b).wf(),
{
    let one = crate::power::pow2(POWER_ONE as nat) as int;
    lemma_zero_steps(a);
    lemma_zero_steps(b);
    assert(a.steps() * one >= 0) by (nonlinear_arith)
        requires
            a.steps() >= 0,
            one >= 0,
    ;
    if b.steps() > 0 {
        lemma_nearest_wf(a.minus() != b.minus(), a.steps() * one, b.steps(), 0);
    }
}

/// What is rounded is in the one form that doubles have.
proof fn lemma_nearest_wf(negative: bool, n: int, d: int, p: int)
    requires
        n >= 0,
        d > 0,
        p >= 0,
        p > 0 ==> 2 * n >= d * MANTISSA_END,
    ensures
        nearest_from(negative, n, d, p).wf(),
    decreases n - d,
{
    if n >= d * MANTISSA_END {
        lemma_nearest_wf(negative, n, 2 * d, p + 1);
    } else {
        vstd::arithmetic::div_mod::lemma_fundamental_div_mod(n, d);
        let (q, rest) = (n / d, n % d);
        assert(0 <= q < MANTISSA_END) by (nonlinear_arith)
            requires
                n == d * q + rest,
                0 <= rest < d,
                0 <= n < d * MANTISSA_END,
        ;
        if p > 0 {
            assert(q >= MANTISSA_NORMAL) by (nonlinear_arith)
                requires
                    2 * n >= d * MANTISSA_END,
                    n == d * q + rest,
                    rest < d,
                    d > 0,
                    MANTISSA_END == 2 * MANTISSA_NORMAL,
            ;
        }
    }
}

/// A number below `2^53` at some power is a double.
proof fn lemma_full_mantissa(n: int, p: nat)
    requires
        0 <= n < MANTISSA_END,
        p <= POWER_MAX,
    ensures
        nearest(false, n * crate::power::pow2(p), 1) is Finite,
        nearest(false, n * crate::power::pow2(p), 1).steps() == n * crate::power::pow2(p),
        !nearest(false, n * crate::power::pow2(p), 1).minus(),
    decreases p,
{
    if p == 0 || n >= MANTISSA_NORMAL {
        lemma_nearest_is_exact(false, n as u64, p as u32);
    } else {
        let g = crate::power::pow2((p - 1) as nat) as int;
        assert(n * (2 * g) == (2 * n) * g) by (nonlinear_arith);
        lemma_full_mantissa(2 * n, (p - 1) as nat);
    }
}

} // verus!
