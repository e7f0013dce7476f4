//! Whole numbers of any size, digit by digit.

use vstd::prelude::*;

verus! {

/// The number that decimal digits denote, least significant first.
pub open spec fn value(d: Seq<u8>) -> nat
    decreases d.len(),
{
    if d.len() == 0 {
        0
    } else {
        d[0] as nat + 10 * value(d.drop_first())
    }
}

/// Each is a digit.
pub open spec fn digits(d: Seq<u8>) -> bool {
    forall|i: int| 0 <= i < d.len() ==> (#[trigger] d[i]) < 10
}

/// There are no zeros to drop: one digit, or the first to be read is not zero.
pub open spec fn trim(d: Seq<u8>) -> bool {
    d.len() > 0 && (d.len() > 1 ==> d.last() != 0)
}

/// One more digit at the top.
proof fn lemma_value_push(d: Seq<u8>, top: u8)
    ensures
        value(d.push(top)) == value(d) + top * crate::power::pow10(d.len()),
    decreases d.len(),
{
    if d.len() == 0 {
        assert(d.push(top).drop_first() =~= d);
        reveal_with_fuel(value, 2);
        assert(top * 1 == top) by (nonlinear_arith);
    } else {
        lemma_value_push(d.drop_first(), top);
        assert(d.push(top).drop_first() =~= d.drop_first().push(top));
        let p = crate::power::pow10((d.len() - 1) as nat);
        assert(top * (10 * p) == 10 * (top * p)) by (nonlinear_arith);
    }
}

/// A number with a digit other than zero at its top is not zero.
proof fn lemma_value_not_zero(d: Seq<u8>)
    requires
        d.len() > 0,
        d.last() != 0,
    ensures
        value(d) > 0,
{
    assert(d =~= d.drop_last().push(d.last()));
    lemma_value_push(d.drop_last(), d.last());
    let p = crate::power::pow10((d.len() - 1) as nat);
    crate::power::lemma_pow10((d.len() - 1) as nat);
    assert(d.last() * p > 0) by (nonlinear_arith)
        requires
            d.last() > 0,
            p > 0,
    ;
}

/// A number without zeros to drop is written by its digits, most significant
/// first.
proof fn lemma_decimal_digits_of(d: Seq<u8>)
    requires
        digits(d),
        trim(d),
    ensures
        crate::text::decimal(value(d)) == d.reverse().map_values(
            |x: u8| crate::text::digit_char(x as nat),
        ),
    decreases d.len(),
{
    let f = |x: u8| crate::text::digit_char(x as nat);
    let rest = d.drop_first();
    assert(d[0] < 10);
    if d.len() == 1 {
        assert(value(rest) == 0);
        assert(value(d) == d[0]);
        assert(d.reverse().map_values(f) =~= seq![crate::text::digit_char(d[0] as nat)]);
    } else {
        assert(rest.last() == d.last());
        lemma_value_not_zero(rest);
        assert forall|i: int| 0 <= i < rest.len() implies (#[trigger] rest[i]) < 10 by {
            assert(rest[i] == d[i + 1]);
        }
        lemma_decimal_digits_of(rest);
        assert(value(d) / 10 == value(rest));
        assert(value(d) % 10 == d[0]);
        assert(d.reverse().map_values(f) =~= rest.reverse().map_values(f).push(
            crate::text::digit_char(d[0] as nat),
        ));
    }
}

/// The digits of `n`.
pub fn digits_of(n: u64) -> (r: Vec<u8>)
    ensures
        digits(r@),
        trim(r@),
        value(r@) == n,
        r@.len() <= 20,
{
    let mut r: Vec<u8> = Vec::new();
    let mut left: u64 = n;
    proof {
        assert(crate::power::pow10(20) == 100_000_000_000_000_000_000) by {
            reveal_with_fuel(crate::power::pow10, 21);
        }
        assert(left * crate::power::pow10(0) == left) by (nonlinear_arith)
            requires
                crate::power::pow10(0) == 1,
        ;
    }
    while left >= 10
        invariant
            digits(r@),
            value(r@) + left * crate::power::pow10(r@.len()) == n,
            left > 0 || r@.len() == 0,
            r@.len() < 20,
            left < crate::power::pow10((20 - r@.len()) as nat),
        decreases left,
    {
        let d: u8 = (left % 10) as u8;
        proof {
            lemma_value_push(r@, d);
            let p = crate::power::pow10(r@.len());
            assert(left * p == d * p + (left / 10) * (10 * p)) by (nonlinear_arith)
                requires
                    left == 10 * (left / 10) + d,
            ;
            if r@.len() == 19 {
                assert(crate::power::pow10(1) == 10) by {
                    reveal_with_fuel(crate::power::pow10, 2);
                }
            }
        }
        r.push(d);
        left = left / 10;
    }
    proof {
        lemma_value_push(r@, left as u8);
    }
    r.push(left as u8);
    r
}

/// `d` multiplied by `factor`.
pub fn multiply(d: &Vec<u8>, factor: u8) -> (r: Vec<u8>)
    requires
        digits(d@),
        trim(d@),
        0 < factor <= 10,
    ensures
        digits(r@),
        trim(r@),
        value(r@) == value(d@) * factor,
        r@.len() <= d@.len() + 1,
{
    let mut r: Vec<u8> = Vec::new();
    let mut carry: u8 = 0;
    let mut i: usize = 0;
    proof {
        assert(d@.take(0) =~= Seq::empty());
        assert(0 * factor == 0) by (nonlinear_arith);
    }
    while i < d.len()
        invariant
            i <= d@.len(),
            digits(d@),
            trim(d@),
            0 < factor <= 10,
            carry < factor,
            r@.len() == i,
            digits(r@),
            value(r@) + carry * crate::power::pow10(i as nat) == value(d@.take(i as int)) * factor,
            i == d@.len() && i > 1 && carry == 0 ==> r@.last() != 0,
        decreases d@.len() - i,
    {
        let x: u8 = d[i];
        assert(x < 10);
        assert(x * factor + carry <= 9 * factor + factor - 1 < 10 * factor) by (nonlinear_arith)
            requires
                x < 10,
                carry < factor,
        ;
        let t: u8 = x * factor + carry;
        proof {
            let p = crate::power::pow10(i as nat);
            assert(d@.take(i + 1) =~= d@.take(i as int).push(x));
            lemma_value_push(d@.take(i as int), x);
            lemma_value_push(r@, t % 10);
            let v = value(d@.take(i as int));
            let w = value(r@);
            assert((w + (t % 10) * p) + (t / 10) * (10 * p) == (v + x * p) * factor)
                by (nonlinear_arith)
                requires
                    w + carry * p == v * factor,
                    t == x * factor + carry,
                    t == 10 * (t / 10) + t % 10,
            ;
            if t / 10 == 0 && x != 0 {
                assert(x * factor > 0) by (nonlinear_arith)
                    requires
                        x > 0,
                        factor > 0,
                ;
            }
            assert(t / 10 < factor);
        }
        r.push(t % 10);
        carry = t / 10;
        i += 1;
    }
    assert(d@.take(d@.len() as int) =~= d@);
    if carry > 0 {
        proof {
            lemma_value_push(r@, carry);
        }
        r.push(carry);
    }
    r
}

/// Appends the decimal numeral of `d` to `out`.
pub fn push_digits(out: &mut String, d: &Vec<u8>)
    requires
        digits(d@),
        trim(d@),
    ensures
        final(out)@ == old(out)@ + crate::text::decimal(value(d@)),
{
    let ghost f = |x: u8| crate::text::digit_char(x as nat);
    let ghost all = d@.reverse().map_values(f);
    proof {
        lemma_decimal_digits_of(d@);
    }
    let mut i: usize = d.len();
    while i > 0
        invariant
            i <= d@.len(),
            digits(d@),
            f == (|x: u8| crate::text::digit_char(x as nat)),
            all == d@.reverse().map_values(f),
            out@ == old(out)@ + all.take(d@.len() - i),
        decreases i,
    {
        i -= 1;
        let x: u8 = d[i];
        assert(x < 10);
        let c: char = (48u8 + x) as char;
        assert(c == all[d@.len() - 1 - i]);
        out.push(c);
    }
    assert(all.take(d@.len() as int) =~= all);
}

// ---------------------------------------------------------------------------
// Parts, order and sums
// ---------------------------------------------------------------------------

/// The low `k` digits and the rest.
pub proof fn lemma_value_split(d: Seq<u8>, k: nat)
    requires
        digits(d),
        k <= d.len(),
    ensures
        value(d) == value(d.take(k as int)) + crate::power::pow10(k) * value(d.skip(k as int)),
        value(d.take(k as int)) < crate::power::pow10(k),
        value(d) / crate::power::pow10(k) == value(d.skip(k as int)),
        value(d) % crate::power::pow10(k) == value(d.take(k as int)),
    decreases k,
{
    let p = crate::power::pow10(k);
    crate::power::lemma_pow10(k);
    if k == 0 {
        assert(d.skip(0) =~= d);
        assert(1 * value(d) == value(d)) by (nonlinear_arith);
    } else {
        let j = (k - 1) as nat;
        let q = crate::power::pow10(j);
        lemma_value_split(d, j);
        let top = d[j as int];
        assert(top < 10);
        assert(d.take(k as int) =~= d.take(j as int).push(top));
        lemma_value_push(d.take(j as int), top);
        assert(d.skip(j as int).drop_first() =~= d.skip(k as int));
        assert(d.skip(j as int)[0] == top);
        let rest = value(d.skip(k as int));
        assert(q * (top + 10 * rest) == top * q + (10 * q) * rest) by (nonlinear_arith);
        assert(top * q <= 9 * q) by (nonlinear_arith)
            requires
                top <= 9,
        ;
    }
    let rest = value(d.skip(k as int));
    vstd::arithmetic::div_mod::lemma_fundamental_div_mod_converse(
        value(d) as int,
        p as int,
        rest as int,
        value(d.take(k as int)) as int,
    );
}

/// Fewer digits than `k` denote a number below `10^k`.
pub proof fn lemma_value_below(d: Seq<u8>, k: nat)
    requires
        digits(d),
        d.len() <= k,
    ensures
        value(d) < crate::power::pow10(k),
    decreases k,
{
    if d.len() == k {
        lemma_value_split(d, k);
        assert(d.take(k as int) =~= d);
    } else {
        lemma_value_below(d, (k - 1) as nat);
    }
}

/// The number of digits says how large a number is.
pub proof fn lemma_value_bounds(d: Seq<u8>)
    requires
        digits(d),
        d.len() > 0,
        d.last() != 0,
    ensures
        crate::power::pow10((d.len() - 1) as nat) <= value(d) < crate::power::pow10(d.len()),
{
    assert(d =~= d.drop_last().push(d.last()));
    lemma_value_push(d.drop_last(), d.last());
    lemma_value_below(d, d.len());
    let (x, p) = (d.last() as int, crate::power::pow10((d.len() - 1) as nat) as int);
    assert(x * p >= p) by (nonlinear_arith)
        requires
            x >= 1,
            p >= 0,
    ;
}

/// Zeros at the top add nothing.
proof fn lemma_value_zeros(d: Seq<u8>)
    requires
        forall|i: int| 0 <= i < d.len() ==> (#[trigger] d[i]) == 0,
    ensures
        value(d) == 0,
    decreases d.len(),
{
    if d.len() > 0 {
        assert forall|i: int| 0 <= i < d.drop_first().len() implies (
        #[trigger] d.drop_first()[i]) == 0 by {
            assert(d.drop_first()[i] == d[i + 1]);
        }
        lemma_value_zeros(d.drop_first());
    }
}

/// The digit at a place, zero beyond the top.
fn digit_at(d: &Vec<u8>, i: usize) -> (r: u8)
    ensures
        r == (if i < d@.len() {
            d@[i as int]
        } else {
            0
        }),
{
    if i < d.len() {
        d[i]
    } else {
        0
    }
}

/// `d` with zeros up to `n` digits.
spec fn widened(d: Seq<u8>, n: nat) -> Seq<u8> {
    Seq::new(
        n,
        |i: int|
            if i < d.len() {
                d[i]
            } else {
                0
            },
    )
}

proof fn lemma_widened(d: Seq<u8>, n: nat)
    requires
        digits(d),
        d.len() <= n,
    ensures
        digits(widened(d, n)),
        value(widened(d, n)) == value(d),
    decreases n - d.len(),
{
    if d.len() == n {
        assert(widened(d, n) =~= d);
    } else {
        let m = (n - 1) as nat;
        lemma_widened(d, m);
        assert(widened(d, n) =~= widened(d, m).push(0));
        lemma_value_push(widened(d, m), 0);
        assert(0 * crate::power::pow10(m) == 0) by (nonlinear_arith);
    }
}

/// Whether one number is at most another.
pub fn at_most(a: &Vec<u8>, b: &Vec<u8>) -> (r: bool)
    requires
        digits(a@),
        digits(b@),
    ensures
        r == (value(a@) <= value(b@)),
{
    let n: usize = if a.len() >= b.len() {
        a.len()
    } else {
        b.len()
    };
    let ghost x = widened(a@, n as nat);
    let ghost y = widened(b@, n as nat);
    proof {
        lemma_widened(a@, n as nat);
        lemma_widened(b@, n as nat);
    }
    let mut i: usize = n;
    assert(x.skip(n as int) =~= y.skip(n as int));
    while i > 0
        invariant
            i <= n,
            a@.len() <= n,
            b@.len() <= n,
            x == widened(a@, n as nat),
            y == widened(b@, n as nat),
            digits(x),
            digits(y),
            value(x) == value(a@),
            value(y) == value(b@),
            x.skip(i as int) == y.skip(i as int),
        decreases i,
    {
        let p: u8 = digit_at(a, i - 1);
        let q: u8 = digit_at(b, i - 1);
        assert(x[i - 1] == p && y[i - 1] == q);
        if p != q {
            proof {
                let k = (i - 1) as nat;
                let w = crate::power::pow10(k);
                lemma_value_split(x, k);
                lemma_value_split(y, k);
                assert(x.skip(k as int).drop_first() =~= x.skip(i as int));
                assert(y.skip(k as int).drop_first() =~= y.skip(i as int));
                let rest = value(x.skip(i as int));
                let (u, v) = (value(x.take(k as int)), value(y.take(k as int)));
                assert(value(x.skip(k as int)) == p + 10 * rest);
                assert(value(y.skip(k as int)) == q + 10 * rest);
                if p < q {
                    assert(u + w * (p + 10 * rest) < v + w * (q + 10 * rest)) by (nonlinear_arith)
                        requires
                            u < w,
                            p + 1 <= q,
                            v >= 0,
                    ;
                } else {
                    assert(v + w * (q + 10 * rest) < u + w * (p + 10 * rest)) by (nonlinear_arith)
                        requires
                            v < w,
                            q + 1 <= p,
                            u >= 0,
                    ;
                }
            }
            return p < q;
        }
        proof {
            assert(x.skip(i - 1) =~= seq![p] + x.skip(i as int));
            assert(y.skip(i - 1) =~= seq![q] + y.skip(i as int));
        }
        i -= 1;
    }
    assert(x.skip(0) =~= x && y.skip(0) =~= y);
    true
}

/// The sum of two numbers.
pub fn sum(a: &Vec<u8>, b: &Vec<u8>) -> (r: Vec<u8>)
    requires
        digits(a@),
        digits(b@),
        a@.len() < usize::MAX,
        b@.len() < usize::MAX,
    ensures
        digits(r@),
        value(r@) == value(a@) + value(b@),
        r@.len() > 0,
        trim(a@) && trim(b@) ==> trim(r@),
        r@.len() <= (if a@.len() >= b@.len() {
            a@.len()
        } else {
            b@.len()
        }) + 1,
{
    let n: usize = if a.len() >= b.len() {
        a.len()
    } else {
        b.len()
    };
    let ghost x = widened(a@, n as nat);
    let ghost y = widened(b@, n as nat);
    proof {
        lemma_widened(a@, n as nat);
        lemma_widened(b@, n as nat);
    }
    let mut r: Vec<u8> = Vec::new();
    let mut carry: u8 = 0;
    let mut i: usize = 0;
    while i < n
        invariant
            i <= n,
            a@.len() <= n,
            b@.len() <= n,
            x == widened(a@, n as nat),
            y == widened(b@, n as nat),
            digits(x),
            digits(y),
            carry <= 1,
            r@.len() == i,
            digits(r@),
            value(r@) + carry * crate::power::pow10(i as nat) == value(x.take(i as int)) + value(
                y.take(i as int),
            ),
            i > 0 && carry == 0 && (x[i - 1] > 0 || y[i - 1] > 0) ==> r@.last() != 0,
        decreases n - i,
    {
        let p: u8 = digit_at(a, i);
        let q: u8 = digit_at(b, i);
        assert(x[i as int] == p && y[i as int] == q);
        assert(p < 10 && q < 10);
        let t: u8 = p + q + carry;
        proof {
            let w = crate::power::pow10(i as nat);
            assert(x.take(i + 1) =~= x.take(i as int).push(p));
            assert(y.take(i + 1) =~= y.take(i as int).push(q));
            lemma_value_push(x.take(i as int), p);
            lemma_value_push(y.take(i as int), q);
            lemma_value_push(r@, t % 10);
            let (u, v, z) = (value(x.take(i as int)), value(y.take(i as int)), value(r@));
            assert((z + (t % 10) * w) + (t / 10) * (10 * w) == (u + p * w) + (v + q * w))
                by (nonlinear_arith)
                requires
                    z + carry * w == u + v,
                    t == p + q + carry,
                    t == 10 * (t / 10) + t % 10,
            ;
        }
        r.push(t % 10);
        carry = t / 10;
        i += 1;
    }
    proof {
        assert(x.take(n as int) =~= x && y.take(n as int) =~= y);
        if trim(a@) && trim(b@) && n > 1 {
            if a@.len() == n {
                assert(x[n - 1] == a@.last());
            } else {
                assert(y[n - 1] == b@.last());
            }
        }
        lemma_value_push(r@, carry);
    }
    if carry > 0 || r.len() == 0 {
        r.push(carry);
    } else {
        assert(carry * crate::power::pow10(n as nat) == 0) by (nonlinear_arith)
            requires
                carry == 0,
        ;
    }
    r
}

/// The digits from place `k` on: the number without its low digits.
pub fn high_part(d: &Vec<u8>, k: usize) -> (r: Vec<u8>)
    requires
        digits(d@),
        trim(d@),
    ensures
        digits(r@),
        trim(r@),
        value(r@) == value(d@) / crate::power::pow10(k as nat),
        r@.len() <= d@.len(),
{
    let mut r: Vec<u8> = Vec::new();
    if k >= d.len() {
        proof {
            lemma_value_below(d@, k as nat);
            vstd::arithmetic::div_mod::lemma_basic_div(
                value(d@) as int,
                crate::power::pow10(k as nat) as int,
            );
            reveal_with_fuel(value, 2);
        }
        r.push(0);
        return r;
    }
    let mut i: usize = k;
    while i < d.len()
        invariant
            k <= i <= d@.len(),
            r@ == d@.subrange(k as int, i as int),
        decreases d@.len() - i,
    {
        r.push(d[i]);
        i += 1;
    }
    proof {
        assert(r@ =~= d@.skip(k as int));
        lemma_value_split(d@, k as nat);
        assert forall|i: int| 0 <= i < r@.len() implies (#[trigger] r@[i]) < 10 by {
            assert(r@[i] == d@[k + i]);
        }
        assert(r@.last() == d@.last());
    }
    r
}

/// The digits below place `k`: what is left when the number is divided by `10^k`.
pub fn low_part(d: &Vec<u8>, k: usize) -> (r: Vec<u8>)
    requires
        digits(d@),
    ensures
        digits(r@),
        value(r@) == value(d@) % crate::power::pow10(k as nat),
        r@.len() <= d@.len(),
{
    let n: usize = if k <= d.len() {
        k
    } else {
        d.len()
    };
    let mut r: Vec<u8> = Vec::new();
    let mut i: usize = 0;
    while i < n
        invariant
            i <= n <= d@.len(),
            r@ == d@.take(i as int),
        decreases n - i,
    {
        r.push(d[i]);
        i += 1;
    }
    proof {
        assert forall|i: int| 0 <= i < r@.len() implies (#[trigger] r@[i]) < 10 by {
            assert(r@[i] == d@[i]);
        }
        if k <= d@.len() {
            lemma_value_split(d@, k as nat);
        } else {
            assert(r@ =~= d@);
            lemma_value_below(d@, k as nat);
            vstd::arithmetic::div_mod::lemma_small_mod(
                value(d@),
                crate::power::pow10(k as nat),
            );
        }
    }
    r
}

/// Ten to the power of `k`.
pub fn power_of_ten(k: usize) -> (r: Vec<u8>)
    requires
        k < usize::MAX,
    ensures
        digits(r@),
        trim(r@),
        value(r@) == crate::power::pow10(k as nat),
        r@.len() == k + 1,
{
    let mut r: Vec<u8> = Vec::new();
    let mut i: usize = 0;
    while i < k
        invariant
            i <= k,
            r@.len() == i,
            forall|j: int| 0 <= j < i ==> (#[trigger] r@[j]) == 0,
        decreases k - i,
    {
        r.push(0);
        i += 1;
    }
    proof {
        lemma_value_zeros(r@);
        lemma_value_push(r@, 1);
        assert(1 * crate::power::pow10(k as nat) == crate::power::pow10(k as nat))
            by (nonlinear_arith);
    }
    r.push(1);
    r
}

/// Appends the last `k` digits of a number, leading zeros included.
pub fn push_low_digits(out: &mut String, d: &Vec<u8>, from: usize, k: usize)
    requires
        digits(d@),
        from + k <= usize::MAX,
    ensures
        final(out)@ == old(out)@ + crate::number::padded(
            value(
                if from <= d@.len() {
                    d@.skip(from as int)
                } else {
                    Seq::empty()
                },
            ),
            k as nat,
        ),
    decreases k,
{
    if k > 0 {
        push_low_digits(out, d, from + 1, k - 1);
        let x: u8 = digit_at(d, from);
        let ghost rest = if from <= d@.len() {
            d@.skip(from as int)
        } else {
            Seq::empty()
        };
        proof {
            if from < d@.len() {
                assert(x < 10);
                assert(rest.drop_first() =~= d@.skip(from + 1));
                assert(rest[0] == x);
                assert(value(rest) == x + 10 * value(rest.drop_first()));
            } else {
                assert(rest =~= Seq::empty());
                assert(value(rest) == 0);
            }
        }
        let c: char = (48u8 + x) as char;
        assert(c == crate::text::digit_char(x as nat));
        out.push(c);
    }
}

/// A number without zeros to drop has as many digits as its numeral.
pub proof fn lemma_decimal_len(d: Seq<u8>)
    requires
        digits(d),
        trim(d),
    ensures
        crate::text::decimal(value(d)).len() == d.len(),
{
    lemma_decimal_digits_of(d);
}

// ---------------------------------------------------------------------------
// From text and to machine numbers
// ---------------------------------------------------------------------------

/// One more digit in front.
proof fn lemma_digits_value_front(s: Seq<char>)
    requires
        s.len() > 0,
    ensures
        crate::text::digits_value(s) == crate::text::digit_value(s[0]) * crate::power::pow10(
            (s.len() - 1) as nat,
        ) + crate::text::digits_value(s.skip(1)),
    decreases s.len(),
{
    let front = crate::text::digit_value(s[0]);
    if s.len() == 1 {
        assert(s.drop_last() =~= Seq::empty());
        assert(s.skip(1) =~= Seq::empty());
        reveal_with_fuel(crate::text::digits_value, 2);
        assert(front * 1 == front) by (nonlinear_arith);
    } else {
        let shorter = s.drop_last();
        lemma_digits_value_front(shorter);
        assert(shorter.skip(1) =~= s.skip(1).drop_last());
        let p = crate::power::pow10((s.len() - 2) as nat);
        assert((front * p) * 10 == front * (10 * p)) by (nonlinear_arith);
    }
}

/// The number that a sequence of digits denotes, most significant first.
pub fn digits_in(s: &Vec<char>) -> (r: Vec<u8>)
    requires
        crate::text::all_digits(s@),
    ensures
        digits(r@),
        trim(r@),
        value(r@) == crate::text::digits_value(s@),
{
    let mut r: Vec<u8> = Vec::new();
    let mut i: usize = s.len();
    assert(s@.skip(s@.len() as int) =~= Seq::empty());
    while i > 0
        invariant
            i <= s@.len(),
            crate::text::all_digits(s@),
            digits(r@),
            r@.len() == s@.len() - i,
            value(r@) == crate::text::digits_value(s@.skip(i as int)),
        decreases i,
    {
        i -= 1;
        let c: char = s[i];
        assert(crate::text::is_digit(s@[i as int]));
        let d: u8 = (c as u32 - 48) as u8;
        proof {
            lemma_value_push(r@, d);
            lemma_digits_value_front(s@.skip(i as int));
            assert(s@.skip(i as int).skip(1) =~= s@.skip(i + 1));
        }
        r.push(d);
    }
    assert(s@.skip(0) =~= s@);
    if r.len() == 0 {
        r.push(0);
        reveal_with_fuel(value, 2);
        return r;
    }
    while r.len() > 1 && r[r.len() - 1] == 0
        invariant
            digits(r@),
            r@.len() > 0,
            value(r@) == crate::text::digits_value(s@),
        decreases r@.len(),
    {
        let ghost whole = r@;
        r.pop();
        proof {
            assert(whole =~= r@.push(0));
            lemma_value_push(r@, 0);
            assert(0 * crate::power::pow10(r@.len()) == 0) by (nonlinear_arith);
        }
    }
    r
}

/// `d` followed by `k` zeros.
pub fn shifted(d: &Vec<u8>, k: u128) -> (r: Vec<u8>)
    requires
        digits(d@),
        trim(d@),
    ensures
        digits(r@),
        trim(r@),
        value(r@) == value(d@) * crate::power::pow10(k as nat),
{
    let mut r: Vec<u8> = Vec::new();
    if d.len() == 1 && d[0] == 0 {
        r.push(0);
        proof {
            reveal_with_fuel(value, 2);
            assert(0 * crate::power::pow10(k as nat) == 0) by (nonlinear_arith);
        }
        return r;
    }
    let mut i: u128 = 0;
    while i < k
        invariant
            i <= k,
            r@.len() == i,
            forall|j: int| 0 <= j < i ==> (#[trigger] r@[j]) == 0,
        decreases k - i,
    {
        r.push(0);
        i += 1;
    }
    let ghost zeros = r@;
    let mut j: usize = 0;
    while j < d.len()
        invariant
            j <= d@.len(),
            r@ == zeros + d@.take(j as int),
        decreases d@.len() - j,
    {
        r.push(d[j]);
        j += 1;
        assert(r@ =~= zeros + d@.take(j as int));
    }
    proof {
        assert(r@ =~= zeros + d@);
        assert forall|i: int| 0 <= i < r@.len() implies (#[trigger] r@[i]) < 10 by {
            if i >= k {
                assert(r@[i] == d@[i - k]);
            } else {
                assert(r@[i] == zeros[i]);
            }
        }
        lemma_value_split(r@, k as nat);
        assert(r@.take(k as int) =~= zeros);
        assert(r@.skip(k as int) =~= d@);
        lemma_value_zeros(zeros);
        let f = crate::power::pow10(k as nat);
        assert(f * value(d@) == value(d@) * f) by (nonlinear_arith);
    }
    r
}

/// The number as a machine number, if it fits.
pub fn to_u128(d: &Vec<u8>) -> (r: Option<u128>)
    requires
        digits(d@),
    ensures
        match r {
            Some(n) => n == value(d@),
            None => value(d@) > u128::MAX,
        },
{
    let mut n: u128 = 0;
    let mut i: usize = d.len();
    assert(d@.skip(d@.len() as int) =~= Seq::empty());
    while i > 0
        invariant
            i <= d@.len(),
            digits(d@),
            n == value(d@.skip(i as int)),
        decreases i,
    {
        i -= 1;
        let x: u8 = d[i];
        proof {
            assert(d@.skip(i as int).drop_first() =~= d@.skip(i + 1));
            assert(d@.skip(i as int)[0] == x);
            assert(x < 10);
        }
        if n > (u128::MAX - x as u128) / 10 {
            proof {
                let high = value(d@.skip(i as int)) as int;
                let f = crate::power::pow10(i as nat) as int;
                lemma_value_split(d@, i as nat);
                crate::power::lemma_pow10(i as nat);
                assert(f * high >= high) by (nonlinear_arith)
                    requires
                        f >= 1,
                        high >= 0,
                ;
            }
            return None;
        }
        n = 10 * n + x as u128;
    }
    assert(d@.skip(0) =~= d@);
    Some(n)
}

} // verus!
