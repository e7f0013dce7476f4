//! Powers of ten and of two.

use vstd::prelude::*;

verus! {

/// Ten to the power of `k`.
pub open spec fn pow10(k: nat) -> nat
    decreases k,
{
    if k == 0 {
        1
    } else {
        10 * pow10((k - 1) as nat)
    }
}

/// A power of ten is positive, and those up to the thirty-eighth fit a `u128`.
pub proof fn lemma_pow10(k: nat)
    ensures
        pow10(k) > 0,
        k <= 18 ==> pow10(k) <= 1_000_000_000_000_000_000,
        k <= 38 ==> pow10(k) <= 100_000_000_000_000_000_000_000_000_000_000_000_000,
    decreases k,
{
    if k > 0 {
        lemma_pow10((k - 1) as nat);
        if k <= 38 {
            lemma_pow10_table((k - 1) as nat);
        }
    }
}

proof fn lemma_pow10_table(k: nat)
    requires
        k < 38,
    ensures
        10 * pow10(k) <= 100_000_000_000_000_000_000_000_000_000_000_000_000,
        k < 18 ==> 10 * pow10(k) <= 1_000_000_000_000_000_000,
{
    reveal_with_fuel(pow10, 39);
}

/// Powers of ten multiply by adding their exponents.
pub proof fn lemma_pow10_adds(a: nat, b: nat)
    ensures
        pow10(a + b) == pow10(a) * pow10(b),
    decreases a,
{
    if a == 0 {
        assert(pow10(0) == 1);
    } else {
        lemma_pow10_adds((a - 1) as nat, b);
        let (x, y) = (pow10((a - 1) as nat) as int, pow10(b) as int);
        assert((a + b - 1) as nat == (a - 1) as nat + b);
        assert(10 * (x * y) == (10 * x) * y) by (nonlinear_arith);
    }
}

/// Ten is more than the third power of two.
pub proof fn lemma_pow10_above_pow2(k: nat)
    ensures
        pow10(k) >= pow2(3 * k),
    decreases k,
{
    if k > 0 {
        lemma_pow10_above_pow2((k - 1) as nat);
        let j = (3 * (k - 1)) as nat;
        assert(pow2(j + 1) == 2 * pow2(j));
        assert(pow2(j + 2) == 2 * pow2(j + 1));
        assert(pow2(j + 3) == 2 * pow2(j + 2));
    }
}

/// Ten to the power of `k`.
pub fn ten_to(k: u32) -> (r: u128)
    requires
        k <= 38,
    ensures
        r == pow10(k as nat),
{
    let mut r: u128 = 1;
    let mut i: u32 = 0;
    while i < k
        invariant
            i <= k <= 38,
            r == pow10(i as nat),
        decreases k - i,
    {
        proof {
            lemma_pow10((i + 1) as nat);
        }
        r = 10 * r;
        i += 1;
    }
    r
}

/// Two to the power of `k`.
pub open spec fn pow2(k: nat) -> nat
    decreases k,
{
    if k == 0 {
        1
    } else {
        2 * pow2((k - 1) as nat)
    }
}

/// A power of two is positive.
pub proof fn lemma_pow2_positive(k: nat)
    ensures
        pow2(k) > 0,
    decreases k,
{
    if k > 0 {
        lemma_pow2_positive((k - 1) as nat);
    }
}

/// Powers of two multiply by adding their exponents.
pub proof fn lemma_pow2_adds(a: nat, b: nat)
    ensures
        pow2(a + b) == pow2(a) * pow2(b),
    decreases a,
{
    if a == 0 {
        assert(pow2(0) == 1);
    } else {
        lemma_pow2_adds((a - 1) as nat, b);
        let (x, y) = (pow2((a - 1) as nat) as int, pow2(b) as int);
        assert((a + b - 1) as nat == (a - 1) as nat + b);
        assert(2 * (x * y) == (2 * x) * y) by (nonlinear_arith);
    }
}

/// A larger exponent makes a larger power.
pub proof fn lemma_pow2_monotonic(a: nat, b: nat)
    requires
        a <= b,
    ensures
        pow2(a) <= pow2(b),
    decreases b,
{
    if a < b {
        lemma_pow2_monotonic(a, (b - 1) as nat);
    }
}

/// The powers of two that the code names by their values.
pub proof fn lemma_pow2_values()
    ensures
        pow2(12) == 0x1000,
        pow2(52) == 0x10_0000_0000_0000,
        pow2(53) == 0x20_0000_0000_0000,
        pow2(64) == 0x1_0000_0000_0000_0000,
        pow2(70) == 0x40_0000_0000_0000_0000,
        pow2(74) == 0x400_0000_0000_0000_0000,
        pow2(127) == 0x8000_0000_0000_0000_0000_0000_0000_0000,
{
    assert(pow2(4) == 16) by {
        reveal_with_fuel(pow2, 5);
    }
    lemma_pow2_adds(4, 4);
    assert(pow2(8) == 0x100);
    lemma_pow2_adds(8, 4);
    lemma_pow2_adds(8, 8);
    assert(pow2(16) == 0x1_0000);
    lemma_pow2_adds(16, 16);
    assert(pow2(32) == 0x1_0000_0000);
    lemma_pow2_adds(32, 16);
    assert(pow2(48) == 0x1_0000_0000_0000);
    lemma_pow2_adds(48, 4);
    lemma_pow2_adds(32, 32);
    assert(pow2(64) == 0x1_0000_0000_0000_0000);
    lemma_pow2_adds(64, 4);
    assert(pow2(68) == 0x10_0000_0000_0000_0000);
    assert(pow2(69) == 2 * pow2(68));
    lemma_pow2_adds(70, 4);
    lemma_pow2_adds(64, 64);
    assert(pow2(128) == 0x1_0000_0000_0000_0000 * 0x1_0000_0000_0000_0000);
}

/// Two to the power of `k`.
pub fn two_to(k: u32) -> (r: u128)
    requires
        k <= 127,
    ensures
        r == pow2(k as nat),
{
    let mut r: u128 = 1;
    let mut i: u32 = 0;
    while i < k
        invariant
            i <= k <= 127,
            r == pow2(i as nat),
        decreases k - i,
    {
        proof {
            lemma_pow2_values();
            lemma_pow2_monotonic((i + 1) as nat, 127);
        }
        r = 2 * r;
        i += 1;
    }
    r
}

} // verus!
