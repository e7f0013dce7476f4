use resource_tracker::number::{Double, Number};

/// Doubles of every kind: zeros, subnormals, powers of two, neighbours of them,
/// large and small ones, and what is not finite.
fn samples() -> Vec<f64> {
    let mut v = vec![
        0.0,
        -0.0,
        1.0,
        -1.0,
        0.1,
        0.3,
        10.0,
        100.0,
        1000.0,
        1.001,
        2.5,
        3.5,
        1e9,
        1e15,
        1e16,
        1e22,
        1e23,
        9007199254740991.0,
        9007199254740993.0,
        4503599627370496.5,
        1.7976931348623157e308,
        2.2250738585072014e-308,
        2.225073858507201e-308,
        5e-324,
        1e-323,
        1e-310,
        123456.789,
        0.000123,
        f64::INFINITY,
        f64::NEG_INFINITY,
        f64::NAN,
    ];
    let mut seed: u64 = 0x9e37_79b9_7f4a_7c15;
    for _ in 0..60 {
        seed ^= seed << 13;
        seed ^= seed >> 7;
        seed ^= seed << 17;
        v.push(f64::from_bits(seed));
        v.push((seed >> 11) as f64 / 1024.0);
        v.push(((seed >> 40) as f64) / 1000.0 - 5000.0);
    }
    v
}

fn num(x: f64) -> Number {
    Number::from_bits(x.to_bits())
}

fn float(n: Number) -> f64 {
    f64::from_bits(n.to_bits())
}

fn same(a: f64, b: f64) -> bool {
    (a.is_nan() && b.is_nan()) || a.to_bits() == b.to_bits()
}

#[test]
fn bits_come_back() {
    for x in samples() {
        assert!(same(float(num(x)), x), "{x}");
        assert!(same(f64::from_bits(Double::from_number(num(x)).bits), x), "{x}");
    }
}

#[test]
fn sums_round_as_doubles_do() {
    let all = samples();
    for &a in &all {
        for &b in &all {
            assert!(same(float(num(a).sum(num(b))), a + b), "{a} + {b}");
            assert!(same(float(num(a).difference(num(b))), a - b), "{a} - {b}");
        }
    }
    assert_eq!(float(num(0.1).sum(num(0.2))), 0.30000000000000004);
    assert!(same(float(num(-0.0).sum(num(-0.0))), -0.0));
    assert!(same(float(num(1.0).difference(num(1.0))), 0.0));
}

#[test]
fn products_round_as_doubles_do() {
    let all = samples();
    for &a in &all {
        for &b in &all {
            assert!(same(float(num(a).product(num(b))), a * b), "{a} * {b}");
        }
    }
    assert_eq!(float(num(1.001).product(num(1000.0))), 1000.9999999999999);
    assert_eq!(float(num(0.3).product(num(10.0))), 3.0);
}

#[test]
fn quotients_round_as_doubles_do() {
    let all = samples();
    for &a in &all {
        for &b in &all {
            assert!(same(float(num(a).quotient(num(b))), a / b), "{a} / {b}");
        }
        for n in [1, 3, 100, 1000, 1_048_576, 1_000_000_000, u64::MAX] {
            assert!(same(float(num(a).over_whole(n)), a / n as f64), "{a} / {n}");
        }
    }
}

#[test]
fn whole_numbers_round_as_doubles_do() {
    for v in [0, 1, 2, 1001, 1 << 53, (1 << 53) + 1, (1 << 53) + 3, u64::MAX, u64::MAX - 1024] {
        assert!(same(float(Number::from_u64(v)), v as f64), "{v}");
    }
    for v in [0, 1 << 64, (1 << 64) + 1, (1 << 100) + (1 << 40), u128::MAX] {
        assert!(same(float(Number::from_u128(v)), v as f64), "{v}");
    }
}

#[test]
fn whole_parts_saturate() {
    for x in samples() {
        assert_eq!(num(x).to_u64(), x as u64, "{x}");
        assert_eq!(num(x).is_positive(), x > 0.0, "{x}");
    }
    assert_eq!(num(1.8446744073709552e19).to_u64(), u64::MAX);
    assert_eq!(num(1.8446744073709550e19).to_u64(), 18446744073709549568);
}

#[test]
fn fixed_text_is_what_formatting_gives() {
    for x in samples() {
        assert_eq!(num(x).fixed(3), format!("{x:.3}"));
        assert_eq!(num(x).fixed(4), format!("{x:.4}"));
        assert_eq!(num(x).fixed(6), format!("{x:.6}"));
    }
    assert_eq!(num(1.234).fixed(3), "1.234");
    assert_eq!(num(0.0625).fixed(3), "0.062");
    assert_eq!(num(0.1875).fixed(3), "0.188");
    assert_eq!(num(-0.0).fixed(3), "-0.000");
    assert_eq!(num(f64::NAN).fixed(3), "NaN");
    assert_eq!(num(f64::NEG_INFINITY).fixed(3), "-inf");
}

#[test]
fn shortest_text_is_what_formatting_gives() {
    for x in samples() {
        assert_eq!(num(x).shortest(), format!("{x}"));
    }
    assert_eq!(num(0.12).shortest(), "0.12");
    assert_eq!(num(5.0).shortest(), "5");
    assert_eq!(num(0.0).shortest(), "0");
    assert_eq!(num(-0.0).shortest(), "-0");
    assert_eq!(num(1e23).shortest(), "100000000000000000000000");
    assert_eq!(num(0.1 + 0.2).shortest(), "0.30000000000000004");
}

#[test]
fn order_is_that_of_doubles() {
    let all = samples();
    for &a in &all {
        for &b in &all {
            assert_eq!(num(a).le(num(b)), a <= b, "{a} <= {b}");
            assert_eq!(num(a).lt(num(b)), a < b, "{a} < {b}");
            let (least, most) = (float(num(a).min(num(b))), float(num(a).max(num(b))));
            // Of two zeros either may be handed back.
            assert!(least == a.min(b) || same(least, a.min(b)), "min of {a} and {b}");
            assert!(most == a.max(b) || same(most, a.max(b)), "max of {a} and {b}");
        }
    }
    assert!(same(float(Number::zero()), 0.0));
    assert!(same(f64::from_bits(Double::zero().bits), 0.0));
}
