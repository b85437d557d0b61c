//! The numbers of the scheduler against those of the machine.
use verz_link::binary64::Binary64;

fn num(x: f64) -> Binary64 {
    Binary64::from_bits(x.to_bits())
}

fn samples() -> Vec<f64> {
    let mut list = vec![
        0.0,
        -0.0,
        1.0,
        -1.0,
        0.1,
        1.0 / 3.0,
        2.5,
        3.5,
        -2.5,
        1e-310,
        5e-324,
        2.2250738585072014e-308,
        1.7976931348623157e308,
        -1.7976931348623157e308,
        f64::INFINITY,
        f64::NEG_INFINITY,
        f64::NAN,
        9007199254740993.0,
        4503599627370495.5,
        1e16,
        123456.789,
        0.875,
        64.0,
        75.0,
    ];
    // Patterns from all over the range.
    let mut bits: u64 = 0x9e37_79b9_7f4a_7c15;
    for _ in 0..60 {
        bits ^= bits << 13;
        bits ^= bits >> 7;
        bits ^= bits << 17;
        list.push(f64::from_bits(bits));
        list.push(f64::from_bits((bits & 0x801f_ffff_ffff_ffff) | 0x3fe0_0000_0000_0000));
    }
    list
}

fn same(found: Binary64, expected: f64, what: &str) {
    if expected.is_nan() {
        assert!(found.is_nan(), "{what}");
    } else {
        assert_eq!(found.bits, expected.to_bits(), "{what}");
    }
}

#[test]
fn operations_agree_with_the_machine() {
    for &a in &samples() {
        for &b in &samples() {
            same(num(a).plus(num(b)), a + b, &format!("{a} + {b}"));
            same(num(a).minus(num(b)), a - b, &format!("{a} - {b}"));
            same(num(a).times(num(b)), a * b, &format!("{a} * {b}"));
            same(num(a).over(num(b)), a / b, &format!("{a} / {b}"));
            assert_eq!(num(a).lt(num(b)), a < b, "{a} < {b}");
            assert_eq!(num(a).ge(num(b)), a >= b, "{a} >= {b}");
        }
    }
}

#[test]
fn functions_of_one_number_agree_with_the_machine() {
    for &a in &samples() {
        same(num(a).ceil(), a.ceil(), &format!("ceil {a}"));
        same(num(a).nearest(), a.round(), &format!("round {a}"));
        same(num(a).sqrt(), a.sqrt(), &format!("sqrt {a}"));
        same(num(a).abs(), a.abs(), &format!("abs {a}"));
        same(num(a).neg(), -a, &format!("neg {a}"));
        assert_eq!(num(a).floor_u64(), a as u64, "{a}");
        assert_eq!(num(a).is_finite(), a.is_finite(), "{a}");
        assert_eq!(num(a).is_nan(), a.is_nan(), "{a}");
    }
}

#[test]
fn whole_numbers_and_ratios_are_rounded_to_even() {
    for n in [0, 1, 2, 75_000, (1 << 53) - 1, 1 << 53, (1 << 53) + 1, (1 << 53) + 3, u64::MAX] {
        same(Binary64::whole(n), n as f64, &format!("{n}"));
    }
    same(Binary64::ratio(115, 100), 1.15, "1.15");
    same(Binary64::ratio(1, 3), 1.0 / 3.0, "third");
    same(Binary64::ratio(7, 8), 0.875, "seven eighths");
}

#[test]
fn bounds_pick_as_the_machine_does() {
    for &a in &samples() {
        let expected = a.max(1.0).min(64.0);
        if !a.is_nan() {
            same(num(a).max(num(1.0)).min(num(64.0)), expected, &format!("{a}"));
            same(num(a).clamp(num(1.0), num(64.0)), a.clamp(1.0, 64.0), &format!("{a}"));
        } else {
            same(num(a).max(num(1.0)), 1.0, "a missing number");
        }
    }
    assert!(num(-0.0).precedes(num(0.0)) && !num(0.0).precedes(num(-0.0)));
    assert!(num(1.0).precedes(num(f64::INFINITY)));
}
