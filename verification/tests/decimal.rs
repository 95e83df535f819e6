//! Decimal texts, numerals and numbers of double precision.

use paddock::decimal::read_float;
use paddock::double::Double;
use paddock::numeral::{decimal, signed_decimal};

fn chars(s: &str) -> Vec<char> {
    s.chars().collect()
}

/// The double-precision number that a `Double` stands for.
fn f(d: Double) -> f64 {
    d.mantissa as f64 * 2f64.powi(d.exponent)
}

#[test]
fn texts_read_like_doubles() {
    for s in [
        "0", "1", "8", "0.5", "1.2", "4.1", "13.8", "72.7", "0.135", ".5", "5.", "+7", "+.25",
        "1e1", "2.5E-1", "1e22", "1e23", "123456789e-5", "9007199254740993",
        "9007199254740992.99999999999999999999999", "9007199254740993.0000000000000000000001",
        "0.1000000000000000055511151231257827021181583404541015625",
        "0.10000000000000000555111512312578270211815834045410156250000000000000000000001",
        "123456789012345678901234567890", "1.7976931348623157e308", "4.35e-300",
        "000000000000000000000000000000000000000000000000000000000000000012.5",
        "0.00000000000000000000000000000000000000000000000000000000000001",
        "1000000000000000000000000000000000000000000e-42", "2.2250738585072014e-308",
    ] {
        let want: f64 = s.parse().unwrap();
        let got = read_float(&chars(s)).unwrap();
        assert_eq!(f(got), want, "{s}");
    }
}

#[test]
fn extremes_are_infinite_or_nothing() {
    let infinite = read_float(&chars("1e309")).unwrap();
    for s in [
        "1e400", "2e308", "1.7976931348623159e308", "1e99999999999999999999999999999999999999",
        "17976931348623158079372897140530341507993413271003782693617377898044496829276475094664901797758720709633028641669288791094655554785194040263065748867150582068190890200070838367627385484581771153176447573027006985557136695962284291481986083493647529271907416844436551070434271155969950809304288017790417449779100000",
    ] {
        assert_eq!(s.parse::<f64>().unwrap(), f64::INFINITY, "{s}");
        assert_eq!(read_float(&chars(s)), Some(infinite), "{s}");
    }
    for s in ["0e5", "1e-400", "2e-324", "0.0", "1e-99999999999999999999999999999999999999999"] {
        assert_eq!(s.parse::<f64>().unwrap(), 0.0, "{s}");
        assert_eq!(f(read_float(&chars(s)).unwrap()), 0.0, "{s}");
    }
    assert!(read_float(&chars("5e-324")).unwrap().mantissa != 0);
}

#[test]
fn other_texts_are_no_decimals() {
    for s in [
        "", ".", "+", "e5", "1e", "1e+", "1.2.3", "1_000", " 1", "1 ", "0x10", "1e5.0", "+-1",
        "++1", ".e1", "1f",
    ] {
        assert!(s.parse::<f64>().is_err(), "{s}");
        assert_eq!(read_float(&chars(s)), None, "{s}");
    }
}

#[test]
fn arithmetic_rounds_like_doubles() {
    let d = |x: f64| Double::from_bits(x.to_bits()).unwrap();
    let values = [1.0, 0.1, 3.0, 7.3, 1e-9, 123456.789, 5e15, 2.5e-3, 0.3, 1e9];
    for a in values {
        for b in values {
            assert_eq!(f(d(a).times(d(b))), a * b, "{a} * {b}");
            assert_eq!(f(d(a).over(d(b))), a / b, "{a} / {b}");
            assert_eq!(f(d(a).plus(d(b))), a + b, "{a} + {b}");
            if a >= b {
                assert_eq!(f(d(a).minus(d(b))), a - b, "{a} - {b}");
            }
            assert_eq!(d(a).is_less(d(b)), a < b, "{a} < {b}");
        }
        assert_eq!(d(a).to_u64(), a as u64);
        assert_eq!(d(a).whole_text(), format!("{a:.0}"));
        assert_eq!(d(a).tenths_text(), format!("{a:.1}"));
        assert_eq!(d(a).thousandths_text(), format!("{a:.3}"));
    }
}

#[test]
fn sums_of_far_apart_numbers() {
    let d = |x: f64| Double::from_bits(x.to_bits()).unwrap();
    for (a, b) in [(1e300, 1e-300), (1.0, 1e-16), (1.0, 1.2e-16), (1e16, 1.0), (4503599627370497.5, 0.25)] {
        assert_eq!(f(d(a).plus(d(b))), a + b, "{a} + {b}");
        assert_eq!(f(d(a).minus(d(b))), a - b, "{a} - {b}");
    }
}

#[test]
fn numerals_read_back() {
    for n in [0u64, 7, 10, 99, 100, u64::MAX] {
        assert_eq!(decimal(n as u128), n.to_string());
    }
    for n in [i64::MIN, -10, 0, 5, i64::MAX] {
        assert_eq!(signed_decimal(n), n.to_string());
    }
}
