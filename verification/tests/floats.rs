use ad_graph_db::float::Float64;
use ad_graph_db::float_display::float_to_text;
use ad_graph_db::float_format::{float_to_debug, float_to_fixed};
use ad_graph_db::float_text::parse_float;
use ad_graph_db::number_text::{parse_i64, parse_u64};

fn w(x: f64) -> Float64 {
    Float64::from_bits(x.to_bits())
}

fn value(x: Float64) -> f64 {
    f64::from_bits(x.to_bits())
}

/// Doubles of all sizes, by a fixed sequence of bit patterns.
fn samples() -> Vec<f64> {
    let mut out = vec![
        0.0,
        -0.0,
        1.0,
        -1.0,
        0.1,
        0.2,
        0.3,
        1.5,
        2.5,
        1e21,
        1e22,
        1e23,
        123456789.125,
        5e-324,
        f64::MIN_POSITIVE,
        f64::MAX,
        f64::INFINITY,
        f64::NEG_INFINITY,
        9007199254740993.0,
        1125899906842624.25,
        4503599627370496.5,
        2251799813685248.75,
    ];
    let mut state = 0x9e37_79b9_7f4a_7c15_u64;
    for _ in 0..300 {
        state ^= state << 13;
        state ^= state >> 7;
        state ^= state << 17;
        let x = f64::from_bits(state);
        if !x.is_nan() {
            out.push(x);
        }
        out.push((state % 1_000_000) as f64 / 64.0);
    }
    out
}

#[test]
fn shortest_text_agrees_with_the_hardware_type() {
    for x in samples() {
        assert_eq!(float_to_text(w(x)), format!("{x}"));
    }
    assert_eq!(float_to_text(w(f64::NAN)), "NaN");
}

#[test]
fn debug_text_agrees_with_the_hardware_type() {
    for x in samples() {
        assert_eq!(float_to_debug(w(x)), format!("{x:?}"));
    }
}

#[test]
fn fixed_text_agrees_with_the_hardware_type() {
    for x in samples() {
        assert_eq!(float_to_fixed(w(x), 2), format!("{x:.2}"));
        assert_eq!(float_to_fixed(w(x), 1), format!("{x:.1}"));
        assert_eq!(float_to_fixed(w(x), 0), format!("{x:.0}"));
    }
}

#[test]
fn sums_agree_with_the_hardware_type() {
    let all = samples();
    for (i, x) in all.iter().enumerate() {
        let y = all[(i * 7 + 3) % all.len()];
        let sum = value(w(*x).plus(w(y)));
        let expected = *x + y;
        assert!(sum == expected || (sum.is_nan() && expected.is_nan()), "{x} + {y}");
    }
}

#[test]
fn comparisons_agree_with_the_hardware_type() {
    let all = samples();
    for (i, x) in all.iter().enumerate() {
        let y = all[(i * 5 + 1) % all.len()];
        assert_eq!(w(*x).is_less(w(y)), *x < y);
        assert_eq!(w(*x).is_same(w(y)), *x == y);
        assert_eq!(w(*x).is_before(w(y)), x.total_cmp(&y).is_lt());
    }
    assert!(!w(f64::NAN).is_less(w(1.0)));
    assert!(w(f64::NAN).is_nan());
}

#[test]
fn closeness_is_within_epsilon() {
    assert!(w(0.1 + 0.2).is_close(w(0.3)));
    assert!(!w(1.0).is_close(w(1.0 + f64::EPSILON)));
    assert!(w(1.0).is_apart(w(1.0 + f64::EPSILON)));
    assert!(!w(f64::NAN).is_close(w(0.0)));
}

#[test]
fn texts_are_read_as_the_nearest_double() {
    let texts = [
        "0", "-0", "1", "+1.5", ".5", "5.", "1e3", "1E-3", "3.14", "inf", "-Infinity",
        "0.1", "1e400", "1e-400", "9007199254740993", "123456789012345678901234567890",
        "2.2250738585072011e-308", "4.9e-324", "2.4703282292062327e-324",
        "2.4703282292062328e-324", "1.7976931348623159e308", "00012.5000",
    ];
    for t in texts {
        let expected: f64 = t.parse().unwrap();
        let got = value(parse_float(t).unwrap());
        assert_eq!(got.to_bits(), expected.to_bits(), "{t}");
    }
    for t in ["", ".", "e5", "1e", "1e+", "abc", "1 ", " 1", "--1", "0x10", "1_000"] {
        assert!(t.parse::<f64>().is_err());
        assert!(parse_float(t).is_none(), "{t}");
    }
    assert!(parse_float("nan").unwrap().is_nan());
}

#[test]
fn written_doubles_are_read_back() {
    for x in samples() {
        let text = float_to_text(w(x));
        assert_eq!(parse_float(&text).unwrap().to_bits(), x.to_bits());
    }
}

#[test]
fn whole_numbers_become_the_nearest_double() {
    for n in [0_i64, 1, -1, 9007199254740993, i64::MAX, i64::MIN, 123456789] {
        assert_eq!(value(Float64::from_i64(n)), n as f64);
    }
    for n in [0_u64, 3, u64::MAX, 1 << 60] {
        assert_eq!(value(Float64::from_u64(n)), n as f64);
    }
    for (a, b) in [(1_u64, 3_u64), (2, 3), (10, 4), (0, 9), (1, 1_000_000)] {
        let q = Float64::from_u64(a).divided_by(Float64::from_u64(b));
        assert_eq!(value(q), a as f64 / b as f64);
        assert_eq!(value(q.times(100)), a as f64 / b as f64 * 100.0);
    }
}

#[test]
fn integers_are_read_like_the_built_in_ones() {
    for t in ["0", "7", "+7", "-7", "007", "18446744073709551615", "18446744073709551616", "", "+", "-", "1a"] {
        assert_eq!(parse_u64(t), t.parse::<u64>().ok(), "{t}");
        assert_eq!(parse_i64(t), t.parse::<i64>().ok(), "{t}");
    }
    for t in ["9223372036854775807", "9223372036854775808", "-9223372036854775808", "-9223372036854775809"] {
        assert_eq!(parse_i64(t), t.parse::<i64>().ok(), "{t}");
    }
}

#[test]
fn written_integers_are_read_back() {
    for n in [0_i64, 7, -7, i64::MAX, i64::MIN] {
        let text = ad_graph_db::model::value::Value::Integer(n).display();
        assert_eq!(text, n.to_string());
        assert_eq!(parse_i64(&text), Some(n));
    }
}
