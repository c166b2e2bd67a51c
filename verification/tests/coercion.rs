use qma::fixed::{parse_fixed, parse_u32};
use qma::log_record::parse_value;
use qma::{Fixed, LogValue, LogValueType};

#[test]
fn check_parse_value() {
    // Check string case.
    let v = parse_value(&LogValueType::String, "test_string");
    if let LogValue::String(s) = v {
        assert_eq!(s, "test_string");
    } else {
        unreachable!();
    }

    // Check integer case.
    let v = parse_value(&LogValueType::Integer, "123");
    if let LogValue::Integer(n) = v {
        assert_eq!(n, 123);
    } else {
        unreachable!();
    }
    let v = parse_value(&LogValueType::Integer, "abc");
    assert!(matches!(v, LogValue::Missing));

    // Check float case.
    let v = parse_value(&LogValueType::Float, "123.4");
    if let LogValue::Float(n) = v {
        assert_eq!(n, Fixed { units: 1_234_000 });
    } else {
        unreachable!();
    }
    let v = parse_value(&LogValueType::Float, "abc");
    assert!(matches!(v, LogValue::Missing));

    // Check second case.
    let v = parse_value(&LogValueType::Second, "123.4s");
    if let LogValue::Second(n) = v {
        assert_eq!(n, Fixed { units: 1_234_000 });
    } else {
        unreachable!();
    }
    let v = parse_value(&LogValueType::Second, "123.4h");
    assert!(matches!(v, LogValue::Missing));
}

#[test]
fn duration_suffixes() {
    let v = parse_value(&LogValueType::Second, "12.5s");
    assert_eq!(v, LogValue::Second(Fixed { units: 125_000 }));
    let v = parse_value(&LogValueType::Second, "12.5sec");
    assert_eq!(v, LogValue::Second(Fixed { units: 125_000 }));
    let v = parse_value(&LogValueType::Second, "12.5h");
    assert!(matches!(v, LogValue::Missing));
    let v = parse_value(&LogValueType::Second, "abc");
    assert!(matches!(v, LogValue::Missing));
}

#[test]
fn integer_parsing_edges() {
    assert_eq!(parse_u32("0"), Some(0));
    assert_eq!(parse_u32("4294967295"), Some(u32::MAX));
    // One past the counter's range is rejected, as is anything non-numeric.
    assert_eq!(parse_u32("4294967296"), None);
    assert_eq!(parse_u32(""), None);
    assert_eq!(parse_u32("-1"), None);
    assert_eq!(parse_u32("12a"), None);
    assert_eq!(parse_u32("1.0"), None);
}

#[test]
fn fixed_parsing_edges() {
    assert_eq!(parse_fixed("0"), Some(Fixed { units: 0 }));
    assert_eq!(parse_fixed("2.0"), Some(Fixed { units: 20_000 }));
    assert_eq!(parse_fixed("-1.5"), Some(Fixed { units: -15_000 }));
    assert_eq!(parse_fixed("+1.5"), Some(Fixed { units: 15_000 }));
    assert_eq!(parse_fixed(".5"), Some(Fixed { units: 5_000 }));
    assert_eq!(parse_fixed("12."), Some(Fixed { units: 120_000 }));
    // The fifth fractional digit and beyond are truncated.
    assert_eq!(parse_fixed("0.123456"), Some(Fixed { units: 1_234 }));
    assert_eq!(parse_fixed(""), None);
    assert_eq!(parse_fixed("."), None);
    assert_eq!(parse_fixed("-"), None);
    assert_eq!(parse_fixed("1.2.3"), None);
    assert_eq!(parse_fixed("1e3"), None);
    // A magnitude whose units overflow an i64 is rejected.
    assert_eq!(parse_fixed("922337203685477.9999"), None);
    assert_eq!(parse_fixed("922337203685477.5807"), Some(Fixed { units: i64::MAX }));
}

#[test]
fn unknown_type_is_missing() {
    let v = parse_value(&LogValueType::Unknown, "anything");
    assert!(matches!(v, LogValue::Missing));
}

#[test]
fn display_strings() {
    assert_eq!(LogValue::String("abc".to_string()).as_string(), "abc");
    assert_eq!(LogValue::Integer(42).as_string(), "42");
    assert_eq!(LogValue::Float(Fixed { units: 20_000 }).as_string(), "2.0000");
    assert_eq!(LogValue::Float(Fixed { units: -15_000 }).as_string(), "-1.5000");
    assert_eq!(LogValue::Float(Fixed { units: 3 }).as_string(), "0.0003");
    assert_eq!(LogValue::Second(Fixed { units: 1_234_000 }).as_string(), "123.4000sec");
    assert_eq!(LogValue::Missing.as_string(), "-");
}

#[test]
fn value_equality_is_per_variant() {
    assert_eq!(LogValue::Integer(1), LogValue::Integer(1));
    assert_ne!(LogValue::Integer(1), LogValue::Float(Fixed { units: 10_000 }));
    assert_ne!(LogValue::Float(Fixed { units: 1 }), LogValue::Float(Fixed { units: 2 }));
    assert_eq!(LogValue::Missing, LogValue::Missing);
    assert_ne!(
        LogValue::String("a".to_string()),
        LogValue::String("b".to_string())
    );
}
