use qma::{build_operation, Fixed, LogValue, Op, OpAverage, OpCount, OpType};

#[test]
fn check_op_average() {
    let mut op = Op::Average(OpAverage::new());
    for n in 1..6 {
        op.update(&LogValue::Float(Fixed { units: n * 10_000 }));
    }
    if let LogValue::Float(x) = op.value() {
        assert_eq!(x, Fixed { units: 30_000 });
    } else {
        unreachable!();
    }
}

#[test]
fn check_op_count() {
    let mut op = Op::Count(OpCount::new());
    for n in 1..6 {
        op.update(&LogValue::Integer(n));
    }
    if let LogValue::Integer(x) = op.value() {
        assert_eq!(x, 5);
    } else {
        unreachable!();
    }
}

#[test]
fn count_ignores_missing() {
    let mut op = build_operation(&OpType::Count);
    op.update(&LogValue::Integer(1));
    op.update(&LogValue::Missing);
    op.update(&LogValue::String("x".to_string()));
    assert_eq!(op.value(), LogValue::Integer(2));
}

#[test]
fn average_with_no_samples_is_missing() {
    let op = build_operation(&OpType::Average);
    assert!(matches!(op.value(), LogValue::Missing));
}

#[test]
fn average_ignores_non_numeric() {
    let mut op = build_operation(&OpType::Average);
    op.update(&LogValue::String("x".to_string()));
    op.update(&LogValue::Missing);
    assert!(matches!(op.value(), LogValue::Missing));
    op.update(&LogValue::Second(Fixed { units: 20_000 }));
    op.update(&LogValue::Second(Fixed { units: 10_000 }));
    assert_eq!(op.value(), LogValue::Float(Fixed { units: 15_000 }));
}

#[test]
fn average_scales_integers() {
    let mut op = build_operation(&OpType::Average);
    op.update(&LogValue::Integer(1));
    op.update(&LogValue::Integer(2));
    // The mean of 1 and 2 is 1.5, exactly.
    assert_eq!(op.value(), LogValue::Float(Fixed { units: 15_000 }));
}

#[test]
fn average_rounds_to_nearest_unit() {
    let mut op = build_operation(&OpType::Average);
    op.update(&LogValue::Float(Fixed { units: 1 }));
    op.update(&LogValue::Float(Fixed { units: 0 }));
    op.update(&LogValue::Float(Fixed { units: 0 }));
    // 1/3 of a unit rounds down to zero units.
    assert_eq!(op.value(), LogValue::Float(Fixed { units: 0 }));
    let mut op2 = build_operation(&OpType::Average);
    op2.update(&LogValue::Float(Fixed { units: 1 }));
    op2.update(&LogValue::Float(Fixed { units: 0 }));
    // Half a unit rounds away from zero.
    assert_eq!(op2.value(), LogValue::Float(Fixed { units: 1 }));
}
