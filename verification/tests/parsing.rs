use knn_core::Value;

#[test]
fn empty_field_is_missing() {
    assert_eq!(Value::parse(""), Value::Missing);
}

#[test]
fn integer_literal_scales() {
    assert_eq!(Value::parse("3"), Value::Number(30_000));
    assert_eq!(Value::parse("-2"), Value::Number(-20_000));
    assert_eq!(Value::parse("+7"), Value::Number(70_000));
    assert_eq!(Value::parse("0"), Value::Number(0));
}

#[test]
fn decimal_literal_scales() {
    assert_eq!(Value::parse("3.5"), Value::Number(35_000));
    assert_eq!(Value::parse("-0.25"), Value::Number(-2_500));
    assert_eq!(Value::parse(".5"), Value::Number(5_000));
    assert_eq!(Value::parse("5."), Value::Number(50_000));
}

#[test]
fn extra_fraction_digits_truncate_toward_zero() {
    assert_eq!(Value::parse("1.00009"), Value::Number(10_000));
    assert_eq!(Value::parse("-1.00009"), Value::Number(-10_000));
}

#[test]
fn non_numeric_field_is_category() {
    assert_eq!(Value::parse("red"), Value::Category("red".to_string()));
    assert_eq!(Value::parse("1e5"), Value::Category("1e5".to_string()));
    assert_eq!(Value::parse("1.2.3"), Value::Category("1.2.3".to_string()));
    assert_eq!(Value::parse("-"), Value::Category("-".to_string()));
    assert_eq!(Value::parse("."), Value::Category(".".to_string()));
    assert_eq!(Value::parse(" 1"), Value::Category(" 1".to_string()));
}

#[test]
fn out_of_range_literal_is_category() {
    assert_eq!(
        Value::parse("1000001"),
        Value::Category("1000001".to_string())
    );
    assert_eq!(Value::parse("1000000"), Value::Number(10_000_000_000));
    assert_eq!(
        Value::parse("1000000.1"),
        Value::Category("1000000.1".to_string())
    );
}
