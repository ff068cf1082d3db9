use luast::number::Decimal;
use luast::text::{push_decimal, push_signed};
use luast::value::{NativeFn, Value};

fn as_float(d: &Decimal) -> f64 {
    d.whole as f64 + d.frac as f64 / 10f64.powi(d.places as i32)
}

#[test]
fn values_show_as_they_are_written() {
    assert_eq!(Value::Nil.to_string(), "Nil");
    assert_eq!(Value::Boolean(true).to_string(), "true");
    assert_eq!(Value::Boolean(false).to_string(), "false");
    assert_eq!(Value::Integer(0).to_string(), "0");
    assert_eq!(Value::Integer(123).to_string(), "123");
    assert_eq!(Value::Integer(-45).to_string(), "-45");
    assert_eq!(Value::Integer(i64::MAX).to_string(), "9223372036854775807");
    assert_eq!(Value::Integer(i64::MIN).to_string(), "-9223372036854775808");
    assert_eq!(Value::String("hello, world!".to_string()).to_string(), "hello, world!");
    assert_eq!(Value::String(String::new()).to_string(), "");
    assert_eq!(Value::Function(NativeFn::Print).to_string(), "Function");
}

#[test]
fn fractions_show_in_decimal() {
    assert_eq!(Value::Float(Decimal::new(3, 14, 2)).to_string(), "3.14");
    assert_eq!(Value::Float(Decimal::new(0, 5, 1)).to_string(), "0.5");
    assert_eq!(Value::Float(Decimal::new(0, 123, 3)).to_string(), "0.123");
    assert_eq!(Value::Float(Decimal::new(1, 5, 3)).to_string(), "1.005");
    assert_eq!(Value::Float(Decimal::new(123456, 0, 1)).to_string(), "123456.0");
    assert_eq!(Value::Float(Decimal::new(7, 0, 0)).to_string(), "7.0");
    assert_eq!(Value::Float(Decimal::new(2, 500, 3)).to_string(), "2.5");
}

#[test]
fn fractions_show_as_the_float_does() {
    for (whole, frac, places) in [(3u64, 14u64, 2usize), (0, 5, 1), (0, 123, 3), (123456, 0, 1), (10, 25, 2)] {
        let d = Decimal::new(whole, frac, places);
        assert_eq!(Value::Float(d).to_string(), format!("{:?}", as_float(&d)));
    }
}

#[test]
fn decimal_drops_trailing_zeros() {
    assert_eq!(Decimal::new(3, 140, 3), Decimal { whole: 3, frac: 14, places: 2 });
    assert_eq!(Decimal::new(3, 14, 2), Decimal { whole: 3, frac: 14, places: 2 });
    assert_eq!(Decimal::new(1, 0, 4), Decimal { whole: 1, frac: 0, places: 0 });
    assert_eq!(Decimal::new(0, 100, 2), Decimal { whole: 0, frac: 1, places: 0 });
    assert_eq!(Decimal::new(0, 5, 0), Decimal { whole: 0, frac: 5, places: 0 });
    assert_eq!(Decimal::new(0, 1, 21), Decimal { whole: 0, frac: 1, places: 21 });
}

#[test]
fn equal_numbers_are_equal_decimals() {
    assert_eq!(Decimal::new(0, 5, 1), Decimal::new(0, 50, 2));
    assert_eq!(as_float(&Decimal::new(0, 5, 1)), 0.5);
    assert_eq!(as_float(&Decimal::new(0, 50, 2)), 0.5);
    assert_ne!(Decimal::new(0, 5, 1), Decimal::new(0, 5, 2));
    assert_ne!(as_float(&Decimal::new(0, 5, 1)), as_float(&Decimal::new(0, 5, 2)));
}

#[test]
fn values_are_equal_by_kind_and_content() {
    assert_eq!(Value::Nil, Value::Nil);
    assert_eq!(Value::Boolean(true), Value::Boolean(true));
    assert_ne!(Value::Boolean(true), Value::Boolean(false));
    assert_eq!(Value::Integer(7), Value::Integer(7));
    assert_ne!(Value::Integer(7), Value::Integer(8));
    assert_eq!(Value::Float(Decimal::new(1, 5, 1)), Value::Float(Decimal::new(1, 5, 1)));
    assert_ne!(Value::Float(Decimal::new(1, 5, 1)), Value::Float(Decimal::new(1, 6, 1)));
    assert_eq!(Value::String("a".to_string()), Value::String("a".to_string()));
    assert_ne!(Value::String("a".to_string()), Value::String("b".to_string()));
    assert_eq!(Value::Function(NativeFn::Print), Value::Function(NativeFn::Print));
    assert_ne!(Value::Integer(1), Value::Float(Decimal::new(1, 0, 0)));
    assert_ne!(Value::Nil, Value::Boolean(false));
    assert_ne!(Value::String("1".to_string()), Value::Integer(1));
}

#[test]
fn a_clone_is_equal() {
    let values = vec![
        Value::Nil,
        Value::Boolean(true),
        Value::Integer(-3),
        Value::Float(Decimal::new(2, 5, 1)),
        Value::String("text".to_string()),
        Value::Function(NativeFn::Print),
    ];
    for v in values.iter() {
        assert_eq!(&v.clone(), v);
    }
}

#[test]
fn integers_are_spelled_in_decimal() {
    let mut s = String::from("n=");
    push_decimal(&mut s, 0);
    push_decimal(&mut s, 10);
    push_decimal(&mut s, u64::MAX);
    assert_eq!(s, "n=01018446744073709551615");
    let mut s = String::new();
    push_signed(&mut s, -1);
    push_signed(&mut s, 20);
    assert_eq!(s, "-120");
}
