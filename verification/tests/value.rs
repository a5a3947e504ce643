use loxvm::value::{Value, ValueArray};

#[test]
fn test_value_is_falsey() {
    // only nil and false are falsey, everything else is true (even 0!)
    assert!(Value::Nil.is_falsey());
    assert!(Value::Bool(false).is_falsey());

    assert!(!Value::Bool(true).is_falsey());
    assert!(!Value::Number(0.0f64.to_bits()).is_falsey());
    assert!(!Value::Number(1.0f64.to_bits()).is_falsey());
    assert!(!Value::Number((-1.0f64).to_bits()).is_falsey());
    assert!(!Value::Number(0.5f64.to_bits()).is_falsey());
}

#[test]
fn test_value_array_add() {
    let mut value_array = ValueArray::new();
    assert_eq!(value_array.add(Value::Number(7.0f64.to_bits())), 0);
    assert_eq!(value_array.add(Value::Number(5.5f64.to_bits())), 1);
    assert_eq!(value_array.add(Value::Number(9.0f64.to_bits())), 2);
    assert_eq!(value_array.add(Value::Nil), 3);
    assert_eq!(value_array.add(Value::Bool(true)), 4);
    assert_eq!(value_array.add(Value::Bool(false)), 5);

    let expected = vec![
        Value::Number(7.0f64.to_bits()),
        Value::Number(5.5f64.to_bits()),
        Value::Number(9.0f64.to_bits()),
        Value::Nil,
        Value::Bool(true),
        Value::Bool(false),
    ];
    assert_eq!(value_array.len(), expected.len());
    for (i, value) in expected.into_iter().enumerate() {
        assert_eq!(value_array.get(i), value);
    }
}

#[test]
fn test_value_array_get() {
    let mut value_array = ValueArray::new();
    for value in [
        Value::Number(7.0f64.to_bits()),
        Value::Number(5.5f64.to_bits()),
        Value::Number(9.0f64.to_bits()),
        Value::Nil,
        Value::Bool(true),
        Value::Bool(false),
    ] {
        value_array.add(value);
    }
    assert_eq!(value_array.get(0), Value::Number(7.0f64.to_bits()));
    assert_eq!(value_array.get(1), Value::Number(5.5f64.to_bits()));
    assert_eq!(value_array.get(2), Value::Number(9.0f64.to_bits()));
    assert_eq!(value_array.get(3), Value::Nil);
    assert_eq!(value_array.get(4), Value::Bool(true));
    assert_eq!(value_array.get(5), Value::Bool(false));
}

// numbers of every kind: zeros, ones, subnormals, the largest, infinities, NaNs
fn samples() -> Vec<f64> {
    vec![
        0.0,
        -0.0,
        1.0,
        -1.0,
        0.5,
        -0.5,
        2.0,
        1.0e-310,
        -1.0e-310,
        f64::MIN_POSITIVE,
        f64::MAX,
        f64::MIN,
        f64::INFINITY,
        f64::NEG_INFINITY,
        f64::NAN,
        -f64::NAN,
        f64::from_bits(0x7ff0_0000_0000_0001),
        f64::from_bits(0xffff_ffff_ffff_ffff),
        1.0e300,
        -3.25,
    ]
}

#[test]
fn test_bits_equal_is_float_equality() {
    for a in samples() {
        for b in samples() {
            assert_eq!(
                loxvm::value::bits_equal(a.to_bits(), b.to_bits()),
                a == b,
                "{:?} == {:?}",
                a,
                b
            );
        }
    }
}

#[test]
fn test_bits_less_is_float_order() {
    for a in samples() {
        for b in samples() {
            assert_eq!(
                loxvm::value::bits_less(a.to_bits(), b.to_bits()),
                a < b,
                "{:?} < {:?}",
                a,
                b
            );
        }
    }
}

#[test]
fn test_bits_negated_flips_the_sign() {
    for a in samples() {
        assert_eq!(loxvm::value::bits_negated(a.to_bits()), (-a).to_bits(), "-{:?}", a);
    }
    assert_eq!(loxvm::value::bits_negated(0), 0x8000_0000_0000_0000);
    assert_eq!(loxvm::value::bits_negated(0x8000_0000_0000_0000), 0);
}

#[test]
fn test_bits_are_nan() {
    for a in samples() {
        assert_eq!(loxvm::value::bits_are_nan(a.to_bits()), a.is_nan(), "{:?}", a);
    }
    assert!(!loxvm::value::bits_are_nan(0x7ff0_0000_0000_0000));
    assert!(loxvm::value::bits_are_nan(0x7ff0_0000_0000_0001));
    assert!(!loxvm::value::bits_are_nan(0xfff0_0000_0000_0000));
    assert!(loxvm::value::bits_are_nan(0xfff0_0000_0000_0001));
}

#[test]
fn test_value_equality() {
    let one = Value::Number(1.0f64.to_bits());
    let nan = Value::Number(f64::NAN.to_bits());
    // values of different variants are never equal
    assert_ne!(Value::Bool(true), one);
    assert_ne!(Value::Bool(false), Value::Nil);
    assert_ne!(Value::Nil, Value::Number(0.0f64.to_bits()));
    assert_ne!(Value::Bool(false), Value::Number(0.0f64.to_bits()));
    // values of one variant are equal by what they carry
    assert_eq!(Value::Nil, Value::Nil);
    assert_eq!(Value::Bool(true), Value::Bool(true));
    assert_ne!(Value::Bool(true), Value::Bool(false));
    assert_eq!(one, Value::Number(1.0f64.to_bits()));
    assert_ne!(one, Value::Number(2.0f64.to_bits()));
    // a NaN equals nothing, the two zeros are equal
    assert_ne!(nan, nan);
    assert_eq!(Value::Number(0.0f64.to_bits()), Value::Number((-0.0f64).to_bits()));
}

#[test]
fn test_is_falsey_only_nil_and_false() {
    for a in samples() {
        assert!(!Value::Number(a.to_bits()).is_falsey());
    }
    assert!(Value::Nil.is_falsey());
    assert!(Value::Bool(false).is_falsey());
    assert!(!Value::Bool(true).is_falsey());
}

#[test]
fn test_value_array_equality() {
    let mut a = ValueArray::new();
    let mut b = ValueArray::new();
    assert_eq!(a, b);
    a.add(Value::Bool(true));
    assert_ne!(a, b);
    b.add(Value::Bool(true));
    assert_eq!(a, b);
    a.add(Value::Nil);
    b.add(Value::Bool(false));
    assert_ne!(a, b);
    assert_eq!(a.len(), 2);
}
