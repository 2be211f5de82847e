use weight_convert::{ConversionRequest, Quantity, Unit};

fn test_conversion(from: Unit, to: Unit, quantity: f64) -> f64 {
    let scaled = (quantity * 100_000_000.0).round() as i64;
    let result = ConversionRequest { from, to, quantity: Quantity { scaled } }.execute();
    (result.scaled as f64) / 100_000_000.0
}

fn close_to(actual: f64, expected: f64, tolerance: f64) -> bool {
    (actual - expected).abs() <= tolerance
}

#[test]
fn from_pound_to_gram() {
    let result = test_conversion(Unit::Lb, Unit::Gram, 1.0);
    assert!(close_to(result, 453.59237, 0.00001));
}

#[test]
fn from_pound_to_kilo() {
    let result = test_conversion(Unit::Lb, Unit::Kilo, 1.0);
    assert!(close_to(result, 0.45359237, 0.00001));
}

#[test]
fn from_pound_to_ton() {
    let result = test_conversion(Unit::Lb, Unit::Ton, 1.0);
    assert!(close_to(result, 0.00045359, 0.00000001));
}

#[test]
fn from_kilo_to_pound() {
    let result = test_conversion(Unit::Kilo, Unit::Lb, 1.0);
    assert!(close_to(result, 2.20462262, 0.00001));
}

#[test]
fn from_kilo_to_gram() {
    let result = test_conversion(Unit::Kilo, Unit::Gram, 1.0);
    assert!(close_to(result, 1000.0, 0.00001));
}

#[test]
fn from_kilo_to_ton() {
    let result = test_conversion(Unit::Kilo, Unit::Ton, 1.0);
    assert!(close_to(result, 0.001, 0.00001));
}

#[test]
fn from_gram_to_pound() {
    let result = test_conversion(Unit::Gram, Unit::Lb, 1.0);
    assert!(close_to(result, 0.00220462, 0.00001));
}

#[test]
fn from_gram_to_kilo() {
    let result = test_conversion(Unit::Gram, Unit::Kilo, 1.0);
    assert!(close_to(result, 0.001, 0.00001));
}

#[test]
fn from_gram_to_ton() {
    let result = test_conversion(Unit::Gram, Unit::Ton, 1.0);
    assert!(close_to(result, 0.00001, 0.00001));
}

#[test]
fn from_ton_to_pound() {
    let result = test_conversion(Unit::Ton, Unit::Lb, 1.0);
    assert!(close_to(result, 2204.62262185, 0.00001));
}

#[test]
fn from_ton_to_kilo() {
    let result = test_conversion(Unit::Ton, Unit::Kilo, 1.0);
    assert!(close_to(result, 1000.0, 0.00001));
}

#[test]
fn from_ton_to_gram() {
    let result = test_conversion(Unit::Ton, Unit::Gram, 1.0);
    assert!(close_to(result, 1000_000.0, 0.00001));
}

#[test]
fn conversion_should_works() {
    let request = ConversionRequest {
        from: Unit::Gram,
        to: Unit::Kilo,
        quantity: Quantity { scaled: 1000 * 100_000_000 },
    };
    let result = request.execute();
    assert_eq!(result, Quantity { scaled: 100_000_000 });
    assert!(close_to((result.scaled as f64) / 100_000_000.0, 1.0, 0.00001));
}
