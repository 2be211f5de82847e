use weight_convert::{
    ConversionRequest, ConversionRule, ConversionTable, ConvertError, Quantity, Unit,
};

const UNITS: [Unit; 4] = [Unit::Lb, Unit::Kilo, Unit::Ton, Unit::Gram];

fn convert(from: Unit, to: Unit, scaled: i64) -> i64 {
    ConversionRequest { from, to, quantity: Quantity { scaled } }.execute().scaled
}

#[test]
fn table_covers_every_ordered_pair() {
    let table = ConversionTable::build();
    for from in UNITS {
        for to in UNITS {
            assert!(table.find_rule(from, to).is_some());
        }
    }
}

#[test]
fn identity_returns_the_quantity_unchanged() {
    for unit in UNITS {
        assert_eq!(convert(unit, unit, 12_345_678_901), 12_345_678_901);
        assert_eq!(convert(unit, unit, -7), -7);
        assert_eq!(convert(unit, unit, 0), 0);
    }
}

#[test]
fn round_trip_stays_within_tolerance() {
    for from in UNITS {
        for to in UNITS {
            // 250 units of the source: large enough for every pair
            let quantity: i64 = 250 * 100_000_000;
            let there = convert(from, to, quantity);
            let back = convert(to, from, there);
            let error = (back - quantity).abs() as f64;
            assert!(error / (quantity as f64) <= 0.00001);
        }
    }
}

#[test]
fn metric_conversions_are_exact_integers() {
    // one kilogram is exactly a thousand grams
    assert_eq!(convert(Unit::Kilo, Unit::Gram, 100_000_000), 1000 * 100_000_000);
    // one metric ton is exactly a thousand kilograms
    assert_eq!(convert(Unit::Ton, Unit::Kilo, 100_000_000), 1000 * 100_000_000);
    // one kilogram is exactly a thousandth of a metric ton
    assert_eq!(convert(Unit::Kilo, Unit::Ton, 100_000_000), 100_000);
    // one gram is exactly a millionth of a metric ton
    assert_eq!(convert(Unit::Gram, Unit::Ton, 100_000_000), 100);
}

#[test]
fn unknown_unit_code_is_rejected() {
    match Unit::try_from("oz") {
        Ok(_) => panic!("an unknown unit code must be rejected"),
        Err(ConvertError::UnknownUnit(token)) => assert_eq!(token, "oz"),
    }
}

#[test]
fn known_unit_codes_parse() {
    assert_eq!(Unit::try_from("lb").unwrap(), Unit::Lb);
    assert_eq!(Unit::try_from("g").unwrap(), Unit::Gram);
    assert_eq!(Unit::try_from("kg").unwrap(), Unit::Kilo);
    assert_eq!(Unit::try_from("metric ton").unwrap(), Unit::Ton);
    assert!(Unit::try_from("Lb").is_err());
    assert!(Unit::try_from("").is_err());
}

#[test]
fn error_message_names_the_token() {
    let error = match Unit::try_from("stone") {
        Err(e) => e,
        Ok(_) => panic!("unknown code"),
    };
    assert_eq!(
        error.message(),
        "Cannot process unit 'stone' use either 'lb', 'g', 'kg', or 'metric ton'"
    );
}

#[test]
fn seed_rule_parses_from_codes_and_decimal_factor() {
    let rule = ConversionRule::try_from("lb", "kg", "0.45359237").unwrap();
    assert_eq!(rule.from, Unit::Lb);
    assert_eq!(rule.to, Unit::Kilo);
    match ConversionRule::try_from("oz", "kg", "0.45359237") {
        Err(ConvertError::UnknownUnit(token)) => assert_eq!(token, "oz"),
        _ => panic!("unknown from-code must be rejected"),
    }
    match ConversionRule::try_from("lb", "firkin", "0.45359237") {
        Err(ConvertError::UnknownUnit(token)) => assert_eq!(token, "firkin"),
        _ => panic!("unknown to-code must be rejected"),
    }
}

#[test]
fn decimal_strings_parse_exactly() {
    assert_eq!(weight_convert::decimal::parse_decimal("453.59237"), Some((45359237, 100000)));
    assert_eq!(weight_convert::decimal::parse_decimal("0.001"), Some((1, 1000)));
    assert_eq!(weight_convert::decimal::parse_decimal("1000"), Some((1000, 1)));
    assert_eq!(weight_convert::decimal::parse_decimal(""), None);
    assert_eq!(weight_convert::decimal::parse_decimal("1.2.3"), None);
    assert_eq!(weight_convert::decimal::parse_decimal(".5"), None);
    assert_eq!(weight_convert::decimal::parse_decimal("5."), None);
    assert_eq!(weight_convert::decimal::parse_decimal("12a"), None);
}

#[test]
fn negative_quantities_convert_symmetrically() {
    let forward = convert(Unit::Lb, Unit::Kilo, 2 * 100_000_000);
    let negative = convert(Unit::Lb, Unit::Kilo, -2 * 100_000_000);
    assert_eq!(forward, 90_718_474);
    assert_eq!(negative, -90_718_474);
}

#[test]
fn concrete_scenarios_match_expected_values() {
    // expected outputs rounded to eight decimals, in fixed-point form
    assert_eq!(convert(Unit::Lb, Unit::Gram, 100_000_000), 45_359_237_000);
    assert_eq!(convert(Unit::Lb, Unit::Kilo, 100_000_000), 45_359_237);
    assert_eq!(convert(Unit::Kilo, Unit::Lb, 100_000_000), 220_462_262);
    assert_eq!(convert(Unit::Gram, Unit::Ton, 100_000_000), 100);
    assert_eq!(convert(Unit::Ton, Unit::Lb, 100_000_000), 220_462_262_185);
}
