use eomi_core::gpio::driver::parse_digital;
use eomi_core::odf::OmiValue;

#[test]
fn parse_digital_number_nonzero_is_true() {
    assert!(parse_digital(&OmiValue::Number((1.0_f64).to_bits())));
    assert!(parse_digital(&OmiValue::Number((255.0_f64).to_bits())));
    assert!(parse_digital(&OmiValue::Number((-1.0_f64).to_bits())));
}

#[test]
fn parse_digital_number_zero_is_false() {
    assert!(!parse_digital(&OmiValue::Number((0.0_f64).to_bits())));
}

#[test]
fn parse_digital_bool() {
    assert!(parse_digital(&OmiValue::Bool(true)));
    assert!(!parse_digital(&OmiValue::Bool(false)));
}

#[test]
fn parse_digital_truthy_strings() {
    for s in &["1", "true", "high", "on"] {
        assert!(parse_digital(&OmiValue::Str((*s).into())), "expected truthy: {}", s);
    }
}

#[test]
fn parse_digital_falsy_strings() {
    for s in &["0", "false", "low", "off", ""] {
        assert!(!parse_digital(&OmiValue::Str((*s).into())), "expected falsy: {}", s);
    }
}

#[test]
fn parse_digital_null_is_false() {
    assert!(!parse_digital(&OmiValue::Null));
}

#[test]
fn parse_digital_negative_zero_and_nan() {
    assert!(!parse_digital(&OmiValue::Number((-0.0_f64).to_bits())));
    assert!(parse_digital(&OmiValue::Number(f64::NAN.to_bits())));
}
