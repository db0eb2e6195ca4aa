use eomi_core::gpio::{GpioMode, GpioPinConfig};

#[test]
fn mode_as_str() {
    assert_eq!(GpioMode::DigitalIn.as_str(), "digital_in");
    assert_eq!(GpioMode::DigitalOut.as_str(), "digital_out");
    assert_eq!(GpioMode::AnalogIn.as_str(), "analog_in");
    assert_eq!(GpioMode::Pwm.as_str(), "pwm");
    assert_eq!(GpioMode::LowEdgeTrigger.as_str(), "low_edge_trigger");
    assert_eq!(GpioMode::HighEdgeTrigger.as_str(), "high_edge_trigger");
}

#[test]
fn output_modes_writable() {
    assert!(GpioMode::DigitalOut.is_writable());
    assert!(GpioMode::Pwm.is_writable());
}

#[test]
fn input_modes_not_writable() {
    assert!(!GpioMode::DigitalIn.is_writable());
    assert!(!GpioMode::AnalogIn.is_writable());
    assert!(!GpioMode::LowEdgeTrigger.is_writable());
    assert!(!GpioMode::HighEdgeTrigger.is_writable());
}

#[test]
fn default_name_from_pin_number() {
    let cfg = GpioPinConfig::new(34, GpioMode::AnalogIn);
    assert_eq!(cfg.name, "GPIO34");
    assert_eq!(cfg.pin, 34);
    assert_eq!(cfg.mode, GpioMode::AnalogIn);
}

#[test]
fn custom_name() {
    let cfg = GpioPinConfig::new(2, GpioMode::DigitalOut).with_name("LED");
    assert_eq!(cfg.name, "LED");
    assert_eq!(cfg.pin, 2);
}

