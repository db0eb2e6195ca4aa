use eomi_core::gpio::{build_gpio_info_item, build_gpio_items, GpioMode, GpioPinConfig};
use eomi_core::odf::object::{InfoItem, Object};
use eomi_core::odf::tree::{ObjectTree, PathTarget};
use eomi_core::odf::value::select_values;
use eomi_core::odf::{whole_number, OmiValue};

fn num(n: f64) -> OmiValue {
    OmiValue::Number(n.to_bits())
}

fn meta_get<'a>(item: &'a InfoItem, key: &str) -> Option<&'a OmiValue> {
    item.meta.as_ref().unwrap().iter().find(|(k, _)| k == key).map(|(_, v)| v)
}

#[test]
fn analog_in_has_mode_metadata() {
    let cfg = GpioPinConfig::new(34, GpioMode::AnalogIn);
    let item = build_gpio_info_item(&cfg);
    assert!(item.meta.is_some(), "metadata should be set");
    assert_eq!(meta_get(&item, "mode"), Some(&OmiValue::Str("analog_in".into())));
}

#[test]
fn analog_in_has_gpio_pin_metadata() {
    let cfg = GpioPinConfig::new(34, GpioMode::AnalogIn);
    let item = build_gpio_info_item(&cfg);
    assert_eq!(meta_get(&item, "gpio_pin"), Some(&num(34.0)));
}

#[test]
fn analog_in_not_writable() {
    let cfg = GpioPinConfig::new(34, GpioMode::AnalogIn);
    let item = build_gpio_info_item(&cfg);
    assert!(!item.is_writable());
}

#[test]
fn analog_in_no_writable_meta_key() {
    let cfg = GpioPinConfig::new(34, GpioMode::AnalogIn);
    let item = build_gpio_info_item(&cfg);
    assert!(
        meta_get(&item, "writable").is_none(),
        "analog_in should not have writable key in metadata"
    );
}

#[test]
fn analog_in_starts_empty() {
    let cfg = GpioPinConfig::new(34, GpioMode::AnalogIn);
    let item = build_gpio_info_item(&cfg);
    assert!(item.values.is_empty());
}

#[test]
fn analog_in_accepts_adc_range_values() {
    let cfg = GpioPinConfig::new(34, GpioMode::AnalogIn);
    let mut item = build_gpio_info_item(&cfg);
    // ADC values are 12-bit: 0..4095
    item.add_value(num(0.0), Some(100.0f64.to_bits()));
    item.add_value(num(2048.0), Some(200.0f64.to_bits()));
    item.add_value(num(4095.0), Some(300.0f64.to_bits()));
    assert_eq!(item.values.len(), 3);

    let newest = select_values(&item.values.values_oldest_first(), Some(1), None);
    assert_eq!(newest[0].v, num(4095.0));
}

#[test]
fn analog_in_custom_name() {
    let cfg = GpioPinConfig::new(34, GpioMode::AnalogIn).with_name("LightSensor");
    let items = build_gpio_items(&[cfg]);
    assert_eq!(items.len(), 1);
    assert_eq!(items[0].0, "LightSensor");
}

#[test]
fn digital_out_is_writable() {
    let cfg = GpioPinConfig::new(2, GpioMode::DigitalOut);
    let item = build_gpio_info_item(&cfg);
    assert!(item.is_writable());
    assert_eq!(meta_get(&item, "writable"), Some(&OmiValue::Bool(true)));
}

#[test]
fn build_multiple_items() {
    let configs = vec![
        GpioPinConfig::new(34, GpioMode::AnalogIn),
        GpioPinConfig::new(2, GpioMode::DigitalOut).with_name("LED"),
        GpioPinConfig::new(5, GpioMode::DigitalIn),
    ];
    let items = build_gpio_items(&configs);
    assert_eq!(items.len(), 3);
    assert_eq!(items[0].0, "GPIO34");
    assert_eq!(items[1].0, "LED");
    assert_eq!(items[2].0, "GPIO5");
}

#[test]
fn build_empty_configs() {
    let items = build_gpio_items(&[]);
    assert!(items.is_empty());
}

#[test]
fn analog_in_in_object_tree() {
    let cfg = GpioPinConfig::new(34, GpioMode::AnalogIn);
    let item = build_gpio_info_item(&cfg);

    let mut device = Object::new("Device");
    device.add_item("GPIO34".into(), item);

    let mut tree = ObjectTree::new();
    tree.insert_root(device);

    match tree.resolve("/Device/GPIO34") {
        Ok(PathTarget::InfoItem(item)) => {
            assert_eq!(meta_get(item, "mode"), Some(&OmiValue::Str("analog_in".into())));
            assert!(!item.is_writable());
        }
        other => panic!("expected InfoItem, got {:?}", other),
    }
}

#[test]
fn analog_in_value_history_in_tree() {
    let mut tree = ObjectTree::new();

    let cfg = GpioPinConfig::new(34, GpioMode::AnalogIn);
    let items = build_gpio_items(&[cfg]);
    let mut device = Object::new("Device");
    for (name, item) in items {
        device.add_item(name, item);
    }
    tree.insert_root(device);

    if let Ok(PathTarget::InfoItem(item)) = tree.resolve("/Device/GPIO34") {
        assert!(item.values.is_empty());
    }

    tree.write_value("/Device/GPIO34", num(1024.0), Some(5.0f64.to_bits())).unwrap();
    tree.write_value("/Device/GPIO34", num(2048.0), Some(10.0f64.to_bits())).unwrap();
    tree.write_value("/Device/GPIO34", num(3072.0), Some(15.0f64.to_bits())).unwrap();

    match tree.resolve("/Device/GPIO34") {
        Ok(PathTarget::InfoItem(item)) => {
            assert_eq!(item.values.len(), 3);
            let newest = select_values(&item.values.values_oldest_first(), Some(1), None);
            assert_eq!(newest[0].v, num(3072.0));
            assert_eq!(newest[0].t, Some(15.0f64.to_bits()));
        }
        other => panic!("expected InfoItem, got {:?}", other),
    }
}

#[test]
fn whole_number_matches_double_conversion() {
    for n in [0u32, 1, 2, 3, 5, 34, 255, 256, 4095, 65535, 1_000_000, u32::MAX] {
        assert_eq!(whole_number(n), num(n as f64), "n = {}", n);
    }
}
