use eomi_core::gpio::encoding::DataEncoding;
use eomi_core::gpio::peripheral::{
    build_peripheral_items, build_peripheral_items_all, encode_rx_data, tx_encoding_from_meta,
    PeripheralConfig, PeripheralProtocol,
};
use eomi_core::odf::object::{InfoItem, Object};
use eomi_core::odf::tree::{ObjectTree, PathTarget};
use eomi_core::odf::OmiValue;

fn meta_get<'a>(item: &'a InfoItem, key: &str) -> Option<&'a OmiValue> {
    item.meta.as_ref().unwrap().iter().find(|(k, _)| k == key).map(|(_, v)| v)
}

fn item_with_meta(key: &str, v: OmiValue) -> InfoItem {
    let mut item = InfoItem::new(10);
    item.meta = Some(vec![(key.to_string(), v)]);
    item
}

#[test]
fn tx_encoding_default_when_no_meta() {
    let item = InfoItem::new(10);
    assert_eq!(tx_encoding_from_meta(&item), DataEncoding::String);
}

#[test]
fn tx_encoding_default_when_no_key() {
    let item = item_with_meta("protocol", OmiValue::Str("UART".into()));
    assert_eq!(tx_encoding_from_meta(&item), DataEncoding::String);
}

#[test]
fn tx_encoding_hex_from_meta() {
    let item = item_with_meta("tx_encoding", OmiValue::Str("hex".into()));
    assert_eq!(tx_encoding_from_meta(&item), DataEncoding::Hex);
}

#[test]
fn tx_encoding_base64_from_meta() {
    let item = item_with_meta("tx_encoding", OmiValue::Str("base64".into()));
    assert_eq!(tx_encoding_from_meta(&item), DataEncoding::Base64);
}

#[test]
fn tx_encoding_string_from_meta() {
    let item = item_with_meta("tx_encoding", OmiValue::Str("string".into()));
    assert_eq!(tx_encoding_from_meta(&item), DataEncoding::String);
}

#[test]
fn tx_encoding_invalid_falls_back_to_string() {
    let item = item_with_meta("tx_encoding", OmiValue::Str("unknown".into()));
    assert_eq!(tx_encoding_from_meta(&item), DataEncoding::String);
}

#[test]
fn tx_encoding_non_string_value_falls_back() {
    let item = item_with_meta("tx_encoding", OmiValue::Number(42.0f64.to_bits()));
    assert_eq!(tx_encoding_from_meta(&item), DataEncoding::String);
}

#[test]
fn rx_string_encoding() {
    let data = b"Hello";
    assert_eq!(encode_rx_data(data, DataEncoding::String), OmiValue::Str("Hello".into()));
}

#[test]
fn rx_hex_encoding() {
    let data = b"Hello";
    assert_eq!(encode_rx_data(data, DataEncoding::Hex), OmiValue::Str("48656c6c6f".into()));
}

#[test]
fn rx_base64_encoding() {
    let data = &[1u8, 2, 3];
    assert_eq!(encode_rx_data(data, DataEncoding::Base64), OmiValue::Str("AQID".into()));
}

#[test]
fn rx_string_invalid_utf8() {
    let data = &[0xFF, 0xFE];
    match encode_rx_data(data, DataEncoding::String) {
        OmiValue::Str(s) => assert!(s.contains('\u{FFFD}')),
        _ => panic!("expected Str"),
    }
}

#[test]
fn peripheral_items_names() {
    let items = build_peripheral_items("GPIO16", "UART");
    assert_eq!(items.len(), 2);
    assert_eq!(items[0].0, "GPIO16_UART_RX");
    assert_eq!(items[1].0, "GPIO16_UART_TX");
}

#[test]
fn peripheral_items_spi_names() {
    let items = build_peripheral_items("GPIO18", "SPI");
    assert_eq!(items[0].0, "GPIO18_SPI_RX");
    assert_eq!(items[1].0, "GPIO18_SPI_TX");
}

#[test]
fn peripheral_rx_not_writable() {
    let items = build_peripheral_items("GPIO16", "UART");
    let rx = &items[0].1;
    assert!(!rx.is_writable());
    assert_eq!(meta_get(rx, "protocol"), Some(&OmiValue::Str("UART".into())));
    assert_eq!(meta_get(rx, "mode"), Some(&OmiValue::Str("uart_rx".into())));
}

#[test]
fn peripheral_tx_writable() {
    let items = build_peripheral_items("GPIO16", "UART");
    let tx = &items[1].1;
    assert!(tx.is_writable());
    assert_eq!(meta_get(tx, "protocol"), Some(&OmiValue::Str("UART".into())));
    assert_eq!(meta_get(tx, "mode"), Some(&OmiValue::Str("uart_tx".into())));
    assert_eq!(meta_get(tx, "writable"), Some(&OmiValue::Bool(true)));
}

#[test]
fn peripheral_items_i2c_names() {
    let items = build_peripheral_items("GPIO21", "I2C");
    assert_eq!(items[0].0, "GPIO21_I2C_RX");
    assert_eq!(items[1].0, "GPIO21_I2C_TX");
}

#[test]
fn peripheral_items_custom_name() {
    let items = build_peripheral_items("Serial1", "UART");
    assert_eq!(items[0].0, "Serial1_UART_RX");
    assert_eq!(items[1].0, "Serial1_UART_TX");
}

#[test]
fn build_all_empty_configs() {
    let items = build_peripheral_items_all(&[]);
    assert!(items.is_empty());
}

#[test]
fn build_all_single_i2c() {
    let configs = vec![PeripheralConfig::new("GPIO21", PeripheralProtocol::I2C)];
    let items = build_peripheral_items_all(&configs);
    assert_eq!(items.len(), 2);
    assert_eq!(items[0].0, "GPIO21_I2C_RX");
    assert_eq!(items[1].0, "GPIO21_I2C_TX");
}

#[test]
fn build_all_multiple_protocols() {
    let configs = vec![
        PeripheralConfig::new("GPIO21", PeripheralProtocol::I2C),
        PeripheralConfig::new("GPIO16", PeripheralProtocol::UART),
        PeripheralConfig::new("GPIO18", PeripheralProtocol::SPI),
    ];
    let items = build_peripheral_items_all(&configs);
    assert_eq!(items.len(), 6); // 3 protocols * 2 (RX + TX)
    let names: Vec<&str> = items.iter().map(|(n, _)| n.as_str()).collect();
    assert!(names.contains(&"GPIO21_I2C_RX"));
    assert!(names.contains(&"GPIO21_I2C_TX"));
    assert!(names.contains(&"GPIO16_UART_RX"));
    assert!(names.contains(&"GPIO16_UART_TX"));
    assert!(names.contains(&"GPIO18_SPI_RX"));
    assert!(names.contains(&"GPIO18_SPI_TX"));
}

#[test]
fn build_all_i2c_rx_not_writable() {
    let configs = vec![PeripheralConfig::new("GPIO21", PeripheralProtocol::I2C)];
    let items = build_peripheral_items_all(&configs);
    let rx = &items[0].1;
    assert!(!rx.is_writable());
    assert_eq!(meta_get(rx, "protocol"), Some(&OmiValue::Str("I2C".into())));
    assert_eq!(meta_get(rx, "mode"), Some(&OmiValue::Str("i2c_rx".into())));
}

#[test]
fn build_all_i2c_tx_writable() {
    let configs = vec![PeripheralConfig::new("GPIO21", PeripheralProtocol::I2C)];
    let items = build_peripheral_items_all(&configs);
    let tx = &items[1].1;
    assert!(tx.is_writable());
    assert_eq!(meta_get(tx, "protocol"), Some(&OmiValue::Str("I2C".into())));
    assert_eq!(meta_get(tx, "mode"), Some(&OmiValue::Str("i2c_tx".into())));
}

#[test]
fn build_all_in_object_tree() {
    let configs = vec![PeripheralConfig::new("GPIO21", PeripheralProtocol::I2C)];
    let items = build_peripheral_items_all(&configs);

    let mut device = Object::new("Device");
    for (name, item) in items {
        device.add_item(name, item);
    }

    let mut tree = ObjectTree::new();
    tree.insert_root(device);

    match tree.resolve("/Device/GPIO21_I2C_RX") {
        Ok(PathTarget::InfoItem(item)) => assert!(!item.is_writable()),
        other => panic!("expected InfoItem, got {:?}", other),
    }
    match tree.resolve("/Device/GPIO21_I2C_TX") {
        Ok(PathTarget::InfoItem(item)) => assert!(item.is_writable()),
        other => panic!("expected InfoItem, got {:?}", other),
    }
}

#[test]
fn peripheral_items_in_tree() {
    let items = build_peripheral_items("GPIO16", "UART");
    let mut device = Object::new("Device");
    for (name, item) in items {
        device.add_item(name, item);
    }

    let mut tree = ObjectTree::new();
    tree.insert_root(device);

    match tree.resolve("/Device/GPIO16_UART_RX") {
        Ok(PathTarget::InfoItem(item)) => {
            assert!(!item.is_writable());
            assert_eq!(meta_get(item, "protocol"), Some(&OmiValue::Str("UART".into())));
        }
        other => panic!("expected InfoItem, got {:?}", other),
    }
    match tree.resolve("/Device/GPIO16_UART_TX") {
        Ok(PathTarget::InfoItem(item)) => assert!(item.is_writable()),
        other => panic!("expected InfoItem, got {:?}", other),
    }
}
