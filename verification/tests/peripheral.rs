use eomi_core::gpio::peripheral::{parse_peripherals, PeripheralConfig, PeripheralProtocol};

#[test]
fn mod_parse_empty_string() {
    assert!(parse_peripherals("").is_empty());
}

#[test]
fn parse_single_i2c() {
    let configs = parse_peripherals("I2C:GPIO21");
    assert_eq!(configs.len(), 1);
    assert_eq!(configs[0].name, "GPIO21");
    assert_eq!(configs[0].protocol, PeripheralProtocol::I2C);
}

#[test]
fn parse_multiple() {
    let configs = parse_peripherals("I2C:GPIO21,UART:GPIO16,SPI:GPIO18");
    assert_eq!(configs.len(), 3);
    assert_eq!(configs[0].protocol, PeripheralProtocol::I2C);
    assert_eq!(configs[1].protocol, PeripheralProtocol::UART);
    assert_eq!(configs[2].protocol, PeripheralProtocol::SPI);
}

#[test]
fn parse_case_insensitive() {
    let configs = parse_peripherals("i2c:GPIO21,uart:GPIO16");
    assert_eq!(configs.len(), 2);
    assert_eq!(configs[0].protocol, PeripheralProtocol::I2C);
    assert_eq!(configs[1].protocol, PeripheralProtocol::UART);
}

#[test]
fn parse_with_spaces() {
    let configs = parse_peripherals(" I2C : GPIO21 , UART : GPIO16 ");
    assert_eq!(configs.len(), 2);
    assert_eq!(configs[0].name, "GPIO21");
    assert_eq!(configs[1].name, "GPIO16");
}

#[test]
fn parse_unknown_protocol_skipped() {
    let configs = parse_peripherals("CAN:GPIO5,I2C:GPIO21");
    assert_eq!(configs.len(), 1);
    assert_eq!(configs[0].protocol, PeripheralProtocol::I2C);
}

#[test]
fn parse_invalid_entry_skipped() {
    let configs = parse_peripherals("NOCOLON,I2C:GPIO21");
    assert_eq!(configs.len(), 1);
    assert_eq!(configs[0].name, "GPIO21");
}

#[test]
fn protocol_as_str() {
    assert_eq!(PeripheralProtocol::I2C.as_str(), "I2C");
    assert_eq!(PeripheralProtocol::UART.as_str(), "UART");
    assert_eq!(PeripheralProtocol::SPI.as_str(), "SPI");
}

#[test]
fn peripheral_config_new() {
    let cfg = PeripheralConfig::new("GPIO21", PeripheralProtocol::I2C);
    assert_eq!(cfg.name, "GPIO21");
    assert_eq!(cfg.protocol, PeripheralProtocol::I2C);
}

