use eomi_core::board::{
    board_chip, board_name, gpio_configs, gpio_configs_from, has_board_config, has_temp_sensor,
    led_pin, led_pin_from, onboard_display_mode, parse_mode, parse_protocol, peripheral_configs,
    peripheral_configs_from, peripheral_pin_configs, peripheral_pin_configs_from, neopixel_pin,
};
use eomi_core::gpio::GpioMode;
use eomi_core::gpio::peripheral::PeripheralProtocol;

#[test]
fn parse_all_modes() {
    assert_eq!(parse_mode("digital_in"), Some(GpioMode::DigitalIn));
    assert_eq!(parse_mode("digital_out"), Some(GpioMode::DigitalOut));
    assert_eq!(parse_mode("analog_in"), Some(GpioMode::AnalogIn));
    assert_eq!(parse_mode("pwm"), Some(GpioMode::Pwm));
    assert_eq!(parse_mode("low_edge_trigger"), Some(GpioMode::LowEdgeTrigger));
    assert_eq!(parse_mode("high_edge_trigger"), Some(GpioMode::HighEdgeTrigger));
    assert_eq!(parse_mode("invalid"), None);
}

#[test]
fn parse_all_protocols() {
    assert_eq!(parse_protocol("I2C"), Some(PeripheralProtocol::I2C));
    assert_eq!(parse_protocol("UART"), Some(PeripheralProtocol::UART));
    assert_eq!(parse_protocol("SPI"), Some(PeripheralProtocol::SPI));
    assert_eq!(parse_protocol("CAN"), None);
}

#[test]
fn has_board_config_matches_cfg() {
    // This build carries no board table.
    let expected = false;
    assert_eq!(has_board_config(), expected);
}

#[test]
fn gpio_configs_returns_vec() {
    // Should not panic regardless of whether board config is loaded
    let configs = gpio_configs();
    if has_board_config() {
        assert!(!configs.is_empty(), "board config loaded but gpio_configs is empty");
        for cfg in &configs {
            // Every config should have a valid name
            assert!(!cfg.name.is_empty());
        }
    }
}

#[test]
fn peripheral_configs_returns_vec() {
    let configs = peripheral_configs();
    if has_board_config() {
        // Board may or may not have peripherals, just verify no panic
        for cfg in &configs {
            assert!(!cfg.name.is_empty());
        }
    }
}

#[test]
fn has_temp_sensor_returns_bool() {
    // Should not panic; returns generated value or false
    let val = has_temp_sensor();
    if !has_board_config() {
        assert!(!val, "has_temp_sensor should be false without board config");
    }
}

#[test]
fn onboard_display_mode_returns_value() {
    let mode = onboard_display_mode();
    if has_board_config() {
        // When board config is loaded, mode should be one of the valid values
        assert!(
            ["color", "digit", "none"].contains(&mode),
            "unexpected display mode: {}",
            mode
        );
    } else {
        assert_eq!(mode, "none");
    }
}

#[test]
fn board_name_returns_value() {
    if has_board_config() {
        assert_ne!(board_name(), "unknown");
        assert_ne!(board_chip(), "unknown");
    } else {
        assert_eq!(board_name(), "unknown");
        assert_eq!(board_chip(), "unknown");
    }
}


#[test]
fn gpio_configs_from_table_skips_unknown_modes() {
    let table = [(2u8, "digital_out", "LED"), (4, "bogus", "X"), (34, "analog_in", "Light")];
    let configs = gpio_configs_from(&table);
    assert_eq!(configs.len(), 2);
    assert_eq!(configs[0].pin, 2);
    assert_eq!(configs[0].mode, GpioMode::DigitalOut);
    assert_eq!(configs[0].name, "LED");
    assert_eq!(configs[1].name, "Light");
}

#[test]
fn led_pin_from_table_ignores_case() {
    let table = [(5u8, "digital_in", "Button"), (2, "digital_out", "led"), (3, "digital_out", "LED")];
    assert_eq!(led_pin_from(&table), Some(2));
    assert_eq!(led_pin_from(&table[..1]), None);
    assert_eq!(led_pin(), None);
    assert_eq!(neopixel_pin(), None);
}

#[test]
fn peripheral_tables_become_configs() {
    let i2c_pins: [(u8, &str); 2] = [(21, "sda"), (22, "scl")];
    let table: [(&str, &[(u8, &str)]); 2] = [("I2C", &i2c_pins), ("CAN", &[])];
    let configs = peripheral_configs_from(&table);
    assert_eq!(configs.len(), 1);
    assert_eq!(configs[0].name, "I2C");
    assert_eq!(configs[0].protocol, PeripheralProtocol::I2C);
    let pin_configs = peripheral_pin_configs_from(&table);
    assert_eq!(pin_configs.len(), 1);
    assert_eq!(pin_configs[0].pin_for_role("scl"), Some(22));
    assert_eq!(pin_configs[0].pin_for_role("sda"), Some(21));
    assert_eq!(pin_configs[0].pin_for_role("miso"), None);
    assert!(peripheral_pin_configs().is_empty());
}
