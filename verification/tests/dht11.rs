use eomi_core::dht11::{bit_from_pulse, decode_frame, wait_timed_out, with_bit, Dht11Error, Dht11Frame};

#[test]
fn dht11_decode_valid_frame() {
    let f = decode_frame(&[45, 0, 23, 5, 73]).unwrap();
    assert_eq!(
        f,
        Dht11Frame { humidity_int: 45, humidity_dec: 0, temp_int: 23, temp_dec: 5, negative: false }
    );
}

#[test]
fn dht11_decode_negative_temperature() {
    let f = decode_frame(&[30, 0, 2, 0x85, 30u8.wrapping_add(2).wrapping_add(0x85)]).unwrap();
    assert!(f.negative);
    assert_eq!(f.temp_dec, 5);
    assert_eq!(f.temp_int, 2);
}

#[test]
fn dht11_checksum_wraps_and_mismatch_detected() {
    assert!(decode_frame(&[200, 100, 0, 0, 44]).is_ok());
    assert_eq!(decode_frame(&[45, 0, 23, 5, 74]), Err(Dht11Error::Checksum));
}

#[test]
fn dht11_bits_and_timeouts() {
    assert!(!bit_from_pulse(27));
    assert!(!bit_from_pulse(40));
    assert!(bit_from_pulse(41));
    assert!(bit_from_pulse(70));
    assert_eq!(with_bit(0, 7, true), 0x80);
    assert_eq!(with_bit(0x80, 0, true), 0x81);
    assert_eq!(with_bit(0x80, 3, false), 0x80);
    assert!(!wait_timed_out(1000));
    assert!(wait_timed_out(1001));
}

#[test]
fn dht11_error_text() {
    assert_eq!(Dht11Error::Checksum.to_string(), "DHT11: checksum mismatch");
    assert_eq!(Dht11Error::Timeout.to_string(), "DHT11: timeout");
    assert_eq!(Dht11Error::NoResponse.to_string(), "DHT11: no response");
}
