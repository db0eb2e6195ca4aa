//! The DHT11 temperature and humidity sensor: the decisions of its read-out
//! (bit values from pulse widths, bytes from bits, the checksum) and its
//! errors. The pin timing itself is the caller's.

use vstd::prelude::*;
use crate::text;

verus! {

/// Errors from reading the DHT11 sensor.
#[derive(Debug, PartialEq, Eq, Structural)]
pub enum Dht11Error {
    /// Sensor did not respond to the start signal.
    NoResponse,
    /// Timed out waiting for a bit transition.
    Timeout,
    /// Checksum mismatch in received data.
    Checksum,
}

/// How an error reads.
pub open spec fn dht11_error_text(e: Dht11Error) -> Seq<char> {
    match e {
        Dht11Error::NoResponse => "DHT11: no response"@,
        Dht11Error::Timeout => "DHT11: timeout"@,
        Dht11Error::Checksum => "DHT11: checksum mismatch"@,
    }
}

impl Dht11Error {
    /// The error as text.
    pub fn to_string(&self) -> (r: String)
        ensures
            r@ == dht11_error_text(*self),
    {
        match self {
            Dht11Error::NoResponse => text::to_string("DHT11: no response"),
            Dht11Error::Timeout => text::to_string("DHT11: timeout"),
            Dht11Error::Checksum => text::to_string("DHT11: checksum mismatch"),
        }
    }
}

/// Maximum microseconds to spin-wait for a pin level change.
pub const TIMEOUT_US: u32 = 1000;

/// A high pulse longer than this many microseconds is a 1 bit.
pub const ONE_BIT_MIN_US: u32 = 40;

/// Whether a wait of `elapsed` microseconds for a level change has timed out.
pub fn wait_timed_out(elapsed: u32) -> (r: bool)
    ensures
        r == (elapsed > TIMEOUT_US),
{
    elapsed > TIMEOUT_US
}

/// The bit that a high pulse of `high_us` microseconds encodes: about 26 to
/// 28 us is a 0, about 70 us is a 1.
pub fn bit_from_pulse(high_us: u32) -> (r: bool)
    ensures
        r == (high_us > ONE_BIT_MIN_US),
{
    high_us > ONE_BIT_MIN_US
}

/// `byte` with bit `bit` (0 is the least significant) set when `one`.
pub fn with_bit(byte: u8, bit: u8, one: bool) -> (r: u8)
    requires
        bit < 8,
    ensures
        r == if one {
            byte | (1u8 << bit)
        } else {
            byte
        },
{
    if one {
        byte | (1u8 << bit)
    } else {
        byte
    }
}

/// The raw fields of a DHT11 frame whose checksum holds.
#[derive(Debug, Clone, Copy, PartialEq, Eq, Structural)]
pub struct Dht11Frame {
    /// Relative humidity, integer part.
    pub humidity_int: u8,
    /// Relative humidity, tenths.
    pub humidity_dec: u8,
    /// Temperature magnitude, integer part.
    pub temp_int: u8,
    /// Temperature magnitude, tenths (bit 7 of the byte removed).
    pub temp_dec: u8,
    /// The temperature is below zero (bit 7 of the fourth byte).
    pub negative: bool,
}

/// The checksum byte of a frame: the sum of the first four bytes, modulo 256.
pub open spec fn frame_checksum(d: Seq<u8>) -> u8 {
    ((d[0] + d[1] + d[2] + d[3]) % 256) as u8
}

/// Validate the checksum of the five data bytes and split them into fields.
pub fn decode_frame(data: &[u8; 5]) -> (r: Result<Dht11Frame, Dht11Error>)
    ensures
        match r {
            Ok(f) => frame_checksum(data@) == data@[4] && f == (Dht11Frame {
                humidity_int: data@[0],
                humidity_dec: data@[1],
                temp_int: data@[2],
                temp_dec: data@[3] & 0x7Fu8,
                negative: data@[3] & 0x80u8 != 0,
            }),
            Err(e) => frame_checksum(data@) != data@[4] && e == Dht11Error::Checksum,
        },
{
    let a = data[0];
    let b = data[1];
    let c = data[2];
    let d = data[3];
    let s1 = a.wrapping_add(b);
    let s2 = s1.wrapping_add(c);
    let checksum = s2.wrapping_add(d);
    proof {
        let fc: u8 = frame_checksum(data@);
        assert(fc == ((a + b + c + d) % 256) as u8);
        assert(checksum == fc) by (bit_vector)
            requires
                s1 == (if a + b > 255 { (a + b - 256) as u8 } else { (a + b) as u8 }),
                s2 == (if s1 + c > 255 { (s1 + c - 256) as u8 } else { (s1 + c) as u8 }),
                checksum == (if s2 + d > 255 { (s2 + d - 256) as u8 } else { (s2 + d) as u8 }),
                fc == ((a + b + c + d) % 256) as u8,
        ;
    }
    if checksum != data[4] {
        return Err(Dht11Error::Checksum);
    }
    Ok(
        Dht11Frame {
            humidity_int: data[0],
            humidity_dec: data[1],
            temp_int: data[2],
            temp_dec: data[3] & 0x7F,
            negative: data[3] & 0x80 != 0,
        },
    )
}

} // verus!
