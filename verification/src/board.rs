//! Board configuration: the board table compiled into the firmware and its
//! conversion into runtime GPIO and peripheral configs.
//!
//! This build carries no board table, so the board accessors report an
//! unknown board; the `*_from` functions turn any given table into configs.

use vstd::prelude::*;
use crate::gpio::{GpioMode, GpioPinConfig, mode_name};
use crate::gpio::peripheral::{
    PeripheralConfig, PeripheralProtocol, protocol_named, protocol_from_name,
};
use crate::text;

verus! {

/// Board name from the board table, or "unknown" when none was loaded.
pub fn board_name() -> (r: &'static str)
    ensures
        r@ == "unknown"@,
{
    "unknown"
}

/// Board chip from the board table, or "unknown" when none was loaded.
pub fn board_chip() -> (r: &'static str)
    ensures
        r@ == "unknown"@,
{
    "unknown"
}

/// Whether a board table was loaded at build time.
pub fn has_board_config() -> (r: bool)
    ensures
        !r,
{
    false
}

/// Whether the board has a temperature sensor; false without a board table.
pub fn has_temp_sensor() -> (r: bool)
    ensures
        !r,
{
    false
}

/// GPIO pin of an onboard WS2812/NeoPixel LED, if any; none without a board table.
pub fn neopixel_pin() -> (r: Option<u8>)
    ensures
        r is None,
{
    None
}

/// Onboarding display mode: "color" (WS2812 RGB), "digit" (blink LED) or
/// "none"; "none" without a board table.
pub fn onboard_display_mode() -> (r: &'static str)
    ensures
        r@ == "none"@,
{
    "none"
}

/// The mode with the given metadata name.
pub open spec fn mode_named(s: Seq<char>) -> Option<GpioMode> {
    if s == "digital_in"@ {
        Some(GpioMode::DigitalIn)
    } else if s == "digital_out"@ {
        Some(GpioMode::DigitalOut)
    } else if s == "analog_in"@ {
        Some(GpioMode::AnalogIn)
    } else if s == "pwm"@ {
        Some(GpioMode::Pwm)
    } else if s == "low_edge_trigger"@ {
        Some(GpioMode::LowEdgeTrigger)
    } else if s == "high_edge_trigger"@ {
        Some(GpioMode::HighEdgeTrigger)
    } else {
        None
    }
}

/// Each mode is found again from its name.
pub proof fn lemma_mode_name_roundtrip(m: GpioMode)
    ensures
        mode_named(mode_name(m)) == Some(m),
{
    reveal_strlit("digital_in");
    reveal_strlit("digital_out");
    reveal_strlit("analog_in");
    reveal_strlit("pwm");
    reveal_strlit("low_edge_trigger");
    reveal_strlit("high_edge_trigger");
    assert("digital_in"@.len() == 10);
    assert("digital_out"@.len() == 11);
    assert("analog_in"@.len() == 9);
    assert("pwm"@.len() == 3);
    assert("low_edge_trigger"@.len() == 16);
    assert("high_edge_trigger"@.len() == 17);
}

/// The GPIO mode named `s` in a board table.
pub fn parse_mode(s: &str) -> (r: Option<GpioMode>)
    ensures
        r == mode_named(s@),
{
    if text::str_eq(s, "digital_in") {
        Some(GpioMode::DigitalIn)
    } else if text::str_eq(s, "digital_out") {
        Some(GpioMode::DigitalOut)
    } else if text::str_eq(s, "analog_in") {
        Some(GpioMode::AnalogIn)
    } else if text::str_eq(s, "pwm") {
        Some(GpioMode::Pwm)
    } else if text::str_eq(s, "low_edge_trigger") {
        Some(GpioMode::LowEdgeTrigger)
    } else if text::str_eq(s, "high_edge_trigger") {
        Some(GpioMode::HighEdgeTrigger)
    } else {
        None
    }
}

/// The peripheral protocol named `s` in a board table (exact match).
pub fn parse_protocol(s: &str) -> (r: Option<PeripheralProtocol>)
    ensures
        r == protocol_named(s@),
{
    protocol_from_name(s)
}

/// A GPIO entry of a board table: pin, mode name and pin name.
pub type GpioEntry<'a> = (u8, &'a str, &'a str);

/// The configs that GPIO table entries give: one per entry whose mode is
/// known, in order, named as in the table.
pub open spec fn gpio_entries(t: Seq<(u8, Seq<char>, Seq<char>)>) -> Seq<(u8, GpioMode, Seq<char>)>
    decreases t.len(),
{
    if t.len() == 0 {
        Seq::empty()
    } else {
        let rest = gpio_entries(t.drop_last());
        let e = t.last();
        match mode_named(e.1) {
            Some(m) => rest.push((e.0, m, e.2)),
            None => rest,
        }
    }
}

/// Views of GPIO table entries.
pub open spec fn gpio_table_view(t: Seq<GpioEntry>) -> Seq<(u8, Seq<char>, Seq<char>)> {
    t.map_values(|e: GpioEntry| (e.0, e.1@, e.2@))
}

/// Views of pin configs.
pub open spec fn pin_config_views(v: Seq<GpioPinConfig>) -> Seq<(u8, GpioMode, Seq<char>)> {
    v.map_values(|c: GpioPinConfig| (c.pin, c.mode, c.name@))
}

/// Turn the GPIO entries of a board table into runtime pin configs.
pub fn gpio_configs_from(table: &[GpioEntry]) -> (r: Vec<GpioPinConfig>)
    ensures
        pin_config_views(r@) == gpio_entries(gpio_table_view(table@)),
{
    let ghost tv = gpio_table_view(table@);
    let mut out: Vec<GpioPinConfig> = Vec::new();
    let mut i: usize = 0;
    proof {
        assert(pin_config_views(out@) =~= gpio_entries(tv.take(0)));
    }
    while i < table.len()
        invariant
            tv == gpio_table_view(table@),
            i <= table@.len(),
            pin_config_views(out@) == gpio_entries(tv.take(i as int)),
        decreases table@.len() - i,
    {
        let (pin, mode_str, name) = table[i];
        proof {
            assert(tv.take(i + 1).drop_last() =~= tv.take(i as int));
            assert(tv.take(i + 1).last() == tv[i as int]);
        }
        match parse_mode(mode_str) {
            Some(mode) => {
                let cfg = GpioPinConfig::new(pin, mode).with_name(name);
                out.push(cfg);
                proof {
                    assert(pin_config_views(out@) =~= gpio_entries(tv.take(i as int)).push(
                        (pin, mode, name@),
                    ));
                }
            },
            None => {},
        }
        i = i + 1;
    }
    proof {
        assert(tv.take(i as int) =~= tv);
    }
    out
}

/// The board table's GPIO configs; none without a board table.
pub fn gpio_configs() -> (r: Vec<GpioPinConfig>)
    ensures
        r@.len() == 0,
{
    let empty: Vec<GpioEntry> = Vec::new();
    let r = gpio_configs_from(empty.as_slice());
    proof {
        assert(gpio_table_view(empty@) =~= Seq::empty());
        assert(pin_config_views(r@).len() == r@.len());
    }
    r
}

/// The pin of the first table entry named like `led` (ASCII case ignored).
pub open spec fn led_entry(t: Seq<(u8, Seq<char>, Seq<char>)>) -> Option<u8>
    decreases t.len(),
{
    if t.len() == 0 {
        None
    } else if t[0].2.len() == 3 && text::starts_with_ci(t[0].2, "led"@) {
        Some(t[0].0)
    } else {
        led_entry(t.drop_first())
    }
}

/// The pin of the board's default LED: the first GPIO entry named "LED"
/// (ASCII case ignored), if any.
pub fn led_pin_from(table: &[GpioEntry]) -> (r: Option<u8>)
    ensures
        r == led_entry(gpio_table_view(table@)),
{
    let ghost tv = gpio_table_view(table@);
    let led = text::chars_of("led");
    proof {
        reveal_strlit("led");
    }
    let mut i: usize = 0;
    proof {
        assert(tv.skip(0) =~= tv);
    }
    while i < table.len()
        invariant
            tv == gpio_table_view(table@),
            led@ == "led"@,
            led@.len() == 3,
            i <= table@.len(),
            led_entry(tv) == led_entry(tv.skip(i as int)),
        decreases table@.len() - i,
    {
        let (pin, _mode, name) = table[i];
        let ghost t = tv.skip(i as int);
        proof {
            assert(t[0] == tv[i as int]);
            assert(t.drop_first() =~= tv.skip(i + 1));
        }
        let cs = text::chars_of(name);
        if cs.len() == led.len() && has_prefix_ci(&cs, &led) {
            return Some(pin);
        }
        i = i + 1;
    }
    None
}

/// Case-insensitive (ASCII) prefix test on characters.
fn has_prefix_ci(s: &Vec<char>, p: &Vec<char>) -> (r: bool)
    ensures
        r == text::starts_with_ci(s@, p@),
{
    if p.len() > s.len() {
        return false;
    }
    let mut i: usize = 0;
    while i < p.len()
        invariant
            p@.len() <= s@.len(),
            i <= p@.len(),
            forall|j: int| 0 <= j < i ==> text::lower_code(#[trigger] s@[j]) == text::lower_code(p@[j]),
        decreases p@.len() - i,
    {
        if !text::eq_ignore_ascii_case(s[i], p[i]) {
            return false;
        }
        i = i + 1;
    }
    true
}

/// GPIO pin of the board's default LED; none without a board table.
pub fn led_pin() -> (r: Option<u8>)
    ensures
        r is None,
{
    let empty: Vec<GpioEntry> = Vec::new();
    let r = led_pin_from(empty.as_slice());
    proof {
        assert(gpio_table_view(Seq::<GpioEntry>::empty()) =~= Seq::empty());
    }
    r
}

/// A peripheral entry of a board table: protocol name and `(pin, role)` pairs.
pub type PeripheralEntry<'a> = (&'a str, &'a [(u8, &'a str)]);

/// Peripheral config with pin assignments, for board-specific bus setup.
///
/// Extends [`PeripheralConfig`] with the pin-role pairs of the board table
/// (e.g. `[(21, "sda"), (22, "scl")]` for I2C).
pub struct PeripheralPinConfig {
    pub protocol: PeripheralProtocol,
    pub name: String,
    pub pins: Vec<(u8, String)>,
}

/// Views of pin-role pairs.
pub open spec fn pin_role_views(v: Seq<(u8, String)>) -> Seq<(u8, Seq<char>)> {
    v.map_values(|e: (u8, String)| (e.0, e.1@))
}

/// The pin of the first pair with the given role.
pub open spec fn first_pin_for(pins: Seq<(u8, Seq<char>)>, role: Seq<char>) -> Option<u8>
    decreases pins.len(),
{
    if pins.len() == 0 {
        None
    } else if pins[0].1 == role {
        Some(pins[0].0)
    } else {
        first_pin_for(pins.drop_first(), role)
    }
}

impl PeripheralPinConfig {
    /// The pin number for a given role (e.g. "sda", "rx").
    pub fn pin_for_role(&self, role: &str) -> (r: Option<u8>)
        ensures
            r == first_pin_for(pin_role_views(self.pins@), role@),
    {
        let ghost pv = pin_role_views(self.pins@);
        let mut i: usize = 0;
        proof {
            assert(pv.skip(0) =~= pv);
        }
        while i < self.pins.len()
            invariant
                pv == pin_role_views(self.pins@),
                i <= self.pins@.len(),
                first_pin_for(pv, role@) == first_pin_for(pv.skip(i as int), role@),
            decreases self.pins@.len() - i,
        {
            let ghost t = pv.skip(i as int);
            proof {
                assert(t[0] == pv[i as int]);
                assert(t.drop_first() =~= pv.skip(i + 1));
            }
            if text::str_eq(self.pins[i].1.as_str(), role) {
                return Some(self.pins[i].0);
            }
            i = i + 1;
        }
        None
    }
}

/// Views of peripheral table entries: protocol name and pin-role pairs.
pub open spec fn peripheral_table_view(t: Seq<PeripheralEntry>) -> Seq<(Seq<char>, Seq<(u8, Seq<char>)>)> {
    t.map_values(|e: PeripheralEntry| (e.0@, e.1@.map_values(|p: (u8, &str)| (p.0, p.1@))))
}

/// The entries of a peripheral table whose protocol is known, in order, as
/// (protocol, name, pins); the name is the protocol name of the entry.
pub open spec fn peripheral_pin_entries(t: Seq<(Seq<char>, Seq<(u8, Seq<char>)>)>) -> Seq<
    (PeripheralProtocol, Seq<char>, Seq<(u8, Seq<char>)>),
>
    decreases t.len(),
{
    if t.len() == 0 {
        Seq::empty()
    } else {
        let rest = peripheral_pin_entries(t.drop_last());
        let e = t.last();
        match protocol_named(e.0) {
            Some(p) => rest.push((p, e.0, e.1)),
            None => rest,
        }
    }
}

/// Views of peripheral pin configs.
pub open spec fn pin_configs_view(v: Seq<PeripheralPinConfig>) -> Seq<
    (PeripheralProtocol, Seq<char>, Seq<(u8, Seq<char>)>),
> {
    v.map_values(|c: PeripheralPinConfig| (c.protocol, c.name@, pin_role_views(c.pins@)))
}

/// Turn the peripheral entries of a board table into configs with pin assignments.
pub fn peripheral_pin_configs_from(table: &[PeripheralEntry]) -> (r: Vec<PeripheralPinConfig>)
    ensures
        pin_configs_view(r@) == peripheral_pin_entries(peripheral_table_view(table@)),
{
    let ghost tv = peripheral_table_view(table@);
    let mut out: Vec<PeripheralPinConfig> = Vec::new();
    let mut i: usize = 0;
    proof {
        assert(pin_configs_view(out@) =~= peripheral_pin_entries(tv.take(0)));
    }
    while i < table.len()
        invariant
            tv == peripheral_table_view(table@),
            i <= table@.len(),
            pin_configs_view(out@) == peripheral_pin_entries(tv.take(i as int)),
        decreases table@.len() - i,
    {
        let (proto_str, pins) = table[i];
        proof {
            assert(tv.take(i + 1).drop_last() =~= tv.take(i as int));
            assert(tv.take(i + 1).last() == tv[i as int]);
        }
        match parse_protocol(proto_str) {
            Some(protocol) => {
                let ghost pv = pins@.map_values(|p: (u8, &str)| (p.0, p.1@));
                let mut pin_pairs: Vec<(u8, String)> = Vec::new();
                let mut j: usize = 0;
                while j < pins.len()
                    invariant
                        pv == pins@.map_values(|p: (u8, &str)| (p.0, p.1@)),
                        j <= pins@.len(),
                        pin_pairs@.len() == j,
                        forall|q: int|
                            0 <= q < j ==> (#[trigger] pin_pairs@[q]).0 == pins@[q].0
                                && pin_pairs@[q].1@ == pins@[q].1@,
                    decreases pins@.len() - j,
                {
                    let (pin, role) = pins[j];
                    pin_pairs.push((pin, text::to_string(role)));
                    j = j + 1;
                }
                proof {
                    assert(pin_role_views(pin_pairs@) =~= pv);
                }
                let cfg = PeripheralPinConfig {
                    protocol,
                    name: text::to_string(proto_str),
                    pins: pin_pairs,
                };
                out.push(cfg);
                proof {
                    assert(tv[i as int] == (proto_str@, pv));
                    assert(pin_configs_view(out@) =~= peripheral_pin_entries(tv.take(i as int)).push(
                        (protocol, proto_str@, pv),
                    ));
                }
            },
            None => {},
        }
        i = i + 1;
    }
    proof {
        assert(tv.take(i as int) =~= tv);
    }
    out
}

/// The board table's peripherals with pin assignments; none without a board table.
pub fn peripheral_pin_configs() -> (r: Vec<PeripheralPinConfig>)
    ensures
        r@.len() == 0,
{
    let empty: Vec<PeripheralEntry> = Vec::new();
    let r = peripheral_pin_configs_from(empty.as_slice());
    proof {
        assert(peripheral_table_view(empty@) =~= Seq::empty());
        assert(pin_configs_view(r@).len() == r@.len());
    }
    r
}

/// The configs that peripheral table entries give: one per entry whose
/// protocol is known, named after the protocol, in order.
pub open spec fn peripheral_config_entries(t: Seq<(Seq<char>, Seq<(u8, Seq<char>)>)>) -> Seq<
    (Seq<char>, PeripheralProtocol),
>
    decreases t.len(),
{
    if t.len() == 0 {
        Seq::empty()
    } else {
        let rest = peripheral_config_entries(t.drop_last());
        let e = t.last();
        match protocol_named(e.0) {
            Some(p) => rest.push((e.0, p)),
            None => rest,
        }
    }
}

/// Turn the peripheral entries of a board table into runtime peripheral configs.
pub fn peripheral_configs_from(table: &[PeripheralEntry]) -> (r: Vec<PeripheralConfig>)
    ensures
        crate::gpio::peripheral::config_views(r@) == peripheral_config_entries(
            peripheral_table_view(table@),
        ),
{
    let ghost tv = peripheral_table_view(table@);
    let mut out: Vec<PeripheralConfig> = Vec::new();
    let mut i: usize = 0;
    proof {
        assert(crate::gpio::peripheral::config_views(out@) =~= peripheral_config_entries(tv.take(0)));
    }
    while i < table.len()
        invariant
            tv == peripheral_table_view(table@),
            i <= table@.len(),
            crate::gpio::peripheral::config_views(out@) == peripheral_config_entries(
                tv.take(i as int),
            ),
        decreases table@.len() - i,
    {
        let (proto_str, _pins) = table[i];
        proof {
            assert(tv.take(i + 1).drop_last() =~= tv.take(i as int));
            assert(tv.take(i + 1).last() == tv[i as int]);
            assert(tv[i as int].0 == proto_str@);
        }
        match parse_protocol(proto_str) {
            Some(protocol) => {
                out.push(PeripheralConfig::new(proto_str, protocol));
                proof {
                    assert(crate::gpio::peripheral::config_views(out@) =~= peripheral_config_entries(
                        tv.take(i as int),
                    ).push((proto_str@, protocol)));
                }
            },
            None => {},
        }
        i = i + 1;
    }
    proof {
        assert(tv.take(i as int) =~= tv);
    }
    out
}

/// The board table's peripheral configs; none without a board table.
pub fn peripheral_configs() -> (r: Vec<PeripheralConfig>)
    ensures
        r@.len() == 0,
{
    let empty: Vec<PeripheralEntry> = Vec::new();
    let r = peripheral_configs_from(empty.as_slice());
    proof {
        assert(peripheral_table_view(empty@) =~= Seq::empty());
        assert(crate::gpio::peripheral::config_views(r@).len() == r@.len());
    }
    r
}

} // verus!
