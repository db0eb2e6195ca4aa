//! GPIO pin configuration types.

pub mod encoding;
pub mod peripheral;
pub mod adc;
pub mod driver;

use vstd::prelude::*;
use crate::text::{self, push_str};
use crate::odf::map::{entries_map, entry_keys, key_lt};
use crate::odf::object::{omi_view, InfoItem, InfoItemView};
use crate::odf::{whole_double_bits, whole_number, OmiValue, OmiValueView};

verus! {

/// GPIO pin mode.
#[derive(Debug, Clone, Copy, PartialEq, Eq, Structural)]
pub enum GpioMode {
    DigitalIn,
    DigitalOut,
    AnalogIn,
    Pwm,
    LowEdgeTrigger,
    HighEdgeTrigger,
}

/// The metadata name of a mode.
pub open spec fn mode_name(m: GpioMode) -> Seq<char> {
    match m {
        GpioMode::DigitalIn => "digital_in"@,
        GpioMode::DigitalOut => "digital_out"@,
        GpioMode::AnalogIn => "analog_in"@,
        GpioMode::Pwm => "pwm"@,
        GpioMode::LowEdgeTrigger => "low_edge_trigger"@,
        GpioMode::HighEdgeTrigger => "high_edge_trigger"@,
    }
}

/// Output modes take writes from outside: digital out and PWM.
pub open spec fn mode_writable(m: GpioMode) -> bool {
    m is DigitalOut || m is Pwm
}

impl GpioMode {
    /// String representation matching the metadata values.
    pub fn as_str(&self) -> (r: &'static str)
        ensures
            r@ == mode_name(*self),
    {
        match self {
            GpioMode::DigitalIn => "digital_in",
            GpioMode::DigitalOut => "digital_out",
            GpioMode::AnalogIn => "analog_in",
            GpioMode::Pwm => "pwm",
            GpioMode::LowEdgeTrigger => "low_edge_trigger",
            GpioMode::HighEdgeTrigger => "high_edge_trigger",
        }
    }

    /// Whether external writes to this pin's InfoItem are allowed.
    pub fn is_writable(&self) -> (r: bool)
        ensures
            r == mode_writable(*self),
    {
        match self {
            GpioMode::DigitalOut | GpioMode::Pwm => true,
            _ => false,
        }
    }
}

/// Build-time configuration for a single GPIO pin.
#[derive(Debug, Clone)]
pub struct GpioPinConfig {
    pub pin: u8,
    pub mode: GpioMode,
    pub name: String,
}

/// The default name of a pin: `GPIO<pin>`.
pub open spec fn default_pin_name(pin: u8) -> Seq<char> {
    "GPIO"@ + text::ascii_chars(text::decimal_digits(pin as nat))
}

impl GpioPinConfig {
    /// A pin config named after its pin number (`GPIO<pin>`).
    pub fn new(pin: u8, mode: GpioMode) -> (r: Self)
        ensures
            r.pin == pin,
            r.mode == mode,
            r.name@ == default_pin_name(pin),
    {
        let mut name = String::new();
        push_str(&mut name, "GPIO");
        let n = text::decimal_string(pin as u64);
        push_str(&mut name, n.as_str());
        GpioPinConfig { pin, mode, name }
    }

    /// The same config under another name.
    pub fn with_name(self, name: &str) -> (r: Self)
        ensures
            r.pin == self.pin,
            r.mode == self.mode,
            r.name@ == name@,
    {
        GpioPinConfig { pin: self.pin, mode: self.mode, name: text::to_string(name) }
    }
}


/// The history length of a pin's item.
pub const GPIO_CAPACITY: usize = 20;

/// The metadata of a pin's item: its mode and pin number, and `writable`
/// for the output modes.
pub open spec fn gpio_meta(pin: u8, mode: GpioMode) -> Map<Seq<char>, OmiValueView> {
    let m = map![
        "gpio_pin"@ => OmiValueView::Number(whole_double_bits(pin as nat) as u64),
        "mode"@ => OmiValueView::Str(mode_name(mode)),
    ];
    if mode_writable(mode) {
        m.insert("writable"@, OmiValueView::Bool(true))
    } else {
        m
    }
}

/// A new pin item, as a model.
pub open spec fn gpio_item_view(pin: u8, mode: GpioMode) -> InfoItemView {
    InfoItemView {
        type_uri: None,
        desc: None,
        meta: Some(gpio_meta(pin, mode)),
        values: Seq::empty(),
        capacity: GPIO_CAPACITY as nat,
    }
}

/// Build the item of one pin: its mode and pin number as metadata; output
/// modes (`digital_out`, `pwm`) are marked writable.
pub fn build_gpio_info_item(config: &GpioPinConfig) -> (r: InfoItem)
    ensures
        r.wf(),
        r@ == gpio_item_view(config.pin, config.mode),
{
    let mut item = InfoItem::new(GPIO_CAPACITY);
    let mut meta: Vec<(String, OmiValue)> = Vec::new();
    meta.push((text::to_string("gpio_pin"), whole_number(config.pin as u32)));
    meta.push((text::to_string("mode"), OmiValue::Str(text::to_string(config.mode.as_str()))));
    let writable = config.mode.is_writable();
    if writable {
        meta.push((text::to_string("writable"), OmiValue::Bool(true)));
    }
    proof {
        reveal_strlit("gpio_pin");
        reveal_strlit("mode");
        reveal_strlit("writable");
        assert(key_lt("gpio_pin"@, "mode"@));
        assert(key_lt("mode"@, "writable"@));
        assert(key_lt("gpio_pin"@, "writable"@));
        reveal_with_fuel(entries_map, 4);
        if writable {
            assert(entry_keys(meta@) =~= seq!["gpio_pin"@, "mode"@, "writable"@]);
        } else {
            assert(entry_keys(meta@) =~= seq!["gpio_pin"@, "mode"@]);
        }
        assert(entries_map(meta@, |x: OmiValue| omi_view(x)) =~= gpio_meta(config.pin, config.mode));
    }
    item.meta = Some(meta);
    item
}

/// Build the items of all configured pins, named by each pin's name.
pub fn build_gpio_items(configs: &[GpioPinConfig]) -> (r: Vec<(String, InfoItem)>)
    ensures
        r@.len() == configs@.len(),
        forall|i: int|
            0 <= i < configs@.len() ==> {
                &&& (#[trigger] r@[i]).0@ == configs@[i].name@
                &&& r@[i].1@ == gpio_item_view(configs@[i].pin, configs@[i].mode)
                &&& r@[i].1.wf()
            },
{
    let mut out: Vec<(String, InfoItem)> = Vec::new();
    let mut i: usize = 0;
    while i < configs.len()
        invariant
            i <= configs@.len(),
            out@.len() == i,
            forall|j: int|
                0 <= j < i ==> {
                    &&& (#[trigger] out@[j]).0@ == configs@[j].name@
                    &&& out@[j].1@ == gpio_item_view(configs@[j].pin, configs@[j].mode)
                    &&& out@[j].1.wf()
                },
        decreases configs@.len() - i,
    {
        let c = &configs[i];
        out.push((c.name.clone(), build_gpio_info_item(c)));
        i = i + 1;
    }
    out
}
} // verus!
