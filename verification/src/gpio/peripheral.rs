//! Peripheral bus configuration: protocols, per-bus configs and the
//! `PERIPHERALS` configuration string.

use vstd::prelude::*;
use vstd::string::*;
use crate::scan::{self, split_chars, is_first_index, trim};
use crate::text::{self, chars_of, push_str};
use crate::gpio::encoding::{encoding_named, parse_encoding, spec_encode, DataEncoding};
use crate::odf::map::{entries_map, entry_keys};
use crate::odf::object::{meta_get, omi_view, InfoItem, InfoItemView};
use crate::odf::{OmiValue, OmiValueView};

verus! {

/// Peripheral protocol type.
#[derive(Debug, Clone, Copy, PartialEq, Eq, Structural)]
pub enum PeripheralProtocol {
    I2C,
    UART,
    SPI,
}

/// The name of a protocol.
pub open spec fn protocol_name(p: PeripheralProtocol) -> Seq<char> {
    match p {
        PeripheralProtocol::I2C => "I2C"@,
        PeripheralProtocol::UART => "UART"@,
        PeripheralProtocol::SPI => "SPI"@,
    }
}

/// The protocol with the given (upper-case) name.
pub open spec fn protocol_named(u: Seq<char>) -> Option<PeripheralProtocol> {
    if u == "I2C"@ {
        Some(PeripheralProtocol::I2C)
    } else if u == "UART"@ {
        Some(PeripheralProtocol::UART)
    } else if u == "SPI"@ {
        Some(PeripheralProtocol::SPI)
    } else {
        None
    }
}

impl PeripheralProtocol {
    pub fn as_str(&self) -> (r: &'static str)
        ensures
            r@ == protocol_name(*self),
    {
        match self {
            PeripheralProtocol::I2C => "I2C",
            PeripheralProtocol::UART => "UART",
            PeripheralProtocol::SPI => "SPI",
        }
    }
}

/// The protocol named exactly `s` (`I2C`, `UART` or `SPI`), if any.
pub fn protocol_from_name(s: &str) -> (r: Option<PeripheralProtocol>)
    ensures
        r == protocol_named(s@),
{
    if text::str_eq(s, "I2C") {
        Some(PeripheralProtocol::I2C)
    } else if text::str_eq(s, "UART") {
        Some(PeripheralProtocol::UART)
    } else if text::str_eq(s, "SPI") {
        Some(PeripheralProtocol::SPI)
    } else {
        None
    }
}

/// Build-time configuration for a single peripheral bus.
#[derive(Debug, Clone)]
pub struct PeripheralConfig {
    pub name: String,
    pub protocol: PeripheralProtocol,
}

impl PeripheralConfig {
    pub fn new(name: &str, protocol: PeripheralProtocol) -> (r: Self)
        ensures
            r.name@ == name@,
            r.protocol == protocol,
    {
        PeripheralConfig { name: text::to_string(name), protocol }
    }
}

/// What `str::to_uppercase` gives for a text: each character replaced by its
/// Unicode upper-case form.
pub uninterp spec fn uppercase_text(s: Seq<char>) -> Seq<char>;

/// The ASCII upper-case form of a character: `a` to `z` become `A` to `Z`,
/// the rest stay.
pub open spec fn ascii_upper(c: char) -> char {
    if 'a' <= c <= 'z' {
        ((c as u32) - 32) as char
    } else {
        c
    }
}

/// The ASCII lower-case form of a character: `A` to `Z` become `a` to `z`,
/// the rest stay.
pub open spec fn ascii_lower(c: char) -> char {
    if 'A' <= c <= 'Z' {
        ((c as u32) + 32) as char
    } else {
        c
    }
}

/// Every character of the text is ASCII.
pub open spec fn all_ascii(s: Seq<char>) -> bool {
    forall|i: int| 0 <= i < s.len() ==> (s[i] as u32) < 128
}

/// Upper-case form of a text.
///
/// Calls `str::to_uppercase`, whose result depends on the text alone; for an
/// ASCII text the Unicode mapping is the ASCII one (`a` to `z` become `A`
/// to `Z`). What it gives for other characters is left unstated.
#[verifier::external_body]
fn to_uppercase(s: &str) -> (r: String)
    ensures
        r@ == uppercase_text(s@),
        all_ascii(s@) ==> r@ == s@.map_values(|c: char| ascii_upper(c)),
{
    s.to_uppercase()
}

/// One `PROTOCOL:NAME` entry: the trimmed name and the protocol, when the
/// trimmed, upper-cased protocol part names one.
pub open spec fn peripheral_entry(e: Seq<char>) -> Option<(Seq<char>, PeripheralProtocol)> {
    let t = trim(e);
    if t.contains(':') {
        let i = choose|i: int| is_first_index(t, ':', i);
        match protocol_named(uppercase_text(trim(t.subrange(0, i)))) {
            Some(p) => Some((trim(t.subrange(i + 1, t.len() as int)), p)),
            None => None,
        }
    } else {
        None
    }
}

/// The configs that the entries give, in order; entries that give none are skipped.
pub open spec fn peripheral_entries(es: Seq<Seq<char>>) -> Seq<(Seq<char>, PeripheralProtocol)>
    decreases es.len(),
{
    if es.len() == 0 {
        Seq::empty()
    } else {
        let rest = peripheral_entries(es.drop_last());
        match peripheral_entry(es.last()) {
            Some(c) => rest.push(c),
            None => rest,
        }
    }
}

/// The configs named by a `PERIPHERALS` string.
pub open spec fn spec_parse_peripherals(s: Seq<char>) -> Seq<(Seq<char>, PeripheralProtocol)> {
    if s.len() == 0 {
        Seq::empty()
    } else {
        peripheral_entries(split_chars(s, ','))
    }
}

/// Views of peripheral configs as (name, protocol).
pub open spec fn config_views(v: Seq<PeripheralConfig>) -> Seq<(Seq<char>, PeripheralProtocol)> {
    v.map_values(|c: PeripheralConfig| (c.name@, c.protocol))
}

/// Parse the `PERIPHERALS` configuration string into configs.
///
/// Format: comma-separated `PROTOCOL:NAME` pairs, e.g. `"I2C:GPIO21,UART:GPIO16"`;
/// white space around entries and parts is ignored and the protocol is
/// matched case-insensitively. Entries without `:` or with an unknown
/// protocol are skipped. An empty string gives no configs.
pub fn parse_peripherals(s: &str) -> (r: Vec<PeripheralConfig>)
    ensures
        config_views(r@) == spec_parse_peripherals(s@),
{
    let mut out: Vec<PeripheralConfig> = Vec::new();
    if s.is_empty() {
        proof {
            assert(config_views(out@) =~= Seq::<(Seq<char>, PeripheralProtocol)>::empty());
        }
        return out;
    }
    let cs = chars_of(s);
    let ranges = scan::split_ranges(cs.as_slice(), ',');
    let ghost pieces = split_chars(s@, ',');
    let mut k: usize = 0;
    proof {
        assert(config_views(out@) =~= peripheral_entries(pieces.take(0)));
    }
    while k < ranges.len()
        invariant
            cs@ == s@,
            pieces == split_chars(s@, ','),
            ranges@.len() == pieces.len(),
            forall|j: int|
                0 <= j < ranges@.len() ==> (#[trigger] ranges@[j]).0 <= ranges@[j].1 <= cs@.len()
                    && cs@.subrange(ranges@[j].0 as int, ranges@[j].1 as int) == pieces[j],
            k <= ranges@.len(),
            config_views(out@) == peripheral_entries(pieces.take(k as int)),
        decreases ranges@.len() - k,
    {
        let (a, b) = ranges[k];
        let ghost e = pieces[k as int];
        proof {
            assert(pieces.take(k + 1).drop_last() =~= pieces.take(k as int));
            assert(pieces.take(k + 1).last() == e);
        }
        let (ta, tb) = scan::trim_range(cs.as_slice(), a, b);
        let ghost t = cs@.subrange(ta as int, tb as int);
        let entry = &cs[ta..tb];
        assert(entry@ == t);
        match scan::find_char(entry, ':') {
            None => {},
            Some(i) => {
                proof {
                    let j = choose|j: int| is_first_index(t, ':', j);
                    assert(j == i);
                }
                let (pa, pb) = scan::trim_range(cs.as_slice(), ta, ta + i);
                let (na, nb) = scan::trim_range(cs.as_slice(), ta + i + 1, tb);
                proof {
                    assert(t.subrange(0, i as int) =~= cs@.subrange(ta as int, ta + i));
                    assert(t.subrange(i + 1, t.len() as int) =~= cs@.subrange(ta + i + 1, tb as int));
                }
                let proto = s.substring_char(pa, pb);
                let upper = to_uppercase(proto);
                match protocol_from_name(upper.as_str()) {
                    None => {},
                    Some(p) => {
                        let name = text::string_from_chars(&cs[na..nb]);
                        out.push(PeripheralConfig { name, protocol: p });
                        proof {
                            assert(config_views(out@) =~= peripheral_entries(pieces.take(k as int)).push(
                                (cs@.subrange(na as int, nb as int), p),
                            ));
                        }
                    },
                }
            },
        }
        k = k + 1;
    }
    proof {
        assert(pieces.take(k as int) =~= pieces);
    }
    out
}

/// Default I2C bus frequency.
pub const I2C_DEFAULT_FREQ_HZ: u32 = 100_000;

/// Default SPI bus frequency.
pub const SPI_DEFAULT_FREQ_HZ: u32 = 1_000_000;

/// Default UART baud rate.
pub const UART_DEFAULT_BAUD: u32 = 115_200;

/// Configuration of one I2C bus.
#[derive(Debug, Clone)]
pub struct I2cConfig2 {
    pub freq_hz: u32,
    pub name: String,
}

impl I2cConfig2 {
    /// A config at the default frequency.
    pub fn new(name: &str) -> (r: Self)
        ensures
            r.freq_hz == I2C_DEFAULT_FREQ_HZ,
            r.name@ == name@,
    {
        I2cConfig2 { freq_hz: I2C_DEFAULT_FREQ_HZ, name: text::to_string(name) }
    }

    /// The same config at another frequency.
    pub fn with_freq(self, freq_hz: u32) -> (r: Self)
        ensures
            r.freq_hz == freq_hz,
            r.name@ == self.name@,
    {
        I2cConfig2 { freq_hz, name: self.name }
    }
}

/// Configuration of one SPI bus.
#[derive(Debug, Clone)]
pub struct SpiConfig {
    pub freq_hz: u32,
    pub name: String,
}

impl SpiConfig {
    /// A config at the default frequency.
    pub fn new(name: &str) -> (r: Self)
        ensures
            r.freq_hz == SPI_DEFAULT_FREQ_HZ,
            r.name@ == name@,
    {
        SpiConfig { freq_hz: SPI_DEFAULT_FREQ_HZ, name: text::to_string(name) }
    }

    /// The same config at another frequency.
    pub fn with_freq(self, freq_hz: u32) -> (r: Self)
        ensures
            r.freq_hz == freq_hz,
            r.name@ == self.name@,
    {
        SpiConfig { freq_hz, name: self.name }
    }
}

/// Configuration of one UART bus.
#[derive(Debug, Clone)]
pub struct UartConfig {
    pub baud: u32,
    pub name: String,
}

impl UartConfig {
    /// A config at the default baud rate.
    pub fn new(name: &str) -> (r: Self)
        ensures
            r.baud == UART_DEFAULT_BAUD,
            r.name@ == name@,
    {
        UartConfig { baud: UART_DEFAULT_BAUD, name: text::to_string(name) }
    }

    /// The same config at another baud rate.
    pub fn with_baud(self, baud: u32) -> (r: Self)
        ensures
            r.baud == baud,
            r.name@ == self.name@,
    {
        UartConfig { baud, name: self.name }
    }
}


/// The history length of a bus item.
pub const PERIPHERAL_CAPACITY: usize = 20;

/// What `str::to_lowercase` gives for a text: each character replaced by its
/// Unicode lower-case form.
pub uninterp spec fn lowercase_text(s: Seq<char>) -> Seq<char>;

/// Lower-case form of a text.
///
/// Calls `str::to_lowercase`, whose result depends on the text alone; for an
/// ASCII text the Unicode mapping is the ASCII one (`A` to `Z` become `a`
/// to `z`). What it gives for other characters is left unstated.
#[verifier::external_body]
fn to_lowercase(s: &str) -> (r: String)
    ensures
        r@ == lowercase_text(s@),
        all_ascii(s@) ==> r@ == s@.map_values(|c: char| ascii_lower(c)),
{
    s.to_lowercase()
}

/// The name of a bus item: `<name>_<protocol>_<dir>`.
pub open spec fn bus_item_name(name: Seq<char>, protocol: Seq<char>, dir: Seq<char>) -> Seq<char> {
    name + "_"@ + protocol + "_"@ + dir
}

/// The metadata of a bus's receive item.
pub open spec fn rx_meta(protocol: Seq<char>) -> Map<Seq<char>, OmiValueView> {
    map![
        "mode"@ => OmiValueView::Str(lowercase_text(protocol) + "_rx"@),
        "protocol"@ => OmiValueView::Str(protocol),
    ]
}

/// The metadata of a bus's transmit item: writable.
pub open spec fn tx_meta(protocol: Seq<char>) -> Map<Seq<char>, OmiValueView> {
    map![
        "mode"@ => OmiValueView::Str(lowercase_text(protocol) + "_tx"@),
        "protocol"@ => OmiValueView::Str(protocol),
        "writable"@ => OmiValueView::Bool(true),
    ]
}

/// A new bus item with the given metadata, as a model.
pub open spec fn bus_item_view(meta: Map<Seq<char>, OmiValueView>) -> InfoItemView {
    InfoItemView {
        type_uri: None,
        desc: None,
        meta: Some(meta),
        values: Seq::empty(),
        capacity: PERIPHERAL_CAPACITY as nat,
    }
}

/// `a`, then `b`.
fn joined(a: &str, b: &str) -> (r: String)
    ensures
        r@ == a@ + b@,
{
    let mut s = text::to_string(a);
    push_str(&mut s, b);
    s
}

/// The keys `mode`, `protocol` and `writable` are in increasing order.
proof fn lemma_bus_keys_sorted()
    ensures
        crate::odf::map::key_lt("mode"@, "protocol"@),
        crate::odf::map::key_lt("protocol"@, "writable"@),
        crate::odf::map::key_lt("mode"@, "writable"@),
{
    reveal_strlit("mode");
    reveal_strlit("protocol");
    reveal_strlit("writable");
}

/// Build the receive and transmit items of a peripheral bus: `[(rx_name,
/// rx_item), (tx_name, tx_item)]`. The transmit item is writable.
pub fn build_peripheral_items(name: &str, protocol: &str) -> (r: Vec<(String, InfoItem)>)
    ensures
        r@.len() == 2,
        r@[0].0@ == bus_item_name(name@, protocol@, "RX"@),
        r@[0].1@ == bus_item_view(rx_meta(protocol@)),
        r@[0].1.wf(),
        r@[1].0@ == bus_item_name(name@, protocol@, "TX"@),
        r@[1].1@ == bus_item_view(tx_meta(protocol@)),
        r@[1].1.wf(),
{
    let mut rx_name = joined(name, "_");
    push_str(&mut rx_name, protocol);
    push_str(&mut rx_name, "_RX");
    let mut tx_name = joined(name, "_");
    push_str(&mut tx_name, protocol);
    push_str(&mut tx_name, "_TX");
    let lower = to_lowercase(protocol);

    let mut rx_item = InfoItem::new(PERIPHERAL_CAPACITY);
    let rx_vec = vec![
        (text::to_string("mode"), OmiValue::Str(joined(lower.as_str(), "_rx"))),
        (text::to_string("protocol"), OmiValue::Str(text::to_string(protocol))),
    ];
    let mut tx_item = InfoItem::new(PERIPHERAL_CAPACITY);
    let tx_vec = vec![
        (text::to_string("mode"), OmiValue::Str(joined(lower.as_str(), "_tx"))),
        (text::to_string("protocol"), OmiValue::Str(text::to_string(protocol))),
        (text::to_string("writable"), OmiValue::Bool(true)),
    ];
    proof {
        lemma_bus_keys_sorted();
        assert(entry_keys(rx_vec@) =~= seq!["mode"@, "protocol"@]);
        assert(entry_keys(tx_vec@) =~= seq!["mode"@, "protocol"@, "writable"@]);
        reveal_with_fuel(entries_map, 4);
        assert(entries_map(rx_vec@, |x: OmiValue| omi_view(x)) =~= rx_meta(protocol@));
        assert(entries_map(tx_vec@, |x: OmiValue| omi_view(x)) =~= tx_meta(protocol@));
    }
    rx_item.meta = Some(rx_vec);
    tx_item.meta = Some(tx_vec);
    proof {
        reveal_strlit("_RX");
        reveal_strlit("_TX");
        reveal_strlit("RX");
        reveal_strlit("TX");
        reveal_strlit("_");
        assert(rx_name@ =~= bus_item_name(name@, protocol@, "RX"@));
        assert(tx_name@ =~= bus_item_name(name@, protocol@, "TX"@));
    }
    vec![(rx_name, rx_item), (tx_name, tx_item)]
}

/// Build the bus items of every configured peripheral, two per bus, in order.
pub fn build_peripheral_items_all(configs: &[PeripheralConfig]) -> (r: Vec<(String, InfoItem)>)
    ensures
        r@.len() == 2 * configs@.len(),
        forall|i: int|
            #![trigger configs@[i]]
            0 <= i < configs@.len() ==> {
                let c = configs@[i];
                let p = protocol_name(c.protocol);
                &&& r@[2 * i].0@ == bus_item_name(c.name@, p, "RX"@)
                &&& r@[2 * i].1@ == bus_item_view(rx_meta(p))
                &&& r@[2 * i].1.wf()
                &&& r@[2 * i + 1].0@ == bus_item_name(c.name@, p, "TX"@)
                &&& r@[2 * i + 1].1@ == bus_item_view(tx_meta(p))
                &&& r@[2 * i + 1].1.wf()
            },
{
    let mut out: Vec<(String, InfoItem)> = Vec::new();
    let mut i: usize = 0;
    while i < configs.len()
        invariant
            i <= configs@.len(),
            out@.len() == 2 * i,
            forall|j: int|
                #![trigger configs@[j]]
                0 <= j < i ==> {
                    let c = configs@[j];
                    let p = protocol_name(c.protocol);
                    &&& out@[2 * j].0@ == bus_item_name(c.name@, p, "RX"@)
                    &&& out@[2 * j].1@ == bus_item_view(rx_meta(p))
                    &&& out@[2 * j].1.wf()
                    &&& out@[2 * j + 1].0@ == bus_item_name(c.name@, p, "TX"@)
                    &&& out@[2 * j + 1].1@ == bus_item_view(tx_meta(p))
                    &&& out@[2 * j + 1].1.wf()
                },
        decreases configs@.len() - i,
    {
        let c = &configs[i];
        let mut pair = build_peripheral_items(c.name.as_str(), c.protocol.as_str());
        let ghost before = out@;
        let tx = pair.pop().unwrap();
        let rx = pair.pop().unwrap();
        out.push(rx);
        out.push(tx);
        proof {
            assert forall|j: int| #![trigger configs@[j]] 0 <= j < i implies {
                let c = configs@[j];
                let p = protocol_name(c.protocol);
                &&& out@[2 * j].0@ == bus_item_name(c.name@, p, "RX"@)
                &&& out@[2 * j].1@ == bus_item_view(rx_meta(p))
                &&& out@[2 * j].1.wf()
                &&& out@[2 * j + 1].0@ == bus_item_name(c.name@, p, "TX"@)
                &&& out@[2 * j + 1].1@ == bus_item_view(tx_meta(p))
                &&& out@[2 * j + 1].1.wf()
            } by {
                assert(out@[2 * j] == before[2 * j]);
                assert(out@[2 * j + 1] == before[2 * j + 1]);
            }
        }
        i = i + 1;
    }
    out
}

/// The transmit encoding an item's metadata names under `tx_encoding`, or
/// [`DataEncoding::String`] where it names none (or is not a text).
pub open spec fn spec_tx_encoding(meta: Option<Map<Seq<char>, OmiValueView>>) -> DataEncoding {
    match meta_get(meta, "tx_encoding"@) {
        Some(OmiValueView::Str(s)) => match encoding_named(s) {
            Some(e) => e,
            None => DataEncoding::String,
        },
        _ => DataEncoding::String,
    }
}

/// Read the transmit encoding from an item's metadata.
pub fn tx_encoding_from_meta(item: &InfoItem) -> (r: DataEncoding)
    requires
        item.wf(),
    ensures
        r == spec_tx_encoding(item@.meta),
{
    match item.meta_value("tx_encoding") {
        Some(OmiValue::Str(s)) => match parse_encoding(s.as_str()) {
            Ok(e) => e,
            Err(_) => DataEncoding::String,
        },
        _ => DataEncoding::String,
    }
}

/// Encode received bytes as an O-DF text value with the given encoding.
pub fn encode_rx_data(data: &[u8], encoding: DataEncoding) -> (r: OmiValue)
    ensures
        r@ == OmiValueView::Str(spec_encode(encoding, data@)),
{
    OmiValue::Str(encoding.encode(data))
}
} // verus!
