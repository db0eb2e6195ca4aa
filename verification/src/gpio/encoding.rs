//! Data encodings for peripheral protocol TX/RX data: UTF-8 text passthrough,
//! hexadecimal and base64.

use vstd::prelude::*;
use vstd::string::*;
use crate::odf::OmiValue;
use crate::text::{self, push_ascii, push_str, str_eq, write_decimal};

verus! {

/// Data encoding for peripheral protocol TX/RX data.
#[derive(Debug, Clone, Copy, PartialEq, Eq, Structural)]
pub enum DataEncoding {
    /// UTF-8 text (default).
    String,
    /// Hex-encoded binary data.
    Hex,
    /// Base64-encoded binary data.
    Base64,
}

/// Error from encoding/decoding operations, carrying a message.
#[derive(Debug, Clone, PartialEq, Eq)]
pub struct EncodingError(pub String);

// ---------------------------------------------------------------------------
// Names
// ---------------------------------------------------------------------------

/// The name of an encoding as it appears in metadata.
pub open spec fn encoding_name(e: DataEncoding) -> Seq<char> {
    match e {
        DataEncoding::String => "string"@,
        DataEncoding::Hex => "hex"@,
        DataEncoding::Base64 => "base64"@,
    }
}

/// The encoding whose name is `s`, if any.
pub open spec fn encoding_named(s: Seq<char>) -> Option<DataEncoding> {
    if s == "string"@ {
        Some(DataEncoding::String)
    } else if s == "hex"@ {
        Some(DataEncoding::Hex)
    } else if s == "base64"@ {
        Some(DataEncoding::Base64)
    } else {
        None
    }
}

/// Distinct names: the name of each encoding names that encoding.
pub proof fn lemma_encoding_name_roundtrip(e: DataEncoding)
    ensures
        encoding_named(encoding_name(e)) == Some(e),
{
    reveal_strlit("string");
    reveal_strlit("hex");
    reveal_strlit("base64");
    assert("string"@.len() == 6);
    assert("hex"@.len() == 3);
    assert("base64"@.len() == 6);
    assert("string"@[0] != "base64"@[0]);
}

impl DataEncoding {
    /// The encoding's name.
    pub fn as_str(&self) -> (r: &'static str)
        ensures
            r@ == encoding_name(*self),
    {
        match self {
            DataEncoding::String => "string",
            DataEncoding::Hex => "hex",
            DataEncoding::Base64 => "base64",
        }
    }

    /// The encoding's name as an owned string.
    pub fn to_string(&self) -> (r: String)
        ensures
            r@ == encoding_name(*self),
    {
        text::to_string(self.as_str())
    }

    /// Decode an encoded string into raw bytes.
    pub fn decode(&self, s: &str) -> (r: Result<Vec<u8>, EncodingError>)
        requires
            *self == DataEncoding::Hex ==> hex_decode_defined(s.spec_bytes()),
        ensures
            match r {
                Ok(v) => spec_decode(*self, s.spec_bytes()) == Ok::<Seq<u8>, Seq<char>>(v@),
                Err(e) => spec_decode(*self, s.spec_bytes()) == Err::<Seq<u8>, Seq<char>>(e.0@),
            },
    {
        match self {
            DataEncoding::String => Ok(s.as_bytes_vec()),
            DataEncoding::Hex => decode_hex(s),
            DataEncoding::Base64 => decode_base64(s),
        }
    }

    /// Encode raw bytes into a string.
    pub fn encode(&self, data: &[u8]) -> (r: String)
        ensures
            r@ == spec_encode(*self, data@),
            *self == DataEncoding::String && !vstd::utf8::valid_utf8(data@) ==> r@.contains('\u{FFFD}'),
    {
        match self {
            DataEncoding::String => utf8_lossy(data),
            DataEncoding::Hex => encode_hex(data),
            DataEncoding::Base64 => encode_base64(data),
        }
    }
}

/// Look up an encoding by name.
pub fn parse_encoding(s: &str) -> (r: Result<DataEncoding, EncodingError>)
    ensures
        match encoding_named(s@) {
            Some(e) => r == Ok::<DataEncoding, EncodingError>(e),
            None => r matches Err(err) && err.0@ == "unknown encoding: "@ + s@,
        },
{
    if str_eq(s, "string") {
        Ok(DataEncoding::String)
    } else if str_eq(s, "hex") {
        Ok(DataEncoding::Hex)
    } else if str_eq(s, "base64") {
        Ok(DataEncoding::Base64)
    } else {
        let mut m = String::new();
        push_str(&mut m, "unknown encoding: ");
        push_str(&mut m, s);
        proof {
            assert(Seq::<char>::empty() + "unknown encoding: "@ =~= "unknown encoding: "@);
        }
        Err(EncodingError(m))
    }
}

impl core::str::FromStr for DataEncoding {
    type Err = EncodingError;

    fn from_str(s: &str) -> (r: Result<Self, Self::Err>)
        ensures
            match encoding_named(s@) {
                Some(e) => r == Ok::<DataEncoding, EncodingError>(e),
                None => r matches Err(err) && err.0@ == "unknown encoding: "@ + s@,
            },
    {
        parse_encoding(s)
    }
}

/// What decoding `bytes` (the UTF-8 bytes of the input text) gives.
pub open spec fn spec_decode(e: DataEncoding, bytes: Seq<u8>) -> Result<Seq<u8>, Seq<char>> {
    match e {
        DataEncoding::String => Ok(bytes),
        DataEncoding::Hex => spec_decode_hex(bytes),
        DataEncoding::Base64 => spec_decode_base64(bytes),
    }
}

/// What encoding `data` gives.
pub open spec fn spec_encode(e: DataEncoding, data: Seq<u8>) -> Seq<char> {
    match e {
        DataEncoding::String => utf8_lossy_chars(data),
        DataEncoding::Hex => text::ascii_chars(spec_encode_hex(data)),
        DataEncoding::Base64 => text::ascii_chars(spec_encode_base64(data)),
    }
}

// ---------------------------------------------------------------------------
// UTF-8 passthrough
// ---------------------------------------------------------------------------

/// The characters that lossy UTF-8 decoding of `bytes` yields.
pub uninterp spec fn utf8_lossy_chars(bytes: Seq<u8>) -> Seq<char>;

/// Decodes bytes as UTF-8, replacing invalid sequences by U+FFFD.
///
/// Calls `String::from_utf8_lossy`; the contract states that the result is a
/// function of the bytes alone, and, as its documentation says, that valid
/// UTF-8 comes back unchanged and that invalid input gives a text holding
/// U+FFFD. Where exactly the replacement characters stand is not stated.
#[verifier::external_body]
pub(crate) fn utf8_lossy(data: &[u8]) -> (r: String)
    ensures
        r@ == utf8_lossy_chars(data@),
        vstd::utf8::valid_utf8(data@) ==> r@ == vstd::utf8::decode_utf8(data@),
        !vstd::utf8::valid_utf8(data@) ==> r@.contains('\u{FFFD}'),
{
    String::from_utf8_lossy(data).into_owned()
}

// ---------------------------------------------------------------------------
// Hex
// ---------------------------------------------------------------------------

/// `c` is an ASCII hexadecimal digit.
pub open spec fn is_hex_digit(c: u8) -> bool {
    (48 <= c <= 57) || (65 <= c <= 70) || (97 <= c <= 102)
}

/// The value of a hexadecimal digit.
pub open spec fn hex_val(c: u8) -> u8 {
    if 48 <= c <= 57 {
        (c - 48) as u8
    } else if 65 <= c <= 70 {
        (c - 55) as u8
    } else {
        (c - 87) as u8
    }
}

/// The two bytes at `i` read as one hexadecimal byte (a leading `+` sign is accepted).
pub open spec fn hex_pair_ok(b: Seq<u8>, i: int) -> bool {
    ||| is_hex_digit(b[i]) && is_hex_digit(b[i + 1])
    ||| b[i] == 43 && is_hex_digit(b[i + 1])
}

/// The value of the hexadecimal pair at `i`.
pub open spec fn hex_pair_val(b: Seq<u8>, i: int) -> u8 {
    if b[i] == 43 {
        hex_val(b[i + 1])
    } else {
        (hex_val(b[i]) * 16 + hex_val(b[i + 1])) as u8
    }
}

/// Decoding of the pairs from byte offset `i` (even) onwards.
pub open spec fn hex_decode_from(b: Seq<u8>, i: int) -> Result<Seq<u8>, int>
    decreases b.len() - i,
{
    if i < 0 || i + 2 > b.len() {
        Ok(Seq::empty())
    } else if !hex_pair_ok(b, i) {
        Err(i)
    } else {
        match hex_decode_from(b, i + 2) {
            Ok(rest) => Ok(seq![hex_pair_val(b, i)] + rest),
            Err(j) => Err(j),
        }
    }
}

/// What hex decoding of the bytes gives: the value of each pair, or a message
/// naming an odd length or the offset of the first pair that is not hexadecimal.
pub open spec fn spec_decode_hex(b: Seq<u8>) -> Result<Seq<u8>, Seq<char>> {
    if b.len() % 2 != 0 {
        Err("hex string must have even length"@)
    } else {
        match hex_decode_from(b, 0) {
            Ok(v) => Ok(v),
            Err(i) => Err("invalid hex at position "@ + text::ascii_chars(text::decimal_digits(i as nat))),
        }
    }
}

/// Hex decoding of the text is defined: the first pair that is not
/// hexadecimal, if any, ends on a character boundary of the text.
pub open spec fn hex_decode_defined(b: Seq<u8>) -> bool {
    b.len() % 2 == 0 ==> match hex_decode_from(b, 0) {
        Ok(_) => true,
        Err(i) => vstd::utf8::is_char_boundary(b, i + 2),
    }
}

fn is_hex_digit_exec(c: u8) -> (r: bool)
    ensures
        r == is_hex_digit(c),
{
    (48 <= c && c <= 57) || (65 <= c && c <= 70) || (97 <= c && c <= 102)
}

fn hex_val_exec(c: u8) -> (r: u8)
    requires
        is_hex_digit(c),
    ensures
        r == hex_val(c),
        r < 16,
{
    if 48 <= c && c <= 57 {
        c - 48
    } else if 65 <= c && c <= 70 {
        c - 55
    } else {
        c - 87
    }
}

/// Prepends decoded bytes to a decoding result.
spec fn hex_combine(p: Seq<u8>, r: Result<Seq<u8>, int>) -> Result<Seq<u8>, int> {
    match r {
        Ok(v) => Ok(p + v),
        Err(j) => Err(j),
    }
}

/// The offset of the first pair that is not hexadecimal, if any.
spec fn hex_error_at(r: Result<Seq<u8>, int>) -> Option<int> {
    match r {
        Ok(_) => None,
        Err(j) => Some(j),
    }
}

/// Whether hex decoding of `s` is defined (see [`hex_decode_defined`]): when
/// it is not, decoding would cut a character of `s` in two.
pub fn hex_decode_is_defined(s: &str) -> (r: bool)
    ensures
        r == hex_decode_defined(s.spec_bytes()),
{
    let b = s.as_bytes();
    let ghost bs = b@;
    if b.len() % 2 != 0 {
        return true;
    }
    let mut i: usize = 0;
    while i < b.len()
        invariant
            b@ == bs,
            bs == s.spec_bytes(),
            bs.len() % 2 == 0,
            i % 2 == 0,
            i <= bs.len(),
            hex_error_at(hex_decode_from(bs, 0)) == hex_error_at(hex_decode_from(bs, i as int)),
        decreases bs.len() - i,
    {
        if !((is_hex_digit_exec(b[i]) || b[i] == 43) && is_hex_digit_exec(b[i + 1])) {
            return s.is_char_boundary(i + 2);
        }
        i = i + 2;
    }
    true
}

fn decode_hex(s: &str) -> (r: Result<Vec<u8>, EncodingError>)
    requires
        hex_decode_defined(s.spec_bytes()),
    ensures
        match r {
            Ok(v) => spec_decode_hex(s.spec_bytes()) == Ok::<Seq<u8>, Seq<char>>(v@),
            Err(e) => spec_decode_hex(s.spec_bytes()) == Err::<Seq<u8>, Seq<char>>(e.0@),
        },
{
    let b = s.as_bytes();
    let ghost bs = b@;
    if b.len() % 2 != 0 {
        let mut m = String::new();
        push_str(&mut m, "hex string must have even length");
        proof {
            assert(Seq::<char>::empty() + "hex string must have even length"@
                =~= "hex string must have even length"@);
        }
        return Err(EncodingError(m));
    }
    let mut out: Vec<u8> = Vec::new();
    let mut i: usize = 0;
    proof {
        assert(hex_combine(out@, hex_decode_from(bs, 0)) =~= hex_decode_from(bs, 0)) by {
            match hex_decode_from(bs, 0) {
                Ok(v) => { assert(Seq::<u8>::empty() + v =~= v); },
                Err(j) => {},
            }
        }
    }
    while i < b.len()
        invariant
            b@ == bs,
            bs == s.spec_bytes(),
            bs.len() % 2 == 0,
            i % 2 == 0,
            i <= bs.len(),
            hex_decode_from(bs, 0) == hex_combine(out@, hex_decode_from(bs, i as int)),
        decreases bs.len() - i,
    {
        let c0 = b[i];
        let c1 = b[i + 1];
        let ok = (is_hex_digit_exec(c0) && is_hex_digit_exec(c1)) || (c0 == 43 && is_hex_digit_exec(c1));
        if !ok {
            let mut m = String::new();
            push_str(&mut m, "invalid hex at position ");
            let mut digits: Vec<u8> = Vec::new();
            write_decimal(&mut digits, i as u64);
            push_ascii(&mut m, digits.as_slice());
            proof {
                assert(Seq::<char>::empty() + "invalid hex at position "@ =~= "invalid hex at position "@);
                assert(Seq::<u8>::empty() + text::decimal_digits(i as nat) =~= text::decimal_digits(i as nat));
                assert(hex_decode_from(bs, i as int) == Err::<Seq<u8>, int>(i as int));
                assert(hex_decode_from(bs, 0) == Err::<Seq<u8>, int>(i as int));
                assert(spec_decode_hex(bs) == Err::<Seq<u8>, Seq<char>>(m@));
            }
            return Err(EncodingError(m));
        }
        let byte: u8 = if c0 == 43 {
            hex_val_exec(c1)
        } else {
            let hi = hex_val_exec(c0);
            let lo = hex_val_exec(c1);
            hi * 16 + lo
        };
        proof {
            assert(byte == hex_pair_val(bs, i as int));
            match hex_decode_from(bs, i + 2) {
                Ok(rest) => {
                    assert(hex_decode_from(bs, i as int) == Ok::<Seq<u8>, int>(seq![byte] + rest));
                    assert(out@.push(byte) + rest =~= out@ + (seq![byte] + rest));
                },
                Err(j) => {},
            }
        }
        out.push(byte);
        i = i + 2;
    }
    proof {
        assert(hex_decode_from(bs, i as int) == Ok::<Seq<u8>, int>(Seq::<u8>::empty()));
        assert(out@ + Seq::<u8>::empty() =~= out@);
    }
    Ok(out)
}

/// The lower-case hexadecimal digit of a value below 16.
pub open spec fn hex_digit_char(v: u8) -> u8 {
    if v < 10 {
        (48 + v) as u8
    } else {
        (87 + v) as u8
    }
}

/// Two lower-case hexadecimal digits per byte.
pub open spec fn spec_encode_hex(d: Seq<u8>) -> Seq<u8>
    decreases d.len(),
{
    if d.len() == 0 {
        Seq::empty()
    } else {
        spec_encode_hex(d.drop_last()) + seq![hex_digit_char(d.last() / 16), hex_digit_char(d.last() % 16)]
    }
}

fn hex_digit_exec(v: u8) -> (r: u8)
    requires
        v < 16,
    ensures
        r == hex_digit_char(v),
{
    if v < 10 {
        48 + v
    } else {
        87 + v
    }
}

fn encode_hex(data: &[u8]) -> (r: String)
    ensures
        r@ == text::ascii_chars(spec_encode_hex(data@)),
{
    let mut out: Vec<u8> = Vec::new();
    let mut i: usize = 0;
    while i < data.len()
        invariant
            i <= data@.len(),
            out@ == spec_encode_hex(data@.subrange(0, i as int)),
        decreases data@.len() - i,
    {
        let b = data[i];
        out.push(hex_digit_exec(b / 16));
        out.push(hex_digit_exec(b % 16));
        proof {
            assert(data@.subrange(0, i + 1).drop_last() =~= data@.subrange(0, i as int));
        }
        i = i + 1;
    }
    proof {
        assert(data@.subrange(0, data@.len() as int) =~= data@);
    }
    let mut s = String::new();
    push_ascii(&mut s, out.as_slice());
    proof {
        assert(Seq::<char>::empty() + text::ascii_chars(out@) =~= text::ascii_chars(out@));
    }
    s
}

// ---------------------------------------------------------------------------
// Base64
// ---------------------------------------------------------------------------

/// The base64 alphabet: the character for a 6-bit value.
pub open spec fn b64_char(v: u8) -> u8 {
    if v < 26 {
        (65 + v) as u8
    } else if v < 52 {
        (71 + v) as u8
    } else if v < 62 {
        (v - 4) as u8
    } else if v == 62 {
        43
    } else {
        47
    }
}

/// The 6-bit value of a base64 alphabet character.
pub open spec fn b64_val(c: u8) -> Option<u8> {
    if 65 <= c <= 90 {
        Some((c - 65) as u8)
    } else if 97 <= c <= 122 {
        Some((c - 71) as u8)
    } else if 48 <= c <= 57 {
        Some((c + 4) as u8)
    } else if c == 43 {
        Some(62)
    } else if c == 47 {
        Some(63)
    } else {
        None
    }
}

/// Whitespace that base64 decoding skips (`\n`, `\r`, space).
pub open spec fn b64_skip(c: u8) -> bool {
    c == 10 || c == 13 || c == 32
}

/// The bytes without trailing `=` padding.
pub open spec fn trim_padding(b: Seq<u8>) -> Seq<u8>
    decreases b.len(),
{
    if b.len() > 0 && b.last() == 61 {
        trim_padding(b.drop_last())
    } else {
        b
    }
}

/// The 6-bit values of the characters, skipping whitespace, or the first
/// character that belongs neither to the alphabet nor to the skipped whitespace.
pub open spec fn b64_values(t: Seq<u8>) -> Result<Seq<u8>, u8>
    decreases t.len(),
{
    if t.len() == 0 {
        Ok(Seq::empty())
    } else {
        match b64_values(t.drop_last()) {
            Err(c) => Err(c),
            Ok(vs) => {
                let c = t.last();
                if b64_skip(c) {
                    Ok(vs)
                } else {
                    match b64_val(c) {
                        Some(v) => Ok(vs.push(v)),
                        None => Err(c),
                    }
                }
            },
        }
    }
}

/// The byte, if any, that the `k`-th 6-bit value completes.
pub open spec fn b64_byte_at(v: Seq<u8>, k: int) -> Seq<u8> {
    if k % 4 == 0 {
        Seq::empty()
    } else if k % 4 == 1 {
        seq![(((v[k - 1] as int) * 4 + (v[k] as int) / 16) % 256) as u8]
    } else if k % 4 == 2 {
        seq![((((v[k - 1] as int) % 16) * 16 + (v[k] as int) / 4) % 256) as u8]
    } else {
        seq![((((v[k - 1] as int) % 4) * 64 + (v[k] as int)) % 256) as u8]
    }
}

/// The bytes that a sequence of 6-bit values packs into (leftover bits dropped).
pub open spec fn b64_pack(v: Seq<u8>) -> Seq<u8>
    decreases v.len(),
{
    if v.len() == 0 {
        Seq::empty()
    } else {
        b64_pack(v.drop_last()) + b64_byte_at(v, v.len() - 1)
    }
}

/// What base64 decoding of the bytes gives.
pub open spec fn spec_decode_base64(b: Seq<u8>) -> Result<Seq<u8>, Seq<char>> {
    match b64_values(trim_padding(b)) {
        Ok(vs) => Ok(b64_pack(vs)),
        Err(c) => Err("invalid base64 character: "@ + seq![c as char]),
    }
}

fn b64_val_exec(c: u8) -> (r: Option<u8>)
    ensures
        r == b64_val(c),
        r matches Some(v) ==> v < 64,
{
    if 65 <= c && c <= 90 {
        Some(c - 65)
    } else if 97 <= c && c <= 122 {
        Some(c - 71)
    } else if 48 <= c && c <= 57 {
        Some(c + 4)
    } else if c == 43 {
        Some(62)
    } else if c == 47 {
        Some(63)
    } else {
        None
    }
}

proof fn lemma_b64_values_bounded(t: Seq<u8>)
    ensures
        b64_values(t) matches Ok(vs) ==> forall|i: int| 0 <= i < vs.len() ==> vs[i] < 64,
    decreases t.len(),
{
    if t.len() > 0 {
        lemma_b64_values_bounded(t.drop_last());
    }
}

/// The accumulator state after `k` values: the pending bits and their count.
spec fn acc_state(vs: Seq<u8>, buf: u32, bits: u32) -> bool {
    let k = vs.len() as int;
    if k % 4 == 0 {
        buf == 0 && bits == 0
    } else if k % 4 == 1 {
        buf == vs[k - 1] as u32 && bits == 6
    } else if k % 4 == 2 {
        buf == (vs[k - 1] % 16) as u32 && bits == 4
    } else {
        buf == (vs[k - 1] % 4) as u32 && bits == 2
    }
}

proof fn lemma_acc_bits(a: u32, v: u32)
    requires
        a < 64,
        v < 64,
    ensures
        (((a << 6) | v) >> 4) as u8 == (((a as int) * 4 + (v as int) / 16) % 256) as u8,
        ((a << 6) | v) & 15 == v % 16,
        ((((a % 16) << 6) | v) >> 2) as u8 == ((((a as int) % 16) * 16 + (v as int) / 4) % 256) as u8,
        (((a % 16) << 6) | v) & 3 == v % 4,
        (((a % 4) << 6) | v) as u8 == ((((a as int) % 4) * 64 + (v as int)) % 256) as u8,
{
    assert((((a << 6) | v) >> 4) as u8 == (((a as int) * 4 + (v as int) / 16) % 256) as u8) by (bit_vector)
        requires a < 64, v < 64;
    assert(((a << 6) | v) & 15 == v % 16) by (bit_vector)
        requires a < 64, v < 64;
    assert(((((a % 16) << 6) | v) >> 2) as u8 == ((((a as int) % 16) * 16 + (v as int) / 4) % 256) as u8) by (bit_vector)
        requires a < 64, v < 64;
    assert((((a % 16) << 6) | v) & 3 == v % 4) by (bit_vector)
        requires a < 64, v < 64;
    assert((((a % 4) << 6) | v) as u8 == ((((a as int) % 4) * 64 + (v as int)) % 256) as u8) by (bit_vector)
        requires a < 64, v < 64;
}

fn decode_base64(s: &str) -> (r: Result<Vec<u8>, EncodingError>)
    ensures
        match r {
            Ok(v) => spec_decode_base64(s.spec_bytes()) == Ok::<Seq<u8>, Seq<char>>(v@),
            Err(e) => spec_decode_base64(s.spec_bytes()) == Err::<Seq<u8>, Seq<char>>(e.0@),
        },
{
    let b = s.as_bytes();
    let ghost bs = b@;
    let mut n: usize = b.len();
    proof {
        assert(bs.subrange(0, n as int) =~= bs);
    }
    while n > 0 && b[n - 1] == 61
        invariant
            n <= bs.len(),
            b@ == bs,
            trim_padding(bs.subrange(0, n as int)) == trim_padding(bs),
        decreases n,
    {
        proof {
            assert(bs.subrange(0, n as int).drop_last() =~= bs.subrange(0, n - 1));
        }
        n = n - 1;
    }
    let ghost t = bs.subrange(0, n as int);
    assert(trim_padding(t) == t);
    let mut out: Vec<u8> = Vec::new();
    let mut buf: u32 = 0;
    let mut bits: u32 = 0;
    let ghost mut vs: Seq<u8> = Seq::empty();
    let mut i: usize = 0;
    while i < n
        invariant
            n <= bs.len(),
            b@ == bs,
            bs == s.spec_bytes(),
            trim_padding(bs) == t,
            t == bs.subrange(0, n as int),
            i <= n,
            b64_values(t.subrange(0, i as int)) == Ok::<Seq<u8>, u8>(vs),
            forall|j: int| 0 <= j < vs.len() ==> vs[j] < 64,
            out@ == b64_pack(vs),
            acc_state(vs, buf, bits),
        decreases n - i,
    {
        let c = b[i];
        proof {
            assert(t.subrange(0, i + 1).drop_last() =~= t.subrange(0, i as int));
            assert(t.subrange(0, i + 1).last() == c);
        }
        if c == 10 || c == 13 || c == 32 {
            i = i + 1;
            continue;
        }
        let val = match b64_val_exec(c) {
            Some(v) => v,
            None => {
                let mut m = String::new();
                push_str(&mut m, "invalid base64 character: ");
                text::push_char(&mut m, c as char);
                proof {
                    assert(b64_values(t.subrange(0, i + 1)) == Err::<Seq<u8>, u8>(c));
                    lemma_b64_values_prefix_err(t, i + 1);
                    assert(m@ =~= "invalid base64 character: "@ + seq![c as char]);
                }
                return Err(EncodingError(m));
            },
        };
        let ghost old_vs = vs;
        proof {
            vs = vs.push(val);
            assert(vs.drop_last() =~= old_vs);
        }
        let ghost a: u32 = if old_vs.len() > 0 { old_vs[old_vs.len() - 1] as u32 } else { 0 };
        let v32 = val as u32;
        proof {
            lemma_acc_bits(a, v32);
            if bits == 0 {
                assert((buf << 6u32) | v32 == v32) by (bit_vector)
                    requires buf == 0u32, v32 < 64u32;
            }
        }
        buf = (buf << 6) | v32;
        bits = bits + 6;
        if bits >= 8 {
            bits = bits - 8;
            assert(bits < 32);
            let byte = #[verifier::truncate] ((buf >> bits) as u8);
            out.push(byte);
            proof {
                if bits == 0 {
                    assert(buf >> 0u32 == buf) by (bit_vector);
                }
                assert(bits == 4u32 || bits == 2u32 || bits == 0u32);
                assert((1u32 << 4u32) - 1 == 15u32) by (bit_vector);
                assert((1u32 << 2u32) - 1 == 3u32) by (bit_vector);
                assert((1u32 << 0u32) - 1 == 0u32) by (bit_vector);
                assert(1u32 << 4u32 >= 1u32) by (bit_vector);
                assert(1u32 << 2u32 >= 1u32) by (bit_vector);
                assert(1u32 << 0u32 >= 1u32) by (bit_vector);
            }
            let mask: u32 = (1u32 << bits) - 1;
            let ghost pre = buf;
            buf = buf & mask;
            proof {
                if bits == 0 {
                    assert(pre & 0u32 == 0u32) by (bit_vector);
                }
                assert(out@ =~= b64_pack(old_vs) + b64_byte_at(vs, vs.len() - 1));
            }
        } else {
            proof {
                assert(b64_byte_at(vs, vs.len() - 1) =~= Seq::<u8>::empty());
                assert(out@ =~= b64_pack(old_vs) + b64_byte_at(vs, vs.len() - 1));
            }
        }
        proof {
            lemma_b64_values_bounded(t.subrange(0, i + 1));
        }
        i = i + 1;
    }
    proof {
        assert(t.subrange(0, n as int) =~= t);
    }
    Ok(out)
}

proof fn lemma_b64_values_prefix_err(t: Seq<u8>, i: int)
    requires
        0 <= i <= t.len(),
        b64_values(t.subrange(0, i)) is Err,
    ensures
        b64_values(t) == b64_values(t.subrange(0, i)),
    decreases t.len() - i,
{
    if i < t.len() {
        assert(t.subrange(0, i + 1).drop_last() =~= t.subrange(0, i));
        lemma_b64_values_prefix_err(t, i + 1);
    } else {
        assert(t.subrange(0, i) =~= t);
    }
}

/// The base64 characters (with `=` padding) for one chunk of one to three bytes.
pub open spec fn b64_chunk(c: Seq<u8>) -> Seq<u8> {
    let b0 = c[0];
    let b1: u8 = if c.len() > 1 { c[1] } else { 0 };
    let b2: u8 = if c.len() > 2 { c[2] } else { 0 };
    let s0 = b0 / 4;
    let s1 = ((b0 % 4) * 16 + b1 / 16) as u8;
    let s2 = ((b1 % 16) * 4 + b2 / 64) as u8;
    let s3 = b2 % 64;
    seq![
        b64_char(s0),
        b64_char(s1),
        if c.len() > 1 { b64_char(s2) } else { 61u8 },
        if c.len() > 2 { b64_char(s3) } else { 61u8 },
    ]
}

/// Base64 encoding: each chunk of three bytes (the last may be shorter) as
/// four characters.
pub open spec fn spec_encode_base64(d: Seq<u8>) -> Seq<u8>
    decreases d.len(),
{
    if d.len() == 0 {
        Seq::empty()
    } else if d.len() <= 3 {
        b64_chunk(d)
    } else {
        b64_chunk(d.take(3)) + spec_encode_base64(d.skip(3))
    }
}

fn b64_char_exec(v: u8) -> (r: u8)
    requires
        v < 64,
    ensures
        r == b64_char(v),
{
    if v < 26 {
        65 + v
    } else if v < 52 {
        71 + v
    } else if v < 62 {
        v - 4
    } else if v == 62 {
        43
    } else {
        47
    }
}

proof fn lemma_encode_base64_short(d: Seq<u8>)
    requires
        d.len() <= 3,
    ensures
        d.len() == 0 ==> spec_encode_base64(d) == Seq::<u8>::empty(),
        d.len() > 0 ==> spec_encode_base64(d) == b64_chunk(d),
{
}

proof fn lemma_encode_base64_split(d: Seq<u8>, i: int)
    requires
        0 <= i <= d.len(),
        i % 3 == 0,
    ensures
        spec_encode_base64(d) == spec_encode_base64(d.take(i)) + spec_encode_base64(d.skip(i)),
    decreases i,
{
    if i == 0 {
        assert(d.take(0) =~= Seq::<u8>::empty());
        assert(d.skip(0) =~= d);
        assert(spec_encode_base64(d.take(0)) == Seq::<u8>::empty());
        assert(spec_encode_base64(d) =~= Seq::<u8>::empty() + spec_encode_base64(d));
    } else {
        let r = d.skip(3);
        lemma_encode_base64_split(r, i - 3);
        assert(r.take(i - 3) =~= d.take(i).skip(3));
        assert(r.skip(i - 3) =~= d.skip(i));
        assert(d.take(i).take(3) =~= d.take(3));
        if d.len() == 3 {
            assert(d.take(3) =~= d);
            assert(d.take(i) =~= d);
            assert(r.len() == 0);
            assert(d.skip(i).len() == 0);
            lemma_encode_base64_short(d.skip(i));
            assert(spec_encode_base64(d) =~= spec_encode_base64(d.take(i)) + Seq::<u8>::empty());
        } else if i == 3 {
            assert(d.take(i).len() == 3);
            lemma_encode_base64_short(d.take(i));
            assert(r.take(0) =~= Seq::<u8>::empty());
            assert(spec_encode_base64(r.take(0)) == Seq::<u8>::empty());
            assert(spec_encode_base64(d) == b64_chunk(d.take(3)) + spec_encode_base64(r));
            assert(spec_encode_base64(r) =~= Seq::<u8>::empty() + spec_encode_base64(r.skip(0)));
            assert(r.skip(0) =~= r);
        } else {
            assert(spec_encode_base64(d) == b64_chunk(d.take(3)) + spec_encode_base64(r));
            assert(spec_encode_base64(d.take(i)) == b64_chunk(d.take(i).take(3))
                + spec_encode_base64(d.take(i).skip(3)));
            assert(spec_encode_base64(d) =~= spec_encode_base64(d.take(i)) + spec_encode_base64(d.skip(i)));
        }
    }
}

fn encode_base64(data: &[u8]) -> (r: String)
    ensures
        r@ == text::ascii_chars(spec_encode_base64(data@)),
{
    let mut out: Vec<u8> = Vec::new();
    let mut i: usize = 0;
    while data.len() - i >= 3
        invariant
            i <= data@.len(),
            i % 3 == 0,
            out@ == spec_encode_base64(data@.take(i as int)),
        decreases data@.len() - i,
    {
        let b0 = data[i];
        let b1 = data[i + 1];
        let b2 = data[i + 2];
        out.push(b64_char_exec(b0 / 4));
        out.push(b64_char_exec((b0 % 4) * 16 + b1 / 16));
        out.push(b64_char_exec((b1 % 16) * 4 + b2 / 64));
        out.push(b64_char_exec(b2 % 64));
        proof {
            let d2 = data@.take(i + 3);
            lemma_encode_base64_split(d2, i as int);
            assert(d2.take(i as int) =~= data@.take(i as int));
            let c = d2.skip(i as int);
            assert(c =~= seq![b0, b1, b2]);
            lemma_encode_base64_short(c);
            assert(out@ =~= spec_encode_base64(d2));
        }
        i = i + 3;
    }
    let rest = data.len() - i;
    if rest > 0 {
        let b0 = data[i];
        let b1: u8 = if rest > 1 { data[i + 1] } else { 0 };
        out.push(b64_char_exec(b0 / 4));
        out.push(b64_char_exec((b0 % 4) * 16 + b1 / 16));
        if rest > 1 {
            out.push(b64_char_exec((b1 % 16) * 4));
        } else {
            out.push(61);
        }
        out.push(61);
        proof {
            let c = data@.skip(i as int);
            lemma_encode_base64_short(c);
            assert(c.len() == rest);
            assert(c[0] == b0);
            assert(rest > 1 ==> c[1] == b1);
        }
    }
    proof {
        lemma_encode_base64_split(data@, i as int);
        assert(data@.skip(i as int).len() == 0 ==> spec_encode_base64(data@.skip(i as int)) == Seq::<u8>::empty());
        assert(out@ =~= spec_encode_base64(data@));
    }
    let mut s = String::new();
    push_ascii(&mut s, out.as_slice());
    proof {
        assert(Seq::<char>::empty() + text::ascii_chars(out@) =~= text::ascii_chars(out@));
    }
    s
}

// ---------------------------------------------------------------------------
// Round trips
// ---------------------------------------------------------------------------

proof fn lemma_encode_hex_shape(d: Seq<u8>)
    ensures
        spec_encode_hex(d).len() == 2 * d.len(),
        forall|k: int| 0 <= k < d.len() ==> spec_encode_hex(d)[2 * k] == hex_digit_char(#[trigger] d[k] / 16)
            && spec_encode_hex(d)[2 * k + 1] == hex_digit_char(d[k] % 16),
    decreases d.len(),
{
    if d.len() > 0 {
        lemma_encode_hex_shape(d.drop_last());
        assert forall|k: int| 0 <= k < d.len() implies spec_encode_hex(d)[2 * k] == hex_digit_char(
            #[trigger] d[k] / 16,
        ) && spec_encode_hex(d)[2 * k + 1] == hex_digit_char(d[k] % 16) by {
            if k < d.len() - 1 {
                assert(d.drop_last()[k] == d[k]);
            }
        }
    }
}

proof fn lemma_hex_digit_char(v: u8)
    requires
        v < 16,
    ensures
        is_hex_digit(hex_digit_char(v)),
        hex_val(hex_digit_char(v)) == v,
        hex_digit_char(v) < 128,
        hex_digit_char(v) != 43,
{
}

proof fn lemma_hex_decode_encoded(d: Seq<u8>, k: int)
    requires
        0 <= k <= d.len(),
    ensures
        hex_decode_from(spec_encode_hex(d), 2 * k) == Ok::<Seq<u8>, int>(d.skip(k)),
    decreases d.len() - k,
{
    let b = spec_encode_hex(d);
    lemma_encode_hex_shape(d);
    if k == d.len() {
        assert(d.skip(k) =~= Seq::<u8>::empty());
    } else {
        lemma_hex_decode_encoded(d, k + 1);
        let x = d[k];
        lemma_hex_digit_char(x / 16);
        lemma_hex_digit_char(x % 16);
        assert(b[2 * k] == hex_digit_char(x / 16));
        assert(hex_pair_ok(b, 2 * k));
        assert(hex_pair_val(b, 2 * k) == x);
        assert(2 * k + 2 == 2 * (k + 1));
        assert(seq![x] + d.skip(k + 1) =~= d.skip(k));
    }
}

/// The characters of hex-encoded data are ASCII.
proof fn lemma_encode_hex_ascii(d: Seq<u8>)
    ensures
        forall|i: int| 0 <= i < spec_encode_hex(d).len() ==> spec_encode_hex(d)[i] < 128,
{
    lemma_encode_hex_shape(d);
    assert forall|i: int| 0 <= i < spec_encode_hex(d).len() implies spec_encode_hex(d)[i] < 128 by {
        let k = i / 2;
        lemma_hex_digit_char(d[k] / 16);
        lemma_hex_digit_char(d[k] % 16);
        if i % 2 == 0 {
            assert(i == 2 * k);
        } else {
            assert(i == 2 * k + 1);
        }
    }
}

/// The 6-bit values of one chunk of one to three bytes.
pub open spec fn b64_chunk_values(c: Seq<u8>) -> Seq<u8> {
    let b0 = c[0];
    let b1: u8 = if c.len() > 1 { c[1] } else { 0 };
    let b2: u8 = if c.len() > 2 { c[2] } else { 0 };
    let s0 = b0 / 4;
    let s1 = ((b0 % 4) * 16 + b1 / 16) as u8;
    let s2 = ((b1 % 16) * 4 + b2 / 64) as u8;
    let s3 = b2 % 64;
    if c.len() == 1 {
        seq![s0, s1]
    } else if c.len() == 2 {
        seq![s0, s1, s2]
    } else {
        seq![s0, s1, s2, s3]
    }
}

/// The 6-bit values that base64 encoding of `d` writes, chunk by chunk.
pub open spec fn b64_sextets(d: Seq<u8>) -> Seq<u8>
    decreases d.len(),
{
    if d.len() == 0 {
        Seq::empty()
    } else if d.len() <= 3 {
        b64_chunk_values(d)
    } else {
        b64_chunk_values(d.take(3)) + b64_sextets(d.skip(3))
    }
}

/// The number of `=` characters that pad the encoding of `n` bytes.
pub open spec fn b64_pad(n: nat) -> nat {
    if n % 3 == 1 {
        2
    } else if n % 3 == 2 {
        1
    } else {
        0
    }
}

spec fn b64_map(v: Seq<u8>) -> Seq<u8> {
    v.map_values(|x: u8| b64_char(x))
}

spec fn eqs(n: nat) -> Seq<u8> {
    Seq::new(n, |i: int| 61u8)
}

proof fn lemma_b64_char(x: u8)
    requires
        x < 64,
    ensures
        b64_val(b64_char(x)) == Some(x),
        !b64_skip(b64_char(x)),
        b64_char(x) != 61,
        b64_char(x) < 128,
{
}

proof fn lemma_chunk_values_bound(c: Seq<u8>)
    requires
        1 <= c.len() <= 3,
    ensures
        forall|i: int| 0 <= i < b64_chunk_values(c).len() ==> b64_chunk_values(c)[i] < 64,
        b64_chunk_values(c).len() == c.len() + 1,
{
    let b0 = c[0];
    let b1: u8 = if c.len() > 1 { c[1] } else { 0 };
    let b2: u8 = if c.len() > 2 { c[2] } else { 0 };
    assert(((b0 % 4) * 16 + b1 / 16) < 64);
    assert(((b1 % 16) * 4 + b2 / 64) < 64);
}

proof fn lemma_sextets_bound(d: Seq<u8>)
    ensures
        forall|i: int| 0 <= i < b64_sextets(d).len() ==> b64_sextets(d)[i] < 64,
    decreases d.len(),
{
    if d.len() > 3 {
        lemma_chunk_values_bound(d.take(3));
        lemma_sextets_bound(d.skip(3));
        let a = b64_chunk_values(d.take(3));
        let b = b64_sextets(d.skip(3));
        assert forall|i: int| 0 <= i < (a + b).len() implies (a + b)[i] < 64 by {
            if i >= a.len() {
                assert((a + b)[i] == b[i - a.len()]);
            }
        }
    } else if d.len() > 0 {
        lemma_chunk_values_bound(d);
    }
}

proof fn lemma_b64_chunk_form(c: Seq<u8>)
    requires
        1 <= c.len() <= 3,
    ensures
        b64_chunk(c) == b64_map(b64_chunk_values(c)) + eqs(b64_pad(c.len())),
{
    lemma_chunk_values_bound(c);
    assert(b64_chunk(c) =~= b64_map(b64_chunk_values(c)) + eqs(b64_pad(c.len())));
}

proof fn lemma_encode_base64_form(d: Seq<u8>)
    ensures
        spec_encode_base64(d) == b64_map(b64_sextets(d)) + eqs(b64_pad(d.len())),
    decreases d.len(),
{
    if d.len() == 0 {
        assert(b64_map(Seq::<u8>::empty()) + eqs(0) =~= Seq::<u8>::empty());
    } else if d.len() <= 3 {
        lemma_b64_chunk_form(d);
    } else {
        lemma_encode_base64_form(d.skip(3));
        lemma_b64_chunk_form(d.take(3));
        assert(b64_pad(3) == 0);
        assert(b64_pad(d.skip(3).len()) == b64_pad(d.len()));
        let a = b64_chunk_values(d.take(3));
        let b = b64_sextets(d.skip(3));
        assert(b64_map(a + b) =~= b64_map(a) + b64_map(b));
        assert(eqs(0) =~= Seq::<u8>::empty());
        assert(spec_encode_base64(d) =~= b64_map(b64_sextets(d)) + eqs(b64_pad(d.len())));
    }
}

proof fn lemma_trim_padding_eqs(x: Seq<u8>, n: nat)
    requires
        x.len() == 0 || x.last() != 61,
    ensures
        trim_padding(x + eqs(n)) == x,
    decreases n,
{
    if n == 0 {
        assert(x + eqs(0) =~= x);
    } else {
        assert((x + eqs(n)).drop_last() =~= x + eqs((n - 1) as nat));
        lemma_trim_padding_eqs(x, (n - 1) as nat);
    }
}

proof fn lemma_b64_values_mapped(v: Seq<u8>)
    requires
        forall|i: int| 0 <= i < v.len() ==> v[i] < 64,
    ensures
        b64_values(b64_map(v)) == Ok::<Seq<u8>, u8>(v),
    decreases v.len(),
{
    if v.len() > 0 {
        lemma_b64_values_mapped(v.drop_last());
        assert(b64_map(v).drop_last() =~= b64_map(v.drop_last()));
        lemma_b64_char(v.last());
        assert(b64_map(v).len() > 0);
        assert(b64_map(v).last() == b64_char(v.last()));
        assert(v.drop_last().push(v.last()) =~= v);
        let t = b64_map(v);
        assert(b64_values(t.drop_last()) == Ok::<Seq<u8>, u8>(v.drop_last()));
        assert(b64_values(t) == Ok::<Seq<u8>, u8>(v.drop_last().push(v.last())));
    } else {
        assert(b64_map(v) =~= Seq::<u8>::empty());
        assert(v =~= Seq::<u8>::empty());
    }
}

proof fn lemma_b64_pack_concat(a: Seq<u8>, b: Seq<u8>)
    requires
        a.len() % 4 == 0,
    ensures
        b64_pack(a + b) == b64_pack(a) + b64_pack(b),
    decreases b.len(),
{
    if b.len() == 0 {
        assert(a + b =~= a);
        assert(b64_pack(a) + b64_pack(b) =~= b64_pack(a));
    } else {
        lemma_b64_pack_concat(a, b.drop_last());
        assert((a + b).drop_last() =~= a + b.drop_last());
        let k = b.len() - 1;
        let n = a.len() as int;
        assert((a + b)[n + k] == b[k]);
        if k % 4 != 0 {
            assert((a + b)[n + k - 1] == b[k - 1]);
        }
        assert((n + k) % 4 == k % 4) by (nonlinear_arith)
            requires n % 4 == 0, n >= 0, k >= 0;
        assert(b64_byte_at(a + b, n + k) =~= b64_byte_at(b, k));
        assert(b64_pack(a + b) =~= b64_pack(a) + b64_pack(b));
    }
}

proof fn lemma_b64_pack_chunk(c: Seq<u8>)
    requires
        1 <= c.len() <= 3,
    ensures
        b64_pack(b64_chunk_values(c)) == c,
{
    let v = b64_chunk_values(c);
    let b0 = c[0];
    let b1: u8 = if c.len() > 1 { c[1] } else { 0 };
    let b2: u8 = if c.len() > 2 { c[2] } else { 0 };
    let s0 = (b0 / 4) as int;
    let s1 = ((b0 % 4) * 16 + b1 / 16) as int;
    let s2 = ((b1 % 16) * 4 + b2 / 64) as int;
    let s3 = (b2 % 64) as int;
    assert((s0 * 4 + s1 / 16) % 256 == b0 as int) by (nonlinear_arith)
        requires s0 == (b0 as int) / 4, s1 == ((b0 as int) % 4) * 16 + (b1 as int) / 16, 0 <= b0 < 256, 0 <= b1 < 256;
    assert(((s1 % 16) * 16 + s2 / 4) % 256 == b1 as int) by (nonlinear_arith)
        requires s1 == ((b0 as int) % 4) * 16 + (b1 as int) / 16, s2 == ((b1 as int) % 16) * 4 + (b2 as int) / 64,
            0 <= b0 < 256, 0 <= b1 < 256, 0 <= b2 < 256;
    assert(((s2 % 4) * 64 + s3) % 256 == b2 as int) by (nonlinear_arith)
        requires s2 == ((b1 as int) % 16) * 4 + (b2 as int) / 64, s3 == (b2 as int) % 64, 0 <= b1 < 256, 0 <= b2 < 256;
    let p1 = v.take(1);
    let p2 = v.take(2);
    assert(p1.drop_last() =~= Seq::<u8>::empty());
    assert(p1.len() == 1);
    assert(b64_pack(Seq::<u8>::empty()) == Seq::<u8>::empty());
    assert(b64_byte_at(p1, 0) =~= Seq::<u8>::empty());
    assert(p2.drop_last() =~= p1);
    assert(b64_pack(p1) =~= Seq::<u8>::empty());
    assert(b64_pack(p2) =~= seq![b0]);
    if c.len() == 1 {
        assert(v =~= p2);
        assert(c =~= seq![b0]);
    } else {
        let p3 = v.take(3);
        assert(p3.drop_last() =~= p2);
        assert(b64_pack(p3) =~= seq![b0, b1]);
        if c.len() == 2 {
            assert(v =~= p3);
            assert(c =~= seq![b0, b1]);
        } else {
            assert(v.drop_last() =~= p3);
            assert(b64_pack(v) =~= seq![b0, b1, b2]);
            assert(c =~= seq![b0, b1, b2]);
        }
    }
}

proof fn lemma_b64_pack_sextets(d: Seq<u8>)
    ensures
        b64_pack(b64_sextets(d)) == d,
    decreases d.len(),
{
    if d.len() == 0 {
        assert(b64_pack(Seq::<u8>::empty()) =~= d);
    } else if d.len() <= 3 {
        lemma_b64_pack_chunk(d);
    } else {
        lemma_chunk_values_bound(d.take(3));
        lemma_b64_pack_concat(b64_chunk_values(d.take(3)), b64_sextets(d.skip(3)));
        lemma_b64_pack_chunk(d.take(3));
        lemma_b64_pack_sextets(d.skip(3));
        assert(d.take(3) + d.skip(3) =~= d);
    }
}

proof fn lemma_b64_ascii(d: Seq<u8>)
    ensures
        forall|i: int| 0 <= i < spec_encode_base64(d).len() ==> spec_encode_base64(d)[i] < 128,
{
    lemma_encode_base64_form(d);
    lemma_sextets_bound(d);
    let v = b64_sextets(d);
    let m = b64_map(v);
    assert forall|i: int| 0 <= i < spec_encode_base64(d).len() implies spec_encode_base64(d)[i] < 128 by {
        if i < m.len() {
            lemma_b64_char(v[i]);
            assert(spec_encode_base64(d)[i] == m[i]);
        } else {
            assert(spec_encode_base64(d)[i] == eqs(b64_pad(d.len()))[i - m.len()]);
        }
    }
}

/// Decoding what hex or base64 encoding produced gives the original bytes
/// back (the text is taken by its UTF-8 bytes, as `decode` reads it), and hex
/// decoding of such text is defined.
pub proof fn lemma_encode_decode_roundtrip(e: DataEncoding, data: Seq<u8>)
    requires
        e != DataEncoding::String,
    ensures
        spec_decode(e, vstd::utf8::encode_utf8(spec_encode(e, data))) == Ok::<Seq<u8>, Seq<char>>(data),
        e == DataEncoding::Hex ==> hex_decode_defined(vstd::utf8::encode_utf8(spec_encode(e, data))),
{
    if e == DataEncoding::Hex {
        let b = spec_encode_hex(data);
        lemma_encode_hex_ascii(data);
        text::lemma_ascii_chars_utf8(b);
        lemma_encode_hex_shape(data);
        lemma_hex_decode_encoded(data, 0);
        assert(data.skip(0) =~= data);
    } else {
        let b = spec_encode_base64(data);
        lemma_b64_ascii(data);
        text::lemma_ascii_chars_utf8(b);
        lemma_encode_base64_form(data);
        lemma_sextets_bound(data);
        let v = b64_sextets(data);
        let m = b64_map(v);
        if v.len() > 0 {
            lemma_b64_char(v.last());
            assert(m.last() == b64_char(v.last()));
        }
        lemma_trim_padding_eqs(m, b64_pad(data.len()));
        lemma_b64_values_mapped(v);
        lemma_b64_pack_sextets(data);
    }
}

/// The bytes that a TX value stands for, where it holds no number: a
/// boolean is `1` or `0`, null is nothing, and text is decoded with
/// `encoding`. A number (sent as its shortest round-trip decimal text) gives
/// `None`.
pub fn tx_bytes(v: &OmiValue, encoding: DataEncoding) -> (r: Option<Result<Vec<u8>, EncodingError>>)
    requires
        encoding == DataEncoding::Hex ==> (v matches OmiValue::Str(s) ==> hex_decode_defined(
            vstd::utf8::encode_utf8(s@),
        )),
    ensures
        match *v {
            OmiValue::Bool(b) => r matches Some(Ok(x)) && x@ == (if b {
                seq![49u8]
            } else {
                seq![48u8]
            }),
            OmiValue::Null => r matches Some(Ok(x)) && x@.len() == 0,
            OmiValue::Str(s) => r matches Some(res) && match res {
                Ok(x) => spec_decode(encoding, vstd::utf8::encode_utf8(s@)) == Ok::<Seq<u8>, Seq<char>>(x@),
                Err(e) => spec_decode(encoding, vstd::utf8::encode_utf8(s@)) == Err::<Seq<u8>, Seq<char>>(
                    e.0@,
                ),
            },
            OmiValue::Number(_) => r is None,
        },
{
    match v {
        OmiValue::Bool(b) => {
            let mut out: Vec<u8> = Vec::new();
            if *b {
                out.push(49u8);
            } else {
                out.push(48u8);
            }
            proof {
                assert(out@ =~= (if *b {
                    seq![49u8]
                } else {
                    seq![48u8]
                }));
            }
            Some(Ok(out))
        },
        OmiValue::Null => Some(Ok(Vec::new())),
        OmiValue::Str(s) => Some(encoding.decode(s.as_str())),
        OmiValue::Number(_) => None,
    }
}

} // verus!
