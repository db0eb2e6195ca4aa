//! The writer's string escaping is exactly undone by the lexer.

use vstd::prelude::*;
use vstd::utf8::{
    decode_first_scalar, decode_utf8, encode_utf8, encode_utf8_decode_utf8, encode_utf8_valid_utf8,
    is_leading_byte_width_1, length_of_first_scalar, pop_first_scalar, take_first_scalar,
    valid_first_scalar, valid_utf8,
};
use super::lexer::{escape_at, hex4_at, hex_val, is_json_ws, prepend, scan_at, string_rest, utf8_len, ws_end, TokenView};
use super::serializer::{escape_byte, escape_bytes, hex_digit, quoted};

verus! {

/// Escaping a concatenation escapes each part.
pub proof fn lemma_escape_bytes_concat(a: Seq<u8>, b: Seq<u8>)
    ensures
        escape_bytes(a + b) == escape_bytes(a) + escape_bytes(b),
    decreases b.len(),
{
    if b.len() == 0 {
        assert(a + b =~= a);
        assert(escape_bytes(a) + escape_bytes(b) =~= escape_bytes(a));
    } else {
        assert((a + b).drop_last() =~= a + b.drop_last());
        assert((a + b).last() == b.last());
        lemma_escape_bytes_concat(a, b.drop_last());
        assert(escape_bytes(a) + escape_bytes(b) =~= escape_bytes(a) + escape_bytes(b.drop_last())
            + escape_byte(b.last()));
    }
}

/// The escaped bytes of a byte string whose bytes are all at least 0x80 are
/// the bytes themselves.
proof fn lemma_escape_high(t: Seq<u8>)
    requires
        forall|i: int| 0 <= i < t.len() ==> #[trigger] t[i] >= 0x80,
    ensures
        escape_bytes(t) == t,
    decreases t.len(),
{
    if t.len() > 0 {
        lemma_escape_high(t.drop_last());
        assert(t.drop_last() + seq![t.last()] =~= t);
    }
}

/// A hexadecimal digit written by the writer reads back as its value.
proof fn lemma_hex_digit(v: u8)
    requires
        v < 16,
    ensures
        hex_val(hex_digit(v)) == Some(v as u32),
{
}

/// One ASCII byte, escaped, reads back as its character.
proof fn lemma_escaped_ascii(d: Seq<u8>, start: int, p: int, x: u8)
    requires
        x <= 0x7f,
        0 <= p,
        p + escape_byte(x).len() <= d.len(),
        d.subrange(p, p + escape_byte(x).len()) == escape_byte(x),
    ensures
        string_rest(d, start, p) == match string_rest(d, start, p + escape_byte(x).len()) {
            Ok((s, q)) => Ok::<(Seq<char>, int), super::error::LiteParseError>((seq![(x as u32) as char] + s, q)),
            Err(e) => Err(e),
        },
{
    let e = escape_byte(x);
    assert(d[p] == e[0]);
    if e.len() >= 2 {
        assert(d[p + 1] == e[1]);
    }
    if x == 34 || x == 92 || x == 10 || x == 13 || x == 9 || x == 8 || x == 12 {
        assert(escape_at(d, start, p + 1) == Ok::<(char, int), super::error::LiteParseError>(((x as u32) as char, p + 2)));
    } else if x < 32 {
        assert(d[p + 2] == e[2]);
        assert(d[p + 3] == e[3]);
        assert(d[p + 4] == e[4]);
        assert(d[p + 5] == e[5]);
        lemma_hex_digit(x / 16);
        lemma_hex_digit(x % 16);
        assert(hex4_at(d, p + 2) == Some((x as u32)));
        assert(escape_at(d, start, p + 1) == Ok::<(char, int), super::error::LiteParseError>(((x as u32) as char, p + 6)));
    } else {
    }
}

/// The first scalar of valid UTF-8 bytes `b`, escaped at `p`, reads back as
/// its character.
proof fn lemma_escaped_scalar(d: Seq<u8>, start: int, p: int, b: Seq<u8>)
    requires
        valid_utf8(b),
        b.len() > 0,
        0 <= p,
        p + escape_bytes(take_first_scalar(b)).len() <= d.len(),
        d.subrange(p, p + escape_bytes(take_first_scalar(b)).len()) == escape_bytes(take_first_scalar(b)),
    ensures
        string_rest(d, start, p) == prepend(
            seq![(decode_first_scalar(b)) as char],
            string_rest(d, start, p + escape_bytes(take_first_scalar(b)).len()),
        ),
{
    let t = take_first_scalar(b);
    let x = b[0];
    if is_leading_byte_width_1(x) {
        assert(t =~= seq![x]);
        assert(t.last() == x);
        assert(t.drop_last() =~= Seq::<u8>::empty());
        assert(escape_bytes(t.drop_last()) =~= Seq::<u8>::empty());
        assert(escape_bytes(t) =~= escape_byte(x));
        lemma_escaped_ascii(d, start, p, x);
        assert((x & 0x7F) == x) by (bit_vector)
            requires
                x <= 0x7f,
        ;
        assert(decode_first_scalar(b) == x as u32);
    } else {
        lemma_escaped_multibyte(d, start, p, b);
    }
}

/// A first scalar of two or more bytes is written as it is and read back
/// through UTF-8 decoding.
proof fn lemma_escaped_multibyte(d: Seq<u8>, start: int, p: int, b: Seq<u8>)
    requires
        valid_utf8(b),
        b.len() > 0,
        !is_leading_byte_width_1(b[0]),
        0 <= p,
        p + escape_bytes(take_first_scalar(b)).len() <= d.len(),
        d.subrange(p, p + escape_bytes(take_first_scalar(b)).len()) == escape_bytes(take_first_scalar(b)),
    ensures
        string_rest(d, start, p) == prepend(
            seq![(decode_first_scalar(b)) as char],
            string_rest(d, start, p + escape_bytes(take_first_scalar(b)).len()),
        ),
{
    let n = length_of_first_scalar(b);
    let t = take_first_scalar(b);
    let x = b[0];
    assert(n >= 2);
    assert(t.len() == n);
    assert forall|i: int| 0 <= i < t.len() implies #[trigger] t[i] >= 0x80 by {
        assert(t[i] == b[i]);
    }
    lemma_escape_high(t);
    assert(utf8_len(x) == n);
    assert(d[p] == t[0]);
    assert(d.subrange(p, p + n) =~= t);
    assert(t[0] == b[0]);
    assert(t[1] == b[1]);
    if n >= 3 {
        assert(t[2] == b[2]);
    }
    if n >= 4 {
        assert(t[3] == b[3]);
    }
    assert(valid_first_scalar(t));
    assert(decode_first_scalar(t) == decode_first_scalar(b));
    assert(pop_first_scalar(t) =~= Seq::<u8>::empty());
    assert(valid_utf8(pop_first_scalar(t)));
    assert(valid_utf8(t));
    assert(decode_utf8(pop_first_scalar(t)) =~= Seq::<char>::empty());
    assert(decode_utf8(t) =~= seq![(decode_first_scalar(b)) as char]);
}

/// The string body of `pre`, the escaped valid UTF-8 bytes `b` and a
/// closing quote, read from the end of `pre`: the characters `b` encodes,
/// ending after the quote.
pub proof fn lemma_string_rest_escaped(pre: Seq<u8>, b: Seq<u8>, start: int)
    requires
        valid_utf8(b),
    ensures
        string_rest(pre + escape_bytes(b) + seq![34u8], start, pre.len() as int) == Ok::<
            (Seq<char>, int),
            super::error::LiteParseError,
        >((decode_utf8(b), (pre.len() + escape_bytes(b).len() + 1) as int)),
    decreases b.len(),
{
    let d = pre + escape_bytes(b) + seq![34u8];
    let p = pre.len() as int;
    if b.len() == 0 {
        assert(d[p] == 34u8);
    } else {
        let t = take_first_scalar(b);
        let r = pop_first_scalar(b);
        assert(t + r =~= b);
        lemma_escape_bytes_concat(t, r);
        let pre2 = pre + escape_bytes(t);
        assert(d =~= pre2 + escape_bytes(r) + seq![34u8]);
        lemma_string_rest_escaped(pre2, r, start);
        assert(d.subrange(p, p + escape_bytes(t).len()) =~= escape_bytes(t));
        lemma_escaped_scalar(d, start, p, b);
        let c = (decode_first_scalar(b)) as char;
        assert(decode_utf8(b) == seq![c] + decode_utf8(r));
    }
}

/// What [`super::serializer::JsonWriter::string`] writes for a text reads
/// back through the lexer as one string token holding exactly that text,
/// ending where the written bytes end.
pub proof fn law_string_reads_back(text: Seq<char>)
    ensures
        scan_at(quoted(encode_utf8(text)), 0) == Ok::<(Option<TokenView>, int), super::error::LiteParseError>(
            (Some(TokenView::String(text)), quoted(encode_utf8(text)).len() as int),
        ),
{
    let b = encode_utf8(text);
    encode_utf8_valid_utf8(text);
    encode_utf8_decode_utf8(text);
    let d = quoted(b);
    reveal(scan_at);
    assert(d[0] == 34u8);
    assert(!is_json_ws(d[0]));
    assert(ws_end(d, 0) == 0);
    lemma_string_rest_escaped(seq![34u8], b, 0);
    assert(d =~= seq![34u8] + escape_bytes(b) + seq![34u8]);
}

} // verus!
