//! Gzip (RFC 1952) framing around raw DEFLATE from `miniz_oxide`: one-shot
//! compression and decompression, and a streaming decompressor.

use vstd::prelude::*;
use miniz_oxide::inflate::stream::InflateState;

verus! {

// ---------------------------------------------------------------------------
// CRC-32
// ---------------------------------------------------------------------------

/// One bit step of the reflected CRC-32 (polynomial 0xEDB88320).
pub open spec fn crc_step(c: u32) -> u32 {
    if c & 1u32 != 0 {
        (c >> 1u32) ^ 0xEDB8_8320u32
    } else {
        c >> 1u32
    }
}

/// `k` bit steps.
pub open spec fn crc_steps(c: u32, k: nat) -> u32
    decreases k,
{
    if k == 0 {
        c
    } else {
        crc_step(crc_steps(c, (k - 1) as nat))
    }
}

/// The CRC register after one byte.
pub open spec fn crc_byte(c: u32, b: u8) -> u32 {
    crc_steps(c ^ (b as u32), 8)
}

/// The CRC register after the bytes of `data`, starting from `c`.
pub open spec fn crc_update(c: u32, data: Seq<u8>) -> u32
    decreases data.len(),
{
    if data.len() == 0 {
        c
    } else {
        crc_byte(crc_update(c, data.drop_last()), data.last())
    }
}

/// The CRC-32 (ISO 3309 / ITU-T V.42) of `data`.
pub open spec fn crc32_spec(data: Seq<u8>) -> u32 {
    !crc_update(0xFFFF_FFFFu32, data)
}

/// The CRC register after one more byte.
fn crc_byte_exec(c: u32, b: u8) -> (r: u32)
    ensures
        r == crc_byte(c, b),
{
    let mut crc = c ^ (b as u32);
    let mut k: usize = 0;
    while k < 8
        invariant
            k <= 8,
            crc == crc_steps(c ^ (b as u32), k as nat),
        decreases 8 - k,
    {
        if crc & 1 != 0 {
            crc = (crc >> 1u32) ^ 0xEDB8_8320u32;
        } else {
            crc = crc >> 1u32;
        }
        k = k + 1;
    }
    crc
}

/// The CRC register after the bytes of `data`, starting from `c`.
fn crc_update_exec(c: u32, data: &[u8]) -> (r: u32)
    ensures
        r == crc_update(c, data@),
{
    let mut crc = c;
    let mut i: usize = 0;
    while i < data.len()
        invariant
            i <= data@.len(),
            crc == crc_update(c, data@.subrange(0, i as int)),
        decreases data@.len() - i,
    {
        proof {
            assert(data@.subrange(0, i + 1).drop_last() =~= data@.subrange(0, i as int));
        }
        crc = crc_byte_exec(crc, data[i]);
        i = i + 1;
    }
    proof {
        assert(data@.subrange(0, i as int) =~= data@);
    }
    crc
}

/// CRC-32 (ISO 3309 / ITU-T V.42), computed a bit at a time.
pub fn crc32(data: &[u8]) -> (r: u32)
    ensures
        r == crc32_spec(data@),
{
    !crc_update_exec(0xFFFF_FFFFu32, data)
}

// ---------------------------------------------------------------------------
// One-shot gzip
// ---------------------------------------------------------------------------

/// The four little-endian bytes of a 32-bit value.
pub open spec fn le_bytes32(v: u32) -> Seq<u8> {
    seq![v as u8, (v >> 8u32) as u8, (v >> 16u32) as u8, (v >> 24u32) as u8]
}

/// The little-endian 32-bit value at byte `i` of `b`.
pub open spec fn le_u32_at(b: Seq<u8>, i: int) -> u32 {
    (b[i] as u32) | ((b[i + 1] as u32) << 8u32) | ((b[i + 2] as u32) << 16u32) | ((b[i + 3] as u32)
        << 24u32)
}

proof fn lemma_le_bytes32_roundtrip(v: u32)
    ensures
        le_u32_at(le_bytes32(v), 0) == v,
{
    assert(((v as u8) as u32) | ((((v >> 8u32) as u8) as u32) << 8u32) | ((((v >> 16u32) as u8)
        as u32) << 16u32) | ((((v >> 24u32) as u8) as u32) << 24u32) == v) by (bit_vector);
}

/// What `miniz_oxide::deflate::compress_to_vec` gives at level 6: raw DEFLATE data.
pub uninterp spec fn deflate_level6(data: Seq<u8>) -> Seq<u8>;

/// Raw DEFLATE compression (no zlib or gzip header) at level 6.
///
/// Calls `miniz_oxide::deflate::compress_to_vec`, whose output depends on the
/// input and the level alone; which DEFLATE stream it picks is left unstated.
/// What it writes is a DEFLATE stream of the input: inflating it with a limit
/// that the input fits in gives the input back, and with a smaller limit
/// gives nothing (the inflated data would not fit).
#[verifier::external_body]
fn deflate_raw(data: &[u8]) -> (r: Vec<u8>)
    ensures
        r@ == deflate_level6(data@),
        forall|max: usize| data@.len() <= max ==> #[trigger] inflate_limited(r@, max) == Some(data@),
        forall|max: usize| data@.len() > max ==> #[trigger] inflate_limited(r@, max) is None,
{
    miniz_oxide::deflate::compress_to_vec(data, 6)
}

/// What `miniz_oxide::inflate::decompress_to_vec_with_limit` gives: the
/// inflated bytes, or nothing when the data is not valid raw DEFLATE or
/// inflates to more than `max` bytes.
pub uninterp spec fn inflate_limited(deflated: Seq<u8>, max: usize) -> Option<Seq<u8>>;

/// One-shot raw DEFLATE decompression with a size limit.
///
/// Calls `miniz_oxide::inflate::decompress_to_vec_with_limit`, which is
/// deterministic and never grows its output past `max_size` bytes: where the
/// stream inflates to `v`, any limit of at least `v`'s length gives `v` and
/// any smaller one gives nothing (the output would pass the limit). What it
/// inflates a given stream to is left unstated.
#[verifier::external_body]
fn inflate_raw_bounded(deflated: &[u8], max_size: usize) -> (r: Option<Vec<u8>>)
    ensures
        match r {
            Some(v) => inflate_limited(deflated@, max_size) == Some(v@) && v@.len() <= max_size,
            None => inflate_limited(deflated@, max_size) is None,
        },
        r matches Some(v) ==> forall|m: usize| #[trigger]
            inflate_limited(deflated@, m) == (if v@.len() <= m {
                Some(v@)
            } else {
                None::<Seq<u8>>
            }),
{
    miniz_oxide::inflate::decompress_to_vec_with_limit(deflated, max_size).ok()
}

/// The fixed gzip header this library writes: magic, deflate, no flags,
/// no modification time, no extra flags, unknown OS.
pub open spec fn gzip_header() -> Seq<u8> {
    seq![0x1fu8, 0x8b, 8, 0, 0, 0, 0, 0, 0, 0xff]
}

/// The gzip stream for `data`: header, deflated data, then the CRC-32 and
/// the length (modulo 2^32) of the data, little-endian.
pub open spec fn gzip_of(data: Seq<u8>) -> Seq<u8> {
    gzip_header() + deflate_level6(data) + le_bytes32(crc32_spec(data)) + le_bytes32(
        data.len() as u32,
    )
}

/// Appends the little-endian bytes of `v`.
fn push_le32(out: &mut Vec<u8>, v: u32)
    ensures
        final(out)@ == old(out)@ + le_bytes32(v),
{
    out.push(#[verifier::truncate] (v as u8));
    out.push(#[verifier::truncate] ((v >> 8u32) as u8));
    out.push(#[verifier::truncate] ((v >> 16u32) as u8));
    out.push(#[verifier::truncate] ((v >> 24u32) as u8));
    proof {
        assert(final(out)@ =~= old(out)@ + le_bytes32(v));
    }
}

/// Compress data into gzip format (RFC 1952): a 10-byte header, the DEFLATE
/// payload and an 8-byte trailer (CRC-32 and original size). Suitable for
/// HTTP `Content-Encoding: gzip`. This build always has the memory to compress.
pub fn gzip_compress(data: &[u8]) -> (r: Option<Vec<u8>>)
    ensures
        r matches Some(v) && v@ == gzip_of(data@),
        r matches Some(v) ==> forall|max: usize| data@.len() <= max ==> #[trigger] gunzip(v@, max)
            == Some(data@),
        r matches Some(v) ==> forall|max: usize| data@.len() > max ==> #[trigger] gunzip(v@, max)
            is None,
{
    let deflated = deflate_raw(data);
    let crc = crc32(data);
    let size = #[verifier::truncate] (data.len() as u32);
    let mut out: Vec<u8> = Vec::new();
    out.push(0x1f);
    out.push(0x8b);
    out.push(8);
    out.push(0);
    out.push(0);
    out.push(0);
    out.push(0);
    out.push(0);
    out.push(0);
    out.push(0xff);
    let ghost head = out@;
    let mut i: usize = 0;
    while i < deflated.len()
        invariant
            i <= deflated@.len(),
            out@ == head + deflated@.subrange(0, i as int),
        decreases deflated@.len() - i,
    {
        out.push(deflated[i]);
        proof {
            assert(deflated@.subrange(0, i + 1) =~= deflated@.subrange(0, i as int).push(deflated@[i as int]));
        }
        i = i + 1;
    }
    proof {
        assert(deflated@.subrange(0, i as int) =~= deflated@);
    }
    push_le32(&mut out, crc);
    push_le32(&mut out, size);
    proof {
        assert(out@ =~= gzip_of(data@));
        let g = out@;
        let t = g.len() - 8;
        assert(g.subrange(10, t) =~= deflated@);
        assert(g.subrange(t, t + 4) =~= le_bytes32(crc));
        assert(g.subrange(t + 4, t + 8) =~= le_bytes32(size));
        lemma_le_bytes32_roundtrip(crc);
        lemma_le_bytes32_roundtrip(size);
        assert(le_u32_at(g, t) == le_u32_at(le_bytes32(crc), 0)) by {
            assert(g[t] == g.subrange(t, t + 4)[0] && g[t + 1] == g.subrange(t, t + 4)[1]);
            assert(g[t + 2] == g.subrange(t, t + 4)[2] && g[t + 3] == g.subrange(t, t + 4)[3]);
        }
        assert(le_u32_at(g, t + 4) == le_u32_at(le_bytes32(size), 0)) by {
            assert(g[t + 4] == g.subrange(t + 4, t + 8)[0] && g[t + 5] == g.subrange(t + 4, t + 8)[1]);
            assert(g[t + 6] == g.subrange(t + 4, t + 8)[2] && g[t + 7] == g.subrange(t + 4, t + 8)[3]);
        }
        assert forall|max: usize| data@.len() <= max implies #[trigger] gunzip(g, max) == Some(data@) by {
            assert(inflate_limited(deflated@, max) == Some(data@));
        }
        assert forall|max: usize| data@.len() > max implies #[trigger] gunzip(g, max) is None by {
            assert(inflate_limited(deflated@, max) is None);
        }
    }
    Some(out)
}

/// The data that a gzip stream holds, when it is at least 18 bytes long,
/// starts with the gzip magic, its payload (after the fixed 10-byte header)
/// inflates within `max` bytes, and the inflated data matches the CRC-32 and
/// size in the trailer.
pub open spec fn gunzip(data: Seq<u8>, max: usize) -> Option<Seq<u8>> {
    if data.len() < 18 || data[0] != 0x1f || data[1] != 0x8b {
        None
    } else {
        let t = data.len() - 8;
        match inflate_limited(data.subrange(10, t), max) {
            None => None,
            Some(d) => if crc32_spec(d) != le_u32_at(data, t) || d.len() as u32 != le_u32_at(
                data,
                t + 4,
            ) {
                None
            } else {
                Some(d)
            },
        }
    }
}

/// Decompress gzip data (RFC 1952) back to the original bytes.
///
/// Expects a 10-byte header, a DEFLATE payload and an 8-byte trailer.
/// Returns `None` if the data is too short or lacks the gzip magic,
/// decompression fails, the output would exceed `max_decompressed_size`, or
/// the output does not match the trailer's CRC-32 and size.
pub fn gzip_decompress(data: &[u8], max_decompressed_size: usize) -> (r: Option<Vec<u8>>)
    ensures
        match r {
            Some(v) => gunzip(data@, max_decompressed_size) == Some(v@),
            None => gunzip(data@, max_decompressed_size) is None,
        },
        r matches Some(v) ==> v@.len() <= max_decompressed_size,
{
    if data.len() < 18 {
        return None;
    }
    if data[0] != 0x1f || data[1] != 0x8b {
        return None;
    }
    let t = data.len() - 8;
    let stored_crc = (data[t] as u32) | ((data[t + 1] as u32) << 8u32) | ((data[t + 2] as u32)
        << 16u32) | ((data[t + 3] as u32) << 24u32);
    let stored_size = (data[t + 4] as u32) | ((data[t + 5] as u32) << 8u32) | ((data[t + 6] as u32)
        << 16u32) | ((data[t + 7] as u32) << 24u32);
    let deflated = &data[10..t];
    let decompressed = match inflate_raw_bounded(deflated, max_decompressed_size) {
        Some(d) => d,
        None => return None,
    };
    if crc32(decompressed.as_slice()) != stored_crc {
        return None;
    }
    if #[verifier::truncate] (decompressed.len() as u32) != stored_size {
        return None;
    }
    Some(decompressed)
}


// ---------------------------------------------------------------------------
// Streaming gzip decompression
// ---------------------------------------------------------------------------

/// `miniz_oxide::inflate::stream::InflateState`, the state of a raw DEFLATE stream.
#[verifier::external_type_specification]
#[verifier::external_body]
pub struct ExInflateState(InflateState);

/// What a raw DEFLATE stream inflates to: the bytes that
/// `miniz_oxide::inflate::stream::inflate` has written, over all its calls on
/// one fresh state, once it reports the end of the stream, where `deflated`
/// are all the bytes those calls consumed.
pub uninterp spec fn raw_inflate(deflated: Seq<u8>) -> Seq<u8>;

/// What one call of the streaming inflater reports about the stream.
pub enum InflateStatus {
    /// Progress made; more input (or output space) is needed.
    Progress,
    /// The end of the DEFLATE stream was reached.
    StreamEnd,
    /// The stream is corrupt or the call could not proceed.
    Failed,
}

/// A raw DEFLATE stream being inflated in steps, with a record of all the
/// input its steps consumed and all the output they wrote.
pub struct RawInflater {
    state: Box<InflateState>,
    fed: Ghost<Seq<u8>>,
    out: Ghost<Seq<u8>>,
}

impl RawInflater {
    /// All input consumed by the steps so far.
    pub closed spec fn fed(&self) -> Seq<u8> {
        self.fed@
    }

    /// All output written by the steps so far.
    pub closed spec fn out(&self) -> Seq<u8> {
        self.out@
    }

    /// A fresh raw DEFLATE stream, nothing consumed or written yet.
    ///
    /// Calls `InflateState::new_boxed` with `DataFormat::Raw`.
    #[verifier::external_body]
    fn new() -> (r: Self)
        ensures
            r.fed() == Seq::<u8>::empty(),
            r.out() == Seq::<u8>::empty(),
    {
        RawInflater {
            state: InflateState::new_boxed(miniz_oxide::DataFormat::Raw),
            fed: Ghost(Seq::empty()),
            out: Ghost(Seq::empty()),
        }
    }

    /// Inflate as much of `input` into `output` as one call manages,
    /// returning the bytes consumed, the bytes written and the status.
    ///
    /// Calls `miniz_oxide::inflate::stream::inflate` without flushing. It
    /// consumes a prefix of `input` and writes a prefix of `output`; the
    /// stream's whole output depends on its whole input alone, and the call
    /// reports the end of the stream only once all of it is written
    /// (`StreamEnd` needs an empty internal buffer). How much one call
    /// consumes and writes is left unstated.
    #[verifier::external_body]
    fn step(&mut self, input: &[u8], output: &mut [u8; GZIP_STREAM_OUT_SIZE]) -> (r: (
        usize,
        usize,
        InflateStatus,
    ))
        ensures
            r.0 <= input@.len(),
            r.1 <= GZIP_STREAM_OUT_SIZE,
            final(self).fed() == old(self).fed() + input@.subrange(0, r.0 as int),
            final(self).out() == old(self).out() + final(output)@.subrange(0, r.1 as int),
            r.2 is StreamEnd ==> final(self).out() == raw_inflate(final(self).fed()),
    {
        let res = miniz_oxide::inflate::stream::inflate(&mut self.state, input, output, miniz_oxide::MZFlush::None);
        let status = match res.status {
            Ok(miniz_oxide::MZStatus::Ok) => InflateStatus::Progress,
            Ok(miniz_oxide::MZStatus::StreamEnd) => InflateStatus::StreamEnd,
            _ => InflateStatus::Failed,
        };
        (res.bytes_consumed, res.bytes_written, status)
    }
}

/// Size of the scratch buffer of one inflate call.
pub const GZIP_STREAM_OUT_SIZE: usize = 8192;

/// Gzip FLG bits (RFC 1952, section 2.3.1).
pub const FTEXT_HCRC: u8 = 2;
pub const FEXTRA: u8 = 4;
pub const FNAME: u8 = 8;
pub const FCOMMENT: u8 = 16;

#[derive(Debug, PartialEq, Eq, Structural)]
pub enum GzipStreamError {
    InvalidHeader,
    DecompressFailed,
    CrcMismatch,
    SizeMismatch,
    Truncated,
}

/// Phases of streaming gzip decompression.
#[derive(PartialEq, Eq, Structural)]
pub enum Phase {
    /// Collecting the fixed 10-byte gzip header.
    Header,
    /// Collecting the 2-byte XLEN field (FEXTRA set).
    ExtraLen,
    /// Skipping XLEN bytes of extra data.
    ExtraData { remaining: u16 },
    /// Skipping the zero-terminated original file name (FNAME set).
    Name,
    /// Skipping the zero-terminated comment (FCOMMENT set).
    Comment,
    /// Skipping the 2-byte header CRC16 (FHCRC set).
    HeaderCrc,
    /// Streaming DEFLATE decompression.
    Deflate,
    /// Collecting the 8-byte trailer (CRC32 + ISIZE).
    Trailer,
    /// Successfully verified.
    Done,
    /// Terminal error.
    Failed,
}

/// The phase after the optional fields from the file name on, by the flags.
pub open spec fn after_extra(flg: u8) -> Phase {
    if flg & FNAME != 0 {
        Phase::Name
    } else if flg & FCOMMENT != 0 {
        Phase::Comment
    } else if flg & FTEXT_HCRC != 0 {
        Phase::HeaderCrc
    } else {
        Phase::Deflate
    }
}

fn after_extra_exec(flg: u8) -> (r: Phase)
    ensures
        r == after_extra(flg),
{
    if flg & FNAME != 0 {
        Phase::Name
    } else if flg & FCOMMENT != 0 {
        Phase::Comment
    } else if flg & FTEXT_HCRC != 0 {
        Phase::HeaderCrc
    } else {
        Phase::Deflate
    }
}

/// Phases before the header CRC.
pub open spec fn before_header_crc(p: Phase) -> bool {
    p is Header || p is ExtraLen || p is ExtraData || p is Name || p is Comment
}

/// Phases before the trailer.
pub open spec fn before_trailer(p: Phase) -> bool {
    before_header_crc(p) || p is HeaderCrc || p is Deflate
}

/// The fixed gzip header starts with the magic bytes and the DEFLATE method.
pub open spec fn gzip_magic_ok(h: Seq<u8>) -> bool {
    h.len() >= 3 && h[0] == 0x1fu8 && h[1] == 0x8bu8 && h[2] == 8u8
}

proof fn lemma_prefix_kept(t: Seq<u8>, d: Seq<u8>, k: int)
    requires
        0 <= k <= t.len(),
    ensures
        (t + d).subrange(0, k) == t.subrange(0, k),
{
    assert((t + d).subrange(0, k) =~= t.subrange(0, k));
}

proof fn lemma_append_assoc(a: Seq<u8>, b: Seq<u8>, c: Seq<u8>)
    ensures
        a + (b + c) == (a + b) + c,
{
    assert(a + (b + c) =~= (a + b) + c);
}

/// `t1` is `t0` followed by a prefix of `d`.
pub open spec fn took_prefix(t1: Seq<u8>, t0: Seq<u8>, d: Seq<u8>) -> bool {
    &&& t0.len() <= t1.len() <= t0.len() + d.len()
    &&& t1 == t0 + d.subrange(0, t1.len() - t0.len())
}

proof fn lemma_took_prefix_chain(t0: Seq<u8>, input: Seq<u8>, pos: int, t1: Seq<u8>)
    requires
        0 <= pos <= input.len(),
        took_prefix(t1, t0 + input.subrange(0, pos), input.subrange(pos, input.len() as int)),
    ensures
        took_prefix(t1, t0, input),
{
    let before = t0 + input.subrange(0, pos);
    let k = t1.len() - before.len();
    assert(input.subrange(pos, input.len() as int).subrange(0, k) =~= input.subrange(pos, pos + k));
    assert(input.subrange(0, pos + k) =~= input.subrange(0, pos) + input.subrange(pos, pos + k));
    lemma_append_assoc(t0, input.subrange(0, pos), input.subrange(pos, pos + k));
}

/// The position after the first zero byte of `t` at or after `p`, if any.
pub open spec fn zero_after(t: Seq<u8>, p: int) -> Option<int>
    decreases t.len() - p,
{
    if p < 0 || p >= t.len() {
        None
    } else if t[p] == 0 {
        Some(p + 1)
    } else {
        zero_after(t, p + 1)
    }
}

/// No zero byte in `t` from `p` on.
pub open spec fn no_zero_from(t: Seq<u8>, p: int) -> bool {
    forall|i: int| p <= i < t.len() ==> #[trigger] t[i] != 0
}

/// The little-endian 16-bit number at `i`.
pub open spec fn le16_at(t: Seq<u8>, i: int) -> int {
    t[i] as int + t[i + 1] as int * 256
}

/// Where the gzip header's extra field ends (RFC 1952: FEXTRA gives a
/// two-byte length, then that many bytes), once the bytes that say so are in.
pub open spec fn extra_end(t: Seq<u8>) -> Option<int> {
    if t.len() < 10 {
        None
    } else if t[3] & FEXTRA != 0 {
        if t.len() >= 12 {
            Some(12 + le16_at(t, 10))
        } else {
            None
        }
    } else {
        Some(10)
    }
}

/// Where the zero-terminated original file name ends (FNAME), once it is in.
pub open spec fn name_end(t: Seq<u8>) -> Option<int> {
    match extra_end(t) {
        None => None,
        Some(p) => if p > t.len() {
            None
        } else if t[3] & FNAME != 0 {
            zero_after(t, p)
        } else {
            Some(p)
        },
    }
}

/// Where the zero-terminated comment ends (FCOMMENT), once it is in.
pub open spec fn comment_end(t: Seq<u8>) -> Option<int> {
    match name_end(t) {
        None => None,
        Some(p) => if t[3] & FCOMMENT != 0 {
            zero_after(t, p)
        } else {
            Some(p)
        },
    }
}

/// Where the gzip header of the stream `t` ends and its DEFLATE data
/// begins (RFC 1952: the fixed ten bytes, then the extra field, file name,
/// comment and header CRC that the flags announce), once all of it is in.
pub open spec fn gzip_header_end(t: Seq<u8>) -> Option<int> {
    match comment_end(t) {
        None => None,
        Some(p) => if t[3] & FTEXT_HCRC != 0 {
            if p + 2 <= t.len() {
                Some(p + 2)
            } else {
                None
            }
        } else {
            Some(p)
        },
    }
}

proof fn lemma_zero_after_bound(t: Seq<u8>, p: int)
    ensures
        zero_after(t, p) matches Some(q) ==> p < q <= t.len(),
    decreases t.len() - p,
{
    if 0 <= p < t.len() && t[p] != 0 {
        lemma_zero_after_bound(t, p + 1);
    }
}

/// A zero found in `t` is found again after more bytes come.
proof fn lemma_zero_after_stable(t: Seq<u8>, d: Seq<u8>, p: int)
    requires
        zero_after(t, p) is Some,
    ensures
        zero_after(t + d, p) == zero_after(t, p),
    decreases t.len() - p,
{
    if t[p] != 0 {
        lemma_zero_after_stable(t, d, p + 1);
    }
    assert((t + d)[p] == t[p]);
}

/// Searching bytes appended to `t`, from an offset in them.
proof fn lemma_zero_after_shift(t: Seq<u8>, d: Seq<u8>, k: int)
    requires
        0 <= k,
    ensures
        zero_after(t + d, t.len() + k) == match zero_after(d, k) {
            Some(j) => Some(t.len() + j),
            None => None::<int>,
        },
    decreases d.len() - k,
{
    if k < d.len() {
        assert((t + d)[t.len() + k] == d[k]);
        if d[k] != 0 {
            lemma_zero_after_shift(t, d, k + 1);
        }
    }
}

/// Searching from `p` in `t` without a zero there goes on into `d`.
proof fn lemma_zero_after_skip(t: Seq<u8>, d: Seq<u8>, p: int)
    requires
        0 <= p <= t.len(),
        no_zero_from(t, p),
    ensures
        zero_after(t + d, p) == zero_after(t + d, t.len() as int),
    decreases t.len() - p,
{
    if p < t.len() {
        assert((t + d)[p] == t[p]);
        lemma_zero_after_skip(t, d, p + 1);
    }
}

/// The first zero of `d` from `k`, where `d` has none in `k..i` and one at `i`.
proof fn lemma_zero_at(d: Seq<u8>, k: int, i: int)
    requires
        0 <= k <= i < d.len(),
        d[i] == 0,
        forall|j: int| k <= j < i ==> d[j] != 0,
    ensures
        zero_after(d, k) == Some(i + 1),
    decreases i - k,
{
    if k < i {
        lemma_zero_at(d, k + 1, i);
    }
}

/// The bytes handed to the inflate step are the stream's bytes right after
/// its header, none of the header among them.
pub open spec fn inflated_from_header_end(t: Seq<u8>, din: Seq<u8>) -> bool {
    din.len() > 0 ==> {
        &&& gzip_header_end(t) is Some
        &&& gzip_header_end(t)->0 + din.len() <= t.len()
        &&& din == t.subrange(gzip_header_end(t)->0, gzip_header_end(t)->0 + din.len())
    }
}

/// Every byte of the stream after its header went to the inflate step.
pub open spec fn all_after_header(t: Seq<u8>, din: Seq<u8>) -> bool {
    &&& gzip_header_end(t) is Some
    &&& din == t.subrange(gzip_header_end(t)->0, t.len() as int)
}

/// The ends of the header fields, once within the bytes taken, stay where
/// they are as more bytes come.
proof fn lemma_ends_stable(t: Seq<u8>, d: Seq<u8>)
    requires
        t.len() >= 10,
    ensures
        (extra_end(t) matches Some(p) && (t[3] & FEXTRA == 0 || t.len() >= 12)) ==> extra_end(t + d)
            == extra_end(t),
        name_end(t) is Some ==> name_end(t + d) == name_end(t),
        comment_end(t) is Some ==> comment_end(t + d) == comment_end(t),
        gzip_header_end(t) is Some ==> gzip_header_end(t + d) == gzip_header_end(t),
{
    let u = t + d;
    assert(u[3] == t[3]);
    if t.len() >= 12 {
        assert(u[10] == t[10]);
        assert(u[11] == t[11]);
    }
    if let Some(p) = name_end(t) {
        if t[3] & FNAME != 0 {
            lemma_zero_after_stable(t, d, extra_end(t)->0);
        }
    }
    if let Some(p) = comment_end(t) {
        if t[3] & FCOMMENT != 0 {
            lemma_zero_after_stable(t, d, name_end(t)->0);
        }
    }
}

/// The header fields end within the bytes taken, past the fixed ten bytes.
proof fn lemma_header_end_bounds(t: Seq<u8>)
    ensures
        extra_end(t) matches Some(p) ==> 10 <= p,
        name_end(t) matches Some(p) ==> 10 <= p <= t.len(),
        comment_end(t) matches Some(p) ==> 10 <= p <= t.len(),
        gzip_header_end(t) matches Some(p) ==> 10 <= p <= t.len(),
{
    if let Some(p) = extra_end(t) {
        if p <= t.len() {
            lemma_zero_after_bound(t, p);
            if let Some(q) = name_end(t) {
                lemma_zero_after_bound(t, q);
            }
        }
    }
}

/// What lies between the header end and the bytes taken stays put as more
/// bytes come.
proof fn lemma_deflate_part_extend(t: Seq<u8>, d: Seq<u8>, din: Seq<u8>)
    requires
        t.len() >= 10,
        gzip_header_end(t) is Some,
        gzip_header_end(t)->0 + din.len() <= t.len(),
        din == t.subrange(gzip_header_end(t)->0, gzip_header_end(t)->0 + din.len()),
    ensures
        (t + d)[3] == t[3],
        gzip_header_end(t + d) == gzip_header_end(t),
        din == (t + d).subrange(gzip_header_end(t)->0, gzip_header_end(t)->0 + din.len()),
        gzip_header_end(t)->0 + din.len() == t.len() ==> din + d == (t + d).subrange(
            gzip_header_end(t)->0,
            (t + d).len() as int,
        ),
{
    lemma_ends_stable(t, d);
    lemma_header_end_bounds(t);
    let h = gzip_header_end(t)->0;
    assert((t + d).subrange(h, h + din.len()) =~= t.subrange(h, h + din.len()));
    if h + din.len() == t.len() {
        assert(din + d =~= (t + d).subrange(h, (t + d).len() as int));
    }
}

/// Streaming gzip decompressor for firmware updates.
///
/// State machine: header parsing, DEFLATE decompression, then CRC-32 and
/// ISIZE verification against the trailer. Keeps a running CRC-32 over all
/// decompressed output. Designed for chunk-by-chunk feeding.
pub struct GzipStreamDecompressor {
    phase: Phase,
    inflater: RawInflater,
    header_buf: [u8; 10],
    header_pos: usize,
    flg: u8,
    extra_len_buf: [u8; 2],
    extra_len_pos: usize,
    hcrc_pos: usize,
    crc: u32,
    total_out: u32,
    trailer_buf: [u8; 8],
    trailer_pos: usize,
    inflate_buf: [u8; GZIP_STREAM_OUT_SIZE],
    out_buf: Vec<u8>,
    taken: Ghost<Seq<u8>>,
    produced: Ghost<Seq<u8>>,
    stalled: Ghost<bool>,
    inflate_failed: Ghost<bool>,
    inflated_in: Ghost<Seq<u8>>,
}

impl GzipStreamDecompressor {
    /// All decompressed output emitted so far, over every feed.
    pub closed spec fn produced(&self) -> Seq<u8> {
        self.produced@
    }

    /// All compressed input taken so far, over every feed.
    pub closed spec fn taken(&self) -> Seq<u8> {
        self.taken@
    }

    /// The last feed ended early: a DEFLATE step took no input and wrote
    /// no output.
    pub closed spec fn stalled(&self) -> bool {
        self.stalled@
    }

    /// The DEFLATE data was found corrupt by the inflate step.
    pub closed spec fn inflate_failed(&self) -> bool {
        self.inflate_failed@
    }

    /// All bytes handed to and taken by the inflate step so far.
    pub closed spec fn inflated_input(&self) -> Seq<u8> {
        self.inflated_in@
    }

    /// Collecting the trailer after the DEFLATE data.
    pub closed spec fn in_trailer(&self) -> bool {
        self.phase is Trailer
    }

    /// Past the header, handing the input to the inflate step.
    pub closed spec fn in_deflate(&self) -> bool {
        self.phase is Deflate
    }

    /// How the bytes taken so far fall into header and DEFLATE data, by phase.
    closed spec fn header_progress(&self) -> bool {
        let t = self.taken@;
        let din = self.inflated_in@;
        let h = gzip_header_end(t)->0;
        &&& (!(self.phase is Header) && !(self.phase is Failed) ==> self.flg == t[3])
        &&& (self.phase is ExtraLen ==> t[3] & FEXTRA != 0 && t.len() == 10 + self.extra_len_pos && (
        self.extra_len_pos >= 1 ==> self.extra_len_buf@[0] == t[10]))
        &&& (self.phase is ExtraData ==> t[3] & FEXTRA != 0 && t.len() >= 12 && t.len()
            + self.phase->remaining == 12 + le16_at(t, 10))
        &&& (self.phase is Name ==> t[3] & FNAME != 0 && extra_end(t) is Some && extra_end(t)->0
            <= t.len() && no_zero_from(t, extra_end(t)->0) && (t[3] & FEXTRA == 0 || t.len() >= 12))
        &&& (self.phase is Comment ==> t[3] & FCOMMENT != 0 && name_end(t) is Some && name_end(t)->0
            <= t.len() && no_zero_from(t, name_end(t)->0))
        &&& (self.phase is HeaderCrc ==> t[3] & FTEXT_HCRC != 0 && comment_end(t) is Some && t.len()
            == comment_end(t)->0 + self.hcrc_pos)
        &&& (before_header_crc(self.phase) || self.phase is HeaderCrc ==> din.len() == 0)
        &&& (self.phase is Deflate || self.phase is Trailer || self.phase is Done || din.len() > 0
            ==> gzip_header_end(t) is Some && h + din.len() <= t.len() && din == t.subrange(h, h + din.len()))
        &&& (self.phase is Deflate ==> gzip_header_end(t) is Some && h + din.len() == t.len())
    }


    /// The CRC-32 stored in the trailer.
    pub closed spec fn trailer_crc(&self) -> u32 {
        le_u32_at(self.trailer_buf@, 0)
    }

    /// The size (modulo 2^32) stored in the trailer.
    pub closed spec fn trailer_size(&self) -> u32 {
        le_u32_at(self.trailer_buf@, 4)
    }

    /// Still collecting the fixed 10-byte header.
    pub closed spec fn in_header(&self) -> bool {
        self.phase is Header
    }

    /// The stream was verified to the end of its trailer.
    pub closed spec fn done(&self) -> bool {
        self.phase is Done
    }

    /// The stream failed; it stays failed.
    pub closed spec fn failed(&self) -> bool {
        self.phase is Failed
    }

    /// The internal invariant: positions within their buffers, the header
    /// as the first input bytes, the running CRC and count over all output,
    /// and a verified trailer once done.
    pub closed spec fn wf(&self) -> bool {
        &&& self.wf_core()
        &&& self.inflater.fed() == self.inflated_in@
        &&& self.inflater.out() == self.produced@
        &&& (self.phase is Trailer || self.phase is Done ==> self.produced@ == raw_inflate(
            self.inflated_in@,
        ))
    }

    /// The invariant apart from how the inflater's record matches the
    /// output and the DEFLATE input taken.
    closed spec fn wf_core(&self) -> bool {
        &&& self.header_pos <= 10
        &&& self.extra_len_pos <= 2
        &&& self.hcrc_pos <= 2
        &&& self.trailer_pos <= 8
        &&& self.inflate_buf@.len() == GZIP_STREAM_OUT_SIZE
        &&& (self.phase is Header ==> self.header_pos < 10 && self.extra_len_pos == 0
            && self.taken@.len() == self.header_pos && self.header_buf@.subrange(
            0,
            self.header_pos as int,
        ) == self.taken@)
        &&& (!(self.phase is Header) ==> self.taken@.len() >= 10 && self.header_buf@
            == self.taken@.subrange(0, 10))
        &&& (!(self.phase is Header) && !(self.phase is Failed) ==> gzip_magic_ok(
            self.header_buf@,
        ))
        &&& (self.phase is ExtraLen ==> self.extra_len_pos < 2)
        &&& (self.phase matches Phase::ExtraData { remaining } ==> remaining > 0)
        &&& (before_header_crc(self.phase) ==> self.hcrc_pos == 0)
        &&& (self.phase is HeaderCrc ==> self.hcrc_pos < 2)
        &&& (before_trailer(self.phase) ==> self.trailer_pos == 0)
        &&& (self.phase is Trailer ==> self.trailer_pos < 8)
        &&& self.crc == crc_update(0xFFFF_FFFFu32, self.produced@)
        &&& self.total_out == self.produced@.len() % 0x1_0000_0000
        &&& (self.phase is Done ==> !self.crc == le_u32_at(self.trailer_buf@, 0) && self.total_out
            == le_u32_at(self.trailer_buf@, 4))
        &&& (self.inflate_failed@ ==> self.phase is Failed)
        &&& (self.inflate_failed@ ==> self.taken@.len() >= 10 && gzip_magic_ok(self.taken@))
        &&& self.header_progress()
    }

    /// Once the header is accepted, the stream began with the gzip magic
    /// bytes and the DEFLATE method.
    pub proof fn lemma_accepted_header(&self)
        requires
            self.wf(),
            !self.in_header(),
            !self.failed(),
        ensures
            self.taken().len() >= 10,
            gzip_magic_ok(self.taken()),
    {
        assert(self.header_buf@[0] == self.taken@[0]);
        assert(self.header_buf@[1] == self.taken@[1]);
        assert(self.header_buf@[2] == self.taken@[2]);
    }

    /// A decompressor at the start of a stream.
    pub fn new() -> (r: Self)
        ensures
            r.wf(),
            r.produced() == Seq::<u8>::empty(),
            r.taken() == Seq::<u8>::empty(),
            r.in_header(),
            !r.done(),
            !r.failed(),
            !r.stalled(),
            !r.inflate_failed(),
    {
        let r = GzipStreamDecompressor {
            phase: Phase::Header,
            inflater: RawInflater::new(),
            header_buf: [0u8; 10],
            header_pos: 0,
            flg: 0,
            extra_len_buf: [0u8; 2],
            extra_len_pos: 0,
            hcrc_pos: 0,
            crc: 0xFFFF_FFFFu32,
            total_out: 0,
            trailer_buf: [0u8; 8],
            trailer_pos: 0,
            inflate_buf: [0u8; GZIP_STREAM_OUT_SIZE],
            out_buf: Vec::new(),
            taken: Ghost(Seq::empty()),
            produced: Ghost(Seq::empty()),
            stalled: Ghost(false),
            inflate_failed: Ghost(false),
            inflated_in: Ghost(Seq::empty()),
        };
        proof {
            assert(r.header_buf@.subrange(0, 0) =~= Seq::<u8>::empty());
        }
        r
    }

    /// Fields that the header and trailer steps leave alone.
    pub closed spec fn same_output(&self, other: &Self) -> bool {
        &&& self.produced@ == other.produced@
        &&& self.crc == other.crc
        &&& self.total_out == other.total_out
        &&& self.out_buf@ == other.out_buf@
    }

    /// Collect fixed header bytes; once all 10 are in, check the magic and
    /// method and move on by the flags.
    fn consume_header(&mut self, data: &[u8]) -> (n: usize)
        requires
            old(self).wf(),
            old(self).phase is Header,
            data@.len() > 0,
        ensures
            final(self).wf(),
            final(self).same_output(old(self)),
            1 <= n <= data@.len(),
            final(self).taken@ == old(self).taken@ + data@.subrange(0, n as int),
            final(self).phase is Failed ==> final(self).taken@.len() >= 10 && !gzip_magic_ok(
                final(self).taken@,
            ),
            final(self).stalled == old(self).stalled,
            final(self).inflate_failed == old(self).inflate_failed,
    {
        let need = 10 - self.header_pos;
        let n = if need < data.len() {
            need
        } else {
            data.len()
        };
        let hp = self.header_pos;
        let mut buf = self.header_buf;
        let ghost h0 = self.header_buf@;
        let mut i: usize = 0;
        while i < n
            invariant
                i <= n,
                n <= data@.len(),
                hp + n <= 10,
                buf@.len() == 10,
                forall|k: int| 0 <= k < hp ==> buf@[k] == h0[k],
                forall|k: int| hp <= k < hp + i ==> buf@[k] == data@[k - hp],
            decreases n - i,
        {
            buf[hp + i] = data[i];
            i = i + 1;
        }
        self.header_buf = buf;
        self.header_pos = hp + n;
        proof {
            let t1 = self.taken@ + data@.subrange(0, n as int);
            assert(buf@.subrange(0, (hp + n) as int) =~= t1);
            self.taken = Ghost(t1);
        }
        if self.header_pos == 10 {
            proof {
                assert(self.taken@.subrange(0, 10) =~= self.taken@);
                assert(self.header_buf@.subrange(0, 10) =~= self.header_buf@);
            }
            if self.header_buf[0] != 0x1f || self.header_buf[1] != 0x8b || self.header_buf[2] != 8 {
                self.phase = Phase::Failed;
            } else {
                self.flg = self.header_buf[3];
                if self.flg & FEXTRA != 0 {
                    self.phase = Phase::ExtraLen;
                } else {
                    self.phase = after_extra_exec(self.flg);
                }
                proof {
                    let t = self.taken@;
                    assert(self.header_buf@[3] == t[3]);
                    assert(self.inflated_in@.len() == 0);
                    assert(t.subrange(10, 10) =~= self.inflated_in@);
                    assert(no_zero_from(t, 10));
                }
            }
        }
        n
    }

    /// Collect the two XLEN bytes of the extra field.
    fn consume_extra_len(&mut self, data: &[u8]) -> (n: usize)
        requires
            old(self).wf(),
            old(self).phase is ExtraLen,
            data@.len() > 0,
        ensures
            final(self).wf(),
            final(self).same_output(old(self)),
            1 <= n <= data@.len(),
            final(self).taken@ == old(self).taken@ + data@.subrange(0, n as int),
            !(final(self).phase is Failed),
            final(self).stalled == old(self).stalled,
            final(self).inflate_failed == old(self).inflate_failed,
    {
        let need = 2 - self.extra_len_pos;
        let n = if need < data.len() {
            need
        } else {
            data.len()
        };
        let ep = self.extra_len_pos;
        let mut buf = self.extra_len_buf;
        let ghost b0 = buf@;
        let mut i: usize = 0;
        while i < n
            invariant
                i <= n,
                n <= data@.len(),
                ep + n <= 2,
                buf@.len() == 2,
                forall|k: int| 0 <= k < ep ==> buf@[k] == b0[k],
                forall|k: int| ep <= k < ep + i ==> buf@[k] == data@[k - ep],
            decreases n - i,
        {
            buf[ep + i] = data[i];
            i = i + 1;
        }
        self.extra_len_buf = buf;
        self.extra_len_pos = ep + n;
        let ghost t0 = self.taken@;
        proof {
            lemma_prefix_kept(self.taken@, data@.subrange(0, n as int), 10);
            self.taken = Ghost(self.taken@ + data@.subrange(0, n as int));
            let t = self.taken@;
            assert(t[3] == t0[3]);
            if ep >= 1 {
                assert(t[10] == t0[10]);
            }
            assert forall|k: int| ep <= k < ep + n implies #[trigger] buf@[k] == t[10 + k] by {
                assert(t[10 + k] == data@[k - ep]);
            }
        }
        if self.extra_len_pos == 2 {
            let b0 = self.extra_len_buf[0];
            let b1 = self.extra_len_buf[1];
            let xlen: u16 = (b0 as u16) | ((b1 as u16) << 8u16);
            proof {
                assert(xlen == b0 + b1 * 256) by (bit_vector)
                    requires
                        xlen == (b0 as u16) | ((b1 as u16) << 8u16),
                ;
                assert(le16_at(self.taken@, 10) == xlen);
            }
            if xlen == 0 {
                self.phase = after_extra_exec(self.flg);
                proof {
                    let t = self.taken@;
                    assert(t.len() == 12);
                    assert(extra_end(t) == Some(12int));
                    assert(no_zero_from(t, 12));
                    assert(self.inflated_in@ =~= t.subrange(12, 12));
                }
            } else {
                self.phase = Phase::ExtraData { remaining: xlen };
            }
        }
        n
    }

    /// Skip bytes of the extra field.
    fn skip_extra_data(&mut self, data: &[u8]) -> (n: usize)
        requires
            old(self).wf(),
            old(self).phase is ExtraData,
            data@.len() > 0,
        ensures
            final(self).wf(),
            final(self).same_output(old(self)),
            1 <= n <= data@.len(),
            final(self).taken@ == old(self).taken@ + data@.subrange(0, n as int),
            !(final(self).phase is Failed),
            final(self).stalled == old(self).stalled,
            final(self).inflate_failed == old(self).inflate_failed,
    {
        let remaining: u16 = match self.phase {
            Phase::ExtraData { remaining } => remaining,
            _ => 0,
        };
        let skip: usize = if (remaining as usize) < data.len() {
            remaining as usize
        } else {
            data.len()
        };
        let new_remaining: u16 = remaining - (skip as u16);
        let ghost t0 = self.taken@;
        if new_remaining == 0 {
            self.phase = after_extra_exec(self.flg);
        } else {
            self.phase = Phase::ExtraData { remaining: new_remaining };
        }
        proof {
            lemma_prefix_kept(self.taken@, data@.subrange(0, skip as int), 10);
            self.taken = Ghost(self.taken@ + data@.subrange(0, skip as int));
            let t = self.taken@;
            assert(t[3] == t0[3]);
            assert(t[10] == t0[10]);
            assert(t[11] == t0[11]);
            if new_remaining == 0 {
                assert(extra_end(t) == Some(t.len() as int));
                assert(no_zero_from(t, t.len() as int));
                assert(self.inflated_in@ =~= t.subrange(t.len() as int, t.len() as int));
            }
        }
        skip
    }

    /// Skip a zero-terminated field (file name or comment), moving on at its end.
    fn skip_null_terminated(&mut self, data: &[u8]) -> (n: usize)
        requires
            old(self).wf(),
            old(self).phase is Name || old(self).phase is Comment,
            data@.len() > 0,
        ensures
            final(self).wf(),
            final(self).same_output(old(self)),
            1 <= n <= data@.len(),
            final(self).taken@ == old(self).taken@ + data@.subrange(0, n as int),
            !(final(self).phase is Failed),
            final(self).stalled == old(self).stalled,
            final(self).inflate_failed == old(self).inflate_failed,
    {
        let mut i: usize = 0;
        let mut found = false;
        while i < data.len() && !found
            invariant
                i <= data@.len(),
                found ==> i < data@.len() && data@[i as int] == 0,
                forall|k: int| 0 <= k < i ==> data@[k] != 0,
            decreases data@.len() - i + (if found { 0int } else { 1int }),
        {
            if data[i] == 0 {
                found = true;
            } else {
                i = i + 1;
            }
        }
        let n = if found {
            i + 1
        } else {
            data.len()
        };
        let ghost t0 = self.taken@;
        let ghost was_name = self.phase is Name;
        let ghost dd = data@.subrange(0, n as int);
        let ghost start = if was_name {
            extra_end(t0)->0
        } else {
            name_end(t0)->0
        };
        proof {
            let t = t0 + dd;
            lemma_header_end_bounds(t0);
            lemma_ends_stable(t0, dd);
            assert(t[3] == t0[3]);
            lemma_zero_after_skip(t0, dd, start);
            lemma_zero_after_shift(t0, dd, 0);
            if found {
                lemma_zero_at(dd, 0, i as int);
                assert(zero_after(t, start) == Some(t.len() as int));
            } else {
                assert forall|k: int| start <= k < t.len() implies #[trigger] t[k] != 0 by {
                    if k >= t0.len() {
                        assert(t[k] == data@[k - t0.len()]);
                    }
                }
            }
        }
        if found {
            let is_name = match self.phase {
                Phase::Name => true,
                _ => false,
            };
            if is_name && self.flg & FCOMMENT != 0 {
                self.phase = Phase::Comment;
            } else if self.flg & FTEXT_HCRC != 0 {
                self.phase = Phase::HeaderCrc;
            } else {
                self.phase = Phase::Deflate;
            }
        }
        proof {
            lemma_prefix_kept(self.taken@, data@.subrange(0, n as int), 10);
            self.taken = Ghost(self.taken@ + data@.subrange(0, n as int));
            let t = self.taken@;
            assert(t == t0 + dd);
            assert(self.inflated_in@ =~= t.subrange(t.len() as int, t.len() as int));
            assert(no_zero_from(t, t.len() as int));
        }
        n
    }

    /// Skip the two bytes of the header CRC.
    fn consume_header_crc(&mut self, data: &[u8]) -> (n: usize)
        requires
            old(self).wf(),
            old(self).phase is HeaderCrc,
            data@.len() > 0,
        ensures
            final(self).wf(),
            final(self).same_output(old(self)),
            1 <= n <= data@.len(),
            final(self).taken@ == old(self).taken@ + data@.subrange(0, n as int),
            !(final(self).phase is Failed),
            final(self).stalled == old(self).stalled,
            final(self).inflate_failed == old(self).inflate_failed,
    {
        let need = 2 - self.hcrc_pos;
        let n = if need < data.len() {
            need
        } else {
            data.len()
        };
        self.hcrc_pos = self.hcrc_pos + n;
        if self.hcrc_pos == 2 {
            self.phase = Phase::Deflate;
        }
        proof {
            let t0 = self.taken@;
            let d = data@.subrange(0, n as int);
            lemma_header_end_bounds(t0);
            lemma_ends_stable(t0, d);
            lemma_prefix_kept(t0, d, 10);
            self.taken = Ghost(t0 + d);
            let t = self.taken@;
            assert(t[3] == t0[3]);
            assert(self.inflated_in@ =~= t.subrange(t.len() as int, t.len() as int));
        }
        n
    }

    /// Take the first `written` bytes of the scratch buffer as output: the
    /// running CRC and count advance and the bytes join this feed's output.
    fn process_inflated(&mut self, written: usize)
        requires
            old(self).wf_core(),
            old(self).phase is Deflate,
            written <= old(self).inflate_buf@.len(),
        ensures
            final(self).wf_core(),
            final(self).inflater == old(self).inflater,
            final(self).inflated_in == old(self).inflated_in,
            final(self).phase == old(self).phase,
            final(self).taken@ == old(self).taken@,
            final(self).inflate_buf@.len() == old(self).inflate_buf@.len(),
            final(self).produced@ == old(self).produced@ + old(self).inflate_buf@.subrange(
                0,
                written as int,
            ),
            final(self).out_buf@ == old(self).out_buf@ + old(self).inflate_buf@.subrange(
                0,
                written as int,
            ),
            final(self).stalled == old(self).stalled,
            final(self).inflate_failed == old(self).inflate_failed,
    {
        let ghost src = self.inflate_buf@;
        let mut crc = self.crc;
        let mut chunk: Vec<u8> = Vec::new();
        let mut i: usize = 0;
        while i < written
            invariant
                written <= src.len(),
                src == self.inflate_buf@,
                i <= written,
                chunk@ == src.subrange(0, i as int),
                crc == crc_update(0xFFFF_FFFFu32, self.produced@ + chunk@),
            decreases written - i,
        {
            let byte = self.inflate_buf[i];
            proof {
                let next = src.subrange(0, i + 1);
                assert(next =~= chunk@.push(byte));
                assert((self.produced@ + chunk@.push(byte)).drop_last() =~= self.produced@ + chunk@);
            }
            crc = crc_byte_exec(crc, byte);
            chunk.push(byte);
            i = i + 1;
        }
        proof {
            assert(self.produced@ + Seq::<u8>::empty() =~= self.produced@);
        }
        let ghost added = chunk@;
        self.crc = crc;
        self.out_buf.append(&mut chunk);
        let w32: u32 = written as u32;
        let old_total = self.total_out;
        self.total_out = self.total_out.wrapping_add(w32);
        proof {
            let l: int = self.produced@.len() as int;
            self.produced = Ghost(self.produced@ + added);
            let m: int = 0x1_0000_0000;
            assert(self.produced@.len() == l + written);
            vstd::arithmetic::div_mod::lemma_add_mod_noop(l, written as int, m);
            vstd::arithmetic::div_mod::lemma_small_mod(written as nat, m as nat);
            vstd::arithmetic::div_mod::lemma_mod_bound(l + written, m);
            if old_total + w32 >= m {
                vstd::arithmetic::div_mod::lemma_mod_sub_multiples_vanish(old_total + w32, m);
                vstd::arithmetic::div_mod::lemma_small_mod((old_total + w32 - m) as nat, m as nat);
            } else {
                vstd::arithmetic::div_mod::lemma_small_mod((old_total + w32) as nat, m as nat);
            }
        }
    }
    /// Inflate from `data` until it is used up, the output stalls, the
    /// DEFLATE stream ends (on to the trailer) or it fails.
    fn inflate_all(&mut self, data: &[u8]) -> (r: Result<usize, GzipStreamError>)
        requires
            old(self).wf(),
            old(self).phase is Deflate,
        ensures
            final(self).wf(),
            final(self).produced@ == old(self).produced@ + final(self).out_buf@.subrange(
                old(self).out_buf@.len() as int,
                final(self).out_buf@.len() as int,
            ),
            final(self).out_buf@.len() >= old(self).out_buf@.len(),
            final(self).out_buf@.subrange(0, old(self).out_buf@.len() as int) == old(self).out_buf@,
            final(self).stalled == old(self).stalled,
            final(self).inflate_failed == old(self).inflate_failed,
            match r {
                Ok(n) => {
                    &&& n <= data@.len()
                    &&& (final(self).phase is Deflate || final(self).phase is Trailer)
                    &&& final(self).taken@ == old(self).taken@ + data@.subrange(0, n as int)
                },
                Err(e) => {
                    &&& e == GzipStreamError::DecompressFailed
                    &&& final(self).phase is Failed
                    &&& took_prefix(final(self).taken@, old(self).taken@, data@)
                },
            },
    {
        let ghost p0 = self.produced@;
        let ghost o0 = self.out_buf@;
        let ghost t0 = self.taken@;
        let ghost mut added: Seq<u8> = Seq::empty();
        let mut total: usize = 0;
        proof {
            assert(o0 + added =~= o0);
            assert(p0 + added =~= p0);
            assert(data@.subrange(0, 0) =~= Seq::<u8>::empty());
            assert(t0 + data@.subrange(0, 0) =~= t0);
        }
        loop
            invariant_except_break
                self.phase is Deflate,
            invariant
                self.wf(),
                total <= data@.len(),
                self.phase is Deflate || self.phase is Trailer,
                self.out_buf@ == o0 + added,
                self.produced@ == p0 + added,
                self.taken@ == t0 + data@.subrange(0, total as int),
                p0 == old(self).produced@,
                o0 == old(self).out_buf@,
                t0 == old(self).taken@,
                self.stalled == old(self).stalled,
                self.inflate_failed == old(self).inflate_failed,
            decreases data@.len() - total, usize::MAX - self.out_buf@.len(),
        {
            let rest = &data[total..data.len()];
            let (consumed, written, status) = self.inflater.step(rest, &mut self.inflate_buf);
            let ghost chunk = self.inflate_buf@.subrange(0, written as int);
            self.process_inflated(written);
            let out_len = self.out_buf.len();
            proof {
                lemma_append_assoc(o0, added, chunk);
                lemma_append_assoc(p0, added, chunk);
                added = added + chunk;
                let d = rest@.subrange(0, consumed as int);
                assert(d =~= data@.subrange(total as int, total + consumed));
                assert(data@.subrange(0, total + consumed) =~= data@.subrange(0, total as int) + d);
                lemma_append_assoc(t0, data@.subrange(0, total as int), d);
                lemma_prefix_kept(self.taken@, d, 10);
                lemma_deflate_part_extend(self.taken@, d, self.inflated_in@);
                self.taken = Ghost(self.taken@ + d);
                self.inflated_in = Ghost(self.inflated_in@ + d);
            }
            total = total + consumed;
            match status {
                InflateStatus::Progress => {
                    if total >= data.len() || (consumed == 0 && written == 0) {
                        break;
                    }
                },
                InflateStatus::StreamEnd => {
                    self.phase = Phase::Trailer;
                    break;
                },
                InflateStatus::Failed => {
                    self.phase = Phase::Failed;
                    proof {
                        assert(self.out_buf@.subrange(0, o0.len() as int) =~= o0);
                        assert(self.out_buf@.subrange(o0.len() as int, self.out_buf@.len() as int)
                            =~= added);
                        assert(self.taken@ == t0 + data@.subrange(0, total as int));
                        assert(self.taken@.len() - t0.len() == total);
                    }
                    return Err(GzipStreamError::DecompressFailed);
                },
            }
            assert(out_len <= usize::MAX);
        }
        proof {
            assert(self.out_buf@.subrange(0, o0.len() as int) =~= o0);
            assert(self.out_buf@.subrange(o0.len() as int, self.out_buf@.len() as int) =~= added);
        }
        Ok(total)
    }
    /// Collect trailer bytes; once all 8 are in, check the CRC-32 and the
    /// size against everything decompressed.
    fn consume_trailer(&mut self, data: &[u8]) -> (r: Result<usize, GzipStreamError>)
        requires
            old(self).wf(),
            old(self).phase is Trailer,
            data@.len() > 0,
        ensures
            final(self).wf(),
            final(self).same_output(old(self)),
            final(self).stalled == old(self).stalled,
            final(self).inflate_failed == old(self).inflate_failed,
            match r {
                Ok(n) => {
                    &&& 1 <= n <= data@.len()
                    &&& final(self).taken@ == old(self).taken@ + data@.subrange(0, n as int)
                    &&& (final(self).phase is Trailer || final(self).phase is Done)
                },
                Err(e) => {
                    &&& final(self).phase is Failed
                    &&& took_prefix(final(self).taken@, old(self).taken@, data@)
                    &&& (e == GzipStreamError::CrcMismatch ==> crc32_spec(final(self).produced@)
                        != final(self).trailer_crc())
                    &&& (e == GzipStreamError::SizeMismatch ==> crc32_spec(final(self).produced@)
                        == final(self).trailer_crc() && final(self).produced@.len() % 0x1_0000_0000
                        != final(self).trailer_size())
                    &&& (e == GzipStreamError::CrcMismatch || e == GzipStreamError::SizeMismatch)
                },
            },
    {
        let need = 8 - self.trailer_pos;
        let n = if need < data.len() {
            need
        } else {
            data.len()
        };
        let tp = self.trailer_pos;
        let mut buf = self.trailer_buf;
        let mut i: usize = 0;
        while i < n
            invariant
                i <= n,
                n <= data@.len(),
                tp + n <= 8,
                buf@.len() == 8,
            decreases n - i,
        {
            buf[tp + i] = data[i];
            i = i + 1;
        }
        self.trailer_buf = buf;
        self.trailer_pos = tp + n;
        proof {
            lemma_prefix_kept(self.taken@, data@.subrange(0, n as int), 10);
            lemma_deflate_part_extend(self.taken@, data@.subrange(0, n as int), self.inflated_in@);
            self.taken = Ghost(self.taken@ + data@.subrange(0, n as int));
            assert(self.taken@.len() - old(self).taken@.len() == n);
        }
        if self.trailer_pos == 8 {
            let stored_crc: u32 = (buf[0] as u32) | ((buf[1] as u32) << 8u32) | ((buf[2] as u32)
                << 16u32) | ((buf[3] as u32) << 24u32);
            let stored_size: u32 = (buf[4] as u32) | ((buf[5] as u32) << 8u32) | ((buf[6] as u32)
                << 16u32) | ((buf[7] as u32) << 24u32);
            if !self.crc != stored_crc {
                self.phase = Phase::Failed;
                return Err(GzipStreamError::CrcMismatch);
            }
            if self.total_out != stored_size {
                self.phase = Phase::Failed;
                return Err(GzipStreamError::SizeMismatch);
            }
            self.phase = Phase::Done;
        }
        Ok(n)
    }

    /// Feed the next chunk of the gzip stream; returns the bytes it
    /// decompressed to. After the last trailer byte is verified the
    /// decompressor is done and takes no more input.
    ///
    /// A DEFLATE step that neither takes input nor writes output ends the
    /// feed early with what was produced so far.
    pub fn feed(&mut self, input: &[u8]) -> (r: Result<&[u8], GzipStreamError>)
        requires
            old(self).wf(),
        ensures
            final(self).wf(),
            took_prefix(final(self).taken(), old(self).taken(), input@),
            old(self).failed() ==> final(self).failed(),
            old(self).done() ==> final(self).done(),
            old(self).done() || input@.len() == 0 ==> (r matches Ok(out) && out@.len() == 0
                && final(self).produced() == old(self).produced()),
            old(self).failed() && input@.len() > 0 ==> r == Err::<&[u8], GzipStreamError>(
                GzipStreamError::DecompressFailed,
            ),
            r is Ok && !final(self).done() && !final(self).stalled() ==> final(self).taken() == old(
                self,
            ).taken() + input@,
            final(self).stalled() ==> r is Ok && !final(self).failed() && !final(self).done()
                && !final(self).in_header(),
            !old(self).failed() && final(self).taken().len() >= 10 && !gzip_magic_ok(final(self).taken())
                ==> final(self).failed(),
            r is Ok && final(self).failed() && !old(self).failed() ==> final(self).taken().len() >= 10
                && !gzip_magic_ok(final(self).taken()),
            r matches Err(e) ==> old(self).failed() || (final(self).taken().len() >= 10
                && !gzip_magic_ok(final(self).taken())) || final(self).inflate_failed() || e
                == GzipStreamError::CrcMismatch || e == GzipStreamError::SizeMismatch,
            final(self).inflate_failed() ==> final(self).failed() && final(self).taken().len() >= 10
                && gzip_magic_ok(final(self).taken()),
            inflated_from_header_end(final(self).taken(), final(self).inflated_input()),
            final(self).in_deflate() ==> all_after_header(final(self).taken(), final(self).inflated_input()),
            final(self).done() || final(self).in_trailer() ==> final(self).produced() == raw_inflate(
                final(self).inflated_input(),
            ),
            match r {
                Ok(out) => final(self).produced() == old(self).produced() + out@,
                Err(e) => {
                    &&& final(self).failed()
                    &&& (e == GzipStreamError::CrcMismatch ==> crc32_spec(final(self).produced())
                        != final(self).trailer_crc())
                    &&& (e == GzipStreamError::SizeMismatch ==> crc32_spec(final(self).produced())
                        == final(self).trailer_crc() && final(self).produced().len() % 0x1_0000_0000
                        != final(self).trailer_size())
                    &&& (e == GzipStreamError::DecompressFailed || e == GzipStreamError::CrcMismatch
                        || e == GzipStreamError::SizeMismatch)
                },
            },
    {
        self.out_buf.clear();
        proof {
            self.stalled = Ghost(false);
        }
        let ghost p0 = self.produced@;
        let ghost t0 = self.taken@;
        let mut pos: usize = 0;
        proof {
            assert(p0 + self.out_buf@ =~= p0);
            assert(t0 + input@.subrange(0, 0) =~= t0);
        }
        while pos < input.len()
            invariant_except_break
                !self.stalled@,
            invariant
                self.wf(),
                pos <= input@.len(),
                self.produced@ == p0 + self.out_buf@,
                self.taken@ == t0 + input@.subrange(0, pos as int),
                p0 == old(self).produced@,
                t0 == old(self).taken@,
                old(self).failed() ==> self.phase is Failed && pos == 0,
                old(self).done() ==> self.phase is Done && self.out_buf@.len() == 0,
                input@.len() == 0 ==> self.out_buf@.len() == 0,
                self.inflate_failed@ == old(self).inflate_failed@,
                self.phase is Failed ==> old(self).failed() || (self.taken@.len() >= 10
                    && !gzip_magic_ok(self.taken@)),
            ensures
                pos >= input@.len() || !(self.phase is Failed),
                self.wf(),
                pos <= input@.len(),
                self.produced@ == p0 + self.out_buf@,
                self.taken@ == t0 + input@.subrange(0, pos as int),
                old(self).failed() ==> self.phase is Failed && pos == 0,
                old(self).done() ==> self.phase is Done && self.out_buf@.len() == 0,
                input@.len() == 0 ==> self.out_buf@.len() == 0,
                self.stalled@ ==> self.phase is Deflate,
                !self.stalled@ ==> pos >= input@.len() || self.phase is Done,
                self.inflate_failed@ == old(self).inflate_failed@,
                self.phase is Failed ==> old(self).failed() || (self.taken@.len() >= 10
                    && !gzip_magic_ok(self.taken@)),
            decreases input@.len() - pos, (if self.phase is Deflate { 1int } else { 0int }),
        {
            let rest = &input[pos..input.len()];
            let ghost before = self.taken@;
            let ghost out_before = self.out_buf@;
            let ghost pos0 = pos;
            let mut n: usize = 0;
            match self.phase {
                Phase::Header => {
                    n = self.consume_header(rest);
                },
                Phase::ExtraLen => {
                    n = self.consume_extra_len(rest);
                },
                Phase::ExtraData { .. } => {
                    n = self.skip_extra_data(rest);
                },
                Phase::Name => {
                    n = self.skip_null_terminated(rest);
                },
                Phase::Comment => {
                    n = self.skip_null_terminated(rest);
                },
                Phase::HeaderCrc => {
                    n = self.consume_header_crc(rest);
                },
                Phase::Deflate => {
                    match self.inflate_all(rest) {
                        Ok(k) => {
                            n = k;
                            proof {
                                lemma_append_assoc(
                                    p0,
                                    out_before,
                                    self.out_buf@.subrange(
                                        out_before.len() as int,
                                        self.out_buf@.len() as int,
                                    ),
                                );
                                assert(self.out_buf@ =~= out_before + self.out_buf@.subrange(
                                    out_before.len() as int,
                                    self.out_buf@.len() as int,
                                ));
                            }
                        },
                        Err(e) => {
                            proof {
                                lemma_took_prefix_chain(t0, input@, pos0 as int, self.taken@);
                                assert(before.subrange(0, 10)[0] == before[0]);
                                assert(before.subrange(0, 10)[1] == before[1]);
                                assert(before.subrange(0, 10)[2] == before[2]);
                                assert(gzip_magic_ok(before));
                                assert(self.taken@[0] == before[0]);
                                assert(self.taken@[1] == before[1]);
                                assert(self.taken@[2] == before[2]);
                                self.inflate_failed = Ghost(true);
                            }
                            return Err(e);
                        },
                    }
                    let stalled = match self.phase {
                        Phase::Deflate => n == 0,
                        _ => false,
                    };
                    if stalled {
                        proof {
                            self.stalled = Ghost(true);
                        }
                        break;
                    }
                },
                Phase::Trailer => {
                    match self.consume_trailer(rest) {
                        Ok(k) => {
                            n = k;
                        },
                        Err(e) => {
                            proof {
                                lemma_took_prefix_chain(t0, input@, pos0 as int, self.taken@);
                            }
                            return Err(e);
                        },
                    }
                },
                Phase::Done => {
                    break;
                },
                Phase::Failed => {
                    proof {
                        assert(input@.subrange(0, pos as int).len() == pos);
                        assert(input@.subrange(0, pos as int) =~= input@.subrange(0, self.taken@.len() - t0.len()));
                    }
                    return Err(GzipStreamError::DecompressFailed);
                },
            }
            proof {
                let d = rest@.subrange(0, n as int);
                assert(d =~= input@.subrange(pos0 as int, pos0 + n));
                assert(input@.subrange(0, pos0 + n) =~= input@.subrange(0, pos0 as int) + d);
                lemma_append_assoc(t0, input@.subrange(0, pos0 as int), d);
            }
            pos = pos + n;
        }
        proof {
            assert(self.taken@.len() - t0.len() == pos);
            if self.out_buf@.len() == 0 {
                assert(p0 + self.out_buf@ =~= p0);
            }
        }
        Ok(self.out_buf.as_slice())
    }

    /// Whether the stream was verified to the end of its trailer.
    pub fn is_done(&self) -> (r: bool)
        requires
            self.wf(),
        ensures
            r == self.done(),
            r ==> crc32_spec(self.produced()) == self.trailer_crc() && self.produced().len()
                % 0x1_0000_0000 == self.trailer_size(),
    {
        match self.phase {
            Phase::Done => true,
            _ => false,
        }
    }

    /// After the input ends: `Ok` when the stream was complete and verified,
    /// `Truncated` otherwise.
    pub fn finish(&self) -> (r: Result<(), GzipStreamError>)
        requires
            self.wf(),
        ensures
            r is Ok <==> self.done(),
            r matches Err(e) ==> e == GzipStreamError::Truncated,
    {
        if self.is_done() {
            Ok(())
        } else {
            Err(GzipStreamError::Truncated)
        }
    }
}

} // verus!
