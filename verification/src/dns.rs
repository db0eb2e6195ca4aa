//! Lightweight DNS responder logic for the captive portal.
//!
//! Answers every A-record query with the AP address so that any lookup
//! resolves to the device; other queries get an empty (no-answer) response.

use vstd::prelude::*;
use crate::scan::{self, split_chars, parse_unsigned};
use crate::text::chars_of;

verus! {

/// DNS header length in bytes.
pub const HEADER_LEN: usize = 12;

/// Where the label sequence that starts at `pos` ends: after its zero
/// terminator, or after a two-byte compression pointer; nothing when the
/// labels run past the end of the data.
pub open spec fn labels_end(data: Seq<u8>, pos: nat) -> Option<nat>
    decreases data.len() - pos,
{
    if pos >= data.len() {
        None
    } else {
        let len = data[pos as int];
        if len == 0 {
            Some(pos + 1)
        } else if len >= 0xC0 {
            Some(pos + 2)
        } else if pos + 1 + len < data.len() {
            labels_end(data, pos + 1 + len as nat)
        } else {
            None
        }
    }
}

/// The length of the first question entry (QNAME, QTYPE and QCLASS) of `data`.
pub open spec fn question_len(data: Seq<u8>) -> Option<nat> {
    match labels_end(data, 0) {
        Some(p) => if p + 4 <= data.len() {
            Some(p + 4)
        } else {
            None
        },
        None => None,
    }
}

/// The answer record: a pointer to the question name, type A, class IN,
/// a TTL of 60 seconds and the four address bytes.
pub open spec fn answer_record(ip: Seq<u8>) -> Seq<u8> {
    seq![0xC0u8, 0x0C, 0x00, 0x01, 0x00, 0x01, 0x00, 0x00, 0x00, 0x3C, 0x00, 0x04] + ip
}

/// The response to a query: the query's transaction ID, flags QR, AA, RD
/// and RA, one question (echoed) and, for an A query, one answer with `ip`;
/// nothing when the query is too short or its question is malformed.
pub open spec fn dns_response(query: Seq<u8>, ip: Seq<u8>) -> Option<Seq<u8>> {
    if query.len() < 12 {
        None
    } else {
        match question_len(query.subrange(12, query.len() as int)) {
            None => None,
            Some(q) => {
                let question = query.subrange(12, 12 + q as int);
                let is_a = question[q - 4] == 0 && question[q - 3] == 1;
                let header = seq![
                    query[0],
                    query[1],
                    0x85u8,
                    0x80,
                    0x00,
                    0x01,
                    0x00,
                    if is_a { 1u8 } else { 0u8 },
                    0x00,
                    0x00,
                    0x00,
                    0x00
                ];
                Some(
                    header + question + if is_a {
                        answer_record(ip)
                    } else {
                        Seq::empty()
                    },
                )
            },
        }
    }
}

/// Where the label sequence at the start of `data` ends, if it ends inside it.
fn find_labels_end(data: &[u8]) -> (r: Option<usize>)
    requires
        data@.len() <= isize::MAX,
    ensures
        match r {
            Some(p) => labels_end(data@, 0) == Some(p as nat) && p <= data@.len() + 1,
            None => labels_end(data@, 0) is None,
        },
{
    let mut pos: usize = 0;
    while pos < data.len()
        invariant
            pos <= data@.len(),
            data@.len() <= isize::MAX,
            labels_end(data@, 0) == labels_end(data@, pos as nat),
        decreases data@.len() - pos,
    {
        let len = data[pos] as usize;
        if len == 0 {
            return Some(pos + 1);
        }
        if len >= 0xC0 {
            return Some(pos + 2);
        }
        if pos + 1 + len >= data.len() {
            return None;
        }
        pos = pos + 1 + len;
    }
    None
}

/// Skip one DNS question entry (QNAME + QTYPE + QCLASS), returning the
/// number of bytes it takes, or `None` if it is malformed.
pub fn skip_question(data: &[u8]) -> (r: Option<usize>)
    requires
        data@.len() <= isize::MAX,
    ensures
        match r {
            Some(n) => question_len(data@) == Some(n as nat),
            None => question_len(data@) is None,
        },
{
    let pos = match find_labels_end(data) {
        Some(p) => p,
        None => return None,
    };
    if pos > data.len() || data.len() - pos < 4 {
        return None;
    }
    Some(pos + 4)
}

/// Build a DNS response that answers an A query with `ip`.
///
/// Copies the transaction ID, sets QR=1, AA=1, RD=1, RA=1, echoes the
/// question section and, for an A query, appends one A record pointing to
/// `ip`. Returns `None` if the query is too short to be valid DNS or its
/// question is malformed.
pub fn build_response(query: &[u8], ip: [u8; 4]) -> (r: Option<Vec<u8>>)
    requires
        query@.len() <= isize::MAX,
    ensures
        match r {
            Some(v) => dns_response(query@, ip@) == Some(v@),
            None => dns_response(query@, ip@) is None,
        },
{
    if query.len() < HEADER_LEN {
        return None;
    }
    let qn = query.len();
    let rest = &query[HEADER_LEN..qn];
    let q_end = match skip_question(rest) {
        Some(n) => n,
        None => return None,
    };
    let question_end = HEADER_LEN + q_end;
    let question = &query[HEADER_LEN..question_end];
    let qlen = question.len();
    let has_answer = question[qlen - 4] == 0 && question[qlen - 3] == 1;
    let mut resp: Vec<u8> = Vec::new();
    resp.push(query[0]);
    resp.push(query[1]);
    resp.push(0x85);
    resp.push(0x80);
    resp.push(0x00);
    resp.push(0x01);
    resp.push(0x00);
    resp.push(if has_answer { 1u8 } else { 0u8 });
    resp.push(0x00);
    resp.push(0x00);
    resp.push(0x00);
    resp.push(0x00);
    let ghost header = resp@;
    let mut i: usize = 0;
    while i < qlen
        invariant
            qlen == question@.len(),
            i <= qlen,
            resp@ == header + question@.subrange(0, i as int),
        decreases qlen - i,
    {
        resp.push(question[i]);
        proof {
            assert(question@.subrange(0, i + 1) =~= question@.subrange(0, i as int).push(question@[i as int]));
        }
        i = i + 1;
    }
    proof {
        assert(question@.subrange(0, qlen as int) =~= question@);
    }
    let ghost with_question = resp@;
    if has_answer {
        resp.push(0xC0);
        resp.push(0x0C);
        resp.push(0x00);
        resp.push(0x01);
        resp.push(0x00);
        resp.push(0x01);
        resp.push(0x00);
        resp.push(0x00);
        resp.push(0x00);
        resp.push(0x3C);
        resp.push(0x00);
        resp.push(0x04);
        resp.push(ip[0]);
        resp.push(ip[1]);
        resp.push(ip[2]);
        resp.push(ip[3]);
        proof {
            assert(resp@ =~= with_question + answer_record(ip@));
        }
    } else {
        proof {
            assert(resp@ =~= with_question + Seq::<u8>::empty());
        }
    }
    proof {
        assert(rest@ =~= query@.subrange(12, query@.len() as int));
        assert(question@ =~= query@.subrange(12, 12 + q_end));
    }
    Some(resp)
}

/// The address that dotted text like "192.168.4.1" names: exactly four parts,
/// each a number from 0 to 255 as `str::parse::<u8>` reads it.
pub open spec fn spec_parse_ip(s: Seq<char>) -> Option<Seq<u8>> {
    let parts = split_chars(s, '.');
    if parts.len() == 4 && (forall|k: int| 0 <= k < 4 ==> parse_unsigned(#[trigger] parts[k], 255) is Some) {
        Some(Seq::new(4, |k: int| parse_unsigned(parts[k], 255)->Some_0 as u8))
    } else {
        None
    }
}

/// Parse a dotted IP string like "192.168.4.1" into 4 bytes.
pub fn parse_ip(s: &str) -> (r: Option<[u8; 4]>)
    ensures
        match r {
            Some(a) => spec_parse_ip(s@) == Some(a@),
            None => spec_parse_ip(s@) is None,
        },
{
    let cs = chars_of(s);
    let ranges = scan::split_ranges(cs.as_slice(), '.');
    let ghost parts = split_chars(s@, '.');
    if ranges.len() != 4 {
        return None;
    }
    let mut octets: [u8; 4] = [0u8; 4];
    let mut k: usize = 0;
    while k < 4
        invariant
            cs@ == s@,
            parts == split_chars(s@, '.'),
            ranges@.len() == 4,
            parts.len() == 4,
            forall|j: int|
                0 <= j < ranges@.len() ==> (#[trigger] ranges@[j]).0 <= ranges@[j].1 <= cs@.len()
                    && cs@.subrange(ranges@[j].0 as int, ranges@[j].1 as int) == parts[j],
            k <= 4,
            octets@.len() == 4,
            forall|j: int| 0 <= j < k ==> parse_unsigned(#[trigger] parts[j], 255) is Some,
            forall|j: int|
                0 <= j < k ==> octets@[j] == parse_unsigned(#[trigger] parts[j], 255)->Some_0 as u8,
        decreases 4 - k,
    {
        let (a, b) = ranges[k];
        match scan::parse_unsigned_range(cs.as_slice(), a, b, 255) {
            Some(v) => {
                octets[k] = v as u8;
            },
            None => {
                return None;
            },
        }
        k = k + 1;
    }
    proof {
        assert(octets@ =~= Seq::new(4, |j: int| parse_unsigned(parts[j], 255)->Some_0 as u8));
    }
    Some(octets)
}

} // verus!
