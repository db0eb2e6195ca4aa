use eomi_core::dns::{build_response, parse_ip, HEADER_LEN};

/// Minimal valid DNS query for "example.com" type A class IN.
fn example_query() -> Vec<u8> {
    let mut q = Vec::new();
    // Header
    q.extend_from_slice(&[
        0xAB, 0xCD, // Transaction ID
        0x01, 0x00, // Flags: standard query, RD=1
        0x00, 0x01, // QDCOUNT = 1
        0x00, 0x00, // ANCOUNT = 0
        0x00, 0x00, // NSCOUNT = 0
        0x00, 0x00, // ARCOUNT = 0
    ]);
    // Question: example.com, type A, class IN
    q.extend_from_slice(&[
        7, b'e', b'x', b'a', b'm', b'p', b'l', b'e',
        3, b'c', b'o', b'm',
        0, // null terminator
        0x00, 0x01, // QTYPE = A
        0x00, 0x01, // QCLASS = IN
    ]);
    q
}

/// DNS query with QTYPE=AAAA (28) for IPv6.
fn aaaa_query() -> Vec<u8> {
    let mut q = Vec::new();
    q.extend_from_slice(&[
        0x12, 0x34, 0x01, 0x00,
        0x00, 0x01, 0x00, 0x00,
        0x00, 0x00, 0x00, 0x00,
    ]);
    q.extend_from_slice(&[
        7, b'e', b'x', b'a', b'm', b'p', b'l', b'e',
        3, b'c', b'o', b'm',
        0,
        0x00, 0x1C, // QTYPE = AAAA (28)
        0x00, 0x01,
    ]);
    q
}


#[test]
fn response_preserves_transaction_id() {
    let query = example_query();
    let resp = build_response(&query, [192, 168, 4, 1]).unwrap();
    assert_eq!(resp[0], 0xAB);
    assert_eq!(resp[1], 0xCD);
}

#[test]
fn response_sets_flags() {
    let query = example_query();
    let resp = build_response(&query, [192, 168, 4, 1]).unwrap();
    // QR=1, AA=1, RD=1, RA=1
    assert_eq!(resp[2], 0x85);
    assert_eq!(resp[3], 0x80);
}

#[test]
fn response_has_one_answer() {
    let query = example_query();
    let resp = build_response(&query, [192, 168, 4, 1]).unwrap();
    // QDCOUNT = 1
    assert_eq!(resp[4], 0x00);
    assert_eq!(resp[5], 0x01);
    // ANCOUNT = 1
    assert_eq!(resp[6], 0x00);
    assert_eq!(resp[7], 0x01);
}

#[test]
fn response_contains_redirect_ip() {
    let ip = [192, 168, 4, 1];
    let query = example_query();
    let resp = build_response(&query, ip).unwrap();
    // Last 4 bytes should be the IP
    let len = resp.len();
    assert_eq!(&resp[len - 4..], &ip);
}

#[test]
fn response_answer_has_correct_structure() {
    let query = example_query();
    let resp = build_response(&query, [10, 0, 0, 1]).unwrap();
    // Question section ends, then answer starts
    let q_section_len = query.len() - HEADER_LEN;
    let answer_start = HEADER_LEN + q_section_len;
    // Name pointer
    assert_eq!(resp[answer_start], 0xC0);
    assert_eq!(resp[answer_start + 1], 0x0C);
    // Type A
    assert_eq!(resp[answer_start + 2], 0x00);
    assert_eq!(resp[answer_start + 3], 0x01);
    // Class IN
    assert_eq!(resp[answer_start + 4], 0x00);
    assert_eq!(resp[answer_start + 5], 0x01);
    // TTL = 60
    assert_eq!(
        u32::from_be_bytes([
            resp[answer_start + 6],
            resp[answer_start + 7],
            resp[answer_start + 8],
            resp[answer_start + 9],
        ]),
        60
    );
    // RDLENGTH = 4
    assert_eq!(resp[answer_start + 10], 0x00);
    assert_eq!(resp[answer_start + 11], 0x04);
    // RDATA = IP
    assert_eq!(&resp[answer_start + 12..], &[10, 0, 0, 1]);
}

#[test]
fn aaaa_query_gets_empty_response() {
    let query = aaaa_query();
    let resp = build_response(&query, [192, 168, 4, 1]).unwrap();
    // ANCOUNT = 0 (no answer for non-A queries)
    assert_eq!(resp[6], 0x00);
    assert_eq!(resp[7], 0x00);
    // Response should just be header + question, no answer section
    let expected_len = HEADER_LEN + (query.len() - HEADER_LEN);
    assert_eq!(resp.len(), expected_len);
}

#[test]
fn rejects_too_short() {
    assert!(build_response(&[0; 5], [1, 2, 3, 4]).is_none());
    assert!(build_response(&[], [1, 2, 3, 4]).is_none());
}

#[test]
fn rejects_truncated_question() {
    // Header only, no question data despite QDCOUNT=1
    let mut q = vec![0u8; HEADER_LEN];
    q[4] = 0x00;
    q[5] = 0x01; // QDCOUNT = 1
    assert!(build_response(&q, [1, 2, 3, 4]).is_none());
}

#[test]
fn parse_ip_valid() {
    assert_eq!(parse_ip("192.168.4.1"), Some([192, 168, 4, 1]));
    assert_eq!(parse_ip("0.0.0.0"), Some([0, 0, 0, 0]));
    assert_eq!(parse_ip("255.255.255.255"), Some([255, 255, 255, 255]));
}

#[test]
fn parse_ip_invalid() {
    assert_eq!(parse_ip(""), None);
    assert_eq!(parse_ip("192.168.4"), None);
    assert_eq!(parse_ip("192.168.4.1.5"), None);
    assert_eq!(parse_ip("abc.def.ghi.jkl"), None);
    assert_eq!(parse_ip("256.0.0.1"), None);
}

#[test]
fn single_label_query() {
    let mut q = Vec::new();
    q.extend_from_slice(&[
        0x00, 0x01, 0x01, 0x00,
        0x00, 0x01, 0x00, 0x00,
        0x00, 0x00, 0x00, 0x00,
    ]);
    // Single label: "local"
    q.extend_from_slice(&[5, b'l', b'o', b'c', b'a', b'l', 0]);
    q.extend_from_slice(&[0x00, 0x01, 0x00, 0x01]); // A, IN
    let resp = build_response(&q, [192, 168, 4, 1]).unwrap();
    assert_eq!(resp[6], 0x00);
    assert_eq!(resp[7], 0x01); // ANCOUNT = 1
}


#[test]
fn compressed_name_question_is_echoed() {
    let mut q = vec![0x00, 0x07, 0x01, 0x00, 0x00, 0x01, 0x00, 0x00, 0x00, 0x00, 0x00, 0x00];
    q.extend_from_slice(&[0xC0, 0x0C, 0x00, 0x01, 0x00, 0x01]);
    let resp = build_response(&q, [10, 0, 0, 1]).unwrap();
    assert_eq!(resp.len(), 12 + 6 + 16);
    assert_eq!(&resp[12..18], &[0xC0, 0x0C, 0x00, 0x01, 0x00, 0x01]);
    assert_eq!(&resp[30..34], &[10, 0, 0, 1]);
}

#[test]
fn parse_ip_edge_cases() {
    assert_eq!(parse_ip("+1.2.3.4"), Some([1, 2, 3, 4]));
    assert_eq!(parse_ip("001.002.003.004"), Some([1, 2, 3, 4]));
    assert_eq!(parse_ip("1.2.3.256"), None);
    assert_eq!(parse_ip("1.2.3."), None);
    assert_eq!(parse_ip(""), None);
}
