use eomi_core::crypto::{blake2b, blake2b_1, sha256};

#[test]
fn sha256_empty() {
    let digest = sha256(b"");
    assert_eq!(
        digest,
        [
            0xe3, 0xb0, 0xc4, 0x42, 0x98, 0xfc, 0x1c, 0x14,
            0x9a, 0xfb, 0xf4, 0xc8, 0x99, 0x6f, 0xb9, 0x24,
            0x27, 0xae, 0x41, 0xe4, 0x64, 0x9b, 0x93, 0x4c,
            0xa4, 0x95, 0x99, 0x1b, 0x78, 0x52, 0xb8, 0x55,
        ]
    );
}

#[test]
fn sha256_abc() {
    let digest = sha256(b"abc");
    assert_eq!(
        digest,
        [
            0xba, 0x78, 0x16, 0xbf, 0x8f, 0x01, 0xcf, 0xea,
            0x41, 0x41, 0x40, 0xde, 0x5d, 0xae, 0x22, 0x23,
            0xb0, 0x03, 0x61, 0xa3, 0x96, 0x17, 0x7a, 0x9c,
            0xb4, 0x10, 0xff, 0x61, 0xf2, 0x00, 0x15, 0xad,
        ]
    );
}

#[test]
fn sha256_two_block() {
    let digest = sha256(b"abcdbcdecdefdefgefghfghighijhijkijkljklmklmnlmnomnopnopq");
    assert_eq!(
        digest,
        [
            0x24, 0x8d, 0x6a, 0x61, 0xd2, 0x06, 0x38, 0xb8,
            0xe5, 0xc0, 0x26, 0x93, 0x0c, 0x3e, 0x60, 0x39,
            0xa3, 0x3c, 0xe4, 0x59, 0x64, 0xff, 0x21, 0x67,
            0xf6, 0xec, 0xed, 0xd4, 0x19, 0xdb, 0x06, 0xc1,
        ]
    );
}

#[test]
fn sha256_deterministic() {
    let a = sha256(b"api-key-12345");
    let b = sha256(b"api-key-12345");
    assert_eq!(a, b);
}

#[test]
fn sha256_different_inputs_differ() {
    let a = sha256(b"key-alpha");
    let b = sha256(b"key-beta");
    assert_ne!(a, b);
}

#[test]
fn blake2b_empty_32() {
    // BLAKE2b-256("") from reference implementation
    let mut out = [0u8; 32];
    blake2b(b"", &mut out);
    assert_eq!(
        out,
        [
            0x0e, 0x57, 0x51, 0xc0, 0x26, 0xe5, 0x43, 0xb2,
            0xe8, 0xab, 0x2e, 0xb0, 0x60, 0x99, 0xda, 0xa1,
            0xd1, 0xe5, 0xdf, 0x47, 0x77, 0x8f, 0x77, 0x87,
            0xfa, 0xab, 0x45, 0xcd, 0xf1, 0x2f, 0xe3, 0xa8,
        ]
    );
}

#[test]
fn blake2b_abc_64() {
    // BLAKE2b-512("abc") from reference implementation
    let mut out = [0u8; 64];
    blake2b(b"abc", &mut out);
    assert_eq!(
        out,
        [
            0xba, 0x80, 0xa5, 0x3f, 0x98, 0x1c, 0x4d, 0x0d,
            0x6a, 0x27, 0x97, 0xb6, 0x9f, 0x12, 0xf6, 0xe9,
            0x4c, 0x21, 0x2f, 0x14, 0x68, 0x5a, 0xc4, 0xb7,
            0x4b, 0x12, 0xbb, 0x6f, 0xdb, 0xff, 0xa2, 0xd1,
            0x7d, 0x87, 0xc5, 0x39, 0x2a, 0xab, 0x79, 0x2d,
            0xc2, 0x52, 0xd5, 0xde, 0x45, 0x33, 0xcc, 0x95,
            0x18, 0xd3, 0x8a, 0xa8, 0xdb, 0xf1, 0x92, 0x5a,
            0xb9, 0x23, 0x86, 0xed, 0xd4, 0x00, 0x99, 0x23,
        ]
    );
}

#[test]
fn blake2b_1byte_output() {
    // Verify blake2b_1 returns the first byte of BLAKE2b(data, 1)
    let b = blake2b_1(b"test-pubkey");
    let mut out = [0u8; 1];
    blake2b(b"test-pubkey", &mut out);
    assert_eq!(b, out[0]);
}

#[test]
fn blake2b_1_deterministic() {
    let a = blake2b_1(b"pubkey-data");
    let b = blake2b_1(b"pubkey-data");
    assert_eq!(a, b);
}

#[test]
fn blake2b_1_different_inputs_differ() {
    let a = blake2b_1(b"pubkey-alpha");
    let b = blake2b_1(b"pubkey-beta");
    assert_ne!(a, b);
}


#[test]
fn sha256_padding_boundaries() {
    let d56: Vec<u8> = (0u8..56).collect();
    assert_eq!(sha256(&d56), [0xda, 0x2a, 0xe4, 0xd6, 0xb3, 0x67, 0x48, 0xf2, 0xa3, 0x18, 0xf2, 0x3e, 0x7a, 0xb1, 0xdf, 0xdf, 0x45, 0xac, 0xdc, 0x9d, 0x04, 0x9b, 0xd8, 0x0e, 0x59, 0xde, 0x82, 0xa6, 0x08, 0x95, 0xf5, 0x62]);
    let d64: Vec<u8> = (0u8..64).collect();
    assert_eq!(sha256(&d64), [0xfd, 0xea, 0xb9, 0xac, 0xf3, 0x71, 0x03, 0x62, 0xbd, 0x26, 0x58, 0xcd, 0xc9, 0xa2, 0x9e, 0x8f, 0x9c, 0x75, 0x7f, 0xcf, 0x98, 0x11, 0x60, 0x3a, 0x8c, 0x44, 0x7c, 0xd1, 0xd9, 0x15, 0x11, 0x08]);
}

#[test]
fn blake2b_multi_block_and_exact_block() {
    let d300: Vec<u8> = (0..300u32).map(|i| ((i * 7) & 255) as u8).collect();
    let mut out = [0u8; 64];
    blake2b(&d300, &mut out);
    assert_eq!(out.to_vec(), vec![0x2d, 0xed, 0x56, 0xc1, 0x84, 0x25, 0x38, 0xde, 0xaf, 0x03, 0x46, 0xae, 0x8d, 0x44, 0x98, 0xb9, 0x43, 0xb6, 0x6c, 0x49, 0xb0, 0x04, 0x1a, 0x98, 0xcd, 0xdd, 0xd6, 0x5d, 0x3a, 0x4b, 0xa0, 0x27, 0xa8, 0xec, 0xbf, 0x78, 0xfc, 0x78, 0x01, 0x22, 0xeb, 0xde, 0x2e, 0x5d, 0x26, 0xf2, 0xeb, 0x23, 0x38, 0xdc, 0x5d, 0x0f, 0x30, 0x7c, 0xb1, 0x97, 0xcc, 0x95, 0x54, 0x2e, 0xaf, 0x73, 0x18, 0x22]);
    let d128: Vec<u8> = (0u8..128).collect();
    let mut out16 = [0u8; 16];
    blake2b(&d128, &mut out16);
    assert_eq!(out16, [0xa7, 0x47, 0x87, 0x00, 0x4e, 0xf5, 0x89, 0xe3, 0x11, 0x49, 0x18, 0x39, 0x00, 0xd0, 0x29, 0x4a]);
    assert_eq!(blake2b_1(b"abc"), 0x6b);
}
