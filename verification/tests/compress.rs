use eomi_core::compress::{crc32, gzip_compress, gzip_decompress};

#[test]
fn crc32_empty() {
    assert_eq!(crc32(b""), 0x0000_0000);
}

#[test]
fn crc32_known_value() {
    // "123456789" has well-known CRC32 = 0xCBF43926
    assert_eq!(crc32(b"123456789"), 0xCBF4_3926);
}

#[test]
fn gzip_valid_header() {
    let compressed = gzip_compress(b"hello").unwrap();
    assert!(compressed.len() >= 18); // 10 header + min 1 byte data + 8 trailer
    assert_eq!(compressed[0], 0x1f); // ID1
    assert_eq!(compressed[1], 0x8b); // ID2
    assert_eq!(compressed[2], 8); // CM = deflate
}

#[test]
fn gzip_roundtrip() {
    let original = b"<html><body><h1>Hello World</h1></body></html>";
    let compressed = gzip_compress(original).unwrap();

    // Compressed should be smaller than original for repetitive HTML
    // (or at least produce valid output)
    assert!(compressed.len() >= 18);

    // Verify trailer CRC32 and size
    let trailer_start = compressed.len() - 8;
    let stored_crc = u32::from_le_bytes([
        compressed[trailer_start],
        compressed[trailer_start + 1],
        compressed[trailer_start + 2],
        compressed[trailer_start + 3],
    ]);
    let stored_size = u32::from_le_bytes([
        compressed[trailer_start + 4],
        compressed[trailer_start + 5],
        compressed[trailer_start + 6],
        compressed[trailer_start + 7],
    ]);
    assert_eq!(stored_crc, crc32(original));
    assert_eq!(stored_size, original.len() as u32);
}

#[test]
fn gzip_decompressible() {
    // Verify compress → decompress roundtrip
    let original = b"<h1>Test</h1><p>Content here</p>";
    let compressed = gzip_compress(original).unwrap();
    let decompressed = gzip_decompress(&compressed, 1024).expect("should decompress");
    assert_eq!(&decompressed[..], original);
}

#[test]
fn gzip_empty_input() {
    let compressed = gzip_compress(b"").unwrap();
    assert!(compressed.len() >= 18);
    let trailer_start = compressed.len() - 8;
    let stored_size = u32::from_le_bytes([
        compressed[trailer_start + 4],
        compressed[trailer_start + 5],
        compressed[trailer_start + 6],
        compressed[trailer_start + 7],
    ]);
    assert_eq!(stored_size, 0);
}

#[test]
fn gzip_decompress_rejects_bad_crc() {
    let mut compressed = gzip_compress(b"hello").unwrap();
    let trailer_start = compressed.len() - 8;
    // Corrupt the CRC32
    compressed[trailer_start] ^= 0xff;
    assert!(gzip_decompress(&compressed, 1024).is_none());
}

#[test]
fn gzip_decompress_rejects_bad_isize() {
    let mut compressed = gzip_compress(b"hello").unwrap();
    let len = compressed.len();
    // Corrupt the ISIZE (last 4 bytes)
    compressed[len - 1] ^= 0xff;
    assert!(gzip_decompress(&compressed, 1024).is_none());
}

#[test]
fn gzip_decompress_roundtrip() {
    let original = b"<html><body>test</body></html>";
    let compressed = gzip_compress(original).unwrap();
    let decompressed = gzip_decompress(&compressed, 1024).expect("should decompress");
    assert_eq!(&decompressed, original);
}

#[test]
fn gzip_decompress_rejects_oversized_output() {
    let original = vec![0u8; 1024];
    let compressed = gzip_compress(&original).unwrap();
    // Limit smaller than the decompressed size — should be rejected
    assert!(gzip_decompress(&compressed, 512).is_none());
    // Exact limit should succeed
    assert!(gzip_decompress(&compressed, 1024).is_some());
}

#[test]
fn gzip_decompress_rejects_truncated_no_trailer() {
    // Valid header but no trailer (only 10 bytes)
    let compressed = gzip_compress(b"hello").unwrap();
    let truncated = &compressed[..10]; // header only, no deflate data or trailer
    assert!(gzip_decompress(truncated, 1024).is_none());
}

#[test]
fn gzip_decompress_rejects_truncated_mid_deflate() {
    let compressed = gzip_compress(b"hello world, this is some data to compress").unwrap();
    // Cut in the middle of the deflate stream (keep header + partial payload)
    let mid = 10 + (compressed.len() - 18) / 2; // halfway through deflate
    let truncated = &compressed[..mid];
    assert!(gzip_decompress(truncated, 1024).is_none());
}

#[test]
fn gzip_decompress_rejects_too_short() {
    // Less than 18 bytes (minimum gzip)
    assert!(gzip_decompress(&[0x1f, 0x8b, 8, 0, 0, 0, 0, 0, 0, 0xff], 1024).is_none());
    assert!(gzip_decompress(&[], 1024).is_none());
    assert!(gzip_decompress(&[0x1f], 1024).is_none());
}

#[test]
fn gzip_decompress_rejects_bad_magic() {
    let mut compressed = gzip_compress(b"hello").unwrap();
    compressed[0] = 0x00; // corrupt ID1
    assert!(gzip_decompress(&compressed, 1024).is_none());

    let mut compressed = gzip_compress(b"hello").unwrap();
    compressed[1] = 0x00; // corrupt ID2
    assert!(gzip_decompress(&compressed, 1024).is_none());
}

#[test]
fn gzip_decompress_rejects_bit_flipped_deflate() {
    let mut compressed = gzip_compress(b"hello world").unwrap();
    // Flip bits in the deflate payload (byte 12, middle of compressed data)
    if compressed.len() > 14 {
        compressed[12] ^= 0xFF;
    }
    assert!(gzip_decompress(&compressed, 1024).is_none());
}

#[test]
fn gzip_decompress_rejects_all_zeros_payload() {
    // Valid magic + zeroed out body — not valid deflate
    let mut bad = vec![0x1f, 0x8b, 8, 0, 0, 0, 0, 0, 0, 0xff];
    bad.extend_from_slice(&[0u8; 20]); // garbage deflate + fake trailer
    assert!(gzip_decompress(&bad, 1024).is_none());
}

#[test]
fn gzip_decompress_bomb_rejected_by_limit() {
    // Compress a large block of zeros (compresses very well)
    let bomb_data = vec![0u8; 100_000];
    let compressed = gzip_compress(&bomb_data).unwrap();
    // The compressed form should be much smaller than 100KB
    assert!(compressed.len() < 1000, "zeros should compress very well");
    // Decompress with a small limit — must be rejected
    assert!(gzip_decompress(&compressed, 1024).is_none());
    // Decompress with a limit just under the real size — must be rejected
    assert!(gzip_decompress(&compressed, 99_999).is_none());
    // Decompress with the exact size — should succeed
    assert!(gzip_decompress(&compressed, 100_000).is_some());
}

#[test]
fn gzip_decompress_bomb_large_ratio() {
    // 1MB of zeros — extreme compression ratio
    let bomb_data = vec![0u8; 1_000_000];
    let compressed = gzip_compress(&bomb_data).unwrap();
    // Should be tiny compressed
    assert!(compressed.len() < 2000);
    // With a reasonable limit, the bomb is defused
    assert!(gzip_decompress(&compressed, 65536).is_none());
}

#[test]
fn gzip_decompress_swapped_trailer_fields() {
    // Swap CRC32 and ISIZE in the trailer
    let original = b"test data here";
    let mut compressed = gzip_compress(original).unwrap();
    let len = compressed.len();
    // Swap last 8 bytes: CRC32(4) <-> ISIZE(4)
    let crc_bytes: [u8; 4] = compressed[len - 8..len - 4].try_into().unwrap();
    let isize_bytes: [u8; 4] = compressed[len - 4..len].try_into().unwrap();
    compressed[len - 8..len - 4].copy_from_slice(&isize_bytes);
    compressed[len - 4..len].copy_from_slice(&crc_bytes);
    assert!(gzip_decompress(&compressed, 1024).is_none());
}

#[test]
fn gzip_compresses_html() {
    // Realistic HTML content should compress well
    let html = "<html><head><style>\
        *{box-sizing:border-box;margin:0;padding:0}\
        body{font-family:sans-serif;padding:1em}\
        </style></head><body>\
        <h1>Device Setup</h1>\
        <p>Configure your device settings below.</p>\
        </body></html>";
    let compressed = gzip_compress(html.as_bytes()).unwrap();
    // HTML should compress significantly (at least 20% savings)
    assert!(
        compressed.len() < html.len(),
        "compressed {} >= original {}",
        compressed.len(),
        html.len()
    );
}

