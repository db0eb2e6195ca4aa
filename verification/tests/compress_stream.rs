use eomi_core::compress::{crc32, gzip_compress, GzipStreamDecompressor, GzipStreamError};

/// Feed an entire gzip blob in one call.
fn stream_decompress_all(data: &[u8]) -> Result<Vec<u8>, GzipStreamError> {
    let mut dec = GzipStreamDecompressor::new();
    let mut out = Vec::new();
    let chunk = dec.feed(data)?;
    out.extend_from_slice(chunk);
    dec.finish()?;
    Ok(out)
}

/// Feed a gzip blob in fixed-size chunks.
fn stream_decompress_chunked(data: &[u8], chunk_size: usize) -> Result<Vec<u8>, GzipStreamError> {
    let mut dec = GzipStreamDecompressor::new();
    let mut out = Vec::new();
    for chunk in data.chunks(chunk_size) {
        let decompressed = dec.feed(chunk)?;
        out.extend_from_slice(decompressed);
    }
    dec.finish()?;
    Ok(out)
}

#[test]
fn stream_roundtrip_single_feed() {
    let original = b"hello world";
    let compressed = gzip_compress(original).unwrap();
    let result = stream_decompress_all(&compressed).expect("should decompress");
    assert_eq!(result, original);
}

#[test]
fn stream_roundtrip_chunked_small() {
    // Feed byte-by-byte — exercises all state transitions
    let original = b"streaming gzip decompression test data";
    let compressed = gzip_compress(original).unwrap();
    let result = stream_decompress_chunked(&compressed, 1).expect("should decompress");
    assert_eq!(result, original);
}

#[test]
fn stream_roundtrip_chunked_medium() {
    // Typical OTA chunk size
    let original = vec![0xAB; 16384];
    let compressed = gzip_compress(&original).unwrap();
    let result = stream_decompress_chunked(&compressed, 4096).expect("should decompress");
    assert_eq!(result, original);
}

#[test]
fn stream_roundtrip_empty() {
    let compressed = gzip_compress(b"").unwrap();
    let result = stream_decompress_all(&compressed).expect("should decompress");
    assert!(result.is_empty());
}

#[test]
fn stream_rejects_bad_magic() {
    let mut compressed = gzip_compress(b"hello").unwrap();
    compressed[0] = 0x00;
    let mut dec = GzipStreamDecompressor::new();
    // After feeding the bad header, next feed should fail
    let r = dec.feed(&compressed);
    assert!(r.is_err() || dec.feed(&[]).is_err() || !dec.is_done());
}

#[test]
fn stream_rejects_bad_crc() {
    let mut compressed = gzip_compress(b"hello").unwrap();
    let trailer_start = compressed.len() - 8;
    compressed[trailer_start] ^= 0xff; // corrupt CRC32
    let result = stream_decompress_all(&compressed);
    assert_eq!(result, Err(GzipStreamError::CrcMismatch));
}

#[test]
fn stream_rejects_bad_isize() {
    let mut compressed = gzip_compress(b"hello").unwrap();
    let len = compressed.len();
    compressed[len - 1] ^= 0xff; // corrupt ISIZE
    let result = stream_decompress_all(&compressed);
    assert_eq!(result, Err(GzipStreamError::SizeMismatch));
}

#[test]
fn stream_rejects_truncated_header() {
    let compressed = gzip_compress(b"hello").unwrap();
    // Only feed 5 bytes of header
    let mut dec = GzipStreamDecompressor::new();
    let _ = dec.feed(&compressed[..5]);
    assert_eq!(dec.finish(), Err(GzipStreamError::Truncated));
}

#[test]
fn stream_rejects_truncated_deflate() {
    let compressed = gzip_compress(b"hello world, this is some test data").unwrap();
    let mid = compressed.len() / 2;
    let mut dec = GzipStreamDecompressor::new();
    let _ = dec.feed(&compressed[..mid]);
    assert_eq!(dec.finish(), Err(GzipStreamError::Truncated));
}

#[test]
fn stream_rejects_truncated_trailer() {
    let compressed = gzip_compress(b"hello").unwrap();
    // Feed everything except the last 3 bytes of trailer
    let mut dec = GzipStreamDecompressor::new();
    let _ = dec.feed(&compressed[..compressed.len() - 3]);
    assert_eq!(dec.finish(), Err(GzipStreamError::Truncated));
}

#[test]
fn stream_rejects_corrupted_deflate() {
    let mut compressed = gzip_compress(b"hello world test data").unwrap();
    if compressed.len() > 14 {
        compressed[12] ^= 0xFF; // corrupt deflate payload
    }
    let mut dec = GzipStreamDecompressor::new();
    let result = dec.feed(&compressed);
    assert!(result.is_err() || dec.finish().is_err());
}

#[test]
fn stream_large_data_chunked() {
    // 64KB of varied data — realistic firmware-like payload
    let original: Vec<u8> = (0..65536).map(|i| (i % 251) as u8).collect();
    let compressed = gzip_compress(&original).unwrap();
    let result = stream_decompress_chunked(&compressed, 4096).expect("should decompress");
    assert_eq!(result, original);
}

#[test]
fn stream_is_done_after_success() {
    let compressed = gzip_compress(b"test").unwrap();
    let mut dec = GzipStreamDecompressor::new();
    let _ = dec.feed(&compressed).unwrap();
    assert!(dec.is_done());
    assert!(dec.finish().is_ok());
}

#[test]
fn stream_crc32_matches_standalone() {
    // Verify the streaming CRC32 produces the same result as the
    // standalone crc32() function
    let original = b"verify crc32 consistency";
    let compressed = gzip_compress(original).unwrap();
    let result = stream_decompress_all(&compressed).expect("should decompress");
    assert_eq!(result, original);
    assert_eq!(crc32(&result), crc32(original));
}


/// Rebuild a gzip blob with FEXTRA, FNAME, FCOMMENT and FHCRC fields.
fn with_optional_fields(plain: &[u8]) -> Vec<u8> {
    let base = gzip_compress(plain).unwrap();
    let mut out = Vec::new();
    out.extend_from_slice(&base[..3]);
    out.push(base[3] | 4 | 8 | 16 | 2);
    out.extend_from_slice(&base[4..10]);
    out.extend_from_slice(&[3, 0, 0xAA, 0xBB, 0xCC]); // XLEN = 3 + extra data
    out.extend_from_slice(b"firmware.bin\0");
    out.extend_from_slice(b"a comment\0");
    out.extend_from_slice(&[0x12, 0x34]); // header CRC16 (skipped)
    out.extend_from_slice(&base[10..]);
    out
}

#[test]
fn stream_optional_header_fields_single_feed() {
    let original = b"optional header fields";
    let blob = with_optional_fields(original);
    assert_eq!(stream_decompress_all(&blob).unwrap(), original);
}

#[test]
fn stream_optional_header_fields_byte_by_byte() {
    let original = b"optional header fields, fed one byte at a time";
    let blob = with_optional_fields(original);
    assert_eq!(stream_decompress_chunked(&blob, 1).unwrap(), original);
}

#[test]
fn stream_failed_stays_failed() {
    let mut compressed = gzip_compress(b"hello").unwrap();
    compressed[1] = 0x00;
    let mut dec = GzipStreamDecompressor::new();
    assert_eq!(dec.feed(&compressed), Err(GzipStreamError::DecompressFailed));
    assert_eq!(dec.feed(b"more"), Err(GzipStreamError::DecompressFailed));
    assert_eq!(dec.finish(), Err(GzipStreamError::Truncated));
}

#[test]
fn stream_bad_method_fails() {
    let mut compressed = gzip_compress(b"hello").unwrap();
    compressed[2] = 7;
    assert_eq!(stream_decompress_all(&compressed), Err(GzipStreamError::DecompressFailed));
}

#[test]
fn stream_done_ignores_further_input() {
    let compressed = gzip_compress(b"done").unwrap();
    let mut dec = GzipStreamDecompressor::new();
    assert_eq!(dec.feed(&compressed).unwrap(), b"done");
    assert!(dec.is_done());
    assert_eq!(dec.feed(b"trailing garbage").unwrap(), b"");
    assert!(dec.is_done());
}

#[test]
fn stream_empty_feed_is_empty_output() {
    let mut dec = GzipStreamDecompressor::new();
    assert_eq!(dec.feed(&[]).unwrap(), b"");
    assert!(!dec.is_done());
}
