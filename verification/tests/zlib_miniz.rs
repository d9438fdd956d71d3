use fasteetf::zlib::miniz_oxide_impl::{compress, decompress};
use fasteetf::EtfError;

#[test]
fn miniz_oxide_impl_decompress_corrupt_input() {
    let mut out = [0u8; 16];
    let err = decompress(&mut out, b"not a zlib stream").unwrap_err();
    assert!(matches!(err, EtfError::DecompressionFailed));
}

#[test]
fn miniz_oxide_impl_roundtrip() {
    // Exactly 32 bytes: the decompressor requires the target to be filled
    // completely (the ETF wrapper sizes it from the header).
    let input = b"abcdefghijklmnopqrstuvwxyz012345";
    let mut compressed = [0u8; 128];
    let n = compress(&mut compressed, input).unwrap();
    assert!(n > 0 && n < compressed.len());
    let mut out = [0u8; 32];
    decompress(&mut out, &compressed[..n]).unwrap();
    assert_eq!(&out, input);
}

#[test]
fn decompress_size_mismatch() {
    // The stream ends having written fewer bytes than the target holds.
    let input = b"abc";
    let mut compressed = [0u8; 128];
    let n = compress(&mut compressed, input).unwrap();
    assert!(n > 0 && n < compressed.len());
    let mut out = [0u8; 64];
    let err = decompress(&mut out, &compressed[..n]).unwrap_err();
    assert!(matches!(err, EtfError::DecompressionFailed));
}

#[test]
fn miniz_oxide_impl_compress_undersized_target() {
    let input = [0xABu8; 256];
    let mut target = [0u8; 4];
    let err = compress(&mut target, &input).unwrap_err();
    assert!(matches!(err, EtfError::CompressionFailed));
}

#[test]
fn a_truncated_stream_is_refused() {
    let input = b"abcdefghijklmnopqrstuvwxyz012345";
    let mut compressed = [0u8; 128];
    let n = compress(&mut compressed, input).unwrap();
    let mut out = [0u8; 32];
    let err = decompress(&mut out, &compressed[..n - 1]).unwrap_err();
    assert!(matches!(err, EtfError::DecompressionFailed));
}

#[test]
fn a_stream_longer_than_the_target_is_refused() {
    let input = b"abcdefghijklmnopqrstuvwxyz012345";
    let mut compressed = [0u8; 128];
    let n = compress(&mut compressed, input).unwrap();
    let mut out = [0u8; 16];
    let err = decompress(&mut out, &compressed[..n]).unwrap_err();
    assert!(matches!(err, EtfError::DecompressionFailed));
}

#[test]
fn compression_writes_a_zlib_header() {
    let mut compressed = [0u8; 64];
    let n = compress(&mut compressed, b"hello").unwrap();
    assert!(n > 6);
    // CMF 0x78 (deflate, 32 KiB window); the header is a multiple of 31.
    assert_eq!(compressed[0], 0x78);
    assert_eq!((u16::from(compressed[0]) * 256 + u16::from(compressed[1])) % 31, 0);
}
