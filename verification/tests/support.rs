use fasteetf::arena::align_up;
use fasteetf::tags;
use fasteetf::zlib::zlib_rs_impl;
use fasteetf::{EtfError, Limits, Needed, MAX_ATOM_LEN, MAX_DEPTH, MAX_REFERENCE_WORDS};

#[test]
fn align_up_rounds_to_alignment() {
    assert_eq!(align_up(0, 16), 0);
    assert_eq!(align_up(1, 16), 16);
    assert_eq!(align_up(16, 16), 16);
    assert_eq!(align_up(17, 8), 24);
    assert_eq!(align_up(5, 1), 5);
}

#[test]
fn needed_size_matches_is_exact() {
    assert_eq!(Needed::Size(3).size(), Some(3));
    assert!(Needed::Size(3).is_exact());
    assert_eq!(Needed::Unknown.size(), None);
    assert!(!Needed::Unknown.is_exact());
}

#[test]
fn limits_defaults() {
    let l = Limits::default();
    assert_eq!(l.max_depth, MAX_DEPTH);
    assert_eq!(l.max_depth, 128);
    assert_eq!(l.max_atom_len, MAX_ATOM_LEN);
    assert_eq!(l.max_atom_len, 65_535);
    assert_eq!(l.max_reference_words, MAX_REFERENCE_WORDS);
    assert_eq!(l.max_binary_size, 64 * 1024 * 1024);
    assert_eq!(l.max_list_len, 1_000_000);
    assert_eq!(l.max_map_len, 1_000_000);
    assert_eq!(l.max_tuple_arity, 1_000_000);
    assert_eq!(l.max_string_len, 65_535);
    assert!(l.expand_string_ext_to_list);
}

#[test]
fn tags_are_distinct() {
    let all = [
        tags::ATOM_UTF8_EXT,
        tags::SMALL_ATOM_UTF8_EXT,
        tags::SMALL_INTEGER_EXT,
        tags::INTEGER_EXT,
        tags::SMALL_BIG_EXT,
        tags::LARGE_BIG_EXT,
        tags::NEW_FLOAT_EXT,
        tags::FLOAT_EXT,
        tags::SMALL_TUPLE_EXT,
        tags::LARGE_TUPLE_EXT,
        tags::NIL_EXT,
        tags::STRING_EXT,
        tags::LIST_EXT,
        tags::MAP_EXT,
        tags::BINARY_EXT,
        tags::BIT_BINARY_EXT,
        tags::PID_EXT,
        tags::NEW_PID_EXT,
        tags::PORT_EXT,
        tags::NEW_PORT_EXT,
        tags::V4_PORT_EXT,
        tags::NEW_REFERENCE_EXT,
        tags::NEWER_REFERENCE_EXT,
        tags::NEW_FUN_EXT,
        tags::EXPORT_EXT,
        tags::RECORD_EXT,
        tags::COMPRESSED,
        tags::ATOM_CACHE_REF,
        tags::LOCAL_EXT,
    ];
    for i in 0..all.len() {
        for j in i + 1..all.len() {
            assert_ne!(all[i], all[j]);
        }
    }
    assert_eq!(tags::ETF_MAGIC, 131);
}

#[test]
fn zlib_rs_roundtrip() {
    let input = b"hello zlib-rs roundtrip payload!";
    let mut compressed = [0u8; 128];
    let n = zlib_rs_impl::compress(&mut compressed, input).unwrap();
    assert!(n > 0 && n < compressed.len());
    let mut out = [0u8; 32];
    zlib_rs_impl::decompress(&mut out, &compressed[..n]).unwrap();
    assert_eq!(&out, input);
}

#[test]
fn zlib_rs_decompress_corrupt_input() {
    let mut out = [0u8; 16];
    assert_eq!(
        zlib_rs_impl::decompress(&mut out, b"not a zlib stream"),
        Err(EtfError::DecompressionFailed)
    );
}

#[test]
fn zlib_rs_decompress_size_mismatch() {
    let mut compressed = [0u8; 128];
    let n = zlib_rs_impl::compress(&mut compressed, b"abc").unwrap();
    let mut out = [0u8; 64];
    assert_eq!(zlib_rs_impl::decompress(&mut out, &compressed[..n]), Err(EtfError::DecompressionFailed));
}

#[test]
fn zlib_rs_compress_undersized_target() {
    let input = [0xABu8; 256];
    let mut target = [0u8; 4];
    assert_eq!(zlib_rs_impl::compress(&mut target, &input), Err(EtfError::CompressionFailed));
}
