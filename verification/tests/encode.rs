use fasteetf::{
    encode_to_buf, encode_to_compressed, encode_to_vec, parse_etf, ArenaRegion, AtomUtf8, EtfError,
    FloatText, Limits, ParseOptions, Term, ZlibRs,
};

struct StdFloat;

impl FloatText for StdFloat {
    fn float_bits(text: &str) -> Option<u64> {
        text.trim_end().parse::<f64>().ok().map(f64::to_bits)
    }
}

fn encode(term: &Term) -> Vec<u8> {
    encode_to_vec(term).unwrap()
}

fn reparse<'a>(bytes: &'a [u8], arena: &[u8]) -> Term<'a> {
    parse_etf::<ZlibRs, StdFloat>(ParseOptions {
        input: bytes,
        ast_arena: ArenaRegion { start: arena.as_ptr() as usize, len: arena.len() },
        limits: Limits::default(),
        decompressed_buffer: None,
    })
    .unwrap()
}

#[test]
fn encodes_small_integer_from_readme() {
    let term = Term::Int(42);
    let mut buf = [0u8; 64];
    let written = encode_to_buf(&term, &mut buf).unwrap();
    assert_eq!(&buf[..written], &[131, 97, 42]);
}

#[test]
fn encode_int_writes_compact_form() {
    assert_eq!(encode(&Term::Int(0)), vec![131, 97, 0]);
    assert_eq!(encode(&Term::Int(255)), vec![131, 97, 255]);
    assert_eq!(encode(&Term::Int(256)), vec![131, 98, 0, 0, 1, 0]);
    assert_eq!(encode(&Term::Int(-1)), vec![131, 98, 255, 255, 255, 255]);
    assert_eq!(encode(&Term::Int(i32::MIN)), vec![131, 98, 128, 0, 0, 0]);
}

#[test]
fn encode_atom_small_form() {
    assert_eq!(encode(&Term::atom("ok")), vec![131, 119, 2, b'o', b'k']);
    let a = AtomUtf8::from_str("ok");
    assert!(a.eq_str("ok"));
    assert!(!a.eq_str("no"));
    assert_eq!(encode(&Term::Atom(a)), vec![131, 119, 2, b'o', b'k']);
    assert!(a == "ok");
    assert!("ok" == a);
    assert!(a != "no");
    assert!(a == AtomUtf8::from_bytes_unchecked(b"ok"));
    let t: Term = a.into();
    assert_eq!(encode(&t), vec![131, 119, 2, b'o', b'k']);
}

#[test]
fn encode_atom_large_form() {
    let name = "a".repeat(300);
    let bytes = encode(&Term::atom(&name));
    assert_eq!(&bytes[..4], &[131, 118, 1, 44]);
    assert_eq!(bytes.len(), 4 + 300);
}

#[test]
fn encode_small_big_small_form() {
    let digits = [1u8, 2, 3];
    let bytes = encode(&Term::BigInt { sign: 1, digits: &digits });
    assert_eq!(bytes, vec![131, 110, 3, 1, 1, 2, 3]);
}

#[test]
fn encode_small_big_upgrades_on_overflow() {
    let digits = vec![7u8; 256];
    let bytes = encode(&Term::BigInt { sign: 0, digits: &digits });
    assert_eq!(&bytes[..7], &[131, 111, 0, 0, 1, 0, 0]);
    assert_eq!(bytes.len(), 7 + 256);
}

#[test]
fn encodes_float_bits_big_endian() {
    let bits = 1.5f64.to_bits();
    let mut expected = vec![131, 70];
    expected.extend_from_slice(&bits.to_be_bytes());
    assert_eq!(encode(&Term::Float(bits)), expected);
}

#[test]
fn encodes_compound_terms() {
    assert_eq!(encode(&Term::List(vec![])), vec![131, 106]);
    assert_eq!(
        encode(&Term::List(vec![Term::Int(1)])),
        vec![131, 108, 0, 0, 0, 1, 97, 1, 106]
    );
    assert_eq!(
        encode(&Term::ImproperList(vec![Term::Int(1), Term::Int(2)])),
        vec![131, 108, 0, 0, 0, 1, 97, 1, 97, 2]
    );
    assert_eq!(
        encode(&Term::Tuple(vec![Term::Int(1), Term::Int(2)])),
        vec![131, 104, 2, 97, 1, 97, 2]
    );
    assert_eq!(
        encode(&Term::ErlangMap(vec![(Term::atom("a"), Term::Int(1))])),
        vec![131, 116, 0, 0, 0, 1, 119, 1, b'a', 97, 1]
    );
}

#[test]
fn encodes_large_tuple_header() {
    let elements: Vec<Term> = (0..256).map(|_| Term::Int(0)).collect();
    let bytes = encode(&Term::Tuple(elements));
    assert_eq!(&bytes[..6], &[131, 105, 0, 0, 1, 0]);
}

#[test]
fn encodes_binaries_and_strings() {
    assert_eq!(encode(&Term::Binary(&[1, 2])), vec![131, 109, 0, 0, 0, 2, 1, 2]);
    assert_eq!(
        encode(&Term::BitBinary { bits: 3, data: &[0xE0] }),
        vec![131, 77, 0, 0, 0, 1, 3, 0xE0]
    );
    assert_eq!(encode(&Term::String(b"hi")), vec![131, 107, 0, 2, b'h', b'i']);
}

#[test]
fn opaque_terms_are_reemitted_verbatim() {
    let pid = [88u8, 119, 1, b'n', 0, 0, 0, 1, 0, 0, 0, 2, 0, 0, 0, 3];
    assert_eq!(encode(&Term::Pid(&pid))[1..], pid[..]);
    let fun = [112u8, 0, 0, 0, 6, 0xAA, 0xBB];
    assert_eq!(encode(&Term::Function(&fun))[1..], fun[..]);
}

#[test]
fn improper_list_needs_a_tail() {
    // An improper list with no element before its tail encodes as it parses.
    let t = Term::ImproperList(vec![Term::Int(5)]);
    assert_eq!(encode(&t), vec![131, 108, 0, 0, 0, 0, 97, 5]);
    let mut buf = [0u8; 16];
    assert!(matches!(
        encode_to_buf(&Term::ImproperList(vec![]), &mut buf),
        Err(EtfError::InvalidSize)
    ));
}

#[test]
fn a_parsed_tail_only_list_encodes_back() {
    let data = [131u8, 108, 0, 0, 0, 0, 97, 5];
    let arena = [0u8; 1024];
    let t = reparse(&data, &arena);
    assert!(matches!(&t, Term::ImproperList(v) if v.len() == 1));
    assert_eq!(encode(&t), data.to_vec());
}

#[test]
fn small_buffer_is_unexpected_eof_and_left_untouched() {
    let mut buf = [9u8; 2];
    assert!(matches!(encode_to_buf(&Term::Int(300), &mut buf), Err(EtfError::UnexpectedEof)));
    assert_eq!(buf, [9, 9]);
}

#[test]
fn encode_to_buf_leaves_the_rest_of_the_buffer() {
    let mut buf = [9u8; 8];
    let n = encode_to_buf(&Term::Int(5), &mut buf).unwrap();
    assert_eq!(n, 3);
    assert_eq!(buf, [131, 97, 5, 9, 9, 9, 9, 9]);
}

#[test]
fn compressed_header_carries_the_payload_size() {
    let term = Term::Binary(&[0u8; 40]);
    let mut intermediate = [0u8; 128];
    let mut output = [0u8; 128];
    let n = encode_to_compressed::<ZlibRs>(&term, &mut intermediate, &mut output).unwrap();
    assert!(n > 6);
    // payload: tag, 4-byte length, 40 bytes
    assert_eq!(&output[..6], &[131, 80, 0, 0, 0, 45]);
    let mut tiny = [0u8; 4];
    assert!(matches!(
        encode_to_compressed::<ZlibRs>(&term, &mut intermediate, &mut tiny),
        Err(EtfError::UnexpectedEof)
    ));
    let mut small_intermediate = [0u8; 8];
    assert!(matches!(
        encode_to_compressed::<ZlibRs>(&term, &mut small_intermediate, &mut output),
        Err(EtfError::UnexpectedEof)
    ));
}

#[test]
fn parse_after_encode_gives_the_term_back() {
    let term = Term::Tuple(vec![
        Term::atom("ok"),
        Term::List(vec![Term::Int(1), Term::Int(-300)]),
        Term::ErlangMap(vec![(Term::Binary(b"k"), Term::Float(2.5f64.to_bits()))]),
        Term::ImproperList(vec![Term::Int(1), Term::atom("tail")]),
        Term::BigInt { sign: 1, digits: &[1, 2, 3, 4, 5, 6, 7, 8, 9] },
        Term::BitBinary { bits: 5, data: &[0xF8] },
    ]);
    let bytes = encode(&term);
    let arena = [0u8; 4096];
    let back = reparse(&bytes, &arena);
    assert_eq!(format!("{:?}", back), format!("{:?}", term));
    assert_eq!(encode(&back), bytes);
}

#[test]
fn parsed_opaque_terms_encode_back_and_parse_again() {
    let arena = [0u8; 4096];
    let streams: [&[u8]; 5] = [
        // NEW_PID_EXT: node 'node', then id, serial and creation.
        &[131, 88, 119, 4, b'n', b'o', b'd', b'e', 0, 0, 0, 1, 0, 0, 0, 2, 0, 0, 0, 3],
        // NEW_PORT_EXT: node 'a', then id and creation.
        &[131, 89, 119, 1, b'a', 0, 0, 0, 7, 0, 0, 0, 1],
        // NEWER_REFERENCE_EXT: one word, node 'a', creation, the word.
        &[131, 90, 0, 1, 119, 1, b'a', 0, 0, 0, 1, 0, 0, 0, 9],
        // NEW_FUN_EXT: a size of 6 that counts itself, then 2 body bytes.
        &[131, 112, 0, 0, 0, 6, 1, 2],
        // EXPORT_EXT: fun m:f/2.
        &[131, 113, 119, 1, b'm', 119, 1, b'f', 97, 2],
    ];
    for data in streams {
        let t = reparse(data, &arena);
        let again = encode(&t);
        assert_eq!(again, data.to_vec());
        let t2 = reparse(&again, &arena);
        assert_eq!(encode(&t2), data.to_vec());
    }
}

#[test]
fn parse_encode_parse_keeps_records_and_exports() {
    // {Record with a legacy float field, fun m:f/256}
    let mut data = vec![131, 104, 2, 67, 0, 0, 0, 1, 0, 119, 1, b'm', 119, 1, b'r', 119, 1, b'a', 99];
    let mut text = b"1.50000000000000000000e+00".to_vec();
    text.resize(31, 0);
    data.extend_from_slice(&text);
    data.extend_from_slice(&[113, 119, 1, b'm', 119, 1, b'f', 98, 0, 0, 1, 0]);
    let arena = [0u8; 4096];
    let t = reparse(&data, &arena);
    let v = encode(&t);
    assert_eq!(v, data);
    let arena2 = [0u8; 4096];
    let t2 = reparse(&v, &arena2);
    assert_eq!(format!("{:?}", t2), format!("{:?}", t));
}

fn parse_limited<'a>(bytes: &'a [u8], arena: &[u8], limits: Limits) -> Result<Term<'a>, EtfError> {
    parse_etf::<ZlibRs, StdFloat>(ParseOptions {
        input: bytes,
        ast_arena: ArenaRegion { start: arena.as_ptr() as usize, len: arena.len() },
        limits,
        decompressed_buffer: None,
    })
}

#[test]
fn expanded_string_reparses_as_the_same_list() {
    let limits = Limits { expand_string_ext_to_list: true, ..Limits::default() };
    let data = [131, 107, 0, 2, 7, 9];
    let arena = [0u8; 1024];
    let t = parse_limited(&data, &arena, limits.clone()).unwrap();
    let v = encode(&t);
    assert_eq!(v, vec![131, 108, 0, 0, 0, 2, 97, 7, 97, 9, 106]);
    let arena2 = [0u8; 1024];
    let t2 = parse_limited(&v, &arena2, limits).unwrap();
    assert_eq!(format!("{:?}", t2), format!("{:?}", t));
}

#[test]
fn expanded_string_at_the_depth_limit_does_not_reparse() {
    let limits = Limits { expand_string_ext_to_list: true, max_depth: 0, ..Limits::default() };
    let data = [131, 107, 0, 1, 5];
    let arena = [0u8; 1024];
    let t = parse_limited(&data, &arena, limits.clone()).unwrap();
    let v = encode(&t);
    let arena2 = [0u8; 1024];
    assert!(matches!(parse_limited(&v, &arena2, limits), Err(EtfError::RecursionLimitExceeded)));
}
