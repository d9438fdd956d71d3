use fasteetf::{
    encode_to_compressed, parse_decompressed, parse_etf, parse_etf_streaming, ArenaRegion, EtfError, FloatText, Limits,
    MinizOxide, Needed, ParseOptions, Term, ZlibRs,
};

/// The conventional reading of a legacy float's text.
struct StdFloat;

impl FloatText for StdFloat {
    fn float_bits(text: &str) -> Option<u64> {
        text.trim_end().parse::<f64>().ok().map(f64::to_bits)
    }
}

fn region(arena: &[u8]) -> ArenaRegion {
    ArenaRegion { start: arena.as_ptr() as usize, len: arena.len() }
}

fn parse_with_limits<'a>(input: &'a [u8], arena: &[u8], limits: Limits) -> Result<Term<'a>, EtfError> {
    parse_etf::<ZlibRs, StdFloat>(ParseOptions {
        input,
        ast_arena: region(arena),
        limits,
        decompressed_buffer: None,
    })
}

fn parse<'a>(input: &'a [u8], arena: &[u8]) -> Result<Term<'a>, EtfError> {
    parse_with_limits(input, arena, Limits::default())
}

fn streaming<'a>(input: &'a [u8], arena: &[u8]) -> Result<Term<'a>, EtfError> {
    parse_etf_streaming::<ZlibRs, StdFloat>(ParseOptions {
        input,
        ast_arena: region(arena),
        limits: Limits::default(),
        decompressed_buffer: None,
    })
}

#[test]
fn parses_small_integer_from_readme() {
    let data = [131, 97, 42];
    let arena = [0u8; 1024];
    let term = parse(&data, &arena).unwrap();
    assert!(matches!(term, Term::Int(42)));
}

#[test]
fn parses_negative_integer_ext() {
    let data = [131, 98, 255, 255, 255, 254];
    let arena = [0u8; 1024];
    assert!(matches!(parse(&data, &arena).unwrap(), Term::Int(-2)));
}

#[test]
fn parses_small_atom() {
    let data = [131, 119, 2, b'o', b'k'];
    let arena = [0u8; 1024];
    match parse(&data, &arena).unwrap() {
        Term::Atom(a) => {
            assert_eq!(a.as_bytes(), b"ok");
            assert_eq!(a.as_str().unwrap(), "ok");
            assert_eq!(a.len(), 2);
            assert!(!a.is_empty());
        }
        other => panic!("unexpected {:?}", other),
    }
}

#[test]
fn parses_atom_with_two_byte_length() {
    let data = [131, 118, 0, 2, b'h', b'i'];
    let arena = [0u8; 1024];
    match parse(&data, &arena).unwrap() {
        Term::Atom(a) => assert_eq!(a.as_bytes(), b"hi"),
        other => panic!("unexpected {:?}", other),
    }
}

#[test]
fn atom_with_invalid_utf8_is_kept_raw() {
    let data = [131, 119, 1, 0xFF];
    let arena = [0u8; 1024];
    match parse(&data, &arena).unwrap() {
        Term::Atom(a) => {
            assert_eq!(a.as_bytes(), &[0xFF]);
            assert!(a.as_str().is_err());
        }
        other => panic!("unexpected {:?}", other),
    }
}

#[test]
fn parses_tuple() {
    let data = [131, 104, 2, 97, 1, 97, 2];
    let arena = [0u8; 1024];
    match parse(&data, &arena).unwrap() {
        Term::Tuple(v) => {
            assert_eq!(v.len(), 2);
            assert!(matches!(v[0], Term::Int(1)));
            assert!(matches!(v[1], Term::Int(2)));
        }
        other => panic!("unexpected {:?}", other),
    }
}

#[test]
fn parses_nil_as_empty_list() {
    let data = [131, 106];
    let arena = [0u8; 1024];
    match parse(&data, &arena).unwrap() {
        Term::List(v) => assert!(v.is_empty()),
        other => panic!("unexpected {:?}", other),
    }
}

#[test]
fn parses_proper_list() {
    let data = [131, 108, 0, 0, 0, 2, 97, 1, 97, 2, 106];
    let arena = [0u8; 1024];
    match parse(&data, &arena).unwrap() {
        Term::List(v) => {
            assert_eq!(v.len(), 2);
            assert!(matches!(v[0], Term::Int(1)));
            assert!(matches!(v[1], Term::Int(2)));
        }
        other => panic!("unexpected {:?}", other),
    }
}

#[test]
fn parses_improper_list_with_tail_last() {
    let data = [131, 108, 0, 0, 0, 1, 97, 1, 97, 2];
    let arena = [0u8; 1024];
    match parse(&data, &arena).unwrap() {
        Term::ImproperList(v) => {
            assert_eq!(v.len(), 2);
            assert!(matches!(v[0], Term::Int(1)));
            assert!(matches!(v[1], Term::Int(2)));
        }
        other => panic!("unexpected {:?}", other),
    }
}

#[test]
fn parses_map() {
    let data = [131, 116, 0, 0, 0, 1, 119, 1, b'a', 97, 1];
    let arena = [0u8; 1024];
    match parse(&data, &arena).unwrap() {
        Term::ErlangMap(ps) => {
            assert_eq!(ps.len(), 1);
            match &ps[0] {
                (Term::Atom(k), Term::Int(1)) => assert_eq!(k.as_bytes(), b"a"),
                other => panic!("unexpected {:?}", other),
            }
        }
        other => panic!("unexpected {:?}", other),
    }
}

#[test]
fn parses_binary_and_bit_binary() {
    let arena = [0u8; 1024];
    let data = [131, 109, 0, 0, 0, 3, 1, 2, 3];
    match parse(&data, &arena).unwrap() {
        Term::Binary(b) => assert_eq!(b, &[1, 2, 3]),
        other => panic!("unexpected {:?}", other),
    }
    let data = [131, 77, 0, 0, 0, 1, 3, 0xE0];
    match parse(&data, &arena).unwrap() {
        Term::BitBinary { bits, data } => {
            assert_eq!(bits, 3);
            assert_eq!(data, &[0xE0]);
        }
        other => panic!("unexpected {:?}", other),
    }
}

#[test]
fn string_ext_expands_to_list_by_default() {
    let data = [131, 107, 0, 2, 104, 105];
    let arena = [0u8; 1024];
    match parse(&data, &arena).unwrap() {
        Term::List(v) => {
            assert_eq!(v.len(), 2);
            assert!(matches!(v[0], Term::Int(104)));
            assert!(matches!(v[1], Term::Int(105)));
        }
        other => panic!("unexpected {:?}", other),
    }
}

#[test]
fn string_ext_stays_compact_when_asked() {
    let data = [131, 107, 0, 2, 104, 105];
    let arena = [0u8; 1024];
    let mut limits = Limits::default();
    limits.expand_string_ext_to_list = false;
    match parse_with_limits(&data, &arena, limits).unwrap() {
        Term::String(s) => assert_eq!(s, b"hi"),
        other => panic!("unexpected {:?}", other),
    }
}

#[test]
fn parses_small_big() {
    let data = [131, 110, 2, 1, 0x01, 0x02];
    let arena = [0u8; 1024];
    match parse(&data, &arena).unwrap() {
        Term::BigInt { sign, digits } => {
            assert_eq!(sign, 1);
            assert_eq!(digits, &[1, 2]);
        }
        other => panic!("unexpected {:?}", other),
    }
}

#[test]
fn parses_new_float() {
    let mut data = vec![131, 70];
    data.extend_from_slice(&1.5f64.to_bits().to_be_bytes());
    let arena = [0u8; 1024];
    match parse(&data, &arena).unwrap() {
        Term::Float(bits) => assert_eq!(f64::from_bits(bits), 1.5),
        other => panic!("unexpected {:?}", other),
    }
}

#[test]
fn parses_legacy_float_text() {
    let mut data = vec![131, 99];
    let mut text = [0u8; 31];
    text[..3].copy_from_slice(b"1.5");
    data.extend_from_slice(&text);
    let arena = [0u8; 1024];
    match parse(&data, &arena).unwrap() {
        Term::Float(bits) => assert_eq!(f64::from_bits(bits), 1.5),
        other => panic!("unexpected {:?}", other),
    }
}

#[test]
fn legacy_float_that_is_not_a_number_is_invalid() {
    let mut data = vec![131, 99];
    let mut text = [0u8; 31];
    text[..3].copy_from_slice(b"abc");
    data.extend_from_slice(&text);
    let arena = [0u8; 1024];
    assert!(matches!(parse(&data, &arena), Err(EtfError::InvalidFloat)));
}

#[test]
fn legacy_float_that_is_not_utf8_is_invalid() {
    let mut data = vec![131, 99];
    let mut text = [0u8; 31];
    text[0] = 0xFF;
    data.extend_from_slice(&text);
    let arena = [0u8; 1024];
    assert!(matches!(parse(&data, &arena), Err(EtfError::InvalidUtf8)));
}

#[test]
fn pid_keeps_its_bytes_from_the_tag_on() {
    let mut data = vec![131, 88, 119, 1, b'n'];
    data.extend_from_slice(&[0, 0, 0, 1, 0, 0, 0, 2, 0, 0, 0, 3]);
    let arena = [0u8; 1024];
    match parse(&data, &arena).unwrap() {
        Term::Pid(p) => assert_eq!(p, &data[1..]),
        other => panic!("unexpected {:?}", other),
    }
}

#[test]
fn port_keeps_its_bytes_from_the_tag_on() {
    let data = [131, 102, 119, 1, b'n', 0, 0, 0, 7, 1];
    let arena = [0u8; 1024];
    match parse(&data, &arena).unwrap() {
        Term::Port(p) => assert_eq!(p, &data[1..]),
        other => panic!("unexpected {:?}", other),
    }
}

#[test]
fn pid_node_must_be_an_atom() {
    let mut data = vec![131, 88, 97, 1];
    data.extend_from_slice(&[0u8; 12]);
    let arena = [0u8; 1024];
    assert!(matches!(parse(&data, &arena), Err(EtfError::InvalidAtomField)));
}

#[test]
fn reference_keeps_its_bytes_from_the_tag_on() {
    let data = [131, 90, 0, 1, 119, 1, b'n', 0, 0, 0, 1, 0, 0, 0, 7];
    let arena = [0u8; 1024];
    match parse(&data, &arena).unwrap() {
        Term::Ref(r) => assert_eq!(r, &data[1..]),
        other => panic!("unexpected {:?}", other),
    }
}

#[test]
fn reference_with_too_many_words_is_refused() {
    let mut data = vec![131, 114, 0, 6, 119, 1, b'n', 0];
    data.extend_from_slice(&[0u8; 24]);
    let arena = [0u8; 1024];
    assert!(matches!(parse(&data, &arena), Err(EtfError::ReferenceTooLarge)));
}

#[test]
fn new_fun_keeps_its_bytes_from_the_tag_on() {
    let data = [131, 112, 0, 0, 0, 6, 0xAA, 0xBB];
    let arena = [0u8; 1024];
    match parse(&data, &arena).unwrap() {
        Term::Function(f) => assert_eq!(f, &data[1..]),
        other => panic!("unexpected {:?}", other),
    }
}

#[test]
fn new_fun_size_below_four_is_invalid() {
    let data = [131, 112, 0, 0, 0, 3];
    let arena = [0u8; 1024];
    assert!(matches!(parse(&data, &arena), Err(EtfError::InvalidSize)));
}

#[test]
fn export_keeps_its_bytes_from_the_tag_on() {
    let data = [131, 113, 119, 1, b'm', 119, 1, b'f', 97, 2];
    let arena = [0u8; 1024];
    match parse(&data, &arena).unwrap() {
        Term::Function(f) => assert_eq!(f, &data[1..]),
        other => panic!("unexpected {:?}", other),
    }
}

#[test]
fn record_keeps_its_bytes_from_the_tag_on() {
    // One field: module m, name r, field name a, value 1.
    let data = [131, 67, 0, 0, 0, 1, 0, 119, 1, b'm', 119, 1, b'r', 119, 1, b'a', 97, 1];
    let arena = [0u8; 1024];
    match parse(&data, &arena).unwrap() {
        Term::Record(r) => assert_eq!(r, &data[1..]),
        other => panic!("unexpected {:?}", other),
    }
}

#[test]
fn empty_input_is_unexpected_eof() {
    let arena = [0u8; 64];
    assert!(matches!(parse(&[], &arena), Err(EtfError::UnexpectedEof)));
    assert!(matches!(parse(&[131], &arena), Err(EtfError::UnexpectedEof)));
}

#[test]
fn wrong_magic_is_refused() {
    let arena = [0u8; 64];
    assert!(matches!(parse(&[132, 97, 1], &arena), Err(EtfError::InvalidMagicNumber)));
}

#[test]
fn unsupported_tag_is_reported() {
    let arena = [0u8; 64];
    assert!(matches!(parse(&[131, 200], &arena), Err(EtfError::UnsupportedTag(200))));
}

#[test]
fn streaming_reports_the_bytes_still_needed() {
    let arena = [0u8; 64];
    let data = [131, 98, 0, 0];
    match streaming(&data, &arena) {
        Err(EtfError::Incomplete(n)) => {
            // Two of the four value bytes are there.
            assert_eq!(n, Needed::Size(2));
            assert_eq!(n.size(), Some(2));
            assert!(n.is_exact());
        }
        other => panic!("unexpected {:?}", other),
    }
    // The same input when no more data is coming.
    assert!(matches!(parse(&data, &arena), Err(EtfError::UnexpectedEof)));
}

#[test]
fn streaming_parses_a_complete_term() {
    let arena = [0u8; 1024];
    assert!(matches!(streaming(&[131, 97, 7], &arena), Ok(Term::Int(7))));
}

#[test]
fn nesting_past_the_depth_limit_is_refused() {
    let mut data = vec![131];
    for _ in 0..200 {
        data.extend_from_slice(&[104, 1]);
    }
    data.push(106);
    let arena = vec![0u8; 1 << 20];
    assert!(matches!(parse(&data, &arena), Err(EtfError::RecursionLimitExceeded)));
}

#[test]
fn size_limits_are_enforced() {
    let arena = [0u8; 4096];
    let mut limits = Limits::default();
    limits.max_tuple_arity = 1;
    assert!(matches!(
        parse_with_limits(&[131, 104, 2, 97, 1, 97, 2], &arena, limits),
        Err(EtfError::TupleTooLarge)
    ));
    let mut limits = Limits::default();
    limits.max_atom_len = 1;
    assert!(matches!(
        parse_with_limits(&[131, 119, 2, b'o', b'k'], &arena, limits),
        Err(EtfError::AtomTooLarge)
    ));
    let mut limits = Limits::default();
    limits.max_binary_size = 2;
    assert!(matches!(
        parse_with_limits(&[131, 109, 0, 0, 0, 3, 1, 2, 3], &arena, limits),
        Err(EtfError::BinaryTooLarge)
    ));
    let mut limits = Limits::default();
    limits.max_list_len = 1;
    assert!(matches!(
        parse_with_limits(&[131, 108, 0, 0, 0, 2, 97, 1, 97, 2, 106], &arena, limits),
        Err(EtfError::ListTooLarge)
    ));
    let mut limits = Limits::default();
    limits.max_map_len = 0;
    assert!(matches!(
        parse_with_limits(&[131, 116, 0, 0, 0, 1, 97, 1, 97, 2], &arena, limits),
        Err(EtfError::MapTooLarge)
    ));
}

#[test]
fn an_arena_too_small_is_exhausted() {
    let arena = [0u8; 0];
    assert!(matches!(parse(&[131, 104, 2, 97, 1, 97, 2], &arena), Err(EtfError::ArenaExhausted)));
}

#[test]
fn compressed_roundtrip_from_readme() {
    let term = Term::Int(42);
    let mut intermediate = [0u8; 128];
    let mut output = [0u8; 128];
    let written = encode_to_compressed::<ZlibRs>(&term, &mut intermediate, &mut output).unwrap();
    assert_eq!(&output[..2], &[131, 80]);
    let mut decomp = [0u8; 64];
    let arena = [0u8; 1024];
    let parsed = parse_etf::<ZlibRs, StdFloat>(ParseOptions {
        input: &output[..written],
        decompressed_buffer: Some(&mut decomp),
        ast_arena: region(&arena),
        limits: Limits::default(),
    })
    .unwrap();
    assert!(matches!(parsed, Term::Int(42)));
}

#[test]
fn compressed_roundtrip_with_miniz_oxide() {
    let term = Term::Tuple(vec![Term::Int(1), Term::Binary(b"payload payload payload")]);
    let mut intermediate = [0u8; 128];
    let mut output = [0u8; 128];
    let written = encode_to_compressed::<MinizOxide>(&term, &mut intermediate, &mut output).unwrap();
    let mut decomp = [0u8; 64];
    let arena = [0u8; 1024];
    let parsed = parse_etf::<MinizOxide, StdFloat>(ParseOptions {
        input: &output[..written],
        decompressed_buffer: Some(&mut decomp),
        ast_arena: region(&arena),
        limits: Limits::default(),
    })
    .unwrap();
    match parsed {
        Term::Tuple(v) => {
            assert!(matches!(v[0], Term::Int(1)));
            assert!(matches!(v[1], Term::Binary(b) if b == b"payload payload payload"));
        }
        other => panic!("unexpected {:?}", other),
    }
}

#[test]
fn compressed_input_needs_a_large_enough_buffer() {
    let term = Term::Binary(b"0123456789");
    let mut intermediate = [0u8; 128];
    let mut output = [0u8; 128];
    let written = encode_to_compressed::<ZlibRs>(&term, &mut intermediate, &mut output).unwrap();
    let arena = [0u8; 1024];
    let none = parse_etf::<ZlibRs, StdFloat>(ParseOptions {
        input: &output[..written],
        decompressed_buffer: None,
        ast_arena: region(&arena),
        limits: Limits::default(),
    });
    assert!(matches!(none, Err(EtfError::InsufficientDecompressionBuffer)));
    let mut small = [0u8; 4];
    let too_small = parse_etf::<ZlibRs, StdFloat>(ParseOptions {
        input: &output[..written],
        decompressed_buffer: Some(&mut small),
        ast_arena: region(&arena),
        limits: Limits::default(),
    });
    assert!(matches!(too_small, Err(EtfError::InsufficientDecompressionBuffer)));
}

#[test]
fn corrupt_compressed_payload_fails_to_decompress() {
    let data = [131, 80, 0, 0, 0, 2, 1, 2, 3, 4];
    let mut decomp = [0u8; 16];
    let arena = [0u8; 64];
    let r = parse_etf::<ZlibRs, StdFloat>(ParseOptions {
        input: &data,
        decompressed_buffer: Some(&mut decomp),
        ast_arena: region(&arena),
        limits: Limits::default(),
    });
    assert!(matches!(r, Err(EtfError::DecompressionFailed)));
}

#[test]
fn truncated_compressed_header_is_short() {
    let arena = [0u8; 64];
    assert!(matches!(parse(&[131, 80, 0, 0], &arena), Err(EtfError::UnexpectedEof)));
    assert!(matches!(
        streaming(&[131, 80, 0, 0], &arena),
        Err(EtfError::Incomplete(Needed::Size(2)))
    ));
}

#[test]
fn a_bare_term_decodes_without_magic() {
    let arena = [0u8; 1024];
    let data = [104, 1, 97, 5];
    match parse_decompressed::<StdFloat>(&data, region(&arena), &Limits::default()).unwrap() {
        Term::Tuple(v) => assert!(matches!(v[..], [Term::Int(5)])),
        other => panic!("unexpected {:?}", other),
    }
    // A term cut short is never "incomplete" here.
    assert!(matches!(
        parse_decompressed::<StdFloat>(&[98, 0], region(&arena), &Limits::default()),
        Err(EtfError::UnexpectedEof)
    ));
}
