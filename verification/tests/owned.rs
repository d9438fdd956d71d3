use fasteetf::{
    parse_etf, ArenaRegion, FloatText, FunctionOwned, Limits, OwnedTerm, ParseOptions, PidOwned, RecordOwned,
    Term, ZlibRs,
};

struct StdFloat;

impl FloatText for StdFloat {
    fn float_bits(text: &str) -> Option<u64> {
        text.trim_end().parse::<f64>().ok().map(f64::to_bits)
    }
}

#[test]
fn owned_term_from_readme() {
    let data = [131, 97, 42];
    let arena = [0u8; 1024];
    let term = parse_etf::<ZlibRs, StdFloat>(ParseOptions {
        input: &data,
        ast_arena: ArenaRegion { start: arena.as_ptr() as usize, len: arena.len() },
        limits: Limits::default(),
        decompressed_buffer: None,
    })
    .unwrap();
    let owned = OwnedTerm::from_term(&term);
    assert!(matches!(owned, OwnedTerm::Int(42)));
}

#[test]
fn atoms_are_decoded_lossily() {
    match OwnedTerm::from_term(&Term::atom("ok")) {
        OwnedTerm::Atom(s) => assert_eq!(s, "ok"),
        other => panic!("unexpected {:?}", other),
    }
    let bad = [b'a', 0xFF];
    match OwnedTerm::from_term(&Term::Atom(fasteetf::AtomUtf8(&bad))) {
        OwnedTerm::Atom(s) => assert_eq!(s, "a\u{FFFD}"),
        other => panic!("unexpected {:?}", other),
    }
}

#[test]
fn bignums_are_split_by_size() {
    let small = vec![1u8; 255];
    assert!(matches!(
        OwnedTerm::from_term(&Term::BigInt { sign: 0, digits: &small }),
        OwnedTerm::SmallBigInt { sign: 0, ref digits } if digits.len() == 255
    ));
    let large = vec![1u8; 256];
    assert!(matches!(
        OwnedTerm::from_term(&Term::BigInt { sign: 1, digits: &large }),
        OwnedTerm::LargeBigInt { sign: 1, ref digits } if digits.len() == 256
    ));
}

#[test]
fn compound_terms_are_converted_element_by_element() {
    let term = Term::Tuple(vec![
        Term::String(b"hi"),
        Term::ImproperList(vec![Term::Int(1), Term::Int(2)]),
        Term::ImproperList(vec![Term::Int(1)]),
        Term::ErlangMap(vec![(Term::Int(1), Term::Binary(&[9]))]),
    ]);
    match OwnedTerm::from_term(&term) {
        OwnedTerm::Tuple(v) => {
            assert!(matches!(&v[0], OwnedTerm::Binary(b) if b == b"hi"));
            match &v[1] {
                OwnedTerm::ImproperList { elements, tail } => {
                    assert_eq!(elements.len(), 1);
                    assert!(matches!(elements[0], OwnedTerm::Int(1)));
                    assert!(matches!(**tail, OwnedTerm::Int(2)));
                }
                other => panic!("unexpected {:?}", other),
            }
            match &v[2] {
                OwnedTerm::ImproperList { elements, tail } => {
                    assert!(elements.is_empty());
                    assert!(matches!(**tail, OwnedTerm::Int(1)));
                }
                other => panic!("unexpected {:?}", other),
            }
            match &v[3] {
                OwnedTerm::ErlangMap(ps) => {
                    assert!(matches!(ps[0], (OwnedTerm::Int(1), OwnedTerm::Binary(ref b)) if b == &[9]));
                }
                other => panic!("unexpected {:?}", other),
            }
        }
        other => panic!("unexpected {:?}", other),
    }
}

#[test]
fn opaque_terms_keep_their_bytes() {
    let pid = [88u8, 1, 2, 3];
    assert!(matches!(OwnedTerm::from_term(&Term::Pid(&pid)), OwnedTerm::Pid(PidOwned(ref b)) if b == &pid));
    let fun = [112u8, 4];
    assert!(matches!(
        OwnedTerm::from_term(&Term::Function(&fun)),
        OwnedTerm::Function(FunctionOwned(ref b)) if b == &fun
    ));
    let rec = [67u8, 5];
    assert!(matches!(
        OwnedTerm::from_term(&Term::Record(&rec)),
        OwnedTerm::Record(RecordOwned(ref b)) if b == &rec
    ));
}

#[test]
fn signed_integers_fitting_32_bits_stay_small() {
    assert!(matches!(OwnedTerm::from_i64(5), OwnedTerm::Int(5)));
    assert!(matches!(OwnedTerm::from_i64(i32::MIN as i64), OwnedTerm::Int(i32::MIN)));
    assert!(matches!(OwnedTerm::from_i64(i32::MAX as i64), OwnedTerm::Int(i32::MAX)));
}

#[test]
fn larger_signed_integers_become_trimmed_bignums() {
    match OwnedTerm::from_i64(1 << 40) {
        OwnedTerm::SmallBigInt { sign, digits } => {
            assert_eq!(sign, 0);
            assert_eq!(digits, vec![0, 0, 0, 0, 0, 1]);
        }
        other => panic!("unexpected {:?}", other),
    }
    match OwnedTerm::from_i64(-(1i64 << 31) - 1) {
        OwnedTerm::SmallBigInt { sign, digits } => {
            assert_eq!(sign, 1);
            assert_eq!(digits, vec![1, 0, 0, 128]);
        }
        other => panic!("unexpected {:?}", other),
    }
    match OwnedTerm::from_i64(i64::MIN) {
        OwnedTerm::SmallBigInt { sign, digits } => {
            assert_eq!(sign, 1);
            assert_eq!(digits, vec![0, 0, 0, 0, 0, 0, 0, 128]);
        }
        other => panic!("unexpected {:?}", other),
    }
}

#[test]
fn unsigned_integers_keep_every_digit() {
    assert!(matches!(OwnedTerm::from_u32(7), OwnedTerm::Int(7)));
    match OwnedTerm::from_u32(3_000_000_000) {
        OwnedTerm::SmallBigInt { sign, digits } => {
            assert_eq!(sign, 0);
            assert_eq!(digits, 3_000_000_000u32.to_le_bytes().to_vec());
        }
        other => panic!("unexpected {:?}", other),
    }
    match OwnedTerm::from_u64(1 << 31) {
        OwnedTerm::SmallBigInt { sign, digits } => {
            assert_eq!(sign, 0);
            assert_eq!(digits, vec![0, 0, 0, 128, 0, 0, 0, 0]);
        }
        other => panic!("unexpected {:?}", other),
    }
    assert!(matches!(OwnedTerm::from_u64(9), OwnedTerm::Int(9)));
}

#[test]
fn booleans_and_absence_are_atoms() {
    assert!(matches!(OwnedTerm::from_bool(true), OwnedTerm::Atom(ref s) if s == "true"));
    assert!(matches!(OwnedTerm::from_bool(false), OwnedTerm::Atom(ref s) if s == "false"));
    assert!(matches!(OwnedTerm::undefined(), OwnedTerm::Atom(ref s) if s == "undefined"));
}

/// The number whose base-256 digits, least significant first, are `digits`.
fn digits_value(digits: &[u8]) -> u128 {
    digits.iter().rev().fold(0u128, |acc, d| acc * 256 + *d as u128)
}

#[test]
fn bignums_from_signed_integers_keep_the_value() {
    for v in [i64::MIN, i64::MIN + 1, -(1i64 << 31) - 1, (1i64 << 31), 1i64 << 40, i64::MAX, -123_456_789_012] {
        match OwnedTerm::from_i64(v) {
            OwnedTerm::SmallBigInt { sign, digits } => {
                assert_eq!(sign == 1, v < 0);
                assert_eq!(digits_value(&digits), v.unsigned_abs() as u128);
                assert!(!digits.is_empty() && digits.len() <= 8);
                assert!(digits.len() == 1 || *digits.last().unwrap() != 0);
            }
            other => panic!("unexpected {:?}", other),
        }
    }
    for v in [u64::MAX, 1u64 << 63, 5_000_000_000] {
        match OwnedTerm::from_u64(v) {
            OwnedTerm::SmallBigInt { sign: 0, digits } => {
                assert_eq!(digits.len(), 8);
                assert_eq!(digits_value(&digits), v as u128);
            }
            other => panic!("unexpected {:?}", other),
        }
    }
}
