use fasteetf::visitor::{parse_etf_with_visitor, parse_etf_with_visitor_streaming, Visitor};
use fasteetf::{encode_to_compressed, EtfError, FloatText, Limits, Needed, Term, ZlibRs};

struct StdFloat;

impl FloatText for StdFloat {
    fn float_bits(text: &str) -> Option<u64> {
        text.trim_end().parse::<f64>().ok().map(f64::to_bits)
    }
}

/// Records every call; refuses the `refuse_at`-th call (counting from 0).
#[derive(Default)]
struct Recorder {
    events: Vec<String>,
    refuse_at: Option<usize>,
}

impl Recorder {
    fn note(&mut self, ev: String) -> Result<(), EtfError> {
        let i = self.events.len();
        self.events.push(ev);
        if self.refuse_at == Some(i) {
            Err(EtfError::InvalidSize)
        } else {
            Ok(())
        }
    }
}

impl Visitor for Recorder {
    type Error = EtfError;

    fn visit_int(&mut self, value: i32) -> Result<(), EtfError> {
        self.note(format!("int {}", value))
    }
    fn visit_big_int(&mut self, sign: u8, digits: &[u8]) -> Result<(), EtfError> {
        self.note(format!("big {} {:?}", sign, digits))
    }
    fn visit_float(&mut self, bits: u64) -> Result<(), EtfError> {
        self.note(format!("float {}", f64::from_bits(bits)))
    }
    fn visit_atom(&mut self, bytes: &[u8]) -> Result<(), EtfError> {
        self.note(format!("atom {}", String::from_utf8_lossy(bytes)))
    }
    fn visit_binary(&mut self, data: &[u8]) -> Result<(), EtfError> {
        self.note(format!("binary {:?}", data))
    }
    fn visit_bit_binary(&mut self, bits: u8, data: &[u8]) -> Result<(), EtfError> {
        self.note(format!("bits {} {:?}", bits, data))
    }
    fn visit_tuple_start(&mut self, arity: usize) -> Result<(), EtfError> {
        self.note(format!("tuple {}", arity))
    }
    fn visit_tuple_end(&mut self) -> Result<(), EtfError> {
        self.note("end tuple".to_string())
    }
    fn visit_list_start(&mut self, len: usize) -> Result<(), EtfError> {
        self.note(format!("list {}", len))
    }
    fn visit_list_end(&mut self) -> Result<(), EtfError> {
        self.note("end list".to_string())
    }
    fn visit_improper_list_tail(&mut self) -> Result<(), EtfError> {
        self.note("tail".to_string())
    }
    fn visit_improper_list_end(&mut self) -> Result<(), EtfError> {
        self.note("end improper".to_string())
    }
    fn visit_map_start(&mut self, arity: usize) -> Result<(), EtfError> {
        self.note(format!("map {}", arity))
    }
    fn visit_map_end(&mut self) -> Result<(), EtfError> {
        self.note("end map".to_string())
    }
    fn visit_pid(&mut self, data: &[u8]) -> Result<(), EtfError> {
        self.note(format!("pid {:?}", data))
    }
    fn visit_port(&mut self, data: &[u8]) -> Result<(), EtfError> {
        self.note(format!("port {:?}", data))
    }
    fn visit_reference(&mut self, data: &[u8]) -> Result<(), EtfError> {
        self.note(format!("ref {:?}", data))
    }
    fn visit_function(&mut self, data: &[u8]) -> Result<(), EtfError> {
        self.note(format!("fun {:?}", data))
    }
    fn visit_record(&mut self, data: &[u8]) -> Result<(), EtfError> {
        self.note(format!("record {:?}", data))
    }
    fn visit_string(&mut self, data: &[u8]) -> Result<(), EtfError> {
        self.note(format!("string {:?}", data))
    }
}

fn visit(input: &[u8]) -> (Result<(), EtfError>, Vec<String>) {
    let mut v = Recorder::default();
    let r = parse_etf_with_visitor::<Recorder, ZlibRs, StdFloat>(input, None, &mut v, &Limits::default());
    (r, v.events)
}

#[test]
fn visits_nested_terms_in_order() {
    let data = [131, 104, 2, 97, 1, 108, 0, 0, 0, 1, 97, 2, 106];
    let (r, events) = visit(&data);
    assert_eq!(r, Ok(()));
    assert_eq!(events, vec!["tuple 2", "int 1", "list 1", "int 2", "end list", "end tuple"]);
}

#[test]
fn visits_improper_list_tail() {
    let data = [131, 108, 0, 0, 0, 1, 97, 1, 97, 2];
    let (r, events) = visit(&data);
    assert_eq!(r, Ok(()));
    assert_eq!(events, vec!["list 1", "int 1", "tail", "int 2", "end improper"]);
}

#[test]
fn visits_nil_and_string_without_expanding() {
    assert_eq!(visit(&[131, 106]).1, vec!["list 0", "end list"]);
    assert_eq!(visit(&[131, 107, 0, 2, b'h', b'i']).1, vec!["string [104, 105]"]);
}

#[test]
fn visits_scalars() {
    assert_eq!(visit(&[131, 98, 255, 255, 255, 255]).1, vec!["int -1"]);
    assert_eq!(visit(&[131, 110, 1, 0, 9]).1, vec!["big 0 [9]"]);
    assert_eq!(visit(&[131, 119, 2, b'o', b'k']).1, vec!["atom ok"]);
    assert_eq!(visit(&[131, 109, 0, 0, 0, 1, 5]).1, vec!["binary [5]"]);
    assert_eq!(visit(&[131, 77, 0, 0, 0, 1, 3, 0xE0]).1, vec!["bits 3 [224]"]);
    let mut data = vec![131, 70];
    data.extend_from_slice(&0.25f64.to_bits().to_be_bytes());
    assert_eq!(visit(&data).1, vec!["float 0.25"]);
    let mut data = vec![131, 99];
    let mut text = [0u8; 31];
    text[..4].copy_from_slice(b"2.50");
    data.extend_from_slice(&text);
    assert_eq!(visit(&data).1, vec!["float 2.5"]);
}

#[test]
fn visits_map_keys_then_values() {
    let data = [131, 116, 0, 0, 0, 1, 119, 1, b'a', 97, 1];
    let (r, events) = visit(&data);
    assert_eq!(r, Ok(()));
    assert_eq!(events, vec!["map 1", "atom a", "int 1", "end map"]);
}

#[test]
fn visits_node_then_pid_bytes() {
    let mut data = vec![131, 88, 119, 1, b'n'];
    data.extend_from_slice(&[0, 0, 0, 1, 0, 0, 0, 2, 0, 0, 0, 3]);
    let (r, events) = visit(&data);
    assert_eq!(r, Ok(()));
    assert_eq!(events, vec!["atom n", "pid [0, 0, 0, 1, 0, 0, 0, 2, 0, 0, 0, 3]"]);
}

#[test]
fn visits_reference_id_words() {
    let data = [131, 90, 0, 1, 119, 1, b'n', 0, 0, 0, 1, 0, 0, 0, 7];
    let (r, events) = visit(&data);
    assert_eq!(r, Ok(()));
    assert_eq!(events, vec!["atom n", "ref [0, 0, 0, 7]"]);
}

#[test]
fn reference_with_too_many_words_is_a_list_limit() {
    let mut data = vec![131, 114, 0, 6, 119, 1, b'n', 0];
    data.extend_from_slice(&[0u8; 24]);
    assert_eq!(visit(&data).0, Err(EtfError::ListTooLarge));
}

#[test]
fn visits_export_with_its_bytes() {
    let data = [131, 113, 119, 1, b'm', 119, 1, b'f', 97, 2];
    let (r, events) = visit(&data);
    assert_eq!(r, Ok(()));
    assert_eq!(
        events,
        vec!["atom m", "atom f", "int 2", "fun [119, 1, 109, 119, 1, 102, 97, 2]"]
    );
}

#[test]
fn visits_new_fun_payload() {
    let data = [131, 112, 0, 0, 0, 6, 0xAA, 0xBB];
    assert_eq!(visit(&data).1, vec!["fun [170, 187]"]);
    assert_eq!(visit(&[131, 112, 0, 0, 0, 3]).0, Err(EtfError::InvalidSize));
}

#[test]
fn visits_record_fields() {
    let data = [131, 67, 0, 0, 0, 1, 0, 119, 1, b'm', 119, 1, b'r', 119, 1, b'a', 97, 1];
    let (r, events) = visit(&data);
    assert_eq!(r, Ok(()));
    assert_eq!(events.len(), 5);
    assert_eq!(&events[..4], &["atom m", "atom r", "atom a", "int 1"]);
    assert_eq!(events[4], format!("record {:?}", &data[2..]));
}

#[test]
fn a_refusal_stops_the_visit() {
    let data = [131, 104, 3, 97, 1, 97, 2, 97, 3];
    let mut v = Recorder { events: vec![], refuse_at: Some(2) };
    let r = parse_etf_with_visitor::<Recorder, ZlibRs, StdFloat>(&data, None, &mut v, &Limits::default());
    assert_eq!(r, Err(EtfError::InvalidSize));
    assert_eq!(v.events, vec!["tuple 3", "int 1", "int 2"]);
}

#[test]
fn decode_errors_reach_the_caller_after_earlier_events() {
    // A tuple of two whose second element is cut off.
    let data = [131, 104, 2, 97, 1, 98, 0];
    let (r, events) = visit(&data);
    assert_eq!(r, Err(EtfError::UnexpectedEof));
    assert_eq!(events, vec!["tuple 2", "int 1"]);
}

#[test]
fn list_without_tail_needs_one_more_byte_when_streaming() {
    let data = [131, 108, 0, 0, 0, 1, 97, 1];
    let mut v = Recorder::default();
    let r = parse_etf_with_visitor_streaming::<Recorder, ZlibRs, StdFloat>(&data, None, &mut v, &Limits::default());
    assert_eq!(r, Err(EtfError::Incomplete(Needed::Size(1))));
    assert_eq!(visit(&data).0, Err(EtfError::UnexpectedEof));
}

#[test]
fn streaming_visit_reports_bytes_needed() {
    let data = [131, 98, 0];
    let mut v = Recorder::default();
    let r = parse_etf_with_visitor_streaming::<Recorder, ZlibRs, StdFloat>(&data, None, &mut v, &Limits::default());
    // One of the four value bytes is there.
    assert_eq!(r, Err(EtfError::Incomplete(Needed::Size(3))));
    assert!(v.events.is_empty());
}

#[test]
fn header_errors_of_a_visit() {
    assert_eq!(visit(&[]).0, Err(EtfError::UnexpectedEof));
    assert_eq!(visit(&[130, 97, 1]).0, Err(EtfError::InvalidMagicNumber));
    assert_eq!(visit(&[131, 255]).0, Err(EtfError::UnsupportedTag(255)));
}

#[test]
fn depth_limit_applies_to_visits() {
    let mut data = vec![131];
    for _ in 0..3 {
        data.extend_from_slice(&[104, 1]);
    }
    data.push(106);
    let mut limits = Limits::default();
    limits.max_depth = 2;
    let mut v = Recorder::default();
    let r = parse_etf_with_visitor::<Recorder, ZlibRs, StdFloat>(&data, None, &mut v, &limits);
    assert_eq!(r, Err(EtfError::RecursionLimitExceeded));
    assert_eq!(v.events, vec!["tuple 1", "tuple 1", "tuple 1"]);
}

#[test]
fn visits_a_compressed_stream() {
    let term = Term::Tuple(vec![Term::Int(1), Term::atom("x")]);
    let mut intermediate = [0u8; 64];
    let mut output = [0u8; 128];
    let n = encode_to_compressed::<ZlibRs>(&term, &mut intermediate, &mut output).unwrap();
    let mut decomp = [0u8; 32];
    let mut v = Recorder::default();
    let r = parse_etf_with_visitor::<Recorder, ZlibRs, StdFloat>(
        &output[..n],
        Some(&mut decomp),
        &mut v,
        &Limits::default(),
    );
    assert_eq!(r, Ok(()));
    assert_eq!(v.events, vec!["tuple 2", "int 1", "atom x", "end tuple"]);
    let mut v = Recorder::default();
    let r = parse_etf_with_visitor::<Recorder, ZlibRs, StdFloat>(&output[..n], None, &mut v, &Limits::default());
    assert_eq!(r, Err(EtfError::InsufficientDecompressionBuffer));
}

#[test]
fn streaming_changes_only_how_short_input_is_reported() {
    let data = [131, 104, 2, 97, 1, 110, 3, 0, 1];
    let mut a = Recorder::default();
    let ra = parse_etf_with_visitor::<Recorder, ZlibRs, StdFloat>(&data, None, &mut a, &Limits::default());
    let mut b = Recorder::default();
    let rb = parse_etf_with_visitor_streaming::<Recorder, ZlibRs, StdFloat>(&data, None, &mut b, &Limits::default());
    assert_eq!(ra, Err(EtfError::UnexpectedEof));
    // One of the three digit bytes is there.
    assert_eq!(rb, Err(EtfError::Incomplete(Needed::Size(2))));
    assert_eq!(a.events, b.events);
    assert_eq!(a.events, vec!["tuple 2", "int 1"]);
}

#[test]
fn visiting_an_encoded_term_reports_it() {
    let term = Term::Tuple(vec![
        Term::atom("ok"),
        Term::List(vec![Term::Int(1), Term::Int(2)]),
        Term::ErlangMap(vec![(Term::Binary(b"k"), Term::Float(2.5f64.to_bits()))]),
        Term::ImproperList(vec![Term::Int(1), Term::atom("t")]),
        Term::String(b"hi"),
    ]);
    let bytes = fasteetf::encode_to_vec(&term).unwrap();
    let (r, events) = visit(&bytes);
    assert_eq!(r, Ok(()));
    assert_eq!(
        events,
        vec![
            "tuple 5",
            "atom ok",
            "list 2",
            "int 1",
            "int 2",
            "end list",
            "map 1",
            "binary [107]",
            "float 2.5",
            "end map",
            "list 1",
            "int 1",
            "tail",
            "atom t",
            "end improper",
            "string [104, 105]",
            "end tuple",
        ]
    );
}
