# fasteetf

A zero-copy parser and encoder for the Erlang External Term Format (ETF),
written in Verus: every function of the library carries a contract, and the
decoding rules of the format are stated once, as spec functions, against
which the decoder, the visitor and the encoder are proved.

## Layout

- `src/grammar.rs` — what decoding the bytes at a position yields (`p_term`
  and the functions it calls), including the arena a decode claims.
- `src/parser.rs`, `src/api.rs` — the decoder and its entry points
  (`parse_etf`, `parse_etf_streaming`), proved to return what the grammar
  states.
- `src/visit_grammar.rs`, `src/visitor.rs` — the events the visit grammar
  states for a stream and the visiting decoder (`parse_etf_with_visitor`),
  proved to return what that grammar states. Every `Visitor` method keeps
  a spec history (`calls`) of the events it received and its answers, and
  the entry points state that history: the calls the grammar gives for the
  input, in order, up to the first refusal, whose error comes back as is;
  a visitor that answers every call `Ok` receives every event, and the
  visit succeeds exactly when the grammar's visit does.
- `src/encoder.rs` — the encoder (`encode_to_buf`, `encode_to_vec`,
  `encode_to_compressed`) and the bytes it writes (`enc_term`).
- `src/roundtrip.rs`, `src/revisit.rs`, `src/encodable.rs`, `src/budget.rs`,
  `src/streaming.rs`, `src/prefix.rs`, `src/window.rs`, `src/reparse.rs`,
  `src/laws.rs` — the properties of the library as a whole: decoding what
  the encoder writes gives the term back (also through the `COMPRESSED`
  wrapper, with either backend), decoding, encoding and decoding again
  gives back every decoded term (records and funs, which the encoder writes
  back as raw bytes, included), every decoded term encodes, a strict prefix of a stream that decodes is
  reported incomplete by the streaming decoder, the
  events the visit grammar states for those bytes are the term's events,
  the arena only bounds a decode, streaming only changes how short input is
  reported, and more.
- `src/arena.rs`, `src/cursor.rs`, `src/limits.rs`, `src/tags.rs`,
  `src/types.rs`, `src/owned.rs` — the bump arena, the input cursor, the
  resource limits, the tag bytes, and the borrowed and owned term types.
- `src/zlib.rs`, `src/zlib/` — the zlib backends (`zlib-rs`, `miniz_oxide`)
  behind the `ZlibBackend` trait, whose relations `inflates` and `deflates`
  say which outcomes a backend may give; the contracts of the decoder and
  `encode_to_compressed` say what they hand a backend and what they do with
  its outcome.
- `app/lib.rs` — what cannot be verified: the system-zlib backend (FFI), the
  decimal reading of legacy float text (the `FloatText` trait names its
  result `float_of`, which the decoder's contracts apply to each field's
  text), the `std::error::Error` form of the
  error, and the serde mapping of terms.
- `tests/` — tests of the library on concrete inputs.
