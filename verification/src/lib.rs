//! A zero-copy parser and encoder for the Erlang External Term Format (ETF),
//! the binary format used by Erlang/Elixir.

mod error;
mod limits;
pub mod tags;

pub use error::{EtfError, Needed};
pub use limits::{
    Limits, MAX_ATOM_LEN, MAX_BIGNUM_SIZE, MAX_BINARY_SIZE, MAX_BIT_BINARY_SIZE, MAX_DEPTH,
    MAX_FUN_SIZE, MAX_LIST_LEN, MAX_MAP_LEN, MAX_REFERENCE_WORDS, MAX_STRING_LEN,
    MAX_TUPLE_ARITY,
};
mod bytes;
mod types;
mod utf8;

pub use types::{AtomUtf8, Function, Pid, Port, Record, Reference, Term, TermModel};
pub mod arena;
pub mod cursor;
pub mod grammar;
pub mod parser;
pub mod zlib;
mod api;
pub mod encoder;
pub mod roundtrip;
pub mod encodable;
pub mod prefix;
pub mod window;
pub mod reparse;
pub mod budget;
pub mod laws;
pub mod streaming;
pub mod owned;
pub mod visit_grammar;
pub mod visitor;
pub mod revisit;

pub use owned::{FunctionOwned, OwnedTerm, PidOwned, PortOwned, RecordOwned, ReferenceOwned};

pub use api::{parse_decompressed, parse_etf, parse_etf_streaming, ParseOptions};
pub use arena::ArenaRegion;
pub use parser::FloatText;

pub use zlib::{MinizOxide, ZlibBackend, ZlibRs};
pub use encoder::{encode_to_buf, encode_to_compressed, encode_to_vec};
pub use visitor::{parse_etf_with_visitor, parse_etf_with_visitor_streaming, Visitor};
