//! Errors returned while decoding or encoding an ETF byte stream.
//!
//! Each variant corresponds to a class of spec violation described in the
//! Erlang External Term Format documentation.  The enum is kept small and
//! flat so that callers can match individual cases.

use vstd::prelude::*;

verus! {

/// Signals how many more bytes are needed to make progress during
/// incremental / streaming parsing.
///
/// Returned as part of [`EtfError::Incomplete`] when the input ends
/// before a complete term can be decoded.
#[derive(Debug, Clone, Copy, PartialEq, Eq, Structural)]
pub enum Needed {
    /// Exactly `n` more bytes are required.
    ///
    /// This is a lower bound — the caller should obtain **at least** `n`
    /// additional bytes and re-attempt parsing from the beginning of the
    /// stream.
    Size(usize),
    /// The amount needed is not yet known.  The parser cannot make
    /// progress without more data, but it cannot compute exactly how
    /// many bytes are missing — obtain an arbitrary amount and retry.
    Unknown,
}

impl Needed {
    /// Returns the minimum number of additional bytes required, if known.
    pub fn size(&self) -> (r: Option<usize>)
        ensures
            r == (match *self {
                Needed::Size(n) => Some(n),
                Needed::Unknown => None::<usize>,
            }),
    {
        match self {
            Needed::Size(n) => Some(*n),
            Needed::Unknown => None,
        }
    }

    /// Returns `true` if the exact number of needed bytes is known.
    pub fn is_exact(&self) -> (r: bool)
        ensures
            r == (*self is Size),
    {
        match self {
            Needed::Size(_) => true,
            Needed::Unknown => false,
        }
    }
}

/// Errors that can occur when decoding or encoding an ETF byte stream.
#[derive(Debug, Clone, Copy, PartialEq, Eq, Structural)]
pub enum EtfError {
    /// The input ended before the expected number of bytes could be read
    /// and the caller indicated no more data is coming; when encoding, the
    /// output buffer is too small.
    UnexpectedEof,
    /// The input is incomplete — more bytes are needed before the parser
    /// can make progress.  Obtain additional data and re-parse from the
    /// beginning of the stream.
    Incomplete(Needed),
    /// The first byte is not `131` (the ETF magic / version byte).
    InvalidMagicNumber,
    /// The input is compressed but no decompression buffer was supplied,
    /// or the supplied buffer is too small.
    InsufficientDecompressionBuffer,
    /// Zlib decompression of a `COMPRESSED` wrapper failed.
    DecompressionFailed,
    /// Zlib compression failed (backend error or output buffer too small).
    CompressionFailed,
    /// The bump arena has been exhausted.  Increase the arena size.
    ArenaExhausted,
    /// The term nesting depth exceeds the configured limit.
    RecursionLimitExceeded,
    /// A UTF-8 validation check on an atom or legacy float string failed.
    InvalidUtf8,
    /// A legacy `FLOAT_EXT` string could not be parsed as a float.
    InvalidFloat,
    /// A length or size field contained a physically impossible value
    /// (e.g. a `NEW_FUN_EXT` size < 4, or an improper list without a tail).
    InvalidSize,
    /// A binary, bignum or fun payload exceeds its configured limit.
    BinaryTooLarge,
    /// A list or string element count exceeds its configured limit.
    ListTooLarge,
    /// A map arity (or record field count) exceeds its configured limit.
    MapTooLarge,
    /// A tuple arity exceeds its configured limit.
    TupleTooLarge,
    /// A reference carries more ID words than the configured limit.
    ReferenceTooLarge,
    /// An atom name exceeds its configured limit.
    AtomTooLarge,
    /// A field that must be an atom (a node, module or function name) holds
    /// another kind of term.
    InvalidAtomField,
    /// The tag byte is not a recognised ETF term type (or is a known type
    /// that this parser does not handle).
    UnsupportedTag(u8),
}

} // verus!
