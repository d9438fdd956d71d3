//! Decoded ETF terms and their mathematical model.
//!
//! Each variant of [`Term`] corresponds to one or more tags of the
//! Erlang External Term Format:
//!
//! | Tag(s) | Variant |
//! |---|---|
//! | `SMALL_INTEGER_EXT`, `INTEGER_EXT` | [`Term::Int`] |
//! | `SMALL_BIG_EXT`, `LARGE_BIG_EXT` | [`Term::BigInt`] |
//! | `NEW_FLOAT_EXT`, `FLOAT_EXT` | [`Term::Float`] |
//! | `ATOM_UTF8_EXT`, `SMALL_ATOM_UTF8_EXT` | [`Term::Atom`] |
//! | `SMALL_TUPLE_EXT`, `LARGE_TUPLE_EXT` | [`Term::Tuple`] |
//! | `NIL_EXT` | [`Term::List`] (empty) |
//! | `LIST_EXT` with an empty-list tail | [`Term::List`] |
//! | `LIST_EXT` with any other tail | [`Term::ImproperList`] |
//! | `STRING_EXT` | [`Term::List`] of byte-sized `Int`s, or [`Term::String`] |
//! | `BINARY_EXT` | [`Term::Binary`] |
//! | `BIT_BINARY_EXT` | [`Term::BitBinary`] |
//! | `MAP_EXT` | [`Term::ErlangMap`] |
//! | `PID_EXT`, `NEW_PID_EXT` | [`Term::Pid`] |
//! | `PORT_EXT`, `NEW_PORT_EXT`, `V4_PORT_EXT` | [`Term::Port`] |
//! | `NEW_REFERENCE_EXT`, `NEWER_REFERENCE_EXT` | [`Term::Ref`] |
//! | `NEW_FUN_EXT`, `EXPORT_EXT` | [`Term::Function`] |
//! | `RECORD_EXT` | [`Term::Record`] |

use vstd::prelude::*;
use vstd::std_specs::cmp::PartialEqSpec;

use crate::bytes::bytes_eq;
use crate::utf8::str_from_utf8;
use vstd::string::StringSliceAdditionalSpecFns;
use vstd::utf8::valid_utf8;

verus! {

/// A decoded Erlang term.  Byte payloads borrow from the input buffer (or
/// the decompression buffer); compound terms own their elements.
///
/// Floats are carried as the bits of their IEEE 754 binary64 value, so
/// that they are reproduced exactly when re-encoded.
#[derive(Debug)]
pub enum Term<'a> {
    /// A UTF-8 atom (tags: `ATOM_UTF8_EXT`, `SMALL_ATOM_UTF8_EXT`).
    Atom(AtomUtf8<'a>),
    /// A small signed integer (tags: `SMALL_INTEGER_EXT`, `INTEGER_EXT`).
    Int(i32),
    /// An arbitrary-precision integer (tags: `SMALL_BIG_EXT`, `LARGE_BIG_EXT`).
    /// The encoder selects the tag from the digit count.
    BigInt {
        /// Sign byte: 0 = positive, 1 = negative.
        sign: u8,
        /// Digits in base 256, least significant byte first.
        digits: &'a [u8],
    },
    /// An IEEE 754 double-precision float, as the bits of its value
    /// (tags: `NEW_FLOAT_EXT`, `FLOAT_EXT`).
    Float(u64),
    /// A binary blob (tag: `BINARY_EXT`).
    Binary(&'a [u8]),
    /// A bitstring whose total bit-length may not be a multiple of 8
    /// (tag: `BIT_BINARY_EXT`).
    BitBinary {
        /// Number of significant bits in the last byte (1–8).
        bits: u8,
        /// Binary data padded to a whole number of bytes.
        data: &'a [u8],
    },
    /// A compact string (tags: `STRING_EXT`, when not expanded to a list).
    String(&'a [u8]),
    /// A proper list (tags: `NIL_EXT` for empty, `LIST_EXT` with nil tail).
    List(Vec<Term<'a>>),
    /// An improper list (tags: `LIST_EXT` with non-nil tail).
    /// The last element is the tail.
    ImproperList(Vec<Term<'a>>),
    /// A tuple (tags: `SMALL_TUPLE_EXT`, `LARGE_TUPLE_EXT`).
    Tuple(Vec<Term<'a>>),
    /// A map / dictionary (tag: `MAP_EXT`).
    ErlangMap(Vec<(Term<'a>, Term<'a>)>),
    /// A process identifier (tags: `PID_EXT`, `NEW_PID_EXT`).
    /// The slice includes the tag byte followed by the wire bytes.
    Pid(&'a [u8]),
    /// A port identifier (tags: `PORT_EXT`, `NEW_PORT_EXT`, `V4_PORT_EXT`).
    /// The slice includes the tag byte followed by the wire bytes.
    Port(&'a [u8]),
    /// A reference (tags: `NEW_REFERENCE_EXT`, `NEWER_REFERENCE_EXT`).
    /// The slice includes the tag byte followed by the wire bytes.
    Ref(&'a [u8]),
    /// A fun / function object (tags: `NEW_FUN_EXT`, `EXPORT_EXT`).
    /// The slice includes the tag byte followed by the wire bytes.
    Function(&'a [u8]),
    /// A native record (tag: `RECORD_EXT`, OTP 29.0).
    /// The slice includes the tag byte followed by the wire bytes.
    Record(&'a [u8]),
}

/// A UTF-8 atom that defers validation.
///
/// The parser stores the raw bytes without checking UTF-8.  Call
/// [`as_str`](Self::as_str) when a `&str` is needed; callers that only
/// compare atoms can compare the raw bytes.
#[derive(Debug, Clone, Copy, Hash)]
pub struct AtomUtf8<'a>(pub &'a [u8]);

/// Opaque wrapper for an Erlang process identifier (PID): the tag byte
/// followed by the wire bytes.
pub type Pid<'a> = &'a [u8];

/// Opaque wrapper for an Erlang port identifier.
pub type Port<'a> = &'a [u8];

/// Opaque wrapper for an Erlang reference.
pub type Reference<'a> = &'a [u8];

/// Opaque wrapper for an Erlang fun (function object).
pub type Function<'a> = &'a [u8];

/// Opaque wrapper for an Erlang native record (OTP 29.0).
pub type Record<'a> = &'a [u8];

/// The mathematical value of a [`Term`]: byte payloads as sequences and
/// compound terms as sequences of values.
pub enum TermModel {
    Atom(Seq<u8>),
    Int(i32),
    BigInt { sign: u8, digits: Seq<u8> },
    Float(u64),
    Binary(Seq<u8>),
    BitBinary { bits: u8, data: Seq<u8> },
    String(Seq<u8>),
    List(Seq<TermModel>),
    ImproperList(Seq<TermModel>),
    Tuple(Seq<TermModel>),
    ErlangMap(Seq<(TermModel, TermModel)>),
    Pid(Seq<u8>),
    Port(Seq<u8>),
    Ref(Seq<u8>),
    Function(Seq<u8>),
    Record(Seq<u8>),
}

impl TermModel {
    /// The empty proper list `[]`.
    pub open spec fn is_nil(self) -> bool {
        self matches TermModel::List(s) && s.len() == 0
    }
}

/// The model of a term.
pub open spec fn term_model(t: Term) -> TermModel
    decreases t, 0nat,
{
    match t {
        Term::Atom(a) => TermModel::Atom(a.0@),
        Term::Int(i) => TermModel::Int(i),
        Term::BigInt { sign, digits } => TermModel::BigInt { sign, digits: digits@ },
        Term::Float(b) => TermModel::Float(b),
        Term::Binary(b) => TermModel::Binary(b@),
        Term::BitBinary { bits, data } => TermModel::BitBinary { bits, data: data@ },
        Term::String(b) => TermModel::String(b@),
        Term::List(v) => TermModel::List(terms_model(v@)),
        Term::ImproperList(v) => TermModel::ImproperList(terms_model(v@)),
        Term::Tuple(v) => TermModel::Tuple(terms_model(v@)),
        Term::ErlangMap(v) => TermModel::ErlangMap(pairs_model(v@)),
        Term::Pid(b) => TermModel::Pid(b@),
        Term::Port(b) => TermModel::Port(b@),
        Term::Ref(b) => TermModel::Ref(b@),
        Term::Function(b) => TermModel::Function(b@),
        Term::Record(b) => TermModel::Record(b@),
    }
}

/// The models of a sequence of terms, element by element.
pub open spec fn terms_model(s: Seq<Term>) -> Seq<TermModel>
    decreases s, s.len(),
{
    if s.len() == 0 {
        Seq::empty()
    } else {
        terms_model(s.drop_last()).push(term_model(s.last()))
    }
}

/// The models of a sequence of key-value pairs, pair by pair.
pub open spec fn pairs_model(s: Seq<(Term, Term)>) -> Seq<(TermModel, TermModel)>
    decreases s, s.len(),
{
    if s.len() == 0 {
        Seq::empty()
    } else {
        pairs_model(s.drop_last()).push((term_model(s.last().0), term_model(s.last().1)))
    }
}

/// `terms_model` keeps the length and maps each element.
pub proof fn lemma_terms_model(s: Seq<Term>)
    ensures
        terms_model(s).len() == s.len(),
        forall|i: int| 0 <= i < s.len() ==> #[trigger] terms_model(s)[i] == term_model(s[i]),
    decreases s.len(),
{
    if s.len() > 0 {
        lemma_terms_model(s.drop_last());
    }
}

/// `pairs_model` keeps the length and maps each pair.
pub proof fn lemma_pairs_model(s: Seq<(Term, Term)>)
    ensures
        pairs_model(s).len() == s.len(),
        forall|i: int|
            0 <= i < s.len() ==> #[trigger] pairs_model(s)[i] == (
            term_model(s[i].0),
            term_model(s[i].1),
        ),
    decreases s.len(),
{
    if s.len() > 0 {
        lemma_pairs_model(s.drop_last());
    }
}

impl<'a> View for Term<'a> {
    type V = TermModel;

    open spec fn view(&self) -> TermModel {
        term_model(*self)
    }
}

impl<'a> AtomUtf8<'a> {
    /// Create a new `AtomUtf8` from raw bytes without validating UTF-8.
    /// [`as_str`](Self::as_str) validates on demand.
    pub fn from_bytes_unchecked(bytes: &'a [u8]) -> (r: Self)
        ensures
            r.0@ == bytes@,
    {
        AtomUtf8(bytes)
    }

    /// Validate UTF-8 and return the atom as a string slice.
    pub fn as_str(&self) -> (r: Result<&'a str, core::str::Utf8Error>)
        ensures
            r is Ok <==> valid_utf8(self.0@),
            r matches Ok(s) ==> s.spec_bytes() == self.0@,
    {
        str_from_utf8(self.0)
    }

    /// Return the raw bytes (no copy, no validation).
    pub fn as_bytes(&self) -> (r: &'a [u8])
        ensures
            r@ == self.0@,
    {
        self.0
    }

    /// Byte length of the atom.
    pub fn len(&self) -> (r: usize)
        ensures
            r == self.0@.len(),
    {
        self.0.len()
    }

    /// Returns `true` if the atom is the empty atom `''`.
    pub fn is_empty(&self) -> (r: bool)
        ensures
            r == (self.0@.len() == 0),
    {
        self.0.len() == 0
    }

    /// Returns `true` if the atom's bytes are the UTF-8 bytes of `s`.
    pub fn eq_str(&self, s: &str) -> (r: bool)
        ensures
            r == (self.0@ == s.spec_bytes()),
    {
        bytes_eq(self.0, s.as_bytes())
    }

    /// An atom whose bytes are the UTF-8 bytes of `s`.
    pub fn from_str(s: &'a str) -> (r: Self)
        ensures
            r.0@ == s.spec_bytes(),
    {
        AtomUtf8(s.as_bytes())
    }
}

impl<'a> PartialEq for AtomUtf8<'a> {
    fn eq(&self, other: &Self) -> (r: bool) {
        bytes_eq(self.0, other.0)
    }
}

impl<'a> vstd::std_specs::cmp::PartialEqSpecImpl for AtomUtf8<'a> {
    open spec fn obeys_eq_spec() -> bool {
        true
    }

    open spec fn eq_spec(&self, other: &Self) -> bool {
        self.0@ == other.0@
    }
}

impl<'a> Eq for AtomUtf8<'a> {
}

impl<'a, 'b> PartialEq<&'b str> for AtomUtf8<'a> {
    fn eq(&self, other: &&'b str) -> (r: bool) {
        bytes_eq(self.0, other.as_bytes())
    }
}

impl<'a, 'b> vstd::std_specs::cmp::PartialEqSpecImpl<&'b str> for AtomUtf8<'a> {
    open spec fn obeys_eq_spec() -> bool {
        true
    }

    open spec fn eq_spec(&self, other: &&'b str) -> bool {
        self.0@ == other.spec_bytes()
    }
}

impl<'a, 'b> PartialEq<AtomUtf8<'a>> for &'b str {
    fn eq(&self, other: &AtomUtf8<'a>) -> (r: bool) {
        bytes_eq(self.as_bytes(), other.0)
    }
}

impl<'a, 'b> vstd::std_specs::cmp::PartialEqSpecImpl<AtomUtf8<'a>> for &'b str {
    open spec fn obeys_eq_spec() -> bool {
        true
    }

    open spec fn eq_spec(&self, other: &AtomUtf8<'a>) -> bool {
        self.spec_bytes() == other.0@
    }
}

impl<'a> From<AtomUtf8<'a>> for Term<'a> {
    fn from(atom: AtomUtf8<'a>) -> (r: Term<'a>) {
        Term::Atom(atom)
    }
}

impl<'a> vstd::std_specs::convert::FromSpecImpl<AtomUtf8<'a>> for Term<'a> {
    open spec fn obeys_from_spec() -> bool {
        true
    }

    open spec fn from_spec(atom: AtomUtf8<'a>) -> Term<'a> {
        Term::Atom(atom)
    }
}

impl<'a> Term<'a> {
    /// The atom term whose name is the UTF-8 bytes of `s`.
    pub fn atom(s: &'a str) -> (r: Term<'a>)
        ensures
            r@ == TermModel::Atom(s.spec_bytes()),
    {
        Term::Atom(AtomUtf8::from_str(s))
    }
}

/// An atom equals a string exactly when the atom's bytes are the string's
/// UTF-8 bytes, whichever side of `==` the atom stands on, and exactly
/// when [`AtomUtf8::eq_str`] says so.
pub proof fn law_atom_eq_str<'a, 'b>(a: AtomUtf8<'a>, s: &'b str)
    ensures
        a.eq_spec(&s) <==> (a.0@.len() == s.spec_bytes().len() && forall|i: int|
            0 <= i < a.0@.len() ==> #[trigger] a.0@[i] == s.spec_bytes()[i]),
        a.eq_spec(&s) <==> PartialEqSpec::<AtomUtf8<'a>>::eq_spec(&s, &a),
{
    if a.0@.len() == s.spec_bytes().len() && forall|i: int| 0 <= i < a.0@.len() ==> #[trigger] a.0@[i] == s.spec_bytes()[i] {
        assert(a.0@ =~= s.spec_bytes());
    }
}

/// Two atoms are equal exactly when they hold the same bytes.
pub proof fn law_atom_eq_atom<'a>(a: AtomUtf8<'a>, b: AtomUtf8<'a>)
    ensures
        a.eq_spec(&b) <==> (a.0@.len() == b.0@.len() && forall|i: int| 0 <= i < a.0@.len() ==> #[trigger] a.0@[i] == b.0@[i]),
{
    if a.0@.len() == b.0@.len() && forall|i: int| 0 <= i < a.0@.len() ==> #[trigger] a.0@[i] == b.0@[i] {
        assert(a.0@ =~= b.0@);
    }
}

} // verus!
