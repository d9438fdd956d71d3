//! Owned equivalents of [`Term`]: they own their data and can outlive the
//! input buffer.

use vstd::prelude::*;

use crate::bytes::bytes_to_vec;
use crate::types::{lemma_pairs_model, lemma_terms_model, pairs_model, terms_model, Term, TermModel};
use vstd::utf8::{decode_utf8, valid_utf8};

verus! {

/// What `String::from_utf8_lossy` makes of `bytes`: their text, with each
/// invalid sequence replaced by U+FFFD.
pub uninterp spec fn utf8_lossy(bytes: Seq<u8>) -> Seq<char>;

/// Calls `String::from_utf8_lossy` and takes the text as an owned string.
/// The contract claims that the text is a function of the bytes alone
/// (`utf8_lossy`), and, as std documents, that valid UTF-8 is decoded as
/// it stands.
#[verifier::external_body]
fn string_from_utf8_lossy(bytes: &[u8]) -> (s: String)
    ensures
        s@ == utf8_lossy(bytes@),
        valid_utf8(bytes@) ==> s@ == decode_utf8(bytes@),
{
    String::from_utf8_lossy(bytes).into_owned()
}

/// Owned PID bytes (the tag byte and the wire bytes).
#[derive(Debug, Clone)]
pub struct PidOwned(pub Vec<u8>);

/// Owned port bytes (the tag byte and the wire bytes).
#[derive(Debug, Clone)]
pub struct PortOwned(pub Vec<u8>);

/// Owned reference bytes (the tag byte and the wire bytes).
#[derive(Debug, Clone)]
pub struct ReferenceOwned(pub Vec<u8>);

/// Owned fun bytes (the tag byte and the wire bytes).
#[derive(Debug, Clone)]
pub struct FunctionOwned(pub Vec<u8>);

/// Owned record bytes (the tag byte and the wire bytes).
#[derive(Debug, Clone)]
pub struct RecordOwned(pub Vec<u8>);

/// An owned, heap-allocated term.
#[derive(Debug)]
pub enum OwnedTerm {
    /// A UTF-8 atom (invalid bytes are decoded lossily).
    Atom(String),
    /// A small signed integer.
    Int(i32),
    /// A bignum with at most 255 digits.
    SmallBigInt {
        /// Sign byte: 0 = positive, 1 = negative.
        sign: u8,
        /// Digits in base 256, least significant byte first.
        digits: Vec<u8>,
    },
    /// A bignum with more than 255 digits.
    LargeBigInt {
        /// Sign byte: 0 = positive, 1 = negative.
        sign: u8,
        /// Digits in base 256, least significant byte first.
        digits: Vec<u8>,
    },
    /// An IEEE 754 double-precision float, as the bits of its value.
    Float(u64),
    /// A binary blob (also what a compact string becomes).
    Binary(Vec<u8>),
    /// A bitstring.
    BitBinary {
        /// Number of significant bits in the last byte (1–8).
        bits: u8,
        /// Binary data padded to a whole number of bytes.
        data: Vec<u8>,
    },
    /// A proper list.
    List(Vec<OwnedTerm>),
    /// An improper list.
    ImproperList {
        /// Elements before the tail.
        elements: Vec<OwnedTerm>,
        /// The tail.
        tail: Box<OwnedTerm>,
    },
    /// A tuple.
    Tuple(Vec<OwnedTerm>),
    /// A map.
    ErlangMap(Vec<(OwnedTerm, OwnedTerm)>),
    /// A process identifier.
    Pid(PidOwned),
    /// A port identifier.
    Port(PortOwned),
    /// A reference.
    Ref(ReferenceOwned),
    /// A fun.
    Function(FunctionOwned),
    /// A native record.
    Record(RecordOwned),
}

/// The mathematical value of an [`OwnedTerm`].
pub enum OwnedModel {
    Atom(Seq<char>),
    Int(i32),
    SmallBigInt { sign: u8, digits: Seq<u8> },
    LargeBigInt { sign: u8, digits: Seq<u8> },
    Float(u64),
    Binary(Seq<u8>),
    BitBinary { bits: u8, data: Seq<u8> },
    List(Seq<OwnedModel>),
    ImproperList { elements: Seq<OwnedModel>, tail: Box<OwnedModel> },
    Tuple(Seq<OwnedModel>),
    ErlangMap(Seq<(OwnedModel, OwnedModel)>),
    Pid(Seq<u8>),
    Port(Seq<u8>),
    Ref(Seq<u8>),
    Function(Seq<u8>),
    Record(Seq<u8>),
}

/// The model of an owned term.
pub open spec fn owned_model(o: OwnedTerm) -> OwnedModel
    decreases o, 0nat,
{
    match o {
        OwnedTerm::Atom(s) => OwnedModel::Atom(s@),
        OwnedTerm::Int(i) => OwnedModel::Int(i),
        OwnedTerm::SmallBigInt { sign, digits } => OwnedModel::SmallBigInt { sign, digits: digits@ },
        OwnedTerm::LargeBigInt { sign, digits } => OwnedModel::LargeBigInt { sign, digits: digits@ },
        OwnedTerm::Float(b) => OwnedModel::Float(b),
        OwnedTerm::Binary(b) => OwnedModel::Binary(b@),
        OwnedTerm::BitBinary { bits, data } => OwnedModel::BitBinary { bits, data: data@ },
        OwnedTerm::List(v) => OwnedModel::List(owned_models(v@)),
        OwnedTerm::ImproperList { elements, tail } => OwnedModel::ImproperList {
            elements: owned_models(elements@),
            tail: Box::new(owned_model(*tail)),
        },
        OwnedTerm::Tuple(v) => OwnedModel::Tuple(owned_models(v@)),
        OwnedTerm::ErlangMap(v) => OwnedModel::ErlangMap(owned_pairs(v@)),
        OwnedTerm::Pid(p) => OwnedModel::Pid(p.0@),
        OwnedTerm::Port(p) => OwnedModel::Port(p.0@),
        OwnedTerm::Ref(p) => OwnedModel::Ref(p.0@),
        OwnedTerm::Function(p) => OwnedModel::Function(p.0@),
        OwnedTerm::Record(p) => OwnedModel::Record(p.0@),
    }
}

/// The models of a sequence of owned terms.
pub open spec fn owned_models(s: Seq<OwnedTerm>) -> Seq<OwnedModel>
    decreases s, s.len(),
{
    if s.len() == 0 {
        Seq::empty()
    } else {
        owned_models(s.drop_last()).push(owned_model(s.last()))
    }
}

/// The models of a sequence of owned pairs.
pub open spec fn owned_pairs(s: Seq<(OwnedTerm, OwnedTerm)>) -> Seq<(OwnedModel, OwnedModel)>
    decreases s, s.len(),
{
    if s.len() == 0 {
        Seq::empty()
    } else {
        owned_pairs(s.drop_last()).push((owned_model(s.last().0), owned_model(s.last().1)))
    }
}

impl View for OwnedTerm {
    type V = OwnedModel;

    open spec fn view(&self) -> OwnedModel {
        owned_model(*self)
    }
}

/// What converting a term to an owned term gives: atoms are decoded
/// (lossily), bignums are split by size, compact strings become binaries,
/// an improper list is split into its elements and tail (one without even
/// a tail becomes the empty list), and opaque terms keep their
/// bytes.
pub open spec fn to_owned(t: TermModel) -> OwnedModel
    decreases t, 0nat,
{
    match t {
        TermModel::Atom(b) => OwnedModel::Atom(utf8_lossy(b)),
        TermModel::Int(i) => OwnedModel::Int(i),
        TermModel::BigInt { sign, digits } => if digits.len() > 255 {
            OwnedModel::LargeBigInt { sign, digits }
        } else {
            OwnedModel::SmallBigInt { sign, digits }
        },
        TermModel::Float(b) => OwnedModel::Float(b),
        TermModel::Binary(b) => OwnedModel::Binary(b),
        TermModel::BitBinary { bits, data } => OwnedModel::BitBinary { bits, data },
        TermModel::String(b) => OwnedModel::Binary(b),
        TermModel::List(s) => OwnedModel::List(to_owned_seq(s)),
        TermModel::ImproperList(s) => if s.len() == 0 {
            OwnedModel::List(Seq::empty())
        } else {
            OwnedModel::ImproperList {
                elements: to_owned_seq(s.drop_last()),
                tail: Box::new(to_owned(s.last())),
            }
        },
        TermModel::Tuple(s) => OwnedModel::Tuple(to_owned_seq(s)),
        TermModel::ErlangMap(ps) => OwnedModel::ErlangMap(to_owned_pairs(ps)),
        TermModel::Pid(b) => OwnedModel::Pid(b),
        TermModel::Port(b) => OwnedModel::Port(b),
        TermModel::Ref(b) => OwnedModel::Ref(b),
        TermModel::Function(b) => OwnedModel::Function(b),
        TermModel::Record(b) => OwnedModel::Record(b),
    }
}

/// [`to_owned`] of each term of a sequence.
pub open spec fn to_owned_seq(s: Seq<TermModel>) -> Seq<OwnedModel>
    decreases s, s.len(),
{
    if s.len() == 0 {
        Seq::empty()
    } else {
        to_owned_seq(s.drop_last()).push(to_owned(s.last()))
    }
}

/// [`to_owned`] of each key and value of a sequence of pairs.
pub open spec fn to_owned_pairs(s: Seq<(TermModel, TermModel)>) -> Seq<(OwnedModel, OwnedModel)>
    decreases s, s.len(),
{
    if s.len() == 0 {
        Seq::empty()
    } else {
        to_owned_pairs(s.drop_last()).push((to_owned(s.last().0), to_owned(s.last().1)))
    }
}

impl OwnedTerm {
    /// Convert a term into an owned term (see [`to_owned`]).
    pub fn from_term<'a>(term: &Term<'a>) -> (o: OwnedTerm)
        ensures
            o@ == to_owned(term@),
        decreases term, 0nat,
    {
        let o = match term {
            Term::Atom(a) => OwnedTerm::Atom(string_from_utf8_lossy(a.0)),
            Term::Int(i) => OwnedTerm::Int(*i),
            Term::BigInt { sign, digits } => {
                if digits.len() > 255 {
                    OwnedTerm::LargeBigInt { sign: *sign, digits: bytes_to_vec(digits) }
                } else {
                    OwnedTerm::SmallBigInt { sign: *sign, digits: bytes_to_vec(digits) }
                }
            },
            Term::Float(b) => OwnedTerm::Float(*b),
            Term::Binary(b) => OwnedTerm::Binary(bytes_to_vec(b)),
            Term::BitBinary { bits, data } => OwnedTerm::BitBinary { bits: *bits, data: bytes_to_vec(data) },
            Term::String(b) => OwnedTerm::Binary(bytes_to_vec(b)),
            Term::List(v) => {
                proof {
                    lemma_terms_model(v@);
                    assert(terms_model(v@).subrange(0, v@.len() as int) =~= terms_model(v@));
                }
                OwnedTerm::List(owned_range(v, 0, v.len()))
            },
            Term::ImproperList(v) => {
                let len = v.len();
                if len == 0 {
                    let r = OwnedTerm::List(Vec::new());
                    proof {
                        lemma_terms_model(v@);
                    }
                    assert(owned_models(Seq::<OwnedTerm>::empty()) =~= Seq::<OwnedModel>::empty());
                    r
                } else {
                    let elements = owned_range(v, 0, len - 1);
                    let tail = owned_at(v, len - 1);
                    proof {
                        lemma_terms_model(v@);
                        assert(terms_model(v@).subrange(0, len - 1) =~= terms_model(v@).drop_last());
                    }
                    OwnedTerm::ImproperList { elements, tail: Box::new(tail) }
                }
            },
            Term::Tuple(v) => {
                proof {
                    lemma_terms_model(v@);
                    assert(terms_model(v@).subrange(0, v@.len() as int) =~= terms_model(v@));
                }
                OwnedTerm::Tuple(owned_range(v, 0, v.len()))
            },
            Term::ErlangMap(ps) => OwnedTerm::ErlangMap(owned_pairs_of(ps)),
            Term::Pid(b) => OwnedTerm::Pid(PidOwned(bytes_to_vec(b))),
            Term::Port(b) => OwnedTerm::Port(PortOwned(bytes_to_vec(b))),
            Term::Ref(b) => OwnedTerm::Ref(ReferenceOwned(bytes_to_vec(b))),
            Term::Function(b) => OwnedTerm::Function(FunctionOwned(bytes_to_vec(b))),
            Term::Record(b) => OwnedTerm::Record(RecordOwned(bytes_to_vec(b))),
        };
        o
    }
}

/// The owned form of the `i`-th term of `v`.
fn owned_at<'a>(v: &Vec<Term<'a>>, i: usize) -> (o: OwnedTerm)
    requires
        i < v@.len(),
    ensures
        o@ == to_owned(terms_model(v@)[i as int]),
    decreases v, 1nat,
{
    proof {
        lemma_terms_model(v@);
    }
    OwnedTerm::from_term(&v[i])
}

/// The owned forms of the terms `lo..hi` of `v`.
fn owned_range<'a>(v: &Vec<Term<'a>>, lo: usize, hi: usize) -> (r: Vec<OwnedTerm>)
    requires
        lo <= hi <= v@.len(),
    ensures
        owned_models(r@) == to_owned_seq(terms_model(v@).subrange(lo as int, hi as int)),
    decreases v, 2nat,
{
    let ghost ts = terms_model(v@);
    proof {
        lemma_terms_model(v@);
        assert(ts.subrange(lo as int, lo as int) =~= Seq::<TermModel>::empty());
    }
    let mut r: Vec<OwnedTerm> = Vec::new();
    let mut i = lo;
    while i < hi
        invariant
            lo <= i <= hi <= v@.len(),
            ts == terms_model(v@),
            ts.len() == v@.len(),
            owned_models(r@) == to_owned_seq(ts.subrange(lo as int, i as int)),
        decreases hi - i,
    {
        let o = owned_at(v, i);
        let ghost before = r@;
        r.push(o);
        proof {
            assert(r@.drop_last() =~= before);
            assert(ts.subrange(lo as int, i + 1).drop_last() =~= ts.subrange(lo as int, i as int));
            assert(ts.subrange(lo as int, i + 1).last() == ts[i as int]);
        }
        i = i + 1;
    }
    r
}

/// The owned forms of the keys and values of `v`.
fn owned_pairs_of<'a>(v: &Vec<(Term<'a>, Term<'a>)>) -> (r: Vec<(OwnedTerm, OwnedTerm)>)
    ensures
        owned_pairs(r@) == to_owned_pairs(pairs_model(v@)),
    decreases v, 2nat,
{
    let ghost ps = pairs_model(v@);
    proof {
        lemma_pairs_model(v@);
        assert(ps.subrange(0, 0) =~= Seq::<(TermModel, TermModel)>::empty());
        assert(ps.subrange(0, ps.len() as int) =~= ps);
    }
    let mut r: Vec<(OwnedTerm, OwnedTerm)> = Vec::new();
    let mut i: usize = 0;
    while i < v.len()
        invariant
            i <= v@.len(),
            ps == pairs_model(v@),
            ps.len() == v@.len(),
            forall|k: int| 0 <= k < v@.len() ==> #[trigger] ps[k] == (v@[k].0@, v@[k].1@),
            owned_pairs(r@) == to_owned_pairs(ps.subrange(0, i as int)),
        decreases v@.len() - i,
    {
        let k = OwnedTerm::from_term(&v[i].0);
        let val = OwnedTerm::from_term(&v[i].1);
        let ghost before = r@;
        r.push((k, val));
        proof {
            assert(r@.drop_last() =~= before);
            assert(ps.subrange(0, i + 1).drop_last() =~= ps.subrange(0, i as int));
            assert(ps.subrange(0, i + 1).last() == ps[i as int]);
        }
        i = i + 1;
    }
    r
}

/// The `n` base-256 digits of `v`, least significant first.
pub open spec fn le_digits(v: nat, n: nat) -> Seq<u8>
    decreases n,
{
    if n == 0 {
        Seq::empty()
    } else {
        seq![(v % 256) as u8] + le_digits(v / 256, (n - 1) as nat)
    }
}

/// `s` without its trailing zero bytes, keeping at least one byte.
pub open spec fn trim_zeros(s: Seq<u8>) -> Seq<u8>
    decreases s.len(),
{
    if s.len() <= 1 || s.last() != 0 {
        s
    } else {
        trim_zeros(s.drop_last())
    }
}

/// What a signed integer from a data format becomes: `Int` where it fits
/// in 32 bits, otherwise a bignum of the base-256 digits of its magnitude
/// with no zero digit at the top.
pub open spec fn owned_of_i64(v: i64) -> OwnedModel {
    if i32::MIN <= v <= i32::MAX {
        OwnedModel::Int(v as i32)
    } else {
        OwnedModel::SmallBigInt {
            sign: if v < 0 { 1 } else { 0 },
            digits: trim_zeros(le_digits((if v < 0 { -v } else { v as int }) as nat, 8)),
        }
    }
}

/// What an unsigned integer of `width` bytes from a data format becomes:
/// `Int` where it fits in 32 bits, otherwise a positive bignum of all
/// `width` of its base-256 digits.
pub open spec fn owned_of_unsigned(v: nat, width: nat) -> OwnedModel {
    if v <= i32::MAX {
        OwnedModel::Int(v as i32)
    } else {
        OwnedModel::SmallBigInt { sign: 0, digits: le_digits(v, width) }
    }
}

/// The number whose base-256 digits, least significant first, are `s`.
pub open spec fn digits_value(s: Seq<u8>) -> nat
    decreases s.len(),
{
    if s.len() == 0 {
        0
    } else {
        s[0] as nat + 256 * digits_value(s.subrange(1, s.len() as int))
    }
}

/// 256 to the power `n`.
pub open spec fn pow256(n: nat) -> nat
    decreases n,
{
    if n == 0 {
        1
    } else {
        256 * pow256((n - 1) as nat)
    }
}

/// The `n` digits of a number below `256^n` are its digits.
proof fn lemma_le_digits_value(v: nat, n: nat)
    requires
        v < pow256(n),
    ensures
        le_digits(v, n).len() == n,
        digits_value(le_digits(v, n)) == v,
    decreases n,
{
    if n > 0 {
        let p = pow256((n - 1) as nat);
        assert(v / 256 < p && v % 256 + 256 * (v / 256) == v) by (nonlinear_arith)
            requires
                v < 256 * p,
        {
        }
        lemma_le_digits_value(v / 256, (n - 1) as nat);
        let rest = le_digits(v / 256, (n - 1) as nat);
        assert((seq![(v % 256) as u8] + rest).subrange(1, n as int) =~= rest);
    }
}

/// A zero digit at the top adds nothing.
proof fn lemma_drop_zero_digit(s: Seq<u8>)
    requires
        s.len() >= 1,
        s.last() == 0,
    ensures
        digits_value(s.drop_last()) == digits_value(s),
    decreases s.len(),
{
    if s.len() > 1 {
        let rest = s.subrange(1, s.len() as int);
        assert(rest.last() == s.last());
        lemma_drop_zero_digit(rest);
        assert(s.drop_last().subrange(1, s.len() - 1) =~= rest.drop_last());
        assert(s.drop_last()[0] == s[0]);
    } else {
        assert(s.subrange(1, 1) =~= Seq::<u8>::empty());
        assert(s.drop_last() =~= Seq::<u8>::empty());
    }
}

/// Trimming the zero digits at the top keeps the value, leaves at least
/// one digit, and leaves a nonzero top digit where more than one remains.
proof fn lemma_trim_zeros(s: Seq<u8>)
    requires
        s.len() >= 1,
    ensures
        digits_value(trim_zeros(s)) == digits_value(s),
        1 <= trim_zeros(s).len() <= s.len(),
        trim_zeros(s).len() == 1 || trim_zeros(s).last() != 0,
    decreases s.len(),
{
    if s.len() > 1 && s.last() == 0 {
        lemma_drop_zero_digit(s);
        lemma_trim_zeros(s.drop_last());
    }
}

/// A signed integer read from a data format keeps its value: as an `Int`,
/// or as a bignum whose sign is that of the integer and whose digits, at
/// most eight with no zero digit at the top, make up its magnitude.
pub proof fn law_from_i64_keeps_value(v: i64)
    ensures
        match owned_of_i64(v) {
            OwnedModel::Int(i) => i == v,
            OwnedModel::SmallBigInt { sign, digits } => {
                &&& (sign == 1 <==> v < 0)
                &&& (sign == 0 <==> v >= 0)
                &&& digits_value(digits) == (if v < 0 { -v } else { v as int })
                &&& 1 <= digits.len() <= 8
                &&& (digits.len() == 1 || digits.last() != 0)
            },
            _ => false,
        },
{
    reveal_with_fuel(pow256, 9);
    if !(i32::MIN <= v <= i32::MAX) {
        let m = (if v < 0 { -v } else { v as int }) as nat;
        lemma_le_digits_value(m, 8);
        lemma_trim_zeros(le_digits(m, 8));
    }
}

/// An unsigned integer of `width` bytes read from a data format keeps its
/// value: as an `Int`, or as a positive bignum of exactly `width` digits
/// that make up the integer.
pub proof fn law_from_unsigned_keeps_value(v: nat, width: nat)
    requires
        v < pow256(width),
    ensures
        match owned_of_unsigned(v, width) {
            OwnedModel::Int(i) => i == v,
            OwnedModel::SmallBigInt { sign, digits } => sign == 0 && digits_value(digits) == v && digits.len() == width,
            _ => false,
        },
{
    lemma_le_digits_value(v, width);
}

/// The `n` base-256 digits of `v`, least significant first.
fn le_digits_vec(v: u64, n: usize) -> (r: Vec<u8>)
    ensures
        r@ == le_digits(v as nat, n as nat),
{
    let mut r: Vec<u8> = Vec::new();
    let mut x = v;
    let mut i: usize = 0;
    proof {
        assert(r@ + le_digits(x as nat, n as nat) =~= le_digits(v as nat, n as nat));
    }
    while i < n
        invariant
            i <= n,
            r@ + le_digits(x as nat, (n - i) as nat) == le_digits(v as nat, n as nat),
        decreases n - i,
    {
        let ghost before = r@;
        let ghost rest = le_digits((x / 256) as nat, (n - i - 1) as nat);
        r.push((x % 256) as u8);
        proof {
            assert(le_digits(x as nat, (n - i) as nat) == seq![(x % 256) as u8] + rest);
            assert(r@ + rest =~= before + (seq![(x % 256) as u8] + rest));
        }
        x = x / 256;
        i = i + 1;
    }
    proof {
        assert(r@ + le_digits(x as nat, 0) =~= r@);
    }
    r
}

/// Drop the trailing zero bytes of `v`, keeping at least one byte.
fn trim_trailing_zeros(v: &mut Vec<u8>)
    ensures
        final(v)@ == trim_zeros(old(v)@),
{
    while v.len() > 1 && v[v.len() - 1] == 0
        invariant
            trim_zeros(v@) == trim_zeros(old(v)@),
        decreases v.len(),
    {
        let ghost before = v@;
        v.pop();
        proof {
            assert(v@ =~= before.drop_last());
        }
    }
}

impl OwnedTerm {
    /// The owned term for a signed integer of a data format (see
    /// [`owned_of_i64`]).
    pub fn from_i64(v: i64) -> (o: OwnedTerm)
        ensures
            o@ == owned_of_i64(v),
    {
        if (i32::MIN as i64) <= v && v <= (i32::MAX as i64) {
            return OwnedTerm::Int(v as i32);
        }
        let sign: u8 = if v < 0 { 1 } else { 0 };
        let magnitude: u64 = if v < 0 { ((-(v + 1)) as u64) + 1 } else { v as u64 };
        let mut digits = le_digits_vec(magnitude, 8);
        trim_trailing_zeros(&mut digits);
        OwnedTerm::SmallBigInt { sign, digits }
    }

    /// The owned term for an unsigned 32-bit integer of a data format (see
    /// [`owned_of_unsigned`]).
    pub fn from_u32(v: u32) -> (o: OwnedTerm)
        ensures
            o@ == owned_of_unsigned(v as nat, 4),
    {
        if v <= (i32::MAX as u32) {
            return OwnedTerm::Int(v as i32);
        }
        OwnedTerm::SmallBigInt { sign: 0, digits: le_digits_vec(v as u64, 4) }
    }

    /// The owned term for an unsigned 64-bit integer of a data format (see
    /// [`owned_of_unsigned`]).
    pub fn from_u64(v: u64) -> (o: OwnedTerm)
        ensures
            o@ == owned_of_unsigned(v as nat, 8),
    {
        if v <= (i32::MAX as u64) {
            return OwnedTerm::Int(v as i32);
        }
        OwnedTerm::SmallBigInt { sign: 0, digits: le_digits_vec(v, 8) }
    }

    /// The atom `true` or `false`.
    pub fn from_bool(v: bool) -> (o: OwnedTerm)
        ensures
            o@ == OwnedModel::Atom(if v { "true"@ } else { "false"@ }),
    {
        if v {
            OwnedTerm::Atom("true".to_owned())
        } else {
            OwnedTerm::Atom("false".to_owned())
        }
    }

    /// The atom `undefined`, which stands for an absent value.
    pub fn undefined() -> (o: OwnedTerm)
        ensures
            o@ == OwnedModel::Atom("undefined"@),
    {
        OwnedTerm::Atom("undefined".to_owned())
    }
}


/// [`to_owned_seq`] keeps the length and converts each term in place.
pub proof fn lemma_to_owned_seq(s: Seq<TermModel>)
    ensures
        to_owned_seq(s).len() == s.len(),
        forall|i: int| 0 <= i < s.len() ==> #[trigger] to_owned_seq(s)[i] == to_owned(s[i]),
    decreases s.len(),
{
    if s.len() > 0 {
        lemma_to_owned_seq(s.drop_last());
        assert forall|i: int| 0 <= i < s.len() implies #[trigger] to_owned_seq(s)[i] == to_owned(s[i]) by {
            if i < s.len() - 1 {
                assert(s.drop_last()[i] == s[i]);
            }
        }
    }
}

/// [`to_owned_pairs`] keeps the length and converts each key and value in
/// place.
pub proof fn lemma_to_owned_pairs(s: Seq<(TermModel, TermModel)>)
    ensures
        to_owned_pairs(s).len() == s.len(),
        forall|i: int|
            0 <= i < s.len() ==> #[trigger] to_owned_pairs(s)[i] == (to_owned(s[i].0), to_owned(s[i].1)),
    decreases s.len(),
{
    if s.len() > 0 {
        lemma_to_owned_pairs(s.drop_last());
        assert forall|i: int| 0 <= i < s.len() implies #[trigger] to_owned_pairs(s)[i] == (
            to_owned(s[i].0),
            to_owned(s[i].1),
        ) by {
            if i < s.len() - 1 {
                assert(s.drop_last()[i] == s[i]);
            }
        }
    }
}

/// Converting a term with no nested terms to an owned term keeps its kind
/// and its contents: an integer, float, binary, bit string, PID, port,
/// reference, fun or record stays the same kind with the same value or
/// bytes, a string becomes a binary of its bytes, a bignum keeps its sign
/// and digits (in the small form up to 255 digits, the large form beyond),
/// and an atom stays an atom.
pub proof fn law_owned_keeps_leaves(t: TermModel)
    ensures
        ({
            let o = to_owned(t);
            &&& t is Int ==> o == OwnedModel::Int(t->Int_0)
            &&& t is Float ==> o == OwnedModel::Float(t->Float_0)
            &&& t is Binary ==> o == OwnedModel::Binary(t->Binary_0)
            &&& t is String ==> o == OwnedModel::Binary(t->String_0)
            &&& t is BitBinary ==> (o is BitBinary && o->bits == t->bits && o->BitBinary_data == t->BitBinary_data)
            &&& (t is BigInt && (t->BigInt_digits).len() <= 255) ==> (o is SmallBigInt && o->SmallBigInt_sign
                == t->sign && o->SmallBigInt_digits == t->BigInt_digits)
            &&& (t is BigInt && (t->BigInt_digits).len() > 255) ==> (o is LargeBigInt && o->LargeBigInt_sign
                == t->sign && o->LargeBigInt_digits == t->BigInt_digits)
            &&& t is Atom ==> o is Atom
            &&& t is Pid ==> o == OwnedModel::Pid(t->Pid_0)
            &&& t is Port ==> o == OwnedModel::Port(t->Port_0)
            &&& t is Ref ==> o == OwnedModel::Ref(t->Ref_0)
            &&& t is Function ==> o == OwnedModel::Function(t->Function_0)
            &&& t is Record ==> o == OwnedModel::Record(t->Record_0)
        }),
{
}

/// Converting a proper list, a tuple or a map to an owned term keeps its
/// kind, with as many elements (or pairs), each converted in its place.
pub proof fn law_owned_keeps_compounds(t: TermModel)
    ensures
        ({
            let o = to_owned(t);
            &&& t is List ==> (o is List && (o->List_0).len() == (t->List_0).len() && forall|i: int|
                0 <= i < (t->List_0).len() ==> #[trigger] (o->List_0)[i] == to_owned((t->List_0)[i]))
            &&& t is Tuple ==> (o is Tuple && (o->Tuple_0).len() == (t->Tuple_0).len() && forall|i: int|
                0 <= i < (t->Tuple_0).len() ==> #[trigger] (o->Tuple_0)[i] == to_owned((t->Tuple_0)[i]))
            &&& t is ErlangMap ==> (o is ErlangMap && (o->ErlangMap_0).len() == (t->ErlangMap_0).len()
                && forall|i: int|
                0 <= i < (t->ErlangMap_0).len() ==> #[trigger] (o->ErlangMap_0)[i] == (
                    to_owned((t->ErlangMap_0)[i].0),
                    to_owned((t->ErlangMap_0)[i].1),
                ))
        }),
{
    match t {
        TermModel::List(s) => lemma_to_owned_seq(s),
        TermModel::Tuple(s) => lemma_to_owned_seq(s),
        TermModel::ErlangMap(ps) => lemma_to_owned_pairs(ps),
        _ => {},
    }
}

/// Converting an improper list with a tail to an owned term gives an owned
/// improper list: its elements but the last, each converted in its place,
/// and the last, converted, as its tail.
pub proof fn law_owned_keeps_improper(s: Seq<TermModel>)
    requires
        s.len() >= 1,
    ensures
        ({
            let o = to_owned(TermModel::ImproperList(s));
            &&& o is ImproperList
            &&& (o->elements).len() == s.len() - 1
            &&& forall|i: int| 0 <= i < s.len() - 1 ==> #[trigger] (o->elements)[i] == to_owned(s[i])
            &&& o->tail == Box::new(to_owned(s.last()))
        }),
{
    lemma_to_owned_seq(s.drop_last());
    assert forall|i: int| 0 <= i < s.len() - 1 implies #[trigger] (to_owned(TermModel::ImproperList(s))->elements)[i]
        == to_owned(s[i]) by {
        assert(s.drop_last()[i] == s[i]);
    }
}

} // verus!
