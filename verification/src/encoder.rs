//! The ETF encoder.
//!
//! One small encoding function per tag or tag family, dispatched from a
//! central `encode_term`:
//!
//! - integers use `SMALL_INTEGER_EXT` when the value fits in 0–255;
//! - atoms use `SMALL_ATOM_UTF8_EXT` for names under 256 bytes and
//!   `ATOM_UTF8_EXT` otherwise;
//! - tuples use `SMALL_TUPLE_EXT` for arity under 256 and
//!   `LARGE_TUPLE_EXT` otherwise;
//! - opaque terms (PIDs, ports, references, funs, records) carry their tag
//!   byte and are re-emitted exactly as they were parsed.

use vstd::prelude::*;

use crate::error::EtfError;
use crate::tags::{
    ATOM_UTF8_EXT, BINARY_EXT, BIT_BINARY_EXT, COMPRESSED, ETF_MAGIC, INTEGER_EXT, LARGE_BIG_EXT,
    LARGE_TUPLE_EXT, LIST_EXT, MAP_EXT, NEW_FLOAT_EXT, NIL_EXT, SMALL_ATOM_UTF8_EXT, SMALL_BIG_EXT,
    SMALL_INTEGER_EXT, SMALL_TUPLE_EXT, STRING_EXT,
};
use crate::types::{lemma_pairs_model, lemma_terms_model, Term, TermModel};
use crate::zlib::ZlibBackend;

verus! {

/// The two bytes of `v` (taken modulo 2^16), most significant first.
pub open spec fn be16(v: int) -> Seq<u8> {
    seq![(v / 256 % 256) as u8, (v % 256) as u8]
}

/// The four bytes of `v` (taken modulo 2^32), most significant first.
pub open spec fn be32(v: int) -> Seq<u8> {
    seq![(v / 16777216 % 256) as u8, (v / 65536 % 256) as u8, (v / 256 % 256) as u8, (v % 256) as u8]
}

/// The eight bytes of `v` (taken modulo 2^64), most significant first.
pub open spec fn be64(v: int) -> Seq<u8> {
    be32(v / 4294967296) + be32(v % 4294967296)
}

/// What encoding writes: the bytes, and whether the encoding is complete
/// (it stops, incomplete, at an improper list with no tail, which has no
/// encoding).
pub struct Encoding {
    pub bytes: Seq<u8>,
    pub complete: bool,
}

/// The encoding of a bignum: `SMALL_BIG_EXT` for up to 255 digits,
/// `LARGE_BIG_EXT` otherwise.
pub open spec fn enc_big(sign: u8, digits: Seq<u8>) -> Encoding {
    if digits.len() > 255 {
        emit(seq![LARGE_BIG_EXT] + be32(digits.len() as u32 as int) + seq![sign] + digits)
    } else {
        emit(seq![SMALL_BIG_EXT, digits.len() as u8, sign] + digits)
    }
}

/// A complete encoding of `b`.
pub open spec fn emit(b: Seq<u8>) -> Encoding {
    Encoding { bytes: b, complete: true }
}

/// `a` followed by `b` (nothing follows an incomplete encoding).
pub open spec fn then(a: Encoding, b: Encoding) -> Encoding {
    if a.complete {
        Encoding { bytes: a.bytes + b.bytes, complete: b.complete }
    } else {
        a
    }
}

/// The encoding of a term (without the magic byte).
pub open spec fn enc_term(t: TermModel) -> Encoding
    decreases t, 0nat,
{
    match t {
        TermModel::Int(v) => if 0 <= v <= 255 {
            emit(seq![SMALL_INTEGER_EXT, v as u8])
        } else {
            emit(seq![INTEGER_EXT] + be32(v as u32 as int))
        },
        TermModel::BigInt { sign, digits } => enc_big(sign, digits),
        TermModel::Float(bits) => emit(seq![NEW_FLOAT_EXT] + be64(bits as int)),
        TermModel::Atom(b) => if b.len() < 256 {
            emit(seq![SMALL_ATOM_UTF8_EXT, b.len() as u8] + b)
        } else {
            emit(seq![ATOM_UTF8_EXT] + be16(b.len() as u16 as int) + b)
        },
        TermModel::Tuple(s) => if s.len() < 256 {
            then(emit(seq![SMALL_TUPLE_EXT, s.len() as u8]), enc_seq(s))
        } else {
            then(emit(seq![LARGE_TUPLE_EXT] + be32(s.len() as u32 as int)), enc_seq(s))
        },
        TermModel::List(s) => if s.len() == 0 {
            emit(seq![NIL_EXT])
        } else {
            then(then(emit(seq![LIST_EXT] + be32(s.len() as u32 as int)), enc_seq(s)), emit(seq![NIL_EXT]))
        },
        TermModel::ImproperList(s) => if s.len() < 1 {
            Encoding { bytes: Seq::empty(), complete: false }
        } else {
            then(emit(seq![LIST_EXT] + be32((s.len() - 1) as u32 as int)), enc_seq(s))
        },
        TermModel::ErlangMap(ps) => then(emit(seq![MAP_EXT] + be32(ps.len() as u32 as int)), enc_pairs(ps)),
        TermModel::Binary(b) => emit(seq![BINARY_EXT] + be32(b.len() as u32 as int) + b),
        TermModel::BitBinary { bits, data } => emit(
            seq![BIT_BINARY_EXT] + be32(data.len() as u32 as int) + seq![bits] + data,
        ),
        TermModel::String(b) => emit(seq![STRING_EXT] + be16(b.len() as u16 as int) + b),
        TermModel::Pid(b) => emit(b),
        TermModel::Port(b) => emit(b),
        TermModel::Ref(b) => emit(b),
        TermModel::Function(b) => emit(b),
        TermModel::Record(b) => emit(b),
    }
}

/// The encodings of a sequence of terms, one after another.
pub open spec fn enc_seq(s: Seq<TermModel>) -> Encoding
    decreases s, s.len(),
{
    if s.len() == 0 {
        emit(Seq::empty())
    } else {
        then(enc_seq(s.drop_last()), enc_term(s.last()))
    }
}

/// The encodings of a sequence of key-value pairs: each key, then its value.
pub open spec fn enc_pairs(s: Seq<(TermModel, TermModel)>) -> Encoding
    decreases s, s.len(),
{
    if s.len() == 0 {
        emit(Seq::empty())
    } else {
        then(enc_pairs(s.drop_last()), then(enc_term(s.last().0), enc_term(s.last().1)))
    }
}

/// Whether a total of `n` bytes fits a sink of capacity `cap` (`None`:
/// unbounded).
pub open spec fn fits(n: nat, cap: Option<nat>) -> bool {
    match cap {
        Some(c) => n <= c,
        None => true,
    }
}

/// Writing the encoding `e` into a sink of capacity `cap` that held `w0`
/// left it holding `w1` and returned `r`: when `e` fits, it is appended,
/// and the result says whether it is complete; otherwise the output ran
/// out.
pub open spec fn encoded(w0: Seq<u8>, cap: Option<nat>, e: Encoding, w1: Seq<u8>, r: Result<(), EtfError>) -> bool {
    if fits(w0.len() + e.bytes.len(), cap) {
        w1 == w0 + e.bytes && r == (if e.complete {
            Ok::<(), EtfError>(())
        } else {
            Err::<(), EtfError>(EtfError::InvalidSize)
        })
    } else {
        r == Err::<(), EtfError>(EtfError::UnexpectedEof)
    }
}

/// Writing `a` then `b` is writing `then(a, b)`.
pub proof fn lemma_encoded_then(
    w0: Seq<u8>,
    cap: Option<nat>,
    a: Encoding,
    w1: Seq<u8>,
    ra: Result<(), EtfError>,
    b: Encoding,
    w2: Seq<u8>,
    rb: Result<(), EtfError>,
)
    requires
        encoded(w0, cap, a, w1, ra),
        ra is Ok ==> encoded(w1, cap, b, w2, rb),
    ensures
        ra is Ok ==> encoded(w0, cap, then(a, b), w2, rb),
        ra is Err ==> encoded(w0, cap, then(a, b), w1, ra),
{
    if ra is Ok {
        assert(w0 + (a.bytes + b.bytes) =~= w0 + a.bytes + b.bytes);
    }
}

/// `then` is associative.
pub proof fn lemma_then_assoc(a: Encoding, b: Encoding, c: Encoding)
    ensures
        then(then(a, b), c) == then(a, then(b, c)),
{
    assert(a.bytes + (b.bytes + c.bytes) =~= a.bytes + b.bytes + c.bytes);
}

/// Nothing written is a unit of `then`.
pub proof fn lemma_then_empty(a: Encoding)
    ensures
        then(a, emit(Seq::empty())) == a,
        then(emit(Seq::empty()), a) == a,
{
    assert(a.bytes + Seq::<u8>::empty() =~= a.bytes);
    assert(Seq::<u8>::empty() + a.bytes =~= a.bytes);
}

/// Encoding two sequences one after the other is encoding their
/// concatenation.
pub proof fn lemma_enc_seq_append(a: Seq<TermModel>, b: Seq<TermModel>)
    ensures
        enc_seq(a + b) == then(enc_seq(a), enc_seq(b)),
    decreases b.len(),
{
    if b.len() == 0 {
        assert(a + b =~= a);
        lemma_then_empty(enc_seq(a));
    } else {
        assert((a + b).drop_last() =~= a + b.drop_last());
        assert((a + b).last() == b.last());
        lemma_enc_seq_append(a, b.drop_last());
        lemma_then_assoc(enc_seq(a), enc_seq(b.drop_last()), enc_term(b.last()));
    }
}

/// Encoding two pair sequences one after the other is encoding their
/// concatenation.
pub proof fn lemma_enc_pairs_append(a: Seq<(TermModel, TermModel)>, b: Seq<(TermModel, TermModel)>)
    ensures
        enc_pairs(a + b) == then(enc_pairs(a), enc_pairs(b)),
    decreases b.len(),
{
    if b.len() == 0 {
        assert(a + b =~= a);
        lemma_then_empty(enc_pairs(a));
    } else {
        assert((a + b).drop_last() =~= a + b.drop_last());
        assert((a + b).last() == b.last());
        lemma_enc_pairs_append(a, b.drop_last());
        lemma_then_assoc(
            enc_pairs(a),
            enc_pairs(b.drop_last()),
            then(enc_term(b.last().0), enc_term(b.last().1)),
        );
    }
}

/// A write that stopped stops every longer write.
pub proof fn lemma_encoded_err(w0: Seq<u8>, cap: Option<nat>, a: Encoding, w1: Seq<u8>, ra: Result<(), EtfError>, b: Encoding)
    requires
        encoded(w0, cap, a, w1, ra),
        ra is Err,
    ensures
        encoded(w0, cap, then(a, b), w1, ra),
{
}

/// A growable or bounded output buffer that the encoder appends to.
struct Encoder {
    out: Vec<u8>,
    limit: Option<usize>,
}

impl Encoder {
    /// A bounded encoder holds no more than its limit.
    spec fn wf(&self) -> bool {
        self.limit matches Some(n) ==> self.out@.len() <= n
    }

    /// The bytes written so far.
    spec fn written(&self) -> Seq<u8> {
        self.out@
    }

    /// The most bytes the encoder holds, if it is bounded.
    spec fn capacity(&self) -> Option<nat> {
        match self.limit {
            Some(n) => Some(n as nat),
            None => None,
        }
    }

    /// An encoder that holds at most `limit` bytes.
    fn new(limit: usize) -> (e: Encoder)
        ensures
            e.wf(),
            e.written() == Seq::<u8>::empty(),
            e.capacity() == Some(limit as nat),
    {
        Encoder { out: Vec::new(), limit: Some(limit) }
    }

    /// A growable encoder, with room for `cap` bytes before it grows.
    fn with_capacity(cap: usize) -> (e: Encoder)
        ensures
            e.wf(),
            e.written() == Seq::<u8>::empty(),
            e.capacity() == None::<nat>,
    {
        Encoder { out: Vec::with_capacity(cap), limit: None }
    }

    /// The number of bytes a bounded encoder still has room for.
    fn remaining(&self) -> (r: Option<usize>)
        requires
            self.wf(),
        ensures
            r == (match self.capacity() {
                Some(c) => Some((c - self.written().len()) as usize),
                None => None::<usize>,
            }),
    {
        match self.limit {
            Some(n) => Some(n - self.out.len()),
            None => None,
        }
    }

    /// Check that `n` more bytes fit.
    fn reserve(&self, n: usize) -> (r: Result<(), EtfError>)
        requires
            self.wf(),
        ensures
            fits((self.written().len() + n) as nat, self.capacity()) ==> r is Ok,
            !fits((self.written().len() + n) as nat, self.capacity()) ==> r == Err::<(), EtfError>(
                EtfError::UnexpectedEof,
            ),
    {
        match self.remaining() {
            Some(room) => if room < n {
                Err(EtfError::UnexpectedEof)
            } else {
                Ok(())
            },
            None => Ok(()),
        }
    }

    /// Append `bytes`, if they fit.
    fn write_bytes(&mut self, bytes: &[u8]) -> (r: Result<(), EtfError>)
        requires
            old(self).wf(),
        ensures
            final(self).wf(),
            final(self).capacity() == old(self).capacity(),
            encoded(old(self).written(), old(self).capacity(), emit(bytes@), final(self).written(), r),
    {
        self.reserve(bytes.len())?;
        let ghost w0 = self.out@;
        let mut i: usize = 0;
        while i < bytes.len()
            invariant
                self.limit == old(self).limit,
                w0 == old(self).out@,
                fits(w0.len() + bytes@.len(), self.capacity()),
                i <= bytes@.len(),
                self.out@ == w0 + bytes@.subrange(0, i as int),
            decreases bytes@.len() - i,
        {
            self.out.push(bytes[i]);
            proof {
                assert(self.out@ =~= w0 + bytes@.subrange(0, i + 1));
            }
            i = i + 1;
        }
        assert(bytes@.subrange(0, bytes@.len() as int) =~= bytes@);
        Ok(())
    }

    /// Append one byte, if it fits.
    fn write_u8(&mut self, v: u8) -> (r: Result<(), EtfError>)
        requires
            old(self).wf(),
        ensures
            final(self).wf(),
            final(self).capacity() == old(self).capacity(),
            encoded(old(self).written(), old(self).capacity(), emit(seq![v]), final(self).written(), r),
    {
        self.reserve(1)?;
        self.out.push(v);
        assert(self.out@ =~= old(self).out@ + seq![v]);
        Ok(())
    }

    /// Append a 16-bit integer, most significant byte first, if it fits.
    fn write_u16(&mut self, v: u16) -> (r: Result<(), EtfError>)
        requires
            old(self).wf(),
        ensures
            final(self).wf(),
            final(self).capacity() == old(self).capacity(),
            encoded(old(self).written(), old(self).capacity(), emit(be16(v as int)), final(self).written(), r),
    {
        self.reserve(2)?;
        self.out.push((v / 256) as u8);
        self.out.push((v % 256) as u8);
        assert(self.out@ =~= old(self).out@ + be16(v as int));
        Ok(())
    }

    /// Append a 32-bit integer, most significant byte first, if it fits.
    fn write_u32(&mut self, v: u32) -> (r: Result<(), EtfError>)
        requires
            old(self).wf(),
        ensures
            final(self).wf(),
            final(self).capacity() == old(self).capacity(),
            encoded(old(self).written(), old(self).capacity(), emit(be32(v as int)), final(self).written(), r),
    {
        self.reserve(4)?;
        self.out.push((v / 16777216) as u8);
        self.out.push((v / 65536 % 256) as u8);
        self.out.push((v / 256 % 256) as u8);
        self.out.push((v % 256) as u8);
        assert(self.out@ =~= old(self).out@ + be32(v as int));
        Ok(())
    }

    /// Append a 64-bit integer (the bits of a float), most significant
    /// byte first, if it fits.
    fn write_u64(&mut self, v: u64) -> (r: Result<(), EtfError>)
        requires
            old(self).wf(),
        ensures
            final(self).wf(),
            final(self).capacity() == old(self).capacity(),
            encoded(old(self).written(), old(self).capacity(), emit(be64(v as int)), final(self).written(), r),
    {
        self.reserve(8)?;
        let hi = (v / 4294967296) as u32;
        let lo = (v % 4294967296) as u32;
        self.out.push((hi / 16777216) as u8);
        self.out.push((hi / 65536 % 256) as u8);
        self.out.push((hi / 256 % 256) as u8);
        self.out.push((hi % 256) as u8);
        self.out.push((lo / 16777216) as u8);
        self.out.push((lo / 65536 % 256) as u8);
        self.out.push((lo / 256 % 256) as u8);
        self.out.push((lo % 256) as u8);
        assert(self.out@ =~= old(self).out@ + be64(v as int));
        Ok(())
    }

    /// The bytes written.
    fn into_vec(self) -> (v: Vec<u8>)
        requires
            self.wf(),
        ensures
            v@ == self.written(),
            self.capacity() matches Some(c) ==> v@.len() <= c,
    {
        self.out
    }
}

/// The encoding of a term after the magic byte, as the whole stream.
pub open spec fn enc_stream(t: TermModel) -> Encoding {
    then(emit(seq![ETF_MAGIC]), enc_term(t))
}

/// Recursively encode a single term.
fn encode_term<'a>(enc: &mut Encoder, term: &Term<'a>) -> (r: Result<(), EtfError>)
    requires
        old(enc).wf(),
    ensures
        final(enc).wf(),
        final(enc).capacity() == old(enc).capacity(),
        encoded(old(enc).written(), old(enc).capacity(), enc_term(term@), final(enc).written(), r),
    decreases term, 0nat,
{
    match term {
        Term::Int(v) => encode_int(enc, *v),
        Term::BigInt { sign, digits } => {
            if digits.len() > 255 {
                encode_large_big(enc, *sign, digits)
            } else {
                encode_small_big(enc, *sign, digits)
            }
        },
        Term::Float(bits) => encode_float(enc, *bits),
        Term::Atom(a) => encode_atom(enc, a.as_bytes()),
        Term::Tuple(elements) => encode_tuple(enc, elements),
        Term::List(elements) => encode_list(enc, elements),
        Term::ImproperList(elements) => encode_improper_list(enc, elements),
        Term::ErlangMap(pairs) => encode_map(enc, pairs),
        Term::Binary(data) => encode_binary(enc, data),
        Term::BitBinary { bits, data } => encode_bit_binary(enc, *bits, data),
        Term::String(data) => {
            let ghost w0 = enc.written();
            enc.write_u8(STRING_EXT)?;
            enc.write_u16(data.len() as u16)?;
            let r = enc.write_bytes(data);
            assert(w0 + seq![STRING_EXT] + be16(data@.len() as u16 as int) + data@ =~= w0 + (seq![
                STRING_EXT,
            ] + be16(data@.len() as u16 as int) + data@));
            r
        },
        Term::Pid(data) => enc.write_bytes(data),
        Term::Port(data) => enc.write_bytes(data),
        Term::Ref(data) => enc.write_bytes(data),
        Term::Function(data) => enc.write_bytes(data),
        Term::Record(data) => enc.write_bytes(data),
    }
}

/// Encode the elements `lo..hi` of `elements`, one after another.
fn encode_range<'a>(enc: &mut Encoder, elements: &Vec<Term<'a>>, lo: usize, hi: usize) -> (r: Result<
    (),
    EtfError,
>)
    requires
        old(enc).wf(),
        lo <= hi <= elements@.len(),
    ensures
        final(enc).wf(),
        final(enc).capacity() == old(enc).capacity(),
        encoded(
            old(enc).written(),
            old(enc).capacity(),
            enc_seq(crate::types::terms_model(elements@).subrange(lo as int, hi as int)),
            final(enc).written(),
            r,
        ),
    decreases elements, 1nat,
{
    let ghost ts = crate::types::terms_model(elements@);
    let ghost w0 = enc.written();
    let ghost cap = enc.capacity();
    proof {
        lemma_terms_model(elements@);
        assert(ts.subrange(lo as int, lo as int) =~= Seq::<TermModel>::empty());
        assert(w0 + Seq::<u8>::empty() =~= w0);
    }
    let mut i = lo;
    while i < hi
        invariant
            lo <= i <= hi <= elements@.len(),
            ts == crate::types::terms_model(elements@),
            ts.len() == elements@.len(),
            forall|k: int| 0 <= k < elements@.len() ==> #[trigger] ts[k] == elements@[k]@,
            w0 == old(enc).written(),
            cap == old(enc).capacity(),
            enc.wf(),
            enc.capacity() == cap,
            encoded(w0, cap, enc_seq(ts.subrange(lo as int, i as int)), enc.written(), Ok(())),
        decreases hi - i,
    {
        let ghost wi = enc.written();
        let ghost acc = enc_seq(ts.subrange(lo as int, i as int));
        let r = encode_term(enc, &elements[i]);
        proof {
            assert(ts.subrange(lo as int, i + 1).drop_last() =~= ts.subrange(lo as int, i as int));
            assert(ts.subrange(lo as int, i + 1).last() == elements@[i as int]@);
            lemma_encoded_then(w0, cap, acc, wi, Ok(()), enc_term(elements@[i as int]@), enc.written(), r);
        }
        if r.is_err() {
            proof {
                assert(ts.subrange(lo as int, hi as int) =~= ts.subrange(lo as int, i + 1) + ts.subrange(i + 1, hi as int));
                lemma_enc_seq_append(ts.subrange(lo as int, i + 1), ts.subrange(i + 1, hi as int));
                lemma_encoded_err(w0, cap, enc_seq(ts.subrange(lo as int, i + 1)), enc.written(), r, enc_seq(ts.subrange(i + 1, hi as int)));
            }
            return r;
        }
        i = i + 1;
    }
    Ok(())
}

/// Encode an integer using the most compact representation: 0 … 255 as
/// `SMALL_INTEGER_EXT`, anything else as `INTEGER_EXT` (two's complement).
fn encode_int(enc: &mut Encoder, v: i32) -> (r: Result<(), EtfError>)
    requires
        old(enc).wf(),
    ensures
        final(enc).wf(),
        final(enc).capacity() == old(enc).capacity(),
        encoded(old(enc).written(), old(enc).capacity(), enc_term(TermModel::Int(v)), final(enc).written(), r),
{
    let ghost w0 = enc.written();
    if 0 <= v && v <= 255 {
        enc.write_u8(SMALL_INTEGER_EXT)?;
        let r = enc.write_u8(v as u8);
        assert(w0 + seq![SMALL_INTEGER_EXT] + seq![v as u8] =~= w0 + seq![SMALL_INTEGER_EXT, v as u8]);
        r
    } else {
        enc.write_u8(INTEGER_EXT)?;
        let r = enc.write_u32(v as u32);
        assert(w0 + seq![INTEGER_EXT] + be32(v as u32 as int) =~= w0 + (seq![INTEGER_EXT] + be32(v as u32 as int)));
        r
    }
}

/// Encode `SMALL_BIG_EXT`: a bignum with a 1-byte digit count.  A bignum
/// with more than 255 digits is upgraded to `LARGE_BIG_EXT`.
fn encode_small_big(enc: &mut Encoder, sign: u8, digits: &[u8]) -> (r: Result<(), EtfError>)
    requires
        old(enc).wf(),
    ensures
        final(enc).wf(),
        final(enc).capacity() == old(enc).capacity(),
        encoded(old(enc).written(), old(enc).capacity(), enc_big(sign, digits@), final(enc).written(), r),
{
    let len = digits.len();
    if len > 255 {
        return encode_large_big(enc, sign, digits);
    }
    let ghost w0 = enc.written();
    enc.write_u8(SMALL_BIG_EXT)?;
    enc.write_u8(len as u8)?;
    enc.write_u8(sign)?;
    let r = enc.write_bytes(digits);
    assert(w0 + seq![SMALL_BIG_EXT] + seq![len as u8] + seq![sign] + digits@ =~= w0 + (seq![
        SMALL_BIG_EXT,
        len as u8,
        sign,
    ] + digits@));
    r
}

/// Encode `LARGE_BIG_EXT`: a bignum with a 4-byte digit count.
fn encode_large_big(enc: &mut Encoder, sign: u8, digits: &[u8]) -> (r: Result<(), EtfError>)
    requires
        old(enc).wf(),
        digits@.len() > 255,
    ensures
        final(enc).wf(),
        final(enc).capacity() == old(enc).capacity(),
        encoded(old(enc).written(), old(enc).capacity(), enc_big(sign, digits@), final(enc).written(), r),
{
    let ghost w0 = enc.written();
    enc.write_u8(LARGE_BIG_EXT)?;
    enc.write_u32(digits.len() as u32)?;
    enc.write_u8(sign)?;
    let r = enc.write_bytes(digits);
    assert(w0 + seq![LARGE_BIG_EXT] + be32(digits@.len() as u32 as int) + seq![sign] + digits@ =~= w0
        + (seq![LARGE_BIG_EXT] + be32(digits@.len() as u32 as int) + seq![sign] + digits@));
    r
}

/// Encode `NEW_FLOAT_EXT`: the eight bytes of an IEEE 754 binary64 value.
fn encode_float(enc: &mut Encoder, bits: u64) -> (r: Result<(), EtfError>)
    requires
        old(enc).wf(),
    ensures
        final(enc).wf(),
        final(enc).capacity() == old(enc).capacity(),
        encoded(old(enc).written(), old(enc).capacity(), enc_term(TermModel::Float(bits)), final(enc).written(), r),
{
    let ghost w0 = enc.written();
    enc.write_u8(NEW_FLOAT_EXT)?;
    let r = enc.write_u64(bits);
    assert(w0 + seq![NEW_FLOAT_EXT] + be64(bits as int) =~= w0 + (seq![NEW_FLOAT_EXT] + be64(bits as int)));
    r
}

/// Encode a UTF-8 atom: `SMALL_ATOM_UTF8_EXT` for names under 256 bytes,
/// `ATOM_UTF8_EXT` otherwise.
fn encode_atom(enc: &mut Encoder, bytes: &[u8]) -> (r: Result<(), EtfError>)
    requires
        old(enc).wf(),
    ensures
        final(enc).wf(),
        final(enc).capacity() == old(enc).capacity(),
        encoded(old(enc).written(), old(enc).capacity(), enc_term(TermModel::Atom(bytes@)), final(enc).written(), r),
{
    let ghost w0 = enc.written();
    let len = bytes.len();
    if len < 256 {
        enc.write_u8(SMALL_ATOM_UTF8_EXT)?;
        enc.write_u8(len as u8)?;
        let r = enc.write_bytes(bytes);
        assert(w0 + seq![SMALL_ATOM_UTF8_EXT] + seq![len as u8] + bytes@ =~= w0 + (seq![
            SMALL_ATOM_UTF8_EXT,
            len as u8,
        ] + bytes@));
        r
    } else {
        enc.write_u8(ATOM_UTF8_EXT)?;
        enc.write_u16(len as u16)?;
        let r = enc.write_bytes(bytes);
        assert(w0 + seq![ATOM_UTF8_EXT] + be16(len as u16 as int) + bytes@ =~= w0 + (seq![
            ATOM_UTF8_EXT,
        ] + be16(len as u16 as int) + bytes@));
        r
    }
}

/// Encode a tuple: `SMALL_TUPLE_EXT` for arity under 256,
/// `LARGE_TUPLE_EXT` otherwise.
fn encode_tuple<'a>(enc: &mut Encoder, elements: &Vec<Term<'a>>) -> (r: Result<(), EtfError>)
    requires
        old(enc).wf(),
    ensures
        final(enc).wf(),
        final(enc).capacity() == old(enc).capacity(),
        encoded(old(enc).written(), old(enc).capacity(), enc_term(TermModel::Tuple(crate::types::terms_model(elements@))), final(enc).written(), r),
    decreases elements, 2nat,
{
    let ghost w0 = enc.written();
    let ghost cap = enc.capacity();
    let ghost ts = crate::types::terms_model(elements@);
    proof {
        lemma_terms_model(elements@);
        assert(ts.subrange(0, ts.len() as int) =~= ts);
    }
    let arity = elements.len();
    let ghost header = if arity < 256 {
        seq![SMALL_TUPLE_EXT, arity as u8]
    } else {
        seq![LARGE_TUPLE_EXT] + be32(arity as u32 as int)
    };
    let r1 = if arity < 256 {
        match enc.write_u8(SMALL_TUPLE_EXT) {
            Ok(_) => {
                let r = enc.write_u8(arity as u8);
                assert(w0 + seq![SMALL_TUPLE_EXT] + seq![arity as u8] =~= w0 + header);
                r
            },
            Err(e) => Err(e),
        }
    } else {
        match enc.write_u8(LARGE_TUPLE_EXT) {
            Ok(_) => {
                let r = enc.write_u32(arity as u32);
                assert(w0 + seq![LARGE_TUPLE_EXT] + be32(arity as u32 as int) =~= w0 + header);
                r
            },
            Err(e) => Err(e),
        }
    };
    let ghost w1 = enc.written();
    if r1.is_err() {
        proof {
            lemma_encoded_err(w0, cap, emit(header), w1, r1, enc_seq(ts));
        }
        return r1;
    }
    let r = encode_range(enc, elements, 0, arity);
    proof {
        lemma_encoded_then(w0, cap, emit(header), w1, r1, enc_seq(ts), enc.written(), r);
    }
    r
}

/// Encode a proper list: `NIL_EXT` when empty, otherwise `LIST_EXT`, the
/// length, the elements and a `NIL_EXT` tail.
fn encode_list<'a>(enc: &mut Encoder, elements: &Vec<Term<'a>>) -> (r: Result<(), EtfError>)
    requires
        old(enc).wf(),
    ensures
        final(enc).wf(),
        final(enc).capacity() == old(enc).capacity(),
        encoded(old(enc).written(), old(enc).capacity(), enc_term(TermModel::List(crate::types::terms_model(elements@))), final(enc).written(), r),
    decreases elements, 2nat,
{
    let ghost w0 = enc.written();
    let ghost cap = enc.capacity();
    let ghost ts = crate::types::terms_model(elements@);
    proof {
        lemma_terms_model(elements@);
        assert(ts.subrange(0, ts.len() as int) =~= ts);
    }
    if elements.len() == 0 {
        return enc.write_u8(NIL_EXT);
    }
    let len = elements.len();
    let ghost header = seq![LIST_EXT] + be32(len as u32 as int);
    let r1 = match enc.write_u8(LIST_EXT) {
        Ok(_) => {
            let r = enc.write_u32(len as u32);
            assert(w0 + seq![LIST_EXT] + be32(len as u32 as int) =~= w0 + header);
            r
        },
        Err(e) => Err(e),
    };
    let ghost w1 = enc.written();
    if r1.is_err() {
        proof {
            lemma_encoded_err(w0, cap, emit(header), w1, r1, enc_seq(ts));
            lemma_encoded_err(w0, cap, then(emit(header), enc_seq(ts)), w1, r1, emit(seq![NIL_EXT]));
        }
        return r1;
    }
    let r2 = encode_range(enc, elements, 0, len);
    let ghost w2 = enc.written();
    proof {
        lemma_encoded_then(w0, cap, emit(header), w1, r1, enc_seq(ts), w2, r2);
    }
    if r2.is_err() {
        proof {
            lemma_encoded_err(w0, cap, then(emit(header), enc_seq(ts)), w2, r2, emit(seq![NIL_EXT]));
        }
        return r2;
    }
    let r = enc.write_u8(NIL_EXT);
    proof {
        lemma_encoded_then(w0, cap, then(emit(header), enc_seq(ts)), w2, r2, emit(seq![NIL_EXT]), enc.written(), r);
    }
    r
}

/// Encode an improper list `[a, b | c]`: `LIST_EXT`, the number of
/// elements before the tail (possibly none), those elements, then the
/// tail.  An improper list without even a tail has no encoding.
fn encode_improper_list<'a>(enc: &mut Encoder, elements: &Vec<Term<'a>>) -> (r: Result<(), EtfError>)
    requires
        old(enc).wf(),
    ensures
        final(enc).wf(),
        final(enc).capacity() == old(enc).capacity(),
        encoded(old(enc).written(), old(enc).capacity(), enc_term(TermModel::ImproperList(crate::types::terms_model(elements@))), final(enc).written(), r),
    decreases elements, 2nat,
{
    let ghost w0 = enc.written();
    let ghost cap = enc.capacity();
    let ghost ts = crate::types::terms_model(elements@);
    proof {
        lemma_terms_model(elements@);
        assert(ts.subrange(0, ts.len() as int) =~= ts);
        assert(w0 + Seq::<u8>::empty() =~= w0);
    }
    let len = elements.len();
    if len < 1 {
        return Err(EtfError::InvalidSize);
    }
    let ghost header = seq![LIST_EXT] + be32((len - 1) as u32 as int);
    let r1 = match enc.write_u8(LIST_EXT) {
        Ok(_) => {
            let r = enc.write_u32((len - 1) as u32);
            assert(w0 + seq![LIST_EXT] + be32((len - 1) as u32 as int) =~= w0 + header);
            r
        },
        Err(e) => Err(e),
    };
    let ghost w1 = enc.written();
    if r1.is_err() {
        proof {
            lemma_encoded_err(w0, cap, emit(header), w1, r1, enc_seq(ts));
        }
        return r1;
    }
    let r = encode_range(enc, elements, 0, len);
    proof {
        lemma_encoded_then(w0, cap, emit(header), w1, r1, enc_seq(ts), enc.written(), r);
    }
    r
}

/// Encode `MAP_EXT`: the arity, then each key followed by its value.
fn encode_map<'a>(enc: &mut Encoder, pairs: &Vec<(Term<'a>, Term<'a>)>) -> (r: Result<(), EtfError>)
    requires
        old(enc).wf(),
    ensures
        final(enc).wf(),
        final(enc).capacity() == old(enc).capacity(),
        encoded(old(enc).written(), old(enc).capacity(), enc_term(TermModel::ErlangMap(crate::types::pairs_model(pairs@))), final(enc).written(), r),
    decreases pairs, 2nat,
{
    let ghost w0 = enc.written();
    let ghost cap = enc.capacity();
    let ghost ps = crate::types::pairs_model(pairs@);
    proof {
        lemma_pairs_model(pairs@);
        assert(ps.subrange(0, 0) =~= Seq::<(TermModel, TermModel)>::empty());
        assert(ps.subrange(0, ps.len() as int) =~= ps);
    }
    let len = pairs.len();
    let ghost header = seq![MAP_EXT] + be32(len as u32 as int);
    let r1 = match enc.write_u8(MAP_EXT) {
        Ok(_) => {
            let r = enc.write_u32(len as u32);
            assert(w0 + seq![MAP_EXT] + be32(len as u32 as int) =~= w0 + header);
            r
        },
        Err(e) => Err(e),
    };
    let ghost w1 = enc.written();
    if r1.is_err() {
        proof {
            lemma_encoded_err(w0, cap, emit(header), w1, r1, enc_pairs(ps));
        }
        return r1;
    }
    proof {
        lemma_then_empty(emit(header));
    }
    let mut i: usize = 0;
    while i < len
        invariant
            i <= len == pairs@.len(),
            ps == crate::types::pairs_model(pairs@),
            ps.len() == pairs@.len(),
            ps.subrange(0, len as int) == ps,
            forall|k: int| 0 <= k < pairs@.len() ==> #[trigger] ps[k] == (pairs@[k].0@, pairs@[k].1@),
            w0 == old(enc).written(),
            cap == old(enc).capacity(),
            header == seq![MAP_EXT] + be32(len as u32 as int),
            enc.wf(),
            enc.capacity() == cap,
            encoded(w0, cap, then(emit(header), enc_pairs(ps.subrange(0, i as int))), enc.written(), Ok(())),
        decreases len - i,
    {
        let ghost wi = enc.written();
        let ghost acc = then(emit(header), enc_pairs(ps.subrange(0, i as int)));
        let ghost kv = then(enc_term(pairs@[i as int].0@), enc_term(pairs@[i as int].1@));
        proof {
            assert(ps.subrange(0, i + 1).last() == ps[i as int]);
            assert(ps[i as int] == (pairs@[i as int].0@, pairs@[i as int].1@));
        }
        let rk = encode_term(enc, &pairs[i].0);
        let ghost wk = enc.written();
        if rk.is_err() {
            proof {
                lemma_encoded_then(w0, cap, acc, wi, Ok(()), enc_term(pairs@[i as int].0@), wk, rk);
                lemma_encoded_err(w0, cap, then(acc, enc_term(pairs@[i as int].0@)), wk, rk, enc_term(pairs@[i as int].1@));
                lemma_then_assoc(acc, enc_term(pairs@[i as int].0@), enc_term(pairs@[i as int].1@));
                assert(ps.subrange(0, len as int) =~= ps.subrange(0, i + 1) + ps.subrange(i + 1, len as int));
                assert(ps.subrange(0, i + 1).drop_last() =~= ps.subrange(0, i as int));
                lemma_enc_pairs_append(ps.subrange(0, i + 1), ps.subrange(i + 1, len as int));
                lemma_then_assoc(emit(header), enc_pairs(ps.subrange(0, i as int)), kv);
                lemma_then_assoc(emit(header), enc_pairs(ps.subrange(0, i + 1)), enc_pairs(ps.subrange(i + 1, len as int)));
                lemma_encoded_err(w0, cap, then(acc, kv), wk, rk, enc_pairs(ps.subrange(i + 1, len as int)));
            }
            return rk;
        }
        let rv = encode_term(enc, &pairs[i].1);
        proof {
            lemma_encoded_then(wi, cap, enc_term(pairs@[i as int].0@), wk, rk, enc_term(pairs@[i as int].1@), enc.written(), rv);
            lemma_encoded_then(w0, cap, acc, wi, Ok(()), kv, enc.written(), rv);
            assert(ps.subrange(0, i + 1).drop_last() =~= ps.subrange(0, i as int));
            lemma_then_assoc(emit(header), enc_pairs(ps.subrange(0, i as int)), kv);
        }
        if rv.is_err() {
            proof {
                assert(ps.subrange(0, len as int) =~= ps.subrange(0, i + 1) + ps.subrange(i + 1, len as int));
                lemma_enc_pairs_append(ps.subrange(0, i + 1), ps.subrange(i + 1, len as int));
                lemma_then_assoc(emit(header), enc_pairs(ps.subrange(0, i + 1)), enc_pairs(ps.subrange(i + 1, len as int)));
                lemma_encoded_err(w0, cap, then(acc, kv), enc.written(), rv, enc_pairs(ps.subrange(i + 1, len as int)));
            }
            return rv;
        }
        i = i + 1;
    }
    Ok(())
}

/// Encode `BINARY_EXT`: a 4-byte length, then the bytes.
fn encode_binary(enc: &mut Encoder, data: &[u8]) -> (r: Result<(), EtfError>)
    requires
        old(enc).wf(),
    ensures
        final(enc).wf(),
        final(enc).capacity() == old(enc).capacity(),
        encoded(old(enc).written(), old(enc).capacity(), enc_term(TermModel::Binary(data@)), final(enc).written(), r),
{
    let ghost w0 = enc.written();
    enc.write_u8(BINARY_EXT)?;
    enc.write_u32(data.len() as u32)?;
    let r = enc.write_bytes(data);
    assert(w0 + seq![BINARY_EXT] + be32(data@.len() as u32 as int) + data@ =~= w0 + (seq![BINARY_EXT]
        + be32(data@.len() as u32 as int) + data@));
    r
}

/// Encode `BIT_BINARY_EXT`: a 4-byte length, the number of significant
/// bits in the last byte, then the bytes.
fn encode_bit_binary(enc: &mut Encoder, bits: u8, data: &[u8]) -> (r: Result<(), EtfError>)
    requires
        old(enc).wf(),
    ensures
        final(enc).wf(),
        final(enc).capacity() == old(enc).capacity(),
        encoded(old(enc).written(), old(enc).capacity(), enc_term(TermModel::BitBinary { bits, data: data@ }), final(enc).written(), r),
{
    let ghost w0 = enc.written();
    enc.write_u8(BIT_BINARY_EXT)?;
    enc.write_u32(data.len() as u32)?;
    enc.write_u8(bits)?;
    let r = enc.write_bytes(data);
    assert(w0 + seq![BIT_BINARY_EXT] + be32(data@.len() as u32 as int) + seq![bits] + data@ =~= w0
        + (seq![BIT_BINARY_EXT] + be32(data@.len() as u32 as int) + seq![bits] + data@));
    r
}

/// Encode a [`Term`] into a pre-allocated buffer.
///
/// Returns the number of bytes written.  The output starts with the ETF
/// magic byte `131` followed by the encoded term.
///
/// # Errors
///
/// Returns [`EtfError::UnexpectedEof`] if `buf` is too small, and
/// [`EtfError::InvalidSize`] for an improper list with no tail.  On an
/// error `buf` is left as it was.
pub fn encode_to_buf(term: &Term, buf: &mut [u8]) -> (r: Result<usize, EtfError>)
    ensures
        final(buf)@.len() == old(buf)@.len(),
        ({
            let e = enc_stream(term@);
            if e.bytes.len() > old(buf)@.len() {
                r == Err::<usize, EtfError>(EtfError::UnexpectedEof)
            } else if !e.complete {
                r == Err::<usize, EtfError>(EtfError::InvalidSize)
            } else {
                r == Ok::<usize, EtfError>(e.bytes.len() as usize)
                    && final(buf)@.subrange(0, e.bytes.len() as int) == e.bytes
                    && final(buf)@.subrange(e.bytes.len() as int, old(buf)@.len() as int)
                    == old(buf)@.subrange(e.bytes.len() as int, old(buf)@.len() as int)
            }
        }),
        r is Err ==> final(buf)@ == old(buf)@,
{
    let mut enc = Encoder::new(buf.len());
    let ghost cap = enc.capacity();
    let r0 = enc.write_u8(ETF_MAGIC);
    let ghost w1 = enc.written();
    if r0.is_err() {
        proof {
            lemma_encoded_err(Seq::empty(), cap, emit(seq![ETF_MAGIC]), w1, r0, enc_term(term@));
        }
        return Err(EtfError::UnexpectedEof);
    }
    let r1 = encode_term(&mut enc, term);
    proof {
        lemma_encoded_then(Seq::empty(), cap, emit(seq![ETF_MAGIC]), w1, r0, enc_term(term@), enc.written(), r1);
    }
    if let Err(e) = r1 {
        return Err(e);
    }
    let out = enc.into_vec();
    let n = out.len();
    proof {
        assert(Seq::<u8>::empty() + enc_stream(term@).bytes =~= enc_stream(term@).bytes);
    }
    let mut i: usize = 0;
    while i < n
        invariant
            i <= n == out@.len() <= buf@.len(),
            buf@.len() == old(buf)@.len(),
            forall|k: int| 0 <= k < i ==> buf@[k] == out@[k],
            forall|k: int| n <= k < buf@.len() ==> buf@[k] == old(buf)@[k],
        decreases n - i,
    {
        buf[i] = out[i];
        i = i + 1;
    }
    proof {
        assert(buf@.subrange(0, n as int) =~= out@);
        assert(buf@.subrange(n as int, buf@.len() as int) =~= old(buf)@.subrange(n as int, old(buf)@.len() as int));
    }
    Ok(n)
}

/// Encode a [`Term`] into a newly allocated `Vec<u8>`: the magic byte, then
/// the encoded term.  The only error is [`EtfError::InvalidSize`], for an
/// improper list with no tail.
pub fn encode_to_vec(term: &Term) -> (r: Result<Vec<u8>, EtfError>)
    ensures
        enc_stream(term@).complete ==> (r matches Ok(v) && v@ == enc_stream(term@).bytes),
        !enc_stream(term@).complete ==> r == Err::<Vec<u8>, EtfError>(EtfError::InvalidSize),
{
    let mut enc = Encoder::with_capacity(64);
    let ghost cap = enc.capacity();
    let r0 = enc.write_u8(ETF_MAGIC);
    let ghost w1 = enc.written();
    let r1 = encode_term(&mut enc, term);
    proof {
        lemma_encoded_then(Seq::empty(), cap, emit(seq![ETF_MAGIC]), w1, r0, enc_term(term@), enc.written(), r1);
        assert(Seq::<u8>::empty() + enc_stream(term@).bytes =~= enc_stream(term@).bytes);
    }
    if let Err(e) = r1 {
        return Err(e);
    }
    Ok(enc.into_vec())
}

/// The `COMPRESSED` header for a payload of `n` bytes: the magic byte,
/// the tag, and the 4-byte uncompressed size.
pub open spec fn compressed_header(n: int) -> Seq<u8> {
    seq![ETF_MAGIC, COMPRESSED] + be32(n as u32 as int)
}

/// What compressing returns for the backend's outcome `out`, with `output`
/// the buffer after the call: the header and the stream the backend wrote
/// after it, or the backend's error.
pub open spec fn compressed_outcome(out: Result<Seq<u8>, EtfError>, output: Seq<u8>, r: Result<usize, EtfError>) -> bool {
    match out {
        Ok(c) => 6 + c.len() <= output.len() && r == Ok::<usize, EtfError>((6 + c.len()) as usize) && output.subrange(
            6,
            6 + c.len() as int,
        ) == c,
        Err(err) => r == Err::<usize, EtfError>(err),
    }
}

/// What [`encode_to_compressed`] returns (as `r`) for the term `t`, with
/// buffers of `inter_len` and `out_len` bytes that hold `inter` and
/// `output` after the call: the encoded stream must fit the intermediate
/// buffer and be complete, and the output must hold the 6-byte header.
/// Then the intermediate buffer holds the stream, the output starts with
/// the header, and the backend `Z` deflates the payload after the magic
/// byte into the rest of the output, giving one of its outcomes
/// ([`ZlibBackend::deflates`]): its error is returned, or the header's
/// length plus that of the stream it wrote there.
pub open spec fn compressed_contract<Z: ZlibBackend>(
    t: TermModel,
    inter_len: nat,
    out_len: nat,
    inter: Seq<u8>,
    output: Seq<u8>,
    r: Result<usize, EtfError>,
) -> bool {
    let e = enc_stream(t);
    if e.bytes.len() > inter_len {
        r == Err::<usize, EtfError>(EtfError::UnexpectedEof)
    } else if !e.complete {
        r == Err::<usize, EtfError>(EtfError::InvalidSize)
    } else if out_len < 6 {
        r == Err::<usize, EtfError>(EtfError::UnexpectedEof)
    } else {
        &&& inter.subrange(0, e.bytes.len() as int) == e.bytes
        &&& output.subrange(0, 6) == compressed_header(e.bytes.len() - 1)
        &&& r matches Ok(n) ==> 6 <= n <= out_len
        &&& exists|out: Result<Seq<u8>, EtfError>|
            #[trigger] Z::deflates(e.bytes.subrange(1, e.bytes.len() as int), (out_len - 6) as nat, out)
                && compressed_outcome(out, output, r)
    }
}

/// Encode a [`Term`] into a `COMPRESSED`-wrapped ETF byte stream:
/// `131 COMPRESSED UncompressedSize ZlibData`.
///
/// The term is first encoded into `intermediate` (magic byte included);
/// the payload after the magic byte is then compressed with the backend
/// `Z` into `output` after the 6-byte header.  Returns the number of bytes
/// written to `output`.
///
/// # Errors
///
/// * [`EtfError::UnexpectedEof`] if `intermediate` is too small to hold
///   the encoded term, or `output` too small to hold the header.
/// * [`EtfError::InvalidSize`] for an improper list with no tail.
/// * Whatever the backend reports, most commonly
///   [`EtfError::CompressionFailed`].
pub fn encode_to_compressed<Z: ZlibBackend>(term: &Term, intermediate: &mut [u8], output: &mut [u8]) -> (r: Result<
    usize,
    EtfError,
>)
    ensures
        final(intermediate)@.len() == old(intermediate)@.len(),
        final(output)@.len() == old(output)@.len(),
        compressed_contract::<Z>(
            term@,
            old(intermediate)@.len(),
            old(output)@.len(),
            final(intermediate)@,
            final(output)@,
            r,
        ),
{
    let ghost e = enc_stream(term@);
    let cap = intermediate.len();
    let n = encode_to_buf(term, intermediate)?;
    assert(e.bytes.len() >= 1 && e.bytes[0] == ETF_MAGIC);
    let body = vstd::slice::slice_subrange(intermediate, 1, n);
    assert(body@.len() == e.bytes.len() - 1);
    if output.len() < 6 {
        return Err(EtfError::UnexpectedEof);
    }
    let size = body.len() as u32;
    output[0] = ETF_MAGIC;
    output[1] = COMPRESSED;
    output[2] = (size / 16777216) as u8;
    output[3] = (size / 65536 % 256) as u8;
    output[4] = (size / 256 % 256) as u8;
    output[5] = (size % 256) as u8;
    let ghost header = output@.subrange(0, 6);
    assert(header =~= compressed_header(body@.len() as int));
    let ghost out1 = output@;
    let (head, tail) = output.split_at_mut(6);
    let rc = Z::compress(tail, body);
    assert(output@.subrange(0, 6) =~= out1.subrange(0, 6));
    assert(body@ =~= e.bytes.subrange(1, e.bytes.len() as int));
    let r = match rc {
        Ok(c) => Ok(6 + c),
        Err(err) => Err(err),
    };
    proof {
        let out = match rc {
            Ok(c) => Ok::<Seq<u8>, EtfError>(tail@.subrange(0, c as int)),
            Err(err) => Err::<Seq<u8>, EtfError>(err),
        };
        assert(tail@.len() == out1.len() - 6);
        assert(Z::deflates(body@, tail@.len(), out));
        if let Ok(c) = rc {
            assert(output@.subrange(6, 6 + c as int) =~= tail@.subrange(0, c as int));
        }
        assert(compressed_outcome(out, output@, r));
        assert(Z::deflates(e.bytes.subrange(1, e.bytes.len() as int), (out1.len() - 6) as nat, out)
            && compressed_outcome(out, output@, r));
    }
    r
}

} // verus!
