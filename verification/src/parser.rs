//! The term decoder.
//!
//! Each function mirrors a function of `grammar.rs` and is proved to compute
//! exactly what it states: `parse_term` decodes one term as `p_term` says,
//! with the arena as its budget and the float-text hook deciding the value
//! of each legacy `FLOAT_EXT`.

use vstd::prelude::*;
use vstd::string::StringSliceAdditionalSpecFns;

use crate::arena::{Bump, FRAME_ALIGN, FRAME_CELL, PAIR_CELL, TERM_ALIGN, TERM_CELL};
use crate::cursor::Cursor;
use crate::error::EtfError;
use crate::grammar::{
    adv, agrees, claim, lemma_submap_trans, first_zero_from, is_compound_tag, lemma_agrees_submap,
    lemma_leaf_advances, lemma_pairs_advances, lemma_seq_advances, lemma_term_advances,
    p_atom_body, p_atom_only, p_big, p_binary, p_bit_binary, p_bytes, p_leaf, p_legacy_float,
    p_new_fun, p_node_id, p_pairs, p_ref, p_seq, p_string, p_term, p_uint, string_ints, wrap,
    lemma_pairs_step, lemma_prepend_prepend, lemma_seq_step, lemma_seq_too_deep, prepend, PResult, PState, ParseCfg,
    p_tuple, p_list, p_map, p_export, p_record,
};
use crate::tags::{
    ATOM_UTF8_EXT, BINARY_EXT, BIT_BINARY_EXT, EXPORT_EXT, FLOAT_EXT, INTEGER_EXT, LARGE_BIG_EXT,
    LARGE_TUPLE_EXT, LIST_EXT, MAP_EXT, NEWER_REFERENCE_EXT, NEW_FLOAT_EXT, NEW_FUN_EXT,
    NEW_PID_EXT, NEW_PORT_EXT, NEW_REFERENCE_EXT, NIL_EXT, PID_EXT, PORT_EXT, RECORD_EXT,
    SMALL_ATOM_UTF8_EXT, SMALL_BIG_EXT, SMALL_INTEGER_EXT, SMALL_TUPLE_EXT, STRING_EXT,
    V4_PORT_EXT,
};
use crate::types::{
    lemma_pairs_model, lemma_terms_model, pairs_model, term_model, terms_model, AtomUtf8, Term,
    TermModel,
};
use crate::utf8::str_from_utf8;

verus! {

/// Decodes the text of a legacy `FLOAT_EXT` into the bits of an IEEE 754
/// binary64 value.
///
/// The decoder hands over the 31 bytes of the float field cut at the first
/// zero byte, once they are known to be UTF-8.  The conventional decoding
/// trims trailing whitespace and parses the rest as a decimal float
/// (`str::trim_end` then `str::parse`), returning `None` when that fails.
pub trait FloatText {
    /// The bits of the float that the text with bytes `text` denotes, or
    /// `None`.  A reader verified with Verus defines it; the default, which
    /// no reading meets, only lets readers written outside Verus compile.
    open spec fn float_of(text: Seq<u8>) -> Option<u64> {
        None
    }

    /// The bits of the float that `text` denotes, or `None`.
    fn float_bits(text: &str) -> (r: Option<u64>)
        ensures
            r == Self::float_of(text.spec_bytes()),
    ;
}

/// The text of the legacy float whose tag is at `at` of `d`: its 31 bytes,
/// up to the first zero byte.
pub open spec fn legacy_text(d: Seq<u8>, at: int) -> Seq<u8> {
    let b = d.subrange(at + 1, at + 32);
    b.subrange(0, first_zero_from(b, 0))
}

/// Each legacy float of `d` read as `F` reads its text.
pub open spec fn reading<F: FloatText>(d: Seq<u8>) -> spec_fn(int) -> Option<u64> {
    |k: int| F::float_of(legacy_text(d, k))
}

/// Every legacy float the cursor recorded is `F`'s reading of its text.
pub open spec fn floats_read<F: FloatText>(c: Cursor) -> bool {
    agrees(reading::<F>(c.input()), c.floats())
}

/// The configuration a decode runs with, read off the cursor and arena.
pub open spec fn cfg_of(c: Cursor, a: Bump) -> ParseCfg {
    ParseCfg { limits: a.spec_limits(), streaming: c.is_streaming(), bounded: true, arena_end: a.end() as int }
}

/// The decode state held by the cursor and arena.
pub open spec fn st_of(c: Cursor, a: Bump) -> PState {
    PState { pos: c.pos() as int, ptr: a.ptr() as int }
}

/// Every recorded legacy float lies before the cursor.
pub open spec fn floats_behind(c: Cursor) -> bool {
    forall|k: int| #[trigger] c.floats().contains_key(k) ==> k < c.pos()
}

/// What a decoding step may change of the cursor and arena: the position,
/// the bump pointer, and new records of legacy floats.
pub open spec fn steps(c0: Cursor, c1: Cursor, a0: Bump, a1: Bump) -> bool {
    &&& c1.input() == c0.input()
    &&& c1.is_streaming() == c0.is_streaming()
    &&& c1.pos() >= c0.pos()
    &&& c0.floats().submap_of(c1.floats())
    &&& floats_behind(c1)
    &&& a1.end() == a0.end()
    &&& a1.spec_limits() == a0.spec_limits()
}

/// The outcome of decoding an integer field, as the grammar states outcomes.
pub open spec fn uint_outcome(r: Result<usize, EtfError>, st: PState) -> PResult<int> {
    match r {
        Ok(v) => Ok((v as int, st)),
        Err(e) => Err(e),
    }
}

/// The outcome of decoding a byte payload, as the grammar states outcomes.
pub open spec fn bytes_outcome(r: Result<&[u8], EtfError>, st: PState) -> PResult<Seq<u8>> {
    match r {
        Ok(b) => Ok((b@, st)),
        Err(e) => Err(e),
    }
}

/// The outcome of decoding a term, as the grammar states outcomes.
pub open spec fn term_outcome(r: Result<Term, EtfError>, st: PState) -> PResult<TermModel> {
    match r {
        Ok(t) => Ok((t@, st)),
        Err(e) => Err(e),
    }
}

/// The outcome of decoding a sequence of terms, as the grammar states outcomes.
pub open spec fn terms_outcome(r: Result<Vec<Term>, EtfError>, st: PState) -> PResult<Seq<TermModel>> {
    match r {
        Ok(v) => Ok((terms_model(v@), st)),
        Err(e) => Err(e),
    }
}

/// The outcome of decoding a sequence of pairs, as the grammar states outcomes.
pub open spec fn pairs_outcome(r: Result<Vec<(Term, Term)>, EtfError>, st: PState) -> PResult<
    Seq<(TermModel, TermModel)>,
> {
    match r {
        Ok(v) => Ok((pairs_model(v@), st)),
        Err(e) => Err(e),
    }
}

/// Read an unsigned big-endian integer of `w` bytes (1, 2 or 4).
pub(crate) fn read_uint(cursor: &mut Cursor, arena: &Bump, w: usize) -> (r: Result<usize, EtfError>)
    requires
        w == 1 || w == 2 || w == 4,
    ensures
        final(cursor).input() == old(cursor).input(),
        final(cursor).is_streaming() == old(cursor).is_streaming(),
        final(cursor).floats() == old(cursor).floats(),
        final(cursor).pos() >= old(cursor).pos(),
        p_uint(old(cursor).input(), st_of(*old(cursor), *arena), cfg_of(*old(cursor), *arena), w as int)
            == uint_outcome(r, st_of(*final(cursor), *arena)),
        r matches Ok(v) ==> v <= u32::MAX,
{
    cursor.check_inv();
    if w == 1 {
        match cursor.read_u8() {
            Ok(v) => Ok(v as usize),
            Err(e) => Err(e),
        }
    } else if w == 2 {
        match cursor.read_u16() {
            Ok(v) => Ok(v as usize),
            Err(e) => Err(e),
        }
    } else {
        match cursor.read_u32() {
            Ok(v) => Ok(v as usize),
            Err(e) => Err(e),
        }
    }
}

/// Take `n` bytes.
pub(crate) fn take_bytes<'a>(cursor: &mut Cursor<'a>, arena: &Bump, n: usize) -> (r: Result<&'a [u8], EtfError>)
    ensures
        final(cursor).input() == old(cursor).input(),
        final(cursor).is_streaming() == old(cursor).is_streaming(),
        final(cursor).floats() == old(cursor).floats(),
        final(cursor).pos() >= old(cursor).pos(),
        p_bytes(old(cursor).input(), st_of(*old(cursor), *arena), cfg_of(*old(cursor), *arena), n as int)
            == bytes_outcome(r, st_of(*final(cursor), *arena)),
{
    cursor.take(n)
}

/// An atom body whose length field has `w` bytes.
pub(crate) fn parse_atom_body<'a>(cursor: &mut Cursor<'a>, arena: &Bump, w: usize) -> (r: Result<&'a [u8], EtfError>)
    requires
        w == 1 || w == 2,
    ensures
        final(cursor).input() == old(cursor).input(),
        final(cursor).is_streaming() == old(cursor).is_streaming(),
        final(cursor).floats() == old(cursor).floats(),
        final(cursor).pos() >= old(cursor).pos(),
        p_atom_body(old(cursor).input(), st_of(*old(cursor), *arena), cfg_of(*old(cursor), *arena), w as int)
            == bytes_outcome(r, st_of(*final(cursor), *arena)),
{
    let len = read_uint(cursor, arena, w)?;
    if len > arena.limits().max_atom_len {
        return Err(EtfError::AtomTooLarge);
    }
    take_bytes(cursor, arena, len)
}

/// A field that must be an atom (node, module or function name).
fn parse_atom_only<'a>(cursor: &mut Cursor<'a>, arena: &Bump) -> (r: Result<&'a [u8], EtfError>)
    ensures
        final(cursor).input() == old(cursor).input(),
        final(cursor).is_streaming() == old(cursor).is_streaming(),
        final(cursor).floats() == old(cursor).floats(),
        final(cursor).pos() >= old(cursor).pos(),
        p_atom_only(old(cursor).input(), st_of(*old(cursor), *arena), cfg_of(*old(cursor), *arena))
            == bytes_outcome(r, st_of(*final(cursor), *arena)),
{
    let tag = cursor.read_u8()?;
    if tag == ATOM_UTF8_EXT {
        parse_atom_body(cursor, arena, 2)
    } else if tag == SMALL_ATOM_UTF8_EXT {
        parse_atom_body(cursor, arena, 1)
    } else {
        Err(EtfError::InvalidAtomField)
    }
}

/// A bignum body whose digit count has `w` bytes.
fn parse_big<'a>(cursor: &mut Cursor<'a>, arena: &Bump, w: usize) -> (r: Result<Term<'a>, EtfError>)
    requires
        w == 1 || w == 4,
    ensures
        final(cursor).input() == old(cursor).input(),
        final(cursor).is_streaming() == old(cursor).is_streaming(),
        final(cursor).floats() == old(cursor).floats(),
        final(cursor).pos() >= old(cursor).pos(),
        p_big(old(cursor).input(), st_of(*old(cursor), *arena), cfg_of(*old(cursor), *arena), w as int)
            == term_outcome(r, st_of(*final(cursor), *arena)),
{
    let len = read_uint(cursor, arena, w)?;
    if len > arena.limits().max_bignum_size {
        return Err(EtfError::BinaryTooLarge);
    }
    let sign = cursor.read_u8()?;
    let digits = take_bytes(cursor, arena, len)?;
    Ok(Term::BigInt { sign, digits })
}

/// A `BINARY_EXT` body.
fn parse_binary<'a>(cursor: &mut Cursor<'a>, arena: &Bump) -> (r: Result<Term<'a>, EtfError>)
    ensures
        final(cursor).input() == old(cursor).input(),
        final(cursor).is_streaming() == old(cursor).is_streaming(),
        final(cursor).floats() == old(cursor).floats(),
        final(cursor).pos() >= old(cursor).pos(),
        p_binary(old(cursor).input(), st_of(*old(cursor), *arena), cfg_of(*old(cursor), *arena))
            == term_outcome(r, st_of(*final(cursor), *arena)),
{
    let len = read_uint(cursor, arena, 4)?;
    if len > arena.limits().max_binary_size {
        return Err(EtfError::BinaryTooLarge);
    }
    Ok(Term::Binary(take_bytes(cursor, arena, len)?))
}

/// A `BIT_BINARY_EXT` body.
fn parse_bit_binary<'a>(cursor: &mut Cursor<'a>, arena: &Bump) -> (r: Result<Term<'a>, EtfError>)
    ensures
        final(cursor).input() == old(cursor).input(),
        final(cursor).is_streaming() == old(cursor).is_streaming(),
        final(cursor).floats() == old(cursor).floats(),
        final(cursor).pos() >= old(cursor).pos(),
        p_bit_binary(old(cursor).input(), st_of(*old(cursor), *arena), cfg_of(*old(cursor), *arena))
            == term_outcome(r, st_of(*final(cursor), *arena)),
{
    let len = read_uint(cursor, arena, 4)?;
    if len > arena.limits().max_bit_binary_size {
        return Err(EtfError::BinaryTooLarge);
    }
    let bits = cursor.read_u8()?;
    let data = take_bytes(cursor, arena, len)?;
    Ok(Term::BitBinary { bits, data })
}

/// A `STRING_EXT` body: compact, or expanded to a list of byte-sized
/// integers (claiming one term cell per byte).
fn parse_string<'a>(cursor: &mut Cursor<'a>, arena: &mut Bump) -> (r: Result<Term<'a>, EtfError>)
    ensures
        final(cursor).input() == old(cursor).input(),
        final(cursor).is_streaming() == old(cursor).is_streaming(),
        final(cursor).floats() == old(cursor).floats(),
        final(cursor).pos() >= old(cursor).pos(),
        final(arena).end() == old(arena).end(),
        final(arena).spec_limits() == old(arena).spec_limits(),
        p_string(old(cursor).input(), st_of(*old(cursor), *old(arena)), cfg_of(*old(cursor), *old(arena)))
            == term_outcome(r, st_of(*final(cursor), *final(arena))),
{
    let len = read_uint(cursor, arena, 2)?;
    if len > arena.limits().max_string_len {
        return Err(EtfError::ListTooLarge);
    }
    let bytes = match take_bytes(cursor, arena, len) {
        Ok(b) => b,
        Err(e) => return Err(e),
    };
    if arena.limits().expand_string_ext_to_list {
        arena.alloc_slice(TERM_CELL, TERM_ALIGN, len)?;
        let mut elements: Vec<Term<'a>> = Vec::new();
        let mut i: usize = 0;
        assert(terms_model(elements@) =~= string_ints(bytes@).subrange(0, 0));
        while i < len
            invariant
                i <= len,
                len == bytes@.len(),
                terms_model(elements@) == string_ints(bytes@).subrange(0, i as int),
            decreases len - i,
        {
            let ghost before = elements@;
            elements.push(Term::Int(bytes[i] as i32));
            proof {
                assert(elements@.drop_last() == before);
                assert(terms_model(elements@) == terms_model(before).push(
                    term_model(elements@.last()),
                ));
                assert(terms_model(elements@) =~= string_ints(bytes@).subrange(0, i + 1));
            }
            i = i + 1;
        }
        assert(string_ints(bytes@).subrange(0, len as int) =~= string_ints(bytes@));
        Ok(Term::List(elements))
    } else {
        Ok(Term::String(bytes))
    }
}

/// The index of the first zero byte of `b`, or `b.len()`.
fn first_zero(b: &[u8]) -> (r: usize)
    ensures
        r == first_zero_from(b@, 0),
        r <= b@.len(),
{
    let mut i: usize = 0;
    while i < b.len() && b[i] != 0
        invariant
            i <= b@.len(),
            first_zero_from(b@, i as int) == first_zero_from(b@, 0),
        decreases b@.len() - i,
    {
        i = i + 1;
    }
    assert(first_zero_from(b@, i as int) == i);
    i
}

/// A legacy `FLOAT_EXT` body whose tag is at `at`.  The float-text hook
/// decodes the text, and the cursor records what it returned.
pub(crate) fn parse_legacy_float<'a, F: FloatText>(cursor: &mut Cursor<'a>, arena: &Bump, at: usize) -> (r: Result<
    Term<'a>,
    EtfError,
>)
    requires
        floats_read::<F>(*old(cursor)),
        at + 1 == old(cursor).pos(),
        forall|k: int| #[trigger] old(cursor).floats().contains_key(k) ==> k < at,
    ensures
        floats_read::<F>(*final(cursor)),
        final(cursor).input() == old(cursor).input(),
        final(cursor).is_streaming() == old(cursor).is_streaming(),
        old(cursor).floats().submap_of(final(cursor).floats()),
        forall|k: int| #[trigger]
            final(cursor).floats().contains_key(k) ==> old(cursor).floats().contains_key(k) || k == at,
        final(cursor).pos() >= old(cursor).pos(),
        forall|fl: spec_fn(int) -> Option<u64>|
            agrees(fl, final(cursor).floats()) ==> #[trigger] p_legacy_float(
                old(cursor).input(),
                st_of(*old(cursor), *arena),
                cfg_of(*old(cursor), *arena),
                at as int,
                fl,
            ) == term_outcome(r, st_of(*final(cursor), *arena)),
{
    let bytes = match take_bytes(cursor, arena, 31) {
        Ok(b) => b,
        Err(e) => return Err(e),
    };
    let end = first_zero(bytes);
    let text = vstd::slice::slice_subrange(bytes, 0, end);
    let s = match str_from_utf8(text) {
        Ok(s) => s,
        Err(_) => return Err(EtfError::InvalidUtf8),
    };
    let v = F::float_bits(s);
    proof {
        assert(text@ =~= legacy_text(cursor.input(), at as int));
    }
    cursor.record_float(Ghost(at as int), Ghost(v));
    proof {
        assert forall|k: int| #[trigger] cursor.floats().contains_key(k) implies reading::<F>(cursor.input())(k)
            == cursor.floats()[k] by {
            if k != at {
                assert(old(cursor).floats().contains_key(k));
            }
        }
        assert forall|k: int| #[trigger] old(cursor).floats().contains_key(k) implies
            cursor.floats().contains_key(k) && cursor.floats()[k] == old(cursor).floats()[k] by {
            assert(k < at);
        }
        assert forall|fl: spec_fn(int) -> Option<u64>| agrees(fl, cursor.floats()) implies fl(at as int) == v by {
            assert(cursor.floats().contains_key(at as int));
        }
    }
    match v {
        Some(bits) => Ok(Term::Float(bits)),
        None => Err(EtfError::InvalidFloat),
    }
}

/// A PID (`pid`) or port body whose tag is at `at`: a node atom and `n`
/// bytes.  The term holds every byte from the tag on.
fn parse_node_id<'a>(cursor: &mut Cursor<'a>, arena: &Bump, at: usize, n: usize, pid: bool) -> (r: Result<
    Term<'a>,
    EtfError,
>)
    requires
        at < old(cursor).pos(),
    ensures
        final(cursor).input() == old(cursor).input(),
        final(cursor).is_streaming() == old(cursor).is_streaming(),
        final(cursor).floats() == old(cursor).floats(),
        final(cursor).pos() >= old(cursor).pos(),
        p_node_id(old(cursor).input(), st_of(*old(cursor), *arena), cfg_of(*old(cursor), *arena), at as int, n as int, pid)
            == term_outcome(r, st_of(*final(cursor), *arena)),
{
    parse_atom_only(cursor, arena)?;
    take_bytes(cursor, arena, n)?;
    cursor.check_inv();
    let end = cursor.consumed();
    let slice = cursor.slice_between(at, end);
    if pid {
        Ok(Term::Pid(slice))
    } else {
        Ok(Term::Port(slice))
    }
}

/// A reference body whose tag is at `at` and whose creation field has
/// `cw` bytes.
fn parse_ref<'a>(cursor: &mut Cursor<'a>, arena: &Bump, at: usize, cw: usize) -> (r: Result<
    Term<'a>,
    EtfError,
>)
    requires
        at < old(cursor).pos(),
        cw == 1 || cw == 4,
    ensures
        final(cursor).input() == old(cursor).input(),
        final(cursor).is_streaming() == old(cursor).is_streaming(),
        final(cursor).floats() == old(cursor).floats(),
        final(cursor).pos() >= old(cursor).pos(),
        p_ref(old(cursor).input(), st_of(*old(cursor), *arena), cfg_of(*old(cursor), *arena), at as int, cw as int)
            == term_outcome(r, st_of(*final(cursor), *arena)),
{
    let len = read_uint(cursor, arena, 2)?;
    if len > arena.limits().max_reference_words {
        return Err(EtfError::ReferenceTooLarge);
    }
    parse_atom_only(cursor, arena)?;
    read_uint(cursor, arena, cw)?;
    take_bytes(cursor, arena, len * 4)?;
    cursor.check_inv();
    let end = cursor.consumed();
    Ok(Term::Ref(cursor.slice_between(at, end)))
}

/// A `NEW_FUN_EXT` body whose tag is at `at`.
fn parse_new_fun<'a>(cursor: &mut Cursor<'a>, arena: &Bump, at: usize) -> (r: Result<
    Term<'a>,
    EtfError,
>)
    requires
        at < old(cursor).pos(),
    ensures
        final(cursor).input() == old(cursor).input(),
        final(cursor).is_streaming() == old(cursor).is_streaming(),
        final(cursor).floats() == old(cursor).floats(),
        final(cursor).pos() >= old(cursor).pos(),
        p_new_fun(old(cursor).input(), st_of(*old(cursor), *arena), cfg_of(*old(cursor), *arena), at as int)
            == term_outcome(r, st_of(*final(cursor), *arena)),
{
    let size = read_uint(cursor, arena, 4)?;
    if size < 4 {
        return Err(EtfError::InvalidSize);
    }
    let remaining = size - 4;
    if remaining > arena.limits().max_fun_size {
        return Err(EtfError::BinaryTooLarge);
    }
    take_bytes(cursor, arena, remaining)?;
    cursor.check_inv();
    let end = cursor.consumed();
    Ok(Term::Function(cursor.slice_between(at, end)))
}

/// A term with no nested terms, whose tag is at the cursor.
#[verifier::rlimit(50)]
fn parse_leaf<'a, F: FloatText>(cursor: &mut Cursor<'a>, arena: &mut Bump) -> (r: Result<Term<'a>, EtfError>)
    requires
        floats_read::<F>(*old(cursor)),
        old(cursor).pos() < old(cursor).input().len(),
        !is_compound_tag(old(cursor).input()[old(cursor).pos() as int]),
        floats_behind(*old(cursor)),
    ensures
        floats_read::<F>(*final(cursor)),
        steps(*old(cursor), *final(cursor), *old(arena), *final(arena)),
        forall|fl: spec_fn(int) -> Option<u64>|
            agrees(fl, final(cursor).floats()) ==> #[trigger] p_leaf(
                old(cursor).input(),
                st_of(*old(cursor), *old(arena)),
                cfg_of(*old(cursor), *old(arena)),
                fl,
            ) == term_outcome(r, st_of(*final(cursor), *final(arena))),
{
    let at = cursor.consumed();
    let tag = match cursor.read_u8() {
        Ok(t) => t,
        Err(e) => return Err(e),
    };
    if tag == SMALL_INTEGER_EXT {
        match cursor.read_u8() {
            Ok(b) => Ok(Term::Int(b as i32)),
            Err(e) => Err(e),
        }
    } else if tag == INTEGER_EXT {
        match cursor.read_u32() {
            Ok(v) => Ok(Term::Int(v as i32)),
            Err(e) => Err(e),
        }
    } else if tag == NEW_FLOAT_EXT {
        match cursor.read_u64() {
            Ok(v) => Ok(Term::Float(v)),
            Err(e) => Err(e),
        }
    } else if tag == NIL_EXT {
        let r = Ok(Term::List(Vec::new()));
        assert(terms_model(Seq::<Term>::empty()) =~= Seq::<TermModel>::empty());
        r
    } else if tag == ATOM_UTF8_EXT {
        match parse_atom_body(cursor, arena, 2) {
            Ok(b) => Ok(Term::Atom(AtomUtf8(b))),
            Err(e) => Err(e),
        }
    } else if tag == SMALL_ATOM_UTF8_EXT {
        match parse_atom_body(cursor, arena, 1) {
            Ok(b) => Ok(Term::Atom(AtomUtf8(b))),
            Err(e) => Err(e),
        }
    } else if tag == STRING_EXT {
        parse_string(cursor, arena)
    } else if tag == BINARY_EXT {
        parse_binary(cursor, arena)
    } else if tag == BIT_BINARY_EXT {
        parse_bit_binary(cursor, arena)
    } else if tag == SMALL_BIG_EXT {
        parse_big(cursor, arena, 1)
    } else if tag == LARGE_BIG_EXT {
        parse_big(cursor, arena, 4)
    } else if tag == FLOAT_EXT {
        parse_legacy_float::<F>(cursor, arena, at)
    } else if tag == PID_EXT {
        parse_node_id(cursor, arena, at, 9, true)
    } else if tag == NEW_PID_EXT {
        parse_node_id(cursor, arena, at, 12, true)
    } else if tag == PORT_EXT {
        parse_node_id(cursor, arena, at, 5, false)
    } else if tag == NEW_PORT_EXT {
        parse_node_id(cursor, arena, at, 8, false)
    } else if tag == V4_PORT_EXT {
        parse_node_id(cursor, arena, at, 12, false)
    } else if tag == NEW_REFERENCE_EXT {
        parse_ref(cursor, arena, at, 1)
    } else if tag == NEWER_REFERENCE_EXT {
        parse_ref(cursor, arena, at, 4)
    } else if tag == NEW_FUN_EXT {
        parse_new_fun(cursor, arena, at)
    } else {
        Err(EtfError::UnsupportedTag(tag))
    }
}

/// What one term at height `h` decodes to from `(c0, a0)`, for every
/// reading of the legacy floats that agrees with those recorded in `c1`,
/// is the outcome `r` with `(c1, a1)` the cursor and arena after it.
pub open spec fn decodes_term(c0: Cursor, a0: Bump, c1: Cursor, a1: Bump, h: int, r: Result<Term, EtfError>) -> bool {
    forall|fl: spec_fn(int) -> Option<u64>|
        agrees(fl, c1.floats()) ==> #[trigger] p_term(c0.input(), st_of(c0, a0), h, cfg_of(c0, a0), fl)
            == term_outcome(r, st_of(c1, a1))
}

/// `n` consecutive terms at height `h`.
fn parse_seq<'a, F: FloatText>(cursor: &mut Cursor<'a>, arena: &mut Bump, n: u64, h: usize) -> (r: Result<
    Vec<Term<'a>>,
    EtfError,
>)
    requires
        floats_read::<F>(*old(cursor)),
        floats_behind(*old(cursor)),
    ensures
        floats_read::<F>(*final(cursor)),
        steps(*old(cursor), *final(cursor), *old(arena), *final(arena)),
        r matches Ok(v) ==> v@.len() == n,
        forall|fl: spec_fn(int) -> Option<u64>|
            agrees(fl, final(cursor).floats()) ==> #[trigger] p_seq(
                old(cursor).input(),
                st_of(*old(cursor), *old(arena)),
                n as int,
                h as int,
                cfg_of(*old(cursor), *old(arena)),
                fl,
            ) == terms_outcome(r, st_of(*final(cursor), *final(arena))),
    decreases old(cursor).input().len() - old(cursor).pos(), 2int, n,
{
    cursor.check_inv();
    let ghost d = cursor.input();
    let ghost st0 = st_of(*cursor, *arena);
    let ghost cfg = cfg_of(*cursor, *arena);
    let ghost c0 = *cursor;
    let mut v: Vec<Term<'a>> = Vec::new();
    let mut i: u64 = 0;
    proof {
        assert(terms_model(v@) =~= Seq::<TermModel>::empty());
        assert forall|fl: spec_fn(int) -> Option<u64>| agrees(fl, cursor.floats()) implies #[trigger] p_seq(d, st0, n as int, h as int, cfg, fl)
            == prepend(terms_model(v@), p_seq(d, st_of(*cursor, *arena), n - i, h as int, cfg, fl)) by {
            if let Ok((ts, s)) = p_seq(d, st0, n as int, h as int, cfg, fl) {
                assert(Seq::<TermModel>::empty() + ts =~= ts);
            }
        }
    }
    while i < n
        invariant
            floats_read::<F>(*cursor),
            c0 == *old(cursor),
            d == c0.input(),
            st0 == st_of(*old(cursor), *old(arena)),
            cfg == cfg_of(*old(cursor), *old(arena)),
            i <= n,
            v@.len() == i,
            cursor.input() == d,
            cursor.is_streaming() == c0.is_streaming(),
            c0.floats().submap_of(cursor.floats()),
            floats_behind(*cursor),
            cursor.pos() >= c0.pos(),
            cfg_of(*cursor, *arena) == cfg,
            forall|fl: spec_fn(int) -> Option<u64>|
                agrees(fl, cursor.floats()) ==> #[trigger] p_seq(d, st0, n as int, h as int, cfg, fl)
                    == prepend(terms_model(v@), p_seq(d, st_of(*cursor, *arena), n - i, h as int, cfg, fl)),
        decreases n - i,
    {
        cursor.check_inv();
        let ghost ci = *cursor;
        let ghost ai = *arena;
        let ghost acc = terms_model(v@);
        let t = match parse_term::<F>(cursor, arena, h) {
            Ok(t) => t,
            Err(e) => {
                proof {
                    lemma_submap_trans(c0.floats(), ci.floats(), cursor.floats());
                    assert forall|fl: spec_fn(int) -> Option<u64>| agrees(fl, cursor.floats()) implies #[trigger] p_seq(d, st0, n as int, h as int, cfg, fl)
                        == Err::<(Seq<TermModel>, PState), EtfError>(e) by {
                        lemma_agrees_submap(fl, ci.floats(), cursor.floats());
                        lemma_seq_step(d, st_of(ci, ai), n - i, h as int, cfg, fl);
                        assert(p_term(d, st_of(ci, ai), h as int, cfg, fl) == Err::<(TermModel, PState), EtfError>(e));
                    }
                }
                return Err(e);
            },
        };
        let ghost tmod = t@;
        let ghost before = v@;
        v.push(t);
        proof {
            lemma_submap_trans(c0.floats(), ci.floats(), cursor.floats());
            assert(v@.drop_last() =~= before);
            assert(terms_model(v@) == acc.push(tmod));
            assert forall|fl: spec_fn(int) -> Option<u64>| agrees(fl, cursor.floats()) implies #[trigger] p_seq(d, st0, n as int, h as int, cfg, fl)
                == prepend(terms_model(v@), p_seq(d, st_of(*cursor, *arena), n - (i + 1), h as int, cfg, fl)) by {
                lemma_agrees_submap(fl, ci.floats(), cursor.floats());
                lemma_seq_step(d, st_of(ci, ai), n - i, h as int, cfg, fl);
                assert(p_term(d, st_of(ci, ai), h as int, cfg, fl) == Ok::<(TermModel, PState), EtfError>((tmod, st_of(*cursor, *arena))));
                lemma_prepend_prepend(acc, seq![tmod], p_seq(d, st_of(*cursor, *arena), n - (i + 1), h as int, cfg, fl));
                assert(acc + seq![tmod] =~= acc.push(tmod));
            }
        }
        i = i + 1;
    }
    proof {
        assert forall|fl: spec_fn(int) -> Option<u64>| agrees(fl, cursor.floats()) implies #[trigger] p_seq(d, st0, n as int, h as int, cfg, fl)
            == terms_outcome(Ok::<Vec<Term<'a>>, EtfError>(v), st_of(*cursor, *arena)) by {
            assert(terms_model(v@) + Seq::<TermModel>::empty() =~= terms_model(v@));
        }
    }
    Ok(v)
}

/// `n` consecutive key-value pairs at height `h`.
fn parse_pairs<'a, F: FloatText>(cursor: &mut Cursor<'a>, arena: &mut Bump, n: u64, h: usize) -> (r: Result<
    Vec<(Term<'a>, Term<'a>)>,
    EtfError,
>)
    requires
        floats_read::<F>(*old(cursor)),
        floats_behind(*old(cursor)),
    ensures
        floats_read::<F>(*final(cursor)),
        steps(*old(cursor), *final(cursor), *old(arena), *final(arena)),
        r matches Ok(v) ==> v@.len() == n,
        forall|fl: spec_fn(int) -> Option<u64>|
            agrees(fl, final(cursor).floats()) ==> #[trigger] p_pairs(
                old(cursor).input(),
                st_of(*old(cursor), *old(arena)),
                n as int,
                h as int,
                cfg_of(*old(cursor), *old(arena)),
                fl,
            ) == pairs_outcome(r, st_of(*final(cursor), *final(arena))),
    decreases old(cursor).input().len() - old(cursor).pos(), 2int, n,
{
    cursor.check_inv();
    let ghost d = cursor.input();
    let ghost st0 = st_of(*cursor, *arena);
    let ghost cfg = cfg_of(*cursor, *arena);
    let ghost c0 = *cursor;
    let mut v: Vec<(Term<'a>, Term<'a>)> = Vec::new();
    let mut i: u64 = 0;
    proof {
        assert(pairs_model(v@) =~= Seq::<(TermModel, TermModel)>::empty());
        assert forall|fl: spec_fn(int) -> Option<u64>| agrees(fl, cursor.floats()) implies #[trigger] p_pairs(d, st0, n as int, h as int, cfg, fl)
            == prepend(pairs_model(v@), p_pairs(d, st_of(*cursor, *arena), n - i, h as int, cfg, fl)) by {
            if let Ok((ps, s)) = p_pairs(d, st0, n as int, h as int, cfg, fl) {
                assert(Seq::<(TermModel, TermModel)>::empty() + ps =~= ps);
            }
        }
    }
    while i < n
        invariant
            floats_read::<F>(*cursor),
            c0 == *old(cursor),
            d == c0.input(),
            st0 == st_of(*old(cursor), *old(arena)),
            cfg == cfg_of(*old(cursor), *old(arena)),
            i <= n,
            v@.len() == i,
            cursor.input() == d,
            cursor.is_streaming() == c0.is_streaming(),
            c0.floats().submap_of(cursor.floats()),
            floats_behind(*cursor),
            cursor.pos() >= c0.pos(),
            cfg_of(*cursor, *arena) == cfg,
            forall|fl: spec_fn(int) -> Option<u64>|
                agrees(fl, cursor.floats()) ==> #[trigger] p_pairs(d, st0, n as int, h as int, cfg, fl)
                    == prepend(pairs_model(v@), p_pairs(d, st_of(*cursor, *arena), n - i, h as int, cfg, fl)),
        decreases n - i,
    {
        cursor.check_inv();
        let ghost ci = *cursor;
        let ghost ai = *arena;
        let ghost acc = pairs_model(v@);
        let k = match parse_term::<F>(cursor, arena, h) {
            Ok(t) => t,
            Err(e) => {
                proof {
                    lemma_submap_trans(c0.floats(), ci.floats(), cursor.floats());
                    assert forall|fl: spec_fn(int) -> Option<u64>| agrees(fl, cursor.floats()) implies #[trigger] p_pairs(d, st0, n as int, h as int, cfg, fl)
                        == Err::<(Seq<(TermModel, TermModel)>, PState), EtfError>(e) by {
                        lemma_agrees_submap(fl, ci.floats(), cursor.floats());
                        lemma_pairs_step(d, st_of(ci, ai), n - i, h as int, cfg, fl);
                    }
                }
                return Err(e);
            },
        };
        cursor.check_inv();
        let ghost ck = *cursor;
        let ghost ak = *arena;
        let ghost kmod = k@;
        let val = match parse_term::<F>(cursor, arena, h) {
            Ok(t) => t,
            Err(e) => {
                proof {
                    lemma_submap_trans(ci.floats(), ck.floats(), cursor.floats());
                    lemma_submap_trans(c0.floats(), ci.floats(), cursor.floats());
                    assert forall|fl: spec_fn(int) -> Option<u64>| agrees(fl, cursor.floats()) implies #[trigger] p_pairs(d, st0, n as int, h as int, cfg, fl)
                        == Err::<(Seq<(TermModel, TermModel)>, PState), EtfError>(e) by {
                        lemma_agrees_submap(fl, ck.floats(), cursor.floats());
                        lemma_agrees_submap(fl, ci.floats(), cursor.floats());
                        lemma_pairs_step(d, st_of(ci, ai), n - i, h as int, cfg, fl);
                        assert(p_term(d, st_of(ci, ai), h as int, cfg, fl) == Ok::<(TermModel, PState), EtfError>((kmod, st_of(ck, ak))));
                    }
                }
                return Err(e);
            },
        };
        let ghost vmod = val@;
        let ghost before = v@;
        v.push((k, val));
        proof {
            lemma_submap_trans(ci.floats(), ck.floats(), cursor.floats());
            lemma_submap_trans(c0.floats(), ci.floats(), cursor.floats());
            assert(v@.drop_last() =~= before);
            assert(pairs_model(v@) == acc.push((kmod, vmod)));
            assert forall|fl: spec_fn(int) -> Option<u64>| agrees(fl, cursor.floats()) implies #[trigger] p_pairs(d, st0, n as int, h as int, cfg, fl)
                == prepend(pairs_model(v@), p_pairs(d, st_of(*cursor, *arena), n - (i + 1), h as int, cfg, fl)) by {
                lemma_agrees_submap(fl, ck.floats(), cursor.floats());
                lemma_agrees_submap(fl, ci.floats(), cursor.floats());
                lemma_pairs_step(d, st_of(ci, ai), n - i, h as int, cfg, fl);
                assert(p_term(d, st_of(ci, ai), h as int, cfg, fl) == Ok::<(TermModel, PState), EtfError>((kmod, st_of(ck, ak))));
                assert(p_term(d, st_of(ck, ak), h as int, cfg, fl) == Ok::<(TermModel, PState), EtfError>((vmod, st_of(*cursor, *arena))));
                lemma_prepend_prepend(acc, seq![(kmod, vmod)], p_pairs(d, st_of(*cursor, *arena), n - (i + 1), h as int, cfg, fl));
                assert(acc + seq![(kmod, vmod)] =~= acc.push((kmod, vmod)));
            }
        }
        i = i + 1;
    }
    proof {
        assert forall|fl: spec_fn(int) -> Option<u64>| agrees(fl, cursor.floats()) implies #[trigger] p_pairs(d, st0, n as int, h as int, cfg, fl)
            == pairs_outcome(Ok::<Vec<(Term<'a>, Term<'a>)>, EtfError>(v), st_of(*cursor, *arena)) by {
            assert(pairs_model(v@) + Seq::<(TermModel, TermModel)>::empty() =~= pairs_model(v@));
        }
    }
    Ok(v)
}

/// A term at height `h` whose tag is at the cursor.
pub(crate) fn parse_term<'a, F: FloatText>(cursor: &mut Cursor<'a>, arena: &mut Bump, h: usize) -> (r: Result<
    Term<'a>,
    EtfError,
>)
    requires
        floats_read::<F>(*old(cursor)),
        floats_behind(*old(cursor)),
    ensures
        floats_read::<F>(*final(cursor)),
        steps(*old(cursor), *final(cursor), *old(arena), *final(arena)),
        decodes_term(*old(cursor), *old(arena), *final(cursor), *final(arena), h as int, r),
    decreases old(cursor).input().len() - old(cursor).pos(), 1int, 1int,
{
    cursor.check_inv();
    if h > arena.limits().max_depth {
        return Err(EtfError::RecursionLimitExceeded);
    }
    let tag = match cursor.peek() {
        Some(t) => t,
        None => {
            return Err(cursor.eof_or_incomplete(1));
        },
    };
let ghost d = cursor.input();
    let ghost st0 = st_of(*cursor, *arena);
    let ghost cfg = cfg_of(*cursor, *arena);
    if tag == SMALL_TUPLE_EXT || tag == LARGE_TUPLE_EXT {
        let r = parse_tuple::<F>(cursor, arena, h);
        proof {
            assert forall|fl: spec_fn(int) -> Option<u64>| agrees(fl, cursor.floats()) implies #[trigger] p_term(d, st0, h as int, cfg, fl)
                == term_outcome(r, st_of(*cursor, *arena)) by {
                assert(p_tuple(d, st0, h as int, cfg, fl) == term_outcome(r, st_of(*cursor, *arena)));
            }
        }
        r
    } else if tag == LIST_EXT {
        let r = parse_list::<F>(cursor, arena, h);
        proof {
            assert forall|fl: spec_fn(int) -> Option<u64>| agrees(fl, cursor.floats()) implies #[trigger] p_term(d, st0, h as int, cfg, fl)
                == term_outcome(r, st_of(*cursor, *arena)) by {
                assert(p_list(d, st0, h as int, cfg, fl) == term_outcome(r, st_of(*cursor, *arena)));
            }
        }
        r
    } else if tag == MAP_EXT {
        let r = parse_map::<F>(cursor, arena, h);
        proof {
            assert forall|fl: spec_fn(int) -> Option<u64>| agrees(fl, cursor.floats()) implies #[trigger] p_term(d, st0, h as int, cfg, fl)
                == term_outcome(r, st_of(*cursor, *arena)) by {
                assert(p_map(d, st0, h as int, cfg, fl) == term_outcome(r, st_of(*cursor, *arena)));
            }
        }
        r
    } else if tag == EXPORT_EXT {
        let r = parse_export::<F>(cursor, arena, h);
        proof {
            assert forall|fl: spec_fn(int) -> Option<u64>| agrees(fl, cursor.floats()) implies #[trigger] p_term(d, st0, h as int, cfg, fl)
                == term_outcome(r, st_of(*cursor, *arena)) by {
                assert(p_export(d, st0, h as int, cfg, fl) == term_outcome(r, st_of(*cursor, *arena)));
            }
        }
        r
    } else if tag == RECORD_EXT {
        let r = parse_record::<F>(cursor, arena, h);
        proof {
            assert forall|fl: spec_fn(int) -> Option<u64>| agrees(fl, cursor.floats()) implies #[trigger] p_term(d, st0, h as int, cfg, fl)
                == term_outcome(r, st_of(*cursor, *arena)) by {
                assert(p_record(d, st0, h as int, cfg, fl) == term_outcome(r, st_of(*cursor, *arena)));
            }
        }
        r
    } else {
        let r = parse_leaf::<F>(cursor, arena);
        proof {
            assert forall|fl: spec_fn(int) -> Option<u64>| agrees(fl, cursor.floats()) implies #[trigger] p_term(d, st0, h as int, cfg, fl)
                == term_outcome(r, st_of(*cursor, *arena)) by {
                assert(p_leaf(d, st0, cfg, fl) == term_outcome(r, st_of(*cursor, *arena)));
            }
        }
        r
    }
}

/// The height of the children of a compound term at height `h`, or the
/// error the first child reports when that height is past every limit.
fn child_height(h: usize) -> (r: Result<usize, EtfError>)
    ensures
        r matches Ok(c) ==> c == h + 1,
        r is Err ==> h == usize::MAX && r == Err::<usize, EtfError>(EtfError::RecursionLimitExceeded),
{
    if h == usize::MAX {
        Err(EtfError::RecursionLimitExceeded)
    } else {
        Ok(h + 1)
    }
}

/// A `SMALL_TUPLE_EXT` or `LARGE_TUPLE_EXT` at height `h`.
fn parse_tuple<'a, F: FloatText>(cursor: &mut Cursor<'a>, arena: &mut Bump, h: usize) -> (r: Result<
    Term<'a>,
    EtfError,
>)
    requires
        floats_read::<F>(*old(cursor)),
        floats_behind(*old(cursor)),
        h <= old(arena).spec_limits().max_depth,
        old(cursor).pos() < old(cursor).input().len(),
        old(cursor).input()[old(cursor).pos() as int] == SMALL_TUPLE_EXT
            || old(cursor).input()[old(cursor).pos() as int] == LARGE_TUPLE_EXT,
    ensures
        floats_read::<F>(*final(cursor)),
        steps(*old(cursor), *final(cursor), *old(arena), *final(arena)),
        forall|fl: spec_fn(int) -> Option<u64>|
            agrees(fl, final(cursor).floats()) ==> #[trigger] p_tuple(
                old(cursor).input(),
                st_of(*old(cursor), *old(arena)),
                h as int,
                cfg_of(*old(cursor), *old(arena)),
                fl,
            ) == term_outcome(r, st_of(*final(cursor), *final(arena))),
    decreases old(cursor).input().len() - old(cursor).pos(), 1int, 0int,
{
    let ghost d = cursor.input();
    let ghost st0 = st_of(*cursor, *arena);
    let ghost cfg = cfg_of(*cursor, *arena);
    let tag = cursor.read_u8()?;
    let arity = read_uint(cursor, arena, if tag == SMALL_TUPLE_EXT { 1 } else { 4 })?;
    cursor.check_inv();
    if arity > arena.limits().max_tuple_arity {
        return Err(EtfError::TupleTooLarge);
    }
    arena.alloc_slice(TERM_CELL, TERM_ALIGN, arity)?;
    if arity == 0 {
        let r = Ok(Term::Tuple(Vec::new()));
        assert(terms_model(Seq::<Term>::empty()) =~= Seq::<TermModel>::empty());
        return r;
    }
    arena.alloc_slice(FRAME_CELL, FRAME_ALIGN, 1)?;
    let ch = match child_height(h) {
        Ok(c) => c,
        Err(e) => {
            proof {
                assert forall|fl: spec_fn(int) -> Option<u64>| #[trigger] p_seq(cursor.input(), st_of(*cursor, *arena), arity as int, h + 1, cfg_of(*cursor, *arena), fl)
                    == Err::<(Seq<TermModel>, PState), EtfError>(EtfError::RecursionLimitExceeded) by {
                    lemma_seq_too_deep(cursor.input(), st_of(*cursor, *arena), arity as int, h + 1, cfg_of(*cursor, *arena), fl);
                }
            }
            return Err(e);
        },
    };
    let ghost cs = *cursor;
    let ghost ab = *arena;
    let res = parse_seq::<F>(cursor, arena, arity as u64, ch);
    proof {
        assert forall|fl: spec_fn(int) -> Option<u64>| agrees(fl, cursor.floats()) implies #[trigger] p_tuple(d, st0, h as int, cfg, fl)
            == (match terms_outcome(res, st_of(*cursor, *arena)) {
                Ok((ts, s)) => Ok((TermModel::Tuple(ts), s)),
                Err(e) => Err(e),
            }) by {
            assert(p_seq(d, st_of(cs, ab), (arity as u64) as int, ch as int, cfg_of(cs, ab), fl) == terms_outcome(res, st_of(*cursor, *arena)));
        }
    }
    match res {
        Ok(elements) => Ok(Term::Tuple(elements)),
        Err(e) => Err(e),
    }
}

/// A `LIST_EXT` at height `h`: `len` elements and a tail, decoded as one
/// sequence of `len + 1` terms.
fn parse_list<'a, F: FloatText>(cursor: &mut Cursor<'a>, arena: &mut Bump, h: usize) -> (r: Result<
    Term<'a>,
    EtfError,
>)
    requires
        floats_read::<F>(*old(cursor)),
        floats_behind(*old(cursor)),
        h <= old(arena).spec_limits().max_depth,
        old(cursor).pos() < old(cursor).input().len(),
        old(cursor).input()[old(cursor).pos() as int] == LIST_EXT,
    ensures
        floats_read::<F>(*final(cursor)),
        steps(*old(cursor), *final(cursor), *old(arena), *final(arena)),
        forall|fl: spec_fn(int) -> Option<u64>|
            agrees(fl, final(cursor).floats()) ==> #[trigger] p_list(
                old(cursor).input(),
                st_of(*old(cursor), *old(arena)),
                h as int,
                cfg_of(*old(cursor), *old(arena)),
                fl,
            ) == term_outcome(r, st_of(*final(cursor), *final(arena))),
    decreases old(cursor).input().len() - old(cursor).pos(), 1int, 0int,
{
    let ghost d = cursor.input();
    let ghost st0 = st_of(*cursor, *arena);
    let ghost cfg = cfg_of(*cursor, *arena);
    cursor.read_u8()?;
    let len = read_uint(cursor, arena, 4)?;
    cursor.check_inv();
    if len > arena.limits().max_list_len {
        return Err(EtfError::ListTooLarge);
    }
    let total = match len.checked_add(1) {
        Some(t) => t,
        None => return Err(EtfError::ArenaExhausted),
    };
    arena.alloc_slice(TERM_CELL, TERM_ALIGN, total)?;
    arena.alloc_slice(FRAME_CELL, FRAME_ALIGN, 1)?;
    let ch = match child_height(h) {
        Ok(c) => c,
        Err(e) => {
            proof {
                assert forall|fl: spec_fn(int) -> Option<u64>| #[trigger] p_seq(cursor.input(), st_of(*cursor, *arena), total as int, h + 1, cfg_of(*cursor, *arena), fl)
                    == Err::<(Seq<TermModel>, PState), EtfError>(EtfError::RecursionLimitExceeded) by {
                    lemma_seq_too_deep(cursor.input(), st_of(*cursor, *arena), total as int, h + 1, cfg_of(*cursor, *arena), fl);
                }
            }
            return Err(e);
        },
    };
    let ghost cs = *cursor;
    let ghost ab = *arena;
    let res = parse_seq::<F>(cursor, arena, total as u64, ch);
    proof {
        assert forall|fl: spec_fn(int) -> Option<u64>| agrees(fl, cursor.floats()) implies #[trigger] p_list(d, st0, h as int, cfg, fl)
            == (match terms_outcome(res, st_of(*cursor, *arena)) {
                Ok((ts, s)) => if ts.last().is_nil() {
                    Ok((TermModel::List(ts.drop_last()), s))
                } else {
                    Ok((TermModel::ImproperList(ts), s))
                },
                Err(e) => Err(e),
            }) by {
            assert(p_seq(d, st_of(cs, ab), (total as u64) as int, ch as int, cfg_of(cs, ab), fl) == terms_outcome(res, st_of(*cursor, *arena)));
        }
    }
    let mut elements = match res {
        Ok(v) => v,
        Err(e) => return Err(e),
    };
    proof {
        lemma_terms_model(elements@);
    }
    let nil_tail = match &elements[len] {
        Term::List(v) => {
            proof {
                lemma_terms_model(v@);
            }
            v.len() == 0
        },
        _ => false,
    };
    if nil_tail {
        let ghost all = elements@;
        elements.pop();
        proof {
            assert(elements@ == all.drop_last());
            assert(terms_model(all).drop_last() =~= terms_model(all.drop_last()));
        }
        Ok(Term::List(elements))
    } else {
        Ok(Term::ImproperList(elements))
    }
}

/// A `MAP_EXT` at height `h`.
fn parse_map<'a, F: FloatText>(cursor: &mut Cursor<'a>, arena: &mut Bump, h: usize) -> (r: Result<
    Term<'a>,
    EtfError,
>)
    requires
        floats_read::<F>(*old(cursor)),
        floats_behind(*old(cursor)),
        h <= old(arena).spec_limits().max_depth,
        old(cursor).pos() < old(cursor).input().len(),
        old(cursor).input()[old(cursor).pos() as int] == MAP_EXT,
    ensures
        floats_read::<F>(*final(cursor)),
        steps(*old(cursor), *final(cursor), *old(arena), *final(arena)),
        forall|fl: spec_fn(int) -> Option<u64>|
            agrees(fl, final(cursor).floats()) ==> #[trigger] p_map(
                old(cursor).input(),
                st_of(*old(cursor), *old(arena)),
                h as int,
                cfg_of(*old(cursor), *old(arena)),
                fl,
            ) == term_outcome(r, st_of(*final(cursor), *final(arena))),
    decreases old(cursor).input().len() - old(cursor).pos(), 1int, 0int,
{
    let ghost d = cursor.input();
    let ghost st0 = st_of(*cursor, *arena);
    let ghost cfg = cfg_of(*cursor, *arena);
    cursor.read_u8()?;
    let len = read_uint(cursor, arena, 4)?;
    cursor.check_inv();
    if len > arena.limits().max_map_len {
        return Err(EtfError::MapTooLarge);
    }
    arena.alloc_slice(PAIR_CELL, TERM_ALIGN, len)?;
    if len == 0 {
        let r = Ok(Term::ErlangMap(Vec::new()));
        assert(pairs_model(Seq::<(Term, Term)>::empty()) =~= Seq::<(TermModel, TermModel)>::empty());
        return r;
    }
    arena.alloc_slice(FRAME_CELL, FRAME_ALIGN, 1)?;
    let ch = match child_height(h) {
        Ok(c) => c,
        Err(e) => {
            proof {
                assert forall|fl: spec_fn(int) -> Option<u64>| #[trigger] p_pairs(cursor.input(), st_of(*cursor, *arena), len as int, h + 1, cfg_of(*cursor, *arena), fl)
                    == Err::<(Seq<(TermModel, TermModel)>, PState), EtfError>(EtfError::RecursionLimitExceeded) by {
                    lemma_seq_too_deep(cursor.input(), st_of(*cursor, *arena), len as int, h + 1, cfg_of(*cursor, *arena), fl);
                }
            }
            return Err(e);
        },
    };
    let ghost cs = *cursor;
    let ghost ab = *arena;
    let res = parse_pairs::<F>(cursor, arena, len as u64, ch);
    proof {
        assert forall|fl: spec_fn(int) -> Option<u64>| agrees(fl, cursor.floats()) implies #[trigger] p_map(d, st0, h as int, cfg, fl)
            == (match pairs_outcome(res, st_of(*cursor, *arena)) {
                Ok((ps, s)) => Ok((TermModel::ErlangMap(ps), s)),
                Err(e) => Err(e),
            }) by {
            assert(p_pairs(d, st_of(cs, ab), (len as u64) as int, ch as int, cfg_of(cs, ab), fl) == pairs_outcome(res, st_of(*cursor, *arena)));
        }
    }
    match res {
        Ok(pairs) => Ok(Term::ErlangMap(pairs)),
        Err(e) => Err(e),
    }
}

/// An `EXPORT_EXT` at height `h`: module and function atoms, then the
/// arity as a nested term.  The term holds every byte from the tag on.
fn parse_export<'a, F: FloatText>(cursor: &mut Cursor<'a>, arena: &mut Bump, h: usize) -> (r: Result<
    Term<'a>,
    EtfError,
>)
    requires
        floats_read::<F>(*old(cursor)),
        floats_behind(*old(cursor)),
        h <= old(arena).spec_limits().max_depth,
        old(cursor).pos() < old(cursor).input().len(),
        old(cursor).input()[old(cursor).pos() as int] == EXPORT_EXT,
    ensures
        floats_read::<F>(*final(cursor)),
        steps(*old(cursor), *final(cursor), *old(arena), *final(arena)),
        forall|fl: spec_fn(int) -> Option<u64>|
            agrees(fl, final(cursor).floats()) ==> #[trigger] p_export(
                old(cursor).input(),
                st_of(*old(cursor), *old(arena)),
                h as int,
                cfg_of(*old(cursor), *old(arena)),
                fl,
            ) == term_outcome(r, st_of(*final(cursor), *final(arena))),
    decreases old(cursor).input().len() - old(cursor).pos(), 1int, 0int,
{
    let ghost d = cursor.input();
    let ghost st0 = st_of(*cursor, *arena);
    let ghost cfg = cfg_of(*cursor, *arena);
    let at = cursor.consumed();
    cursor.read_u8()?;
    parse_atom_only(cursor, arena)?;
    parse_atom_only(cursor, arena)?;
    cursor.check_inv();
    arena.alloc_slice(TERM_CELL, TERM_ALIGN, 1)?;
    arena.alloc_slice(FRAME_CELL, FRAME_ALIGN, 1)?;
    let ch = match child_height(h) {
        Ok(c) => c,
        Err(e) => {
            proof {
                assert forall|fl: spec_fn(int) -> Option<u64>| #[trigger] p_seq(cursor.input(), st_of(*cursor, *arena), 1, h + 1, cfg_of(*cursor, *arena), fl)
                    == Err::<(Seq<TermModel>, PState), EtfError>(EtfError::RecursionLimitExceeded) by {
                    lemma_seq_too_deep(cursor.input(), st_of(*cursor, *arena), 1, h + 1, cfg_of(*cursor, *arena), fl);
                }
            }
            return Err(e);
        },
    };
    let ghost cs = *cursor;
    let ghost ab = *arena;
    let res = parse_seq::<F>(cursor, arena, 1, ch);
    proof {
        assert forall|fl: spec_fn(int) -> Option<u64>| agrees(fl, cursor.floats()) implies #[trigger] p_export(d, st0, h as int, cfg, fl)
            == (match terms_outcome(res, st_of(*cursor, *arena)) {
                Ok((_, s)) => Ok((TermModel::Function(d.subrange(st0.pos, s.pos)), s)),
                Err(e) => Err(e),
            }) by {
            assert(p_seq(d, st_of(cs, ab), 1u64 as int, ch as int, cfg_of(cs, ab), fl) == terms_outcome(res, st_of(*cursor, *arena)));
        }
    }
    if let Err(e) = res {
        return Err(e);
    }
    cursor.check_inv();
    let end = cursor.consumed();
    Ok(Term::Function(cursor.slice_between(at, end)))
}

/// A `RECORD_EXT` at height `h`: a field count `n`, a flags byte, then
/// `2 * n + 2` nested terms.  The term holds every byte from the tag on.
fn parse_record<'a, F: FloatText>(cursor: &mut Cursor<'a>, arena: &mut Bump, h: usize) -> (r: Result<
    Term<'a>,
    EtfError,
>)
    requires
        floats_read::<F>(*old(cursor)),
        floats_behind(*old(cursor)),
        h <= old(arena).spec_limits().max_depth,
        old(cursor).pos() < old(cursor).input().len(),
        old(cursor).input()[old(cursor).pos() as int] == RECORD_EXT,
    ensures
        floats_read::<F>(*final(cursor)),
        steps(*old(cursor), *final(cursor), *old(arena), *final(arena)),
        forall|fl: spec_fn(int) -> Option<u64>|
            agrees(fl, final(cursor).floats()) ==> #[trigger] p_record(
                old(cursor).input(),
                st_of(*old(cursor), *old(arena)),
                h as int,
                cfg_of(*old(cursor), *old(arena)),
                fl,
            ) == term_outcome(r, st_of(*final(cursor), *final(arena))),
    decreases old(cursor).input().len() - old(cursor).pos(), 1int, 0int,
{
    let ghost d = cursor.input();
    let ghost st0 = st_of(*cursor, *arena);
    let ghost cfg = cfg_of(*cursor, *arena);
    let at = cursor.consumed();
    cursor.read_u8()?;
    let n = read_uint(cursor, arena, 4)?;
    if n > arena.limits().max_map_len {
        return Err(EtfError::MapTooLarge);
    }
    cursor.read_u8()?;
    cursor.check_inv();
    arena.alloc_slice(TERM_CELL, TERM_ALIGN, 1)?;
    arena.alloc_slice(FRAME_CELL, FRAME_ALIGN, 1)?;
    let ch = match child_height(h) {
        Ok(c) => c,
        Err(e) => {
            proof {
                assert forall|fl: spec_fn(int) -> Option<u64>| #[trigger] p_seq(cursor.input(), st_of(*cursor, *arena), 2 * n + 2, h + 1, cfg_of(*cursor, *arena), fl)
                    == Err::<(Seq<TermModel>, PState), EtfError>(EtfError::RecursionLimitExceeded) by {
                    lemma_seq_too_deep(cursor.input(), st_of(*cursor, *arena), 2 * n + 2, h + 1, cfg_of(*cursor, *arena), fl);
                }
            }
            return Err(e);
        },
    };
    let children = (n as u64) * 2 + 2;
    let ghost cs = *cursor;
    let ghost ab = *arena;
    let res = parse_seq::<F>(cursor, arena, children, ch);
    proof {
        assert forall|fl: spec_fn(int) -> Option<u64>| agrees(fl, cursor.floats()) implies #[trigger] p_record(d, st0, h as int, cfg, fl)
            == (match terms_outcome(res, st_of(*cursor, *arena)) {
                Ok((_, s)) => Ok((TermModel::Record(d.subrange(st0.pos, s.pos)), s)),
                Err(e) => Err(e),
            }) by {
            assert(p_seq(d, st_of(cs, ab), children as int, ch as int, cfg_of(cs, ab), fl) == terms_outcome(res, st_of(*cursor, *arena)));
        }
    }
    if let Err(e) = res {
        return Err(e);
    }
    cursor.check_inv();
    let end = cursor.consumed();
    Ok(Term::Record(cursor.slice_between(at, end)))
}

} // verus!
