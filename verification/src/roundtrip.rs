//! Decoding what the encoder wrote gives back the term.

use vstd::prelude::*;

use crate::cursor::{be_u16_at, be_u32_at, be_u64_at};
use crate::encoder::{
    be16, be32, be64, emit, enc_big, enc_pairs, enc_seq, enc_term, lemma_enc_pairs_append,
    lemma_enc_seq_append, lemma_then_assoc, lemma_then_empty, then, Encoding,
};
use crate::error::EtfError;
use crate::grammar::{
    adv, claim, p_atom_body, p_atom_only, p_big, p_bytes, p_export, p_leaf, p_list, p_map, p_new_fun,
    p_node_id, p_pairs, p_ref, p_seq, p_string, p_term, p_tuple, p_uint, PState, ParseCfg,
};
use crate::limits::Limits;
use crate::tags::{
    ATOM_UTF8_EXT, BINARY_EXT, BIT_BINARY_EXT, EXPORT_EXT, INTEGER_EXT, LARGE_BIG_EXT, LARGE_TUPLE_EXT,
    LIST_EXT, MAP_EXT, NEWER_REFERENCE_EXT, NEW_FLOAT_EXT, NEW_FUN_EXT, NEW_PID_EXT, NEW_PORT_EXT,
    NEW_REFERENCE_EXT, NIL_EXT, PID_EXT, PORT_EXT, SMALL_ATOM_UTF8_EXT, SMALL_BIG_EXT,
    SMALL_INTEGER_EXT, SMALL_TUPLE_EXT, STRING_EXT, V4_PORT_EXT,
};
use crate::types::TermModel;

verus! {

/// The two bytes `be16` writes read back as the value.
pub proof fn lemma_be16(d: Seq<u8>, p: int, x: int)
    requires
        0 <= x <= u16::MAX,
        0 <= p,
        p + 2 <= d.len(),
        d.subrange(p, p + 2) == be16(x),
    ensures
        be_u16_at(d, p) == x,
{
    assert(d[p] == d.subrange(p, p + 2)[0]);
    assert(d[p + 1] == d.subrange(p, p + 2)[1]);
    assert(x / 256 % 256 == x / 256);
}

/// The four bytes `be32` writes read back as the value.
pub proof fn lemma_be32(d: Seq<u8>, p: int, x: int)
    requires
        0 <= x <= u32::MAX,
        0 <= p,
        p + 4 <= d.len(),
        d.subrange(p, p + 4) == be32(x),
    ensures
        be_u32_at(d, p) == x,
{
    assert(d[p] == d.subrange(p, p + 4)[0]);
    assert(d[p + 1] == d.subrange(p, p + 4)[1]);
    assert(d[p + 2] == d.subrange(p, p + 4)[2]);
    assert(d[p + 3] == d.subrange(p, p + 4)[3]);
    assert(x / 16777216 % 256 == x / 16777216);
    assert(x == (x / 16777216) * 16777216 + (x / 65536 % 256) * 65536 + (x / 256 % 256) * 256 + x % 256)
        by (nonlinear_arith)
        requires
            0 <= x <= u32::MAX,
    ;
}

/// The eight bytes `be64` writes read back as the value.
pub proof fn lemma_be64(d: Seq<u8>, p: int, x: int)
    requires
        0 <= x <= u64::MAX,
        0 <= p,
        p + 8 <= d.len(),
        d.subrange(p, p + 8) == be64(x),
    ensures
        be_u64_at(d, p) == x,
{
    let hi = x / 4294967296;
    let lo = x % 4294967296;
    assert(0 <= hi <= u32::MAX) by (nonlinear_arith)
        requires
            0 <= x <= u64::MAX,
            hi == x / 4294967296,
    ;
    assert(d.subrange(p, p + 4) =~= d.subrange(p, p + 8).subrange(0, 4));
    assert(d.subrange(p + 4, p + 8) =~= d.subrange(p, p + 8).subrange(4, 8));
    assert(be64(x).subrange(0, 4) =~= be32(hi));
    assert(be64(x).subrange(4, 8) =~= be32(lo));
    lemma_be32(d, p, hi);
    lemma_be32(d, p + 4, lo);
}

/// Where the atom field that starts at `i` of `b` (its tag, its length
/// and its bytes) ends, for a field whose length is within `limits`; `-1`
/// when no such field starts there.
pub open spec fn atom_field_end(b: Seq<u8>, i: int, limits: Limits) -> int {
    if 0 <= i && i + 2 <= b.len() && b[i] == SMALL_ATOM_UTF8_EXT && b[i + 1] as int <= limits.max_atom_len {
        i + 2 + b[i + 1] as int
    } else if 0 <= i && i + 3 <= b.len() && b[i] == ATOM_UTF8_EXT && be_u16_at(b, i + 1) <= limits.max_atom_len {
        i + 3 + be_u16_at(b, i + 1)
    } else {
        -1
    }
}

/// How many bytes follow the node name of a PID or port with tag `tag`.
pub open spec fn node_id_tail(tag: u8) -> int {
    if tag == PID_EXT {
        9
    } else if tag == NEW_PID_EXT {
        12
    } else if tag == PORT_EXT {
        5
    } else if tag == NEW_PORT_EXT {
        8
    } else {
        12
    }
}

/// `b` holds a PID (`pid`) or port term as decoding takes it: its tag, the
/// node name as an atom field within `limits`, then the fixed part.
pub open spec fn node_id_form(b: Seq<u8>, pid: bool, limits: Limits) -> bool {
    &&& b.len() >= 1
    &&& if pid {
        b[0] == PID_EXT || b[0] == NEW_PID_EXT
    } else {
        b[0] == PORT_EXT || b[0] == NEW_PORT_EXT || b[0] == V4_PORT_EXT
    }
    &&& atom_field_end(b, 1, limits) >= 0
    &&& atom_field_end(b, 1, limits) + node_id_tail(b[0]) == b.len()
}

/// `b` holds a reference term as decoding takes it: its tag, a word count
/// within `limits`, the node name as an atom field, the creation field and
/// the words.
pub open spec fn ref_form(b: Seq<u8>, limits: Limits) -> bool {
    &&& b.len() >= 3
    &&& b[0] == NEW_REFERENCE_EXT || b[0] == NEWER_REFERENCE_EXT
    &&& be_u16_at(b, 1) <= limits.max_reference_words
    &&& atom_field_end(b, 3, limits) >= 0
    &&& atom_field_end(b, 3, limits) + (if b[0] == NEW_REFERENCE_EXT {
        1int
    } else {
        4int
    }) + be_u16_at(b, 1) * 4 == b.len()
}

/// `b` holds a `NEW_FUN_EXT` term as decoding takes it: its tag, a size
/// field that counts itself, and a body of that size within `limits`.
pub open spec fn new_fun_form(b: Seq<u8>, limits: Limits) -> bool {
    &&& b.len() >= 5
    &&& b[0] == NEW_FUN_EXT
    &&& be_u32_at(b, 1) >= 4
    &&& be_u32_at(b, 1) - 4 <= limits.max_fun_size
    &&& b.len() == 1 + be_u32_at(b, 1)
}

/// `b` holds an `EXPORT_EXT` fun as decoding takes it at height `h`: its
/// tag, the module and function names as atom fields within `limits`, and
/// the arity as a small integer, one level deeper.
pub open spec fn export_form(b: Seq<u8>, limits: Limits, h: int) -> bool {
    let e1 = atom_field_end(b, 1, limits);
    let e2 = atom_field_end(b, e1, limits);
    &&& b.len() >= 1
    &&& b[0] == EXPORT_EXT
    &&& 0 <= e1 <= b.len()
    &&& 0 <= e2
    &&& e2 + 2 == b.len()
    &&& b[e2] == SMALL_INTEGER_EXT
    &&& h + 1 <= limits.max_depth
}

/// Whether `t`, at nesting height `h`, is a term whose encoding decodes
/// back to it under `limits`: every length fits its wire field and its
/// limit, no term nests past the depth limit, strings stay compact, an
/// improper list has a tail that is not `[]`, a PID, port, reference or
/// fun (`NEW_FUN_EXT`, or `EXPORT_EXT` with a small-integer arity) holds
/// the bytes of such a term, and no record occurs.
pub open spec fn roundtrips(t: TermModel, limits: Limits, h: int) -> bool
    decreases t, 0nat,
{
    h <= limits.max_depth && match t {
        TermModel::Int(_) => true,
        TermModel::Float(_) => true,
        TermModel::BigInt { sign, digits } => digits.len() <= limits.max_bignum_size && digits.len()
            <= u32::MAX,
        TermModel::Atom(b) => b.len() <= limits.max_atom_len && b.len() <= u16::MAX,
        TermModel::Binary(b) => b.len() <= limits.max_binary_size && b.len() <= u32::MAX,
        TermModel::BitBinary { bits, data } => data.len() <= limits.max_bit_binary_size && data.len()
            <= u32::MAX,
        TermModel::String(b) => !limits.expand_string_ext_to_list && b.len() <= limits.max_string_len
            && b.len() <= u16::MAX,
        TermModel::Tuple(s) => s.len() <= limits.max_tuple_arity && s.len() <= u32::MAX
            && all_roundtrip(s, limits, h + 1),
        TermModel::List(s) => s.len() == 0 || (s.len() <= limits.max_list_len && s.len() < u32::MAX
            && all_roundtrip(s, limits, h + 1)),
        TermModel::ImproperList(s) => s.len() >= 1 && !s.last().is_nil() && s.len() - 1
            <= limits.max_list_len && s.len() <= u32::MAX && all_roundtrip(s, limits, h + 1),
        TermModel::ErlangMap(ps) => ps.len() <= limits.max_map_len && ps.len() <= u32::MAX
            && pairs_roundtrip(ps, limits, h + 1),
        TermModel::Pid(b) => node_id_form(b, true, limits),
        TermModel::Port(b) => node_id_form(b, false, limits),
        TermModel::Ref(b) => ref_form(b, limits),
        TermModel::Function(b) => new_fun_form(b, limits) || export_form(b, limits, h),
        _ => false,
    }
}

/// Every term of `s` round-trips at height `h`.
pub open spec fn all_roundtrip(s: Seq<TermModel>, limits: Limits, h: int) -> bool
    decreases s, s.len(),
{
    if s.len() == 0 {
        true
    } else {
        all_roundtrip(s.drop_last(), limits, h) && roundtrips(s.last(), limits, h)
    }
}

/// Every key and value of `s` round-trips at height `h`.
pub open spec fn pairs_roundtrip(s: Seq<(TermModel, TermModel)>, limits: Limits, h: int) -> bool
    decreases s, s.len(),
{
    if s.len() == 0 {
        true
    } else {
        pairs_roundtrip(s.drop_last(), limits, h) && roundtrips(s.last().0, limits, h) && roundtrips(
            s.last().1,
            limits,
            h,
        )
    }
}

/// `all_roundtrip` holds element by element.
pub proof fn lemma_all_roundtrip(s: Seq<TermModel>, limits: Limits, h: int)
    ensures
        all_roundtrip(s, limits, h) <==> forall|i: int| 0 <= i < s.len() ==> #[trigger] roundtrips(s[i], limits, h),
    decreases s.len(),
{
    if s.len() > 0 {
        lemma_all_roundtrip(s.drop_last(), limits, h);
        if all_roundtrip(s, limits, h) {
            assert forall|i: int| 0 <= i < s.len() implies #[trigger] roundtrips(s[i], limits, h) by {
                if i < s.len() - 1 {
                    assert(s.drop_last()[i] == s[i]);
                }
            }
        }
        if forall|i: int| 0 <= i < s.len() ==> #[trigger] roundtrips(s[i], limits, h) {
            assert forall|i: int| 0 <= i < s.drop_last().len() implies #[trigger] roundtrips(s.drop_last()[i], limits, h) by {
                assert(s.drop_last()[i] == s[i]);
            }
            assert(roundtrips(s[s.len() - 1], limits, h));
        }
    }
}

/// `pairs_roundtrip` holds pair by pair.
pub proof fn lemma_pairs_roundtrip(s: Seq<(TermModel, TermModel)>, limits: Limits, h: int)
    ensures
        pairs_roundtrip(s, limits, h) <==> forall|i: int|
            #![trigger s[i]]
            0 <= i < s.len() ==> roundtrips(s[i].0, limits, h) && roundtrips(s[i].1, limits, h),
    decreases s.len(),
{
    if s.len() > 0 {
        let t = s.drop_last();
        lemma_pairs_roundtrip(t, limits, h);
        if pairs_roundtrip(s, limits, h) {
            assert forall|i: int| #![trigger s[i]] 0 <= i < s.len() implies roundtrips(s[i].0, limits, h)
                && roundtrips(s[i].1, limits, h) by {
                if i < s.len() - 1 {
                    assert(t[i] == s[i]);
                }
            }
        }
        if forall|i: int| #![trigger s[i]] 0 <= i < s.len() ==> roundtrips(s[i].0, limits, h) && roundtrips(s[i].1, limits, h) {
            assert forall|i: int| #![trigger t[i]] 0 <= i < t.len() implies roundtrips(t[i].0, limits, h)
                && roundtrips(t[i].1, limits, h) by {
                assert(t[i] == s[i]);
            }
            assert(s.last() == s[s.len() - 1]);
        }
    }
}

/// `d` holds `b` at `p`.
pub open spec fn holds_at(d: Seq<u8>, p: int, b: Seq<u8>) -> bool {
    0 <= p && p + b.len() <= d.len() && d.subrange(p, p + b.len()) == b
}

/// Where `d` holds `a + b`, it holds `a`, then `b`.
pub proof fn lemma_holds_split(d: Seq<u8>, p: int, a: Seq<u8>, b: Seq<u8>)
    requires
        holds_at(d, p, a + b),
    ensures
        holds_at(d, p, a),
        holds_at(d, p + a.len(), b),
{
    assert((a + b).subrange(0, a.len() as int) =~= a);
    assert((a + b).subrange(a.len() as int, (a + b).len() as int) =~= b);
    assert(d.subrange(p, p + a.len()) =~= d.subrange(p, p + (a + b).len()).subrange(0, a.len() as int));
    assert(d.subrange(p + a.len(), p + a.len() + b.len()) =~= d.subrange(p, p + (a + b).len()).subrange(
        a.len() as int,
        (a + b).len() as int,
    ));
}

/// Where `d` holds `b`, its bytes are those of `b`.
pub proof fn lemma_holds_index(d: Seq<u8>, p: int, b: Seq<u8>, i: int)
    requires
        holds_at(d, p, b),
        0 <= i < b.len(),
    ensures
        d[p + i] == b[i],
{
    assert(d.subrange(p, p + b.len())[i] == d[p + i]);
}

/// An integer decodes back to itself.
proof fn lemma_rt_int(v: i32, d: Seq<u8>, st: PState, h: int, cfg: ParseCfg, fl: spec_fn(int) -> Option<u64>)
    requires
        h <= cfg.limits.max_depth,
        holds_at(d, st.pos, enc_term(TermModel::Int(v)).bytes),
    ensures
        p_term(d, st, h, cfg, fl) == Ok::<(TermModel, PState), EtfError>(
            (TermModel::Int(v), adv(st, enc_term(TermModel::Int(v)).bytes.len() as int)),
        ),
{
    let e = enc_term(TermModel::Int(v)).bytes;
    lemma_holds_index(d, st.pos, e, 0);
    if 0 <= v <= 255 {
        lemma_holds_index(d, st.pos, e, 1);
        assert(d[st.pos + 1] as i32 == v);
        assert(p_leaf(d, st, cfg, fl) == Ok::<(TermModel, PState), EtfError>((TermModel::Int(v), adv(st, 2))));
    } else {
        lemma_holds_split(d, st.pos, seq![INTEGER_EXT], be32(v as u32 as int));
        lemma_be32(d, st.pos + 1, v as u32 as int);
        let x = be_u32_at(d, st.pos + 1);
        assert(x as u32 == v as u32);
        assert((v as u32) as i32 == v) by (bit_vector);
        assert(p_leaf(d, st, cfg, fl) == Ok::<(TermModel, PState), EtfError>((TermModel::Int(v), adv(st, 5))));
    }
}

/// A float decodes back to itself.
proof fn lemma_rt_float(bits: u64, d: Seq<u8>, st: PState, h: int, cfg: ParseCfg, fl: spec_fn(int) -> Option<u64>)
    requires
        h <= cfg.limits.max_depth,
        holds_at(d, st.pos, enc_term(TermModel::Float(bits)).bytes),
    ensures
        p_term(d, st, h, cfg, fl) == Ok::<(TermModel, PState), EtfError>(
            (TermModel::Float(bits), adv(st, enc_term(TermModel::Float(bits)).bytes.len() as int)),
        ),
{
    let e = enc_term(TermModel::Float(bits)).bytes;
    lemma_holds_index(d, st.pos, e, 0);
    lemma_holds_split(d, st.pos, seq![NEW_FLOAT_EXT], be64(bits as int));
    lemma_be64(d, st.pos + 1, bits as int);
}

/// A bignum decodes back to itself.
#[verifier::rlimit(100)]
#[verifier::spinoff_prover]
proof fn lemma_rt_big(sign: u8, digits: Seq<u8>, d: Seq<u8>, st: PState, h: int, cfg: ParseCfg, fl: spec_fn(int) -> Option<u64>)
    requires
        h <= cfg.limits.max_depth,
        digits.len() <= cfg.limits.max_bignum_size,
        digits.len() <= u32::MAX,
        holds_at(d, st.pos, enc_big(sign, digits).bytes),
    ensures
        p_term(d, st, h, cfg, fl) == Ok::<(TermModel, PState), EtfError>(
            (TermModel::BigInt { sign, digits }, adv(st, enc_big(sign, digits).bytes.len() as int)),
        ),
{
    let p = st.pos;
    let e = enc_big(sign, digits).bytes;
    lemma_holds_index(d, p, e, 0);
    if digits.len() > 255 {
        let hd = seq![LARGE_BIG_EXT] + be32(digits.len() as u32 as int);
        lemma_holds_split(d, p, hd + seq![sign], digits);
        lemma_holds_split(d, p, hd, seq![sign]);
        lemma_holds_split(d, p, seq![LARGE_BIG_EXT], be32(digits.len() as u32 as int));
        lemma_be32(d, p + 1, digits.len() as u32 as int);
        lemma_holds_index(d, p + 5, seq![sign], 0);
        assert(p_big(d, adv(st, 1), cfg, 4) == Ok::<(TermModel, PState), EtfError>(
            (TermModel::BigInt { sign, digits }, adv(st, e.len() as int)),
        ));
    } else {
        lemma_holds_split(d, p, seq![SMALL_BIG_EXT, digits.len() as u8, sign], digits);
        lemma_holds_index(d, p, e, 1);
        lemma_holds_index(d, p, e, 2);
        assert(p_big(d, adv(st, 1), cfg, 1) == Ok::<(TermModel, PState), EtfError>(
            (TermModel::BigInt { sign, digits }, adv(st, e.len() as int)),
        ));
    }
}

/// An atom decodes back to itself.
#[verifier::rlimit(60)]
#[verifier::spinoff_prover]
proof fn lemma_rt_atom(b: Seq<u8>, d: Seq<u8>, st: PState, h: int, cfg: ParseCfg, fl: spec_fn(int) -> Option<u64>)
    requires
        roundtrips(TermModel::Atom(b), cfg.limits, h),
        holds_at(d, st.pos, enc_term(TermModel::Atom(b)).bytes),
    ensures
        p_term(d, st, h, cfg, fl) == Ok::<(TermModel, PState), EtfError>(
            (TermModel::Atom(b), adv(st, enc_term(TermModel::Atom(b)).bytes.len() as int)),
        ),
{
    let p = st.pos;
    let e = enc_term(TermModel::Atom(b)).bytes;
    lemma_holds_index(d, p, e, 0);
    if b.len() < 256 {
        lemma_holds_split(d, p, seq![SMALL_ATOM_UTF8_EXT, b.len() as u8], b);
        lemma_holds_index(d, p, e, 1);
        assert(crate::grammar::p_atom_body(d, adv(st, 1), cfg, 1) == Ok::<(Seq<u8>, PState), EtfError>(
            (b, adv(st, e.len() as int)),
        ));
    } else {
        lemma_holds_split(d, p, seq![ATOM_UTF8_EXT] + be16(b.len() as u16 as int), b);
        lemma_holds_split(d, p, seq![ATOM_UTF8_EXT], be16(b.len() as u16 as int));
        lemma_be16(d, p + 1, b.len() as u16 as int);
        assert(crate::grammar::p_atom_body(d, adv(st, 1), cfg, 2) == Ok::<(Seq<u8>, PState), EtfError>(
            (b, adv(st, e.len() as int)),
        ));
    }
}

/// The atom field that starts at offset `i` of `b`, held at `p` of `d`,
/// decodes as a field whose length is within `cfg`'s limits.
proof fn lemma_rt_atom_field(b: Seq<u8>, i: int, d: Seq<u8>, st: PState, cfg: ParseCfg)
    requires
        holds_at(d, st.pos - i, b),
        0 <= i,
        0 <= atom_field_end(b, i, cfg.limits) <= b.len(),
    ensures
        p_atom_only(d, st, cfg) matches Ok((_, s)) && s == adv(st, atom_field_end(b, i, cfg.limits) - i),
{
    let p = st.pos - i;
    let end = atom_field_end(b, i, cfg.limits);
    lemma_holds_index(d, p, b, i);
    lemma_holds_index(d, p, b, i + 1);
    assert(st.pos + (end - i) <= d.len());
    if b[i] == SMALL_ATOM_UTF8_EXT {
        assert(p_uint(d, adv(st, 1), cfg, 1) == Ok::<(int, PState), EtfError>((b[i + 1] as int, adv(st, 2))));
        assert(p_bytes(d, adv(st, 2), cfg, b[i + 1] as int) matches Ok((_, s)) && s == adv(st, end - i));
        assert(p_atom_body(d, adv(st, 1), cfg, 1) == p_bytes(d, adv(st, 2), cfg, b[i + 1] as int));
    } else {
        lemma_holds_index(d, p, b, i + 2);
        assert(be_u16_at(d, st.pos + 1) == be_u16_at(b, i + 1));
        assert(p_uint(d, adv(st, 1), cfg, 2) == Ok::<(int, PState), EtfError>((be_u16_at(b, i + 1), adv(st, 3))));
        assert(p_bytes(d, adv(st, 3), cfg, be_u16_at(b, i + 1)) matches Ok((_, s)) && s == adv(st, end - i));
        assert(p_atom_body(d, adv(st, 1), cfg, 2) == p_bytes(d, adv(st, 3), cfg, be_u16_at(b, i + 1)));
    }
}

/// A PID or port decodes back to itself.
proof fn lemma_rt_node_id(b: Seq<u8>, pid: bool, d: Seq<u8>, st: PState, h: int, cfg: ParseCfg, fl: spec_fn(int) -> Option<u64>)
    requires
        h <= cfg.limits.max_depth,
        node_id_form(b, pid, cfg.limits),
        holds_at(d, st.pos, b),
    ensures
        p_term(d, st, h, cfg, fl) == Ok::<(TermModel, PState), EtfError>(
            (if pid {
                TermModel::Pid(b)
            } else {
                TermModel::Port(b)
            }, adv(st, b.len() as int)),
        ),
{
    let p = st.pos;
    lemma_holds_index(d, p, b, 0);
    let end = atom_field_end(b, 1, cfg.limits);
    lemma_rt_atom_field(b, 1, d, adv(st, 1), cfg);
    let s2 = adv(st, end);
    assert(p_bytes(d, s2, cfg, node_id_tail(b[0])) matches Ok((_, s3)) && s3 == adv(st, b.len() as int));
    assert(d.subrange(p, p + b.len()) == b);
    assert(p_node_id(d, adv(st, 1), cfg, p, node_id_tail(b[0]), pid) == Ok::<(TermModel, PState), EtfError>(
        (if pid {
            TermModel::Pid(b)
        } else {
            TermModel::Port(b)
        }, adv(st, b.len() as int)),
    ));
}

/// A reference decodes back to itself.
proof fn lemma_rt_ref(b: Seq<u8>, d: Seq<u8>, st: PState, h: int, cfg: ParseCfg, fl: spec_fn(int) -> Option<u64>)
    requires
        h <= cfg.limits.max_depth,
        ref_form(b, cfg.limits),
        holds_at(d, st.pos, b),
    ensures
        p_term(d, st, h, cfg, fl) == Ok::<(TermModel, PState), EtfError>((TermModel::Ref(b), adv(st, b.len() as int))),
{
    let p = st.pos;
    lemma_holds_index(d, p, b, 0);
    lemma_holds_index(d, p, b, 1);
    lemma_holds_index(d, p, b, 2);
    let words = be_u16_at(b, 1);
    let cw: int = if b[0] == NEW_REFERENCE_EXT { 1 } else { 4 };
    assert(be_u16_at(d, p + 1) == words);
    assert(p_uint(d, adv(st, 1), cfg, 2) == Ok::<(int, PState), EtfError>((words, adv(st, 3))));
    let end = atom_field_end(b, 3, cfg.limits);
    lemma_rt_atom_field(b, 3, d, adv(st, 3), cfg);
    assert(p_uint(d, adv(st, end), cfg, cw) matches Ok((_, s3)) && s3 == adv(st, end + cw));
    assert(p_bytes(d, adv(st, end + cw), cfg, words * 4) matches Ok((_, s4)) && s4 == adv(st, b.len() as int));
    assert(d.subrange(p, p + b.len()) == b);
    assert(p_ref(d, adv(st, 1), cfg, p, cw) == Ok::<(TermModel, PState), EtfError>(
        (TermModel::Ref(b), adv(st, b.len() as int)),
    ));
}

/// A `NEW_FUN_EXT` fun decodes back to itself.
proof fn lemma_rt_new_fun(b: Seq<u8>, d: Seq<u8>, st: PState, h: int, cfg: ParseCfg, fl: spec_fn(int) -> Option<u64>)
    requires
        h <= cfg.limits.max_depth,
        new_fun_form(b, cfg.limits),
        holds_at(d, st.pos, b),
    ensures
        p_term(d, st, h, cfg, fl) == Ok::<(TermModel, PState), EtfError>(
            (TermModel::Function(b), adv(st, b.len() as int)),
        ),
{
    let p = st.pos;
    lemma_holds_index(d, p, b, 0);
    lemma_holds_index(d, p, b, 1);
    lemma_holds_index(d, p, b, 2);
    lemma_holds_index(d, p, b, 3);
    lemma_holds_index(d, p, b, 4);
    let size = be_u32_at(b, 1);
    assert(be_u32_at(d, p + 1) == size);
    assert(p_uint(d, adv(st, 1), cfg, 4) == Ok::<(int, PState), EtfError>((size, adv(st, 5))));
    assert(p_bytes(d, adv(st, 5), cfg, size - 4) matches Ok((_, s2)) && s2 == adv(st, b.len() as int));
    assert(d.subrange(p, p + b.len()) == b);
    assert(p_new_fun(d, adv(st, 1), cfg, p) == Ok::<(TermModel, PState), EtfError>(
        (TermModel::Function(b), adv(st, b.len() as int)),
    ));
}

/// An `EXPORT_EXT` fun decodes back to itself.
#[verifier::rlimit(80)]
#[verifier::spinoff_prover]
proof fn lemma_rt_export(b: Seq<u8>, d: Seq<u8>, st: PState, h: int, cfg: ParseCfg, fl: spec_fn(int) -> Option<u64>)
    requires
        !cfg.bounded,
        h <= cfg.limits.max_depth,
        export_form(b, cfg.limits, h),
        holds_at(d, st.pos, b),
    ensures
        p_term(d, st, h, cfg, fl) == Ok::<(TermModel, PState), EtfError>(
            (TermModel::Function(b), adv(st, b.len() as int)),
        ),
{
    let p = st.pos;
    let e1 = atom_field_end(b, 1, cfg.limits);
    let e2 = atom_field_end(b, e1, cfg.limits);
    lemma_holds_index(d, p, b, 0);
    lemma_rt_atom_field(b, 1, d, adv(st, 1), cfg);
    lemma_rt_atom_field(b, e1, d, adv(st, e1), cfg);
    let s3 = adv(st, e2);
    lemma_holds_index(d, p, b, e2);
    lemma_holds_index(d, p, b, e2 + 1);
    let arity = TermModel::Int(b[e2 + 1] as i32);
    assert(p_leaf(d, s3, cfg, fl) == Ok::<(TermModel, PState), EtfError>((arity, adv(st, b.len() as int))));
    assert(p_term(d, s3, h + 1, cfg, fl) == Ok::<(TermModel, PState), EtfError>((arity, adv(st, b.len() as int))));
    assert(p_seq(d, adv(st, b.len() as int), 0, h + 1, cfg, fl) == Ok::<(Seq<TermModel>, PState), EtfError>(
        (Seq::empty(), adv(st, b.len() as int)),
    ));
    assert(claim(cfg, s3, crate::arena::TERM_CELL as int, crate::arena::TERM_ALIGN as int, 1) == Some(s3));
    assert(claim(cfg, s3, crate::arena::FRAME_CELL as int, crate::arena::FRAME_ALIGN as int, 1) == Some(s3));
    assert(p_seq(d, s3, 1, h + 1, cfg, fl) matches Ok((_, s6)) && s6 == adv(st, b.len() as int));
    assert(d.subrange(p, p + b.len()) == b);
    assert(p_export(d, st, h, cfg, fl) == Ok::<(TermModel, PState), EtfError>(
        (TermModel::Function(b), adv(st, b.len() as int)),
    ));
}

/// A binary decodes back to itself.
proof fn lemma_rt_binary(b: Seq<u8>, d: Seq<u8>, st: PState, h: int, cfg: ParseCfg, fl: spec_fn(int) -> Option<u64>)
    requires
        roundtrips(TermModel::Binary(b), cfg.limits, h),
        holds_at(d, st.pos, enc_term(TermModel::Binary(b)).bytes),
    ensures
        p_term(d, st, h, cfg, fl) == Ok::<(TermModel, PState), EtfError>(
            (TermModel::Binary(b), adv(st, enc_term(TermModel::Binary(b)).bytes.len() as int)),
        ),
{
    let p = st.pos;
    let e = enc_term(TermModel::Binary(b)).bytes;
    lemma_holds_index(d, p, e, 0);
    lemma_holds_split(d, p, seq![BINARY_EXT] + be32(b.len() as u32 as int), b);
    lemma_holds_split(d, p, seq![BINARY_EXT], be32(b.len() as u32 as int));
    lemma_be32(d, p + 1, b.len() as u32 as int);
}

/// A bitstring decodes back to itself.
proof fn lemma_rt_bit_binary(bits: u8, data: Seq<u8>, d: Seq<u8>, st: PState, h: int, cfg: ParseCfg, fl: spec_fn(int) -> Option<u64>)
    requires
        roundtrips(TermModel::BitBinary { bits, data }, cfg.limits, h),
        holds_at(d, st.pos, enc_term(TermModel::BitBinary { bits, data }).bytes),
    ensures
        p_term(d, st, h, cfg, fl) == Ok::<(TermModel, PState), EtfError>(
            (TermModel::BitBinary { bits, data }, adv(st, enc_term(TermModel::BitBinary { bits, data }).bytes.len() as int)),
        ),
{
    let p = st.pos;
    let e = enc_term(TermModel::BitBinary { bits, data }).bytes;
    lemma_holds_index(d, p, e, 0);
    let hd = seq![BIT_BINARY_EXT] + be32(data.len() as u32 as int);
    lemma_holds_split(d, p, hd + seq![bits], data);
    lemma_holds_split(d, p, hd, seq![bits]);
    lemma_holds_split(d, p, seq![BIT_BINARY_EXT], be32(data.len() as u32 as int));
    lemma_be32(d, p + 1, data.len() as u32 as int);
    lemma_holds_index(d, p + 5, seq![bits], 0);
}

/// A compact string decodes back to itself.
proof fn lemma_rt_string(b: Seq<u8>, d: Seq<u8>, st: PState, h: int, cfg: ParseCfg, fl: spec_fn(int) -> Option<u64>)
    requires
        roundtrips(TermModel::String(b), cfg.limits, h),
        holds_at(d, st.pos, enc_term(TermModel::String(b)).bytes),
    ensures
        p_term(d, st, h, cfg, fl) == Ok::<(TermModel, PState), EtfError>(
            (TermModel::String(b), adv(st, enc_term(TermModel::String(b)).bytes.len() as int)),
        ),
{
    let p = st.pos;
    let e = enc_term(TermModel::String(b)).bytes;
    lemma_holds_index(d, p, e, 0);
    lemma_holds_split(d, p, seq![STRING_EXT] + be16(b.len() as u16 as int), b);
    lemma_holds_split(d, p, seq![STRING_EXT], be16(b.len() as u16 as int));
    lemma_be16(d, p + 1, b.len() as u16 as int);
    assert(p_string(d, adv(st, 1), cfg) == Ok::<(TermModel, PState), EtfError>(
        (TermModel::String(b), adv(st, e.len() as int)),
    ));
}

/// The encoding of a term that round-trips is complete and not empty.
pub proof fn lemma_enc_complete(t: TermModel, limits: Limits, h: int)
    requires
        roundtrips(t, limits, h),
    ensures
        enc_term(t).complete,
        enc_term(t).bytes.len() > 0,
    decreases t, 1nat,
{
    match t {
        TermModel::Tuple(s) => {
            lemma_enc_seq_complete(s, limits, h + 1);
        },
        TermModel::List(s) => {
            if s.len() > 0 {
                lemma_enc_seq_complete(s, limits, h + 1);
            }
        },
        TermModel::ImproperList(s) => {
            lemma_enc_seq_complete(s, limits, h + 1);
        },
        TermModel::ErlangMap(ps) => {
            lemma_enc_pairs_complete(ps, limits, h + 1);
        },
        _ => {},
    }
}

/// The encoding of a sequence of terms that round-trip is complete.
pub proof fn lemma_enc_seq_complete(s: Seq<TermModel>, limits: Limits, h: int)
    requires
        all_roundtrip(s, limits, h),
    ensures
        enc_seq(s).complete,
    decreases s, 0nat,
{
    if s.len() > 0 {
        lemma_enc_seq_complete(s.drop_last(), limits, h);
        lemma_enc_complete(s.last(), limits, h);
    }
}

/// The encoding of a sequence of pairs that round-trip is complete.
pub proof fn lemma_enc_pairs_complete(s: Seq<(TermModel, TermModel)>, limits: Limits, h: int)
    requires
        pairs_roundtrip(s, limits, h),
    ensures
        enc_pairs(s).complete,
    decreases s, 0nat,
{
    if s.len() > 0 {
        lemma_enc_pairs_complete(s.drop_last(), limits, h);
        lemma_enc_complete(s.last().0, limits, h);
        lemma_enc_complete(s.last().1, limits, h);
    }
}

/// Decoding `a + b` terms is decoding `a` terms, then `b` more.
pub proof fn lemma_seq_split(
    d: Seq<u8>,
    st: PState,
    a: int,
    b: int,
    h: int,
    cfg: ParseCfg,
    fl: spec_fn(int) -> Option<u64>,
)
    requires
        a >= 0,
        b >= 0,
    ensures
        p_seq(d, st, a + b, h, cfg, fl) == match p_seq(d, st, a, h, cfg, fl) {
            Ok((ts, s1)) => crate::grammar::prepend(ts, p_seq(d, s1, b, h, cfg, fl)),
            Err(e) => Err(e),
        },
    decreases a,
{
    if a == 0 {
        if let Ok((ts, s1)) = p_seq(d, st, b, h, cfg, fl) {
            assert(Seq::<TermModel>::empty() + ts =~= ts);
        }
    } else {
        crate::grammar::lemma_seq_step(d, st, a + b, h, cfg, fl);
        crate::grammar::lemma_seq_step(d, st, a, h, cfg, fl);
        if let Ok((t, s1)) = p_term(d, st, h, cfg, fl) {
            lemma_seq_split(d, s1, a - 1, b, h, cfg, fl);
            if let Ok((ts, s2)) = p_seq(d, s1, a - 1, h, cfg, fl) {
                crate::grammar::lemma_prepend_prepend(seq![t], ts, p_seq(d, s2, b, h, cfg, fl));
            }
        }
    }
}

/// The encoding of one term, as a sequence of one.
proof fn lemma_enc_seq_one(t: TermModel)
    ensures
        enc_seq(seq![t]) == enc_term(t),
{
    assert(seq![t].drop_last() =~= Seq::<TermModel>::empty());
    assert(enc_seq(seq![t].drop_last()) == emit(Seq::<u8>::empty()));
    assert(seq![t].last() == t);
    lemma_then_empty(enc_term(t));
}

/// The encoding of a nonempty sequence: its first term, then the rest.
pub proof fn lemma_enc_seq_front(s: Seq<TermModel>)
    requires
        s.len() > 0,
    ensures
        enc_seq(s) == then(enc_term(s[0]), enc_seq(s.subrange(1, s.len() as int))),
{
    assert(seq![s[0]] + s.subrange(1, s.len() as int) =~= s);
    lemma_enc_seq_append(seq![s[0]], s.subrange(1, s.len() as int));
    lemma_enc_seq_one(s[0]);
}

/// The encoding of a nonempty pair sequence: its first pair, then the rest.
pub proof fn lemma_enc_pairs_front(s: Seq<(TermModel, TermModel)>)
    requires
        s.len() > 0,
    ensures
        enc_pairs(s) == then(then(enc_term(s[0].0), enc_term(s[0].1)), enc_pairs(s.subrange(1, s.len() as int))),
{
    assert(seq![s[0]] + s.subrange(1, s.len() as int) =~= s);
    lemma_enc_pairs_append(seq![s[0]], s.subrange(1, s.len() as int));
    assert(seq![s[0]].drop_last() =~= Seq::<(TermModel, TermModel)>::empty());
    assert(enc_pairs(seq![s[0]].drop_last()) == emit(Seq::<u8>::empty()));
    assert(seq![s[0]].last() == s[0]);
    lemma_then_empty(then(enc_term(s[0].0), enc_term(s[0].1)));
}

/// A term that round-trips decodes back to itself from wherever its
/// encoding is held (over an arena that is never exhausted).
pub proof fn lemma_rt_term(t: TermModel, d: Seq<u8>, st: PState, h: int, cfg: ParseCfg, fl: spec_fn(int) -> Option<u64>)
    requires
        !cfg.bounded,
        roundtrips(t, cfg.limits, h),
        holds_at(d, st.pos, enc_term(t).bytes),
    ensures
        p_term(d, st, h, cfg, fl) == Ok::<(TermModel, PState), EtfError>(
            (t, adv(st, enc_term(t).bytes.len() as int)),
        ),
    decreases t, 0nat, 0nat,
{
    match t {
        TermModel::Int(v) => lemma_rt_int(v, d, st, h, cfg, fl),
        TermModel::Float(bits) => lemma_rt_float(bits, d, st, h, cfg, fl),
        TermModel::BigInt { sign, digits } => lemma_rt_big(sign, digits, d, st, h, cfg, fl),
        TermModel::Atom(b) => lemma_rt_atom(b, d, st, h, cfg, fl),
        TermModel::Binary(b) => lemma_rt_binary(b, d, st, h, cfg, fl),
        TermModel::BitBinary { bits, data } => lemma_rt_bit_binary(bits, data, d, st, h, cfg, fl),
        TermModel::String(b) => lemma_rt_string(b, d, st, h, cfg, fl),
        TermModel::Tuple(s) => lemma_rt_tuple(s, d, st, h, cfg, fl),
        TermModel::List(s) => lemma_rt_list(s, d, st, h, cfg, fl),
        TermModel::ImproperList(s) => lemma_rt_improper(s, d, st, h, cfg, fl),
        TermModel::ErlangMap(ps) => lemma_rt_map(ps, d, st, h, cfg, fl),
        TermModel::Pid(b) => lemma_rt_node_id(b, true, d, st, h, cfg, fl),
        TermModel::Port(b) => lemma_rt_node_id(b, false, d, st, h, cfg, fl),
        TermModel::Ref(b) => lemma_rt_ref(b, d, st, h, cfg, fl),
        TermModel::Function(b) => if new_fun_form(b, cfg.limits) {
            lemma_rt_new_fun(b, d, st, h, cfg, fl)
        } else {
            lemma_rt_export(b, d, st, h, cfg, fl)
        },
        _ => {},
    }
}

/// Terms that round-trip decode back to themselves, one after another.
pub proof fn lemma_rt_seq(s: Seq<TermModel>, d: Seq<u8>, st: PState, h: int, cfg: ParseCfg, fl: spec_fn(int) -> Option<u64>)
    requires
        !cfg.bounded,
        all_roundtrip(s, cfg.limits, h),
        holds_at(d, st.pos, enc_seq(s).bytes),
    ensures
        p_seq(d, st, s.len() as int, h, cfg, fl) == Ok::<(Seq<TermModel>, PState), EtfError>(
            (s, adv(st, enc_seq(s).bytes.len() as int)),
        ),
    decreases s, 0nat, s.len(),
{
    if s.len() == 0 {
        assert(s =~= Seq::<TermModel>::empty());
    } else {
        let rest = s.subrange(1, s.len() as int);
        lemma_all_roundtrip(s, cfg.limits, h);
        lemma_all_roundtrip(rest, cfg.limits, h);
        assert(roundtrips(s[0], cfg.limits, h));
        assert forall|i: int| 0 <= i < rest.len() implies #[trigger] roundtrips(rest[i], cfg.limits, h) by {
            assert(rest[i] == s[i + 1]);
        }
        lemma_enc_seq_front(s);
        lemma_enc_complete(s[0], cfg.limits, h);
        lemma_holds_split(d, st.pos, enc_term(s[0]).bytes, enc_seq(rest).bytes);
        lemma_rt_term(s[0], d, st, h, cfg, fl);
        let s1 = adv(st, enc_term(s[0]).bytes.len() as int);
        lemma_rt_seq(rest, d, s1, h, cfg, fl);
        crate::grammar::lemma_seq_step(d, st, s.len() as int, h, cfg, fl);
        assert(seq![s[0]] + rest =~= s);
    }
}

/// Pairs that round-trip decode back to themselves, one after another.
pub proof fn lemma_rt_pairs(s: Seq<(TermModel, TermModel)>, d: Seq<u8>, st: PState, h: int, cfg: ParseCfg, fl: spec_fn(int) -> Option<u64>)
    requires
        !cfg.bounded,
        pairs_roundtrip(s, cfg.limits, h),
        holds_at(d, st.pos, enc_pairs(s).bytes),
    ensures
        p_pairs(d, st, s.len() as int, h, cfg, fl) == Ok::<(Seq<(TermModel, TermModel)>, PState), EtfError>(
            (s, adv(st, enc_pairs(s).bytes.len() as int)),
        ),
    decreases s, 0nat, s.len(),
{
    if s.len() == 0 {
        assert(s =~= Seq::<(TermModel, TermModel)>::empty());
    } else {
        let rest = s.subrange(1, s.len() as int);
        lemma_pairs_roundtrip(s, cfg.limits, h);
        lemma_pairs_roundtrip(rest, cfg.limits, h);
        assert(roundtrips(s[0].0, cfg.limits, h) && roundtrips(s[0].1, cfg.limits, h));
        assert forall|i: int| #![trigger rest[i]] 0 <= i < rest.len() implies roundtrips(rest[i].0, cfg.limits, h) && roundtrips(rest[i].1, cfg.limits, h) by {
            assert(rest[i] == s[i + 1]);
        }
        lemma_enc_pairs_front(s);
        lemma_enc_complete(s[0].0, cfg.limits, h);
        lemma_enc_complete(s[0].1, cfg.limits, h);
        let ek = enc_term(s[0].0).bytes;
        let ev = enc_term(s[0].1).bytes;
        lemma_holds_split(d, st.pos, ek + ev, enc_pairs(rest).bytes);
        lemma_holds_split(d, st.pos, ek, ev);
        lemma_rt_term(s[0].0, d, st, h, cfg, fl);
        let s1 = adv(st, ek.len() as int);
        lemma_rt_term(s[0].1, d, s1, h, cfg, fl);
        let s2 = adv(s1, ev.len() as int);
        lemma_rt_pairs(rest, d, s2, h, cfg, fl);
        crate::grammar::lemma_pairs_step(d, st, s.len() as int, h, cfg, fl);
        assert(seq![s[0]] + rest =~= s);
    }
}

/// Without an arena bound, a tuple whose header gives `n` elements and
/// ends at `s2` decodes as its elements.
pub proof fn lemma_tuple_unbounded(
    d: Seq<u8>,
    st: PState,
    h: int,
    cfg: ParseCfg,
    fl: spec_fn(int) -> Option<u64>,
    n: int,
    s2: PState,
)
    requires
        !cfg.bounded,
        0 <= st.pos < s2.pos <= d.len(),
        n <= cfg.limits.max_tuple_arity,
        p_uint(d, adv(st, 1), cfg, if d[st.pos] == SMALL_TUPLE_EXT { 1 } else { 4 }) == Ok::<(int, PState), EtfError>(
            (n, s2),
        ),
    ensures
        p_tuple(d, st, h, cfg, fl) == (if n == 0 {
            Ok::<(TermModel, PState), EtfError>((TermModel::Tuple(Seq::empty()), s2))
        } else {
            match p_seq(d, s2, n, h + 1, cfg, fl) {
                Err(e) => Err(e),
                Ok((ts, s5)) => Ok((TermModel::Tuple(ts), s5)),
            }
        }),
{
}

/// Without an arena bound, a list whose header gives `n` elements and ends
/// at `s2` decodes as its elements and tail.
pub proof fn lemma_list_unbounded(
    d: Seq<u8>,
    st: PState,
    h: int,
    cfg: ParseCfg,
    fl: spec_fn(int) -> Option<u64>,
    n: int,
    s2: PState,
)
    requires
        !cfg.bounded,
        0 <= st.pos < s2.pos <= d.len(),
        n <= cfg.limits.max_list_len,
        n + 1 <= usize::MAX,
        p_uint(d, adv(st, 1), cfg, 4) == Ok::<(int, PState), EtfError>((n, s2)),
    ensures
        p_list(d, st, h, cfg, fl) == match p_seq(d, s2, n + 1, h + 1, cfg, fl) {
            Err(e) => Err(e),
            Ok((ts, s5)) => if ts.last().is_nil() {
                Ok::<(TermModel, PState), EtfError>((TermModel::List(ts.drop_last()), s5))
            } else {
                Ok((TermModel::ImproperList(ts), s5))
            },
        },
{
}

/// A tuple that round-trips decodes back to itself.
#[verifier::rlimit(40)]
#[verifier::spinoff_prover]
proof fn lemma_rt_tuple(s: Seq<TermModel>, d: Seq<u8>, st: PState, h: int, cfg: ParseCfg, fl: spec_fn(int) -> Option<u64>)
    requires
        !cfg.bounded,
        roundtrips(TermModel::Tuple(s), cfg.limits, h),
        holds_at(d, st.pos, enc_term(TermModel::Tuple(s)).bytes),
    ensures
        p_term(d, st, h, cfg, fl) == Ok::<(TermModel, PState), EtfError>(
            (TermModel::Tuple(s), adv(st, enc_term(TermModel::Tuple(s)).bytes.len() as int)),
        ),
    decreases s, 1nat, 0nat,
{
    let p = st.pos;
    let e = enc_term(TermModel::Tuple(s)).bytes;
    let hd = if s.len() < 256 {
        seq![SMALL_TUPLE_EXT, s.len() as u8]
    } else {
        seq![LARGE_TUPLE_EXT] + be32(s.len() as u32 as int)
    };
    lemma_enc_seq_complete(s, cfg.limits, h + 1);
    assert(e == hd + enc_seq(s).bytes);
    lemma_holds_split(d, p, hd, enc_seq(s).bytes);
    lemma_holds_index(d, p, e, 0);
    if s.len() < 256 {
        lemma_holds_index(d, p, hd, 1);
    } else {
        lemma_holds_split(d, p, seq![LARGE_TUPLE_EXT], be32(s.len() as u32 as int));
        lemma_be32(d, p + 1, s.len() as u32 as int);
    }
    let s2 = adv(st, hd.len() as int);
    assert(p_uint(d, adv(st, 1), cfg, if d[p] == SMALL_TUPLE_EXT { 1 } else { 4 }) == Ok::<(int, PState), EtfError>(
        (s.len() as int, s2),
    ));
    lemma_rt_seq(s, d, s2, h + 1, cfg, fl);
    lemma_tuple_unbounded(d, st, h, cfg, fl, s.len() as int, s2);
    if s.len() == 0 {
        assert(s =~= Seq::<TermModel>::empty());
    }
    assert(p_tuple(d, st, h, cfg, fl) == Ok::<(TermModel, PState), EtfError>(
        (TermModel::Tuple(s), adv(st, e.len() as int)),
    ));
}

/// Decoding `n` terms and then a `NIL_EXT` as `n + 1` terms gives the `n`
/// terms and an empty list.
pub proof fn lemma_seq_then_nil(
    d: Seq<u8>,
    s2: PState,
    n: int,
    h: int,
    cfg: ParseCfg,
    fl: spec_fn(int) -> Option<u64>,
    ts: Seq<TermModel>,
    s3: PState,
)
    requires
        n >= 0,
        h <= cfg.limits.max_depth,
        p_seq(d, s2, n, h, cfg, fl) == Ok::<(Seq<TermModel>, PState), EtfError>((ts, s3)),
        0 <= s3.pos < d.len(),
        d[s3.pos] == NIL_EXT,
    ensures
        p_seq(d, s2, n + 1, h, cfg, fl) == Ok::<(Seq<TermModel>, PState), EtfError>(
            (ts.push(TermModel::List(Seq::empty())), adv(s3, 1)),
        ),
{
    let nil = TermModel::List(Seq::empty());
    lemma_seq_split(d, s2, n, 1, h, cfg, fl);
    crate::grammar::lemma_seq_step(d, s3, 1, h, cfg, fl);
    assert(p_term(d, s3, h, cfg, fl) == Ok::<(TermModel, PState), EtfError>((nil, adv(s3, 1))));
    assert(p_seq(d, adv(s3, 1), 0, h, cfg, fl) == Ok::<(Seq<TermModel>, PState), EtfError>(
        (Seq::empty(), adv(s3, 1)),
    ));
    assert(seq![nil] + Seq::<TermModel>::empty() =~= seq![nil]);
    assert(ts + seq![nil] =~= ts.push(nil));
}

/// A proper list that round-trips decodes back to itself.
#[verifier::rlimit(40)]
#[verifier::spinoff_prover]
proof fn lemma_rt_list(s: Seq<TermModel>, d: Seq<u8>, st: PState, h: int, cfg: ParseCfg, fl: spec_fn(int) -> Option<u64>)
    requires
        !cfg.bounded,
        roundtrips(TermModel::List(s), cfg.limits, h),
        holds_at(d, st.pos, enc_term(TermModel::List(s)).bytes),
    ensures
        p_term(d, st, h, cfg, fl) == Ok::<(TermModel, PState), EtfError>(
            (TermModel::List(s), adv(st, enc_term(TermModel::List(s)).bytes.len() as int)),
        ),
    decreases s, 1nat, 0nat,
{
    let p = st.pos;
    let e = enc_term(TermModel::List(s)).bytes;
    lemma_holds_index(d, p, e, 0);
    if s.len() == 0 {
        assert(s =~= Seq::<TermModel>::empty());
    } else {
        let hd = seq![LIST_EXT] + be32(s.len() as u32 as int);
        let es = enc_seq(s).bytes;
        lemma_enc_seq_complete(s, cfg.limits, h + 1);
        assert(e == hd + es + seq![NIL_EXT]);
        lemma_holds_split(d, p, hd + es, seq![NIL_EXT]);
        lemma_holds_split(d, p, hd, es);
        lemma_holds_split(d, p, seq![LIST_EXT], be32(s.len() as u32 as int));
        lemma_be32(d, p + 1, s.len() as u32 as int);
        lemma_all_roundtrip(s, cfg.limits, h + 1);
        assert(roundtrips(s[0], cfg.limits, h + 1));
        let s2 = adv(st, 5);
        lemma_rt_seq(s, d, s2, h + 1, cfg, fl);
        let s3 = adv(s2, es.len() as int);
        lemma_holds_index(d, s3.pos, seq![NIL_EXT], 0);
        lemma_seq_then_nil(d, s2, s.len() as int, h + 1, cfg, fl, s, s3);
        let ts = s.push(TermModel::List(Seq::empty()));
        assert(ts.drop_last() =~= s);
        assert(p_uint(d, adv(st, 1), cfg, 4) == Ok::<(int, PState), EtfError>((s.len() as int, s2)));
        lemma_list_unbounded(d, st, h, cfg, fl, s.len() as int, s2);
        assert(ts.last().is_nil());
        assert(p_list(d, st, h, cfg, fl) == Ok::<(TermModel, PState), EtfError>(
            (TermModel::List(s), adv(st, e.len() as int)),
        ));
    }
}

/// An improper list that round-trips decodes back to itself.
#[verifier::rlimit(80)]
#[verifier::spinoff_prover]
proof fn lemma_rt_improper(s: Seq<TermModel>, d: Seq<u8>, st: PState, h: int, cfg: ParseCfg, fl: spec_fn(int) -> Option<u64>)
    requires
        !cfg.bounded,
        roundtrips(TermModel::ImproperList(s), cfg.limits, h),
        holds_at(d, st.pos, enc_term(TermModel::ImproperList(s)).bytes),
    ensures
        p_term(d, st, h, cfg, fl) == Ok::<(TermModel, PState), EtfError>(
            (TermModel::ImproperList(s), adv(st, enc_term(TermModel::ImproperList(s)).bytes.len() as int)),
        ),
    decreases s, 1nat, 0nat,
{
    let p = st.pos;
    let e = enc_term(TermModel::ImproperList(s)).bytes;
    let hd = seq![LIST_EXT] + be32((s.len() - 1) as u32 as int);
    let es = enc_seq(s).bytes;
    lemma_enc_seq_complete(s, cfg.limits, h + 1);
    assert(e == hd + es);
    lemma_holds_index(d, p, e, 0);
    lemma_holds_split(d, p, hd, es);
    lemma_holds_split(d, p, seq![LIST_EXT], be32((s.len() - 1) as u32 as int));
    lemma_be32(d, p + 1, (s.len() - 1) as u32 as int);
    let s2 = adv(st, 5);
    lemma_rt_seq(s, d, s2, h + 1, cfg, fl);
    assert(p_list(d, st, h, cfg, fl) == Ok::<(TermModel, PState), EtfError>(
        (TermModel::ImproperList(s), adv(st, e.len() as int)),
    ));
}

/// A map that round-trips decodes back to itself.
#[verifier::rlimit(60)]
#[verifier::spinoff_prover]
proof fn lemma_rt_map(ps: Seq<(TermModel, TermModel)>, d: Seq<u8>, st: PState, h: int, cfg: ParseCfg, fl: spec_fn(int) -> Option<u64>)
    requires
        !cfg.bounded,
        roundtrips(TermModel::ErlangMap(ps), cfg.limits, h),
        holds_at(d, st.pos, enc_term(TermModel::ErlangMap(ps)).bytes),
    ensures
        p_term(d, st, h, cfg, fl) == Ok::<(TermModel, PState), EtfError>(
            (TermModel::ErlangMap(ps), adv(st, enc_term(TermModel::ErlangMap(ps)).bytes.len() as int)),
        ),
    decreases ps, 1nat, 0nat,
{
    let p = st.pos;
    let e = enc_term(TermModel::ErlangMap(ps)).bytes;
    let hd = seq![MAP_EXT] + be32(ps.len() as u32 as int);
    let es = enc_pairs(ps).bytes;
    lemma_enc_pairs_complete(ps, cfg.limits, h + 1);
    assert(e == hd + es);
    lemma_holds_index(d, p, e, 0);
    lemma_holds_split(d, p, hd, es);
    lemma_holds_split(d, p, seq![MAP_EXT], be32(ps.len() as u32 as int));
    lemma_be32(d, p + 1, ps.len() as u32 as int);
    let s2 = adv(st, 5);
    lemma_rt_pairs(ps, d, s2, h + 1, cfg, fl);
    if ps.len() == 0 {
        assert(ps =~= Seq::<(TermModel, TermModel)>::empty());
    }
    assert(p_map(d, st, h, cfg, fl) == Ok::<(TermModel, PState), EtfError>(
        (TermModel::ErlangMap(ps), adv(st, e.len() as int)),
    ));
}

} // verus!
