//! Visiting what the encoder wrote reports the term: the events a
//! [`Visitor`](crate::visitor::Visitor) receives describe the term, start
//! and end of each compound term around its elements.

use vstd::prelude::*;

use crate::encoder::{be16, be32, be64, enc_big, enc_pairs, enc_seq, enc_term, then};
use crate::error::EtfError;
use crate::grammar::{p_atom_body, p_uint, ParseCfg};
use crate::limits::Limits;
use crate::roundtrip::{
    all_roundtrip, holds_at, lemma_be16, lemma_be32, lemma_be64, lemma_enc_complete, lemma_enc_pairs_complete,
    lemma_enc_seq_complete, lemma_holds_index, lemma_holds_split, pairs_roundtrip, roundtrips,
};
use crate::tags::{
    ATOM_UTF8_EXT, BINARY_EXT, BIT_BINARY_EXT, INTEGER_EXT, LARGE_BIG_EXT, LARGE_TUPLE_EXT, LIST_EXT,
    MAP_EXT, NEW_FLOAT_EXT, NIL_EXT, SMALL_ATOM_UTF8_EXT, SMALL_BIG_EXT, SMALL_TUPLE_EXT, STRING_EXT,
};
use crate::types::TermModel;
use crate::visit_grammar::{at, v_leaf, v_nested, v_seq, v_term, vone, vpost, vpre, Visit, VisitEvent};

verus! {

/// Whether `t`, at nesting height `h`, is a term whose encoding a visit
/// reports back under `limits`: every length fits its wire field and its
/// limit, no term nests past the depth limit, strings stay compact, an
/// improper list has a tail that is not `[]`, and no opaque term (PID,
/// port, reference, fun or record) occurs.
pub open spec fn revisits(t: TermModel, limits: Limits, h: int) -> bool
    decreases t, 0nat,
{
    h <= limits.max_depth && match t {
        TermModel::Int(_) => true,
        TermModel::Float(_) => true,
        TermModel::BigInt { sign, digits } => digits.len() <= limits.max_bignum_size && digits.len()
            <= u32::MAX,
        TermModel::Atom(b) => b.len() <= limits.max_atom_len && b.len() <= u16::MAX,
        TermModel::Binary(b) => b.len() <= limits.max_binary_size && b.len() <= u32::MAX,
        TermModel::BitBinary { bits, data } => data.len() <= limits.max_bit_binary_size && data.len()
            <= u32::MAX,
        TermModel::String(b) => !limits.expand_string_ext_to_list && b.len() <= limits.max_string_len
            && b.len() <= u16::MAX,
        TermModel::Tuple(s) => s.len() <= limits.max_tuple_arity && s.len() <= u32::MAX
            && all_revisit(s, limits, h + 1),
        TermModel::List(s) => s.len() == 0 || (s.len() <= limits.max_list_len && s.len() < u32::MAX
            && all_revisit(s, limits, h + 1)),
        TermModel::ImproperList(s) => s.len() >= 1 && !s.last().is_nil() && s.len() - 1
            <= limits.max_list_len && s.len() <= u32::MAX && all_revisit(s, limits, h + 1),
        TermModel::ErlangMap(ps) => ps.len() <= limits.max_map_len && ps.len() <= u32::MAX
            && pairs_revisit(ps, limits, h + 1),
        _ => false,
    }
}

/// Every term of `s` is reported back at height `h`.
pub open spec fn all_revisit(s: Seq<TermModel>, limits: Limits, h: int) -> bool
    decreases s, s.len(),
{
    if s.len() == 0 {
        true
    } else {
        all_revisit(s.drop_last(), limits, h) && revisits(s.last(), limits, h)
    }
}

/// Every key and value of `s` is reported back at height `h`.
pub open spec fn pairs_revisit(s: Seq<(TermModel, TermModel)>, limits: Limits, h: int) -> bool
    decreases s, s.len(),
{
    if s.len() == 0 {
        true
    } else {
        pairs_revisit(s.drop_last(), limits, h) && revisits(s.last().0, limits, h) && revisits(
            s.last().1,
            limits,
            h,
        )
    }
}

/// A term a visit reports back also decodes back.
pub proof fn lemma_revisits_roundtrips(t: TermModel, limits: Limits, h: int)
    requires
        revisits(t, limits, h),
    ensures
        roundtrips(t, limits, h),
    decreases t, 1nat,
{
    match t {
        TermModel::Tuple(s) => lemma_all_revisit_roundtrip(s, limits, h + 1),
        TermModel::List(s) => if s.len() > 0 {
            lemma_all_revisit_roundtrip(s, limits, h + 1)
        },
        TermModel::ImproperList(s) => lemma_all_revisit_roundtrip(s, limits, h + 1),
        TermModel::ErlangMap(ps) => lemma_pairs_revisit_roundtrip(ps, limits, h + 1),
        _ => {},
    }
}

/// Terms a visit reports back also decode back.
pub proof fn lemma_all_revisit_roundtrip(s: Seq<TermModel>, limits: Limits, h: int)
    requires
        all_revisit(s, limits, h),
    ensures
        all_roundtrip(s, limits, h),
    decreases s, 0nat,
{
    if s.len() > 0 {
        lemma_all_revisit_roundtrip(s.drop_last(), limits, h);
        lemma_revisits_roundtrips(s.last(), limits, h);
    }
}

/// Pairs a visit reports back also decode back.
pub proof fn lemma_pairs_revisit_roundtrip(s: Seq<(TermModel, TermModel)>, limits: Limits, h: int)
    requires
        pairs_revisit(s, limits, h),
    ensures
        pairs_roundtrip(s, limits, h),
    decreases s, 0nat,
{
    if s.len() > 0 {
        lemma_pairs_revisit_roundtrip(s.drop_last(), limits, h);
        lemma_revisits_roundtrips(s.last().0, limits, h);
        lemma_revisits_roundtrips(s.last().1, limits, h);
    }
}

/// `all_revisit` holds element by element.
pub proof fn lemma_all_revisit(s: Seq<TermModel>, limits: Limits, h: int)
    ensures
        all_revisit(s, limits, h) <==> forall|i: int| 0 <= i < s.len() ==> #[trigger] revisits(s[i], limits, h),
    decreases s.len(),
{
    if s.len() > 0 {
        lemma_all_revisit(s.drop_last(), limits, h);
        if all_revisit(s, limits, h) {
            assert forall|i: int| 0 <= i < s.len() implies #[trigger] revisits(s[i], limits, h) by {
                if i < s.len() - 1 {
                    assert(s.drop_last()[i] == s[i]);
                }
            }
        }
        if forall|i: int| 0 <= i < s.len() ==> #[trigger] revisits(s[i], limits, h) {
            assert forall|i: int| 0 <= i < s.drop_last().len() implies #[trigger] revisits(s.drop_last()[i], limits, h) by {
                assert(s.drop_last()[i] == s[i]);
            }
            assert(revisits(s[s.len() - 1], limits, h));
        }
    }
}

/// `pairs_revisit` holds pair by pair.
pub proof fn lemma_pairs_revisit(s: Seq<(TermModel, TermModel)>, limits: Limits, h: int)
    ensures
        pairs_revisit(s, limits, h) <==> forall|i: int|
            #![trigger s[i]]
            0 <= i < s.len() ==> revisits(s[i].0, limits, h) && revisits(s[i].1, limits, h),
    decreases s.len(),
{
    if s.len() > 0 {
        let t = s.drop_last();
        lemma_pairs_revisit(t, limits, h);
        if pairs_revisit(s, limits, h) {
            assert forall|i: int| #![trigger s[i]] 0 <= i < s.len() implies revisits(s[i].0, limits, h)
                && revisits(s[i].1, limits, h) by {
                if i < s.len() - 1 {
                    assert(t[i] == s[i]);
                }
            }
        }
        if forall|i: int| #![trigger s[i]] 0 <= i < s.len() ==> revisits(s[i].0, limits, h) && revisits(s[i].1, limits, h) {
            assert forall|i: int| #![trigger t[i]] 0 <= i < t.len() implies revisits(t[i].0, limits, h)
                && revisits(t[i].1, limits, h) by {
                assert(t[i] == s[i]);
            }
            assert(s.last() == s[s.len() - 1]);
        }
    }
}

/// The encoding of a term a visit reports back is complete and not empty.
pub proof fn lemma_enc_complete_visit(t: TermModel, limits: Limits, h: int)
    requires
        revisits(t, limits, h),
    ensures
        enc_term(t).complete,
        enc_term(t).bytes.len() > 0,
{
    lemma_revisits_roundtrips(t, limits, h);
    lemma_enc_complete(t, limits, h);
}

/// The encoding of terms a visit reports back is complete.
proof fn lemma_enc_seq_complete_v(s: Seq<TermModel>, limits: Limits, h: int)
    requires
        all_revisit(s, limits, h),
    ensures
        enc_seq(s).complete,
{
    lemma_all_revisit_roundtrip(s, limits, h);
    lemma_enc_seq_complete(s, limits, h);
}

/// The encoding of pairs a visit reports back is complete.
proof fn lemma_enc_pairs_complete_v(s: Seq<(TermModel, TermModel)>, limits: Limits, h: int)
    requires
        pairs_revisit(s, limits, h),
    ensures
        enc_pairs(s).complete,
{
    lemma_pairs_revisit_roundtrip(s, limits, h);
    lemma_enc_pairs_complete(s, limits, h);
}

/// The events visiting a term reports: one for each scalar, and for each
/// compound term a start, the events of its elements (for a map, each key
/// then its value; for an improper list, the elements, a tail marker and
/// the tail), and an end.  An opaque term reports none here.
pub open spec fn events_of(t: TermModel) -> Seq<VisitEvent>
    decreases t, 0nat,
{
    match t {
        TermModel::Int(v) => seq![VisitEvent::Int(v)],
        TermModel::BigInt { sign, digits } => seq![VisitEvent::BigInt { sign, digits }],
        TermModel::Float(bits) => seq![VisitEvent::Float(bits)],
        TermModel::Atom(b) => seq![VisitEvent::Atom(b)],
        TermModel::Binary(b) => seq![VisitEvent::Binary(b)],
        TermModel::BitBinary { bits, data } => seq![VisitEvent::BitBinary { bits, data }],
        TermModel::String(b) => seq![VisitEvent::String(b)],
        TermModel::Tuple(s) => (seq![VisitEvent::TupleStart(s.len() as int)] + events_seq(s)).push(
            VisitEvent::TupleEnd,
        ),
        TermModel::List(s) => (seq![VisitEvent::ListStart(s.len() as int)] + events_seq(s)).push(VisitEvent::ListEnd),
        TermModel::ImproperList(s) => if s.len() == 0 {
            Seq::empty()
        } else {
            ((seq![VisitEvent::ListStart(s.len() - 1)] + events_seq(s.drop_last())).push(
                VisitEvent::ImproperListTail,
            ) + events_of(s.last())).push(VisitEvent::ImproperListEnd)
        },
        TermModel::ErlangMap(ps) => (seq![VisitEvent::MapStart(ps.len() as int)] + events_pairs(ps)).push(
            VisitEvent::MapEnd,
        ),
        _ => Seq::empty(),
    }
}

/// The events of a sequence of terms, one after another.
pub open spec fn events_seq(s: Seq<TermModel>) -> Seq<VisitEvent>
    decreases s, s.len(),
{
    if s.len() == 0 {
        Seq::empty()
    } else {
        events_seq(s.drop_last()) + events_of(s.last())
    }
}

/// The events of a sequence of pairs: each key, then its value.
pub open spec fn events_pairs(s: Seq<(TermModel, TermModel)>) -> Seq<VisitEvent>
    decreases s, s.len(),
{
    if s.len() == 0 {
        Seq::empty()
    } else {
        events_pairs(s.drop_last()) + events_of(s.last().0) + events_of(s.last().1)
    }
}

/// The limits under which a term round-trips exactly when a visit checks
/// it against `limits`: a visit reports compact strings as they are, and
/// bounds the digits of a bignum by the binary size limit.
pub open spec fn visit_limits(limits: Limits) -> Limits {
    Limits { expand_string_ext_to_list: false, max_bignum_size: limits.max_binary_size, ..limits }
}

/// The first byte of the encoding of a term that round-trips is `NIL_EXT`
/// only for the empty list.
proof fn lemma_nil_tag(t: TermModel, limits: Limits, h: int)
    requires
        revisits(t, limits, h),
    ensures
        enc_term(t).bytes.len() > 0,
        enc_term(t).bytes[0] == NIL_EXT ==> t.is_nil(),
{
    lemma_enc_complete_visit(t, limits, h);
    match t {
        TermModel::Tuple(s) => {
            lemma_enc_seq_complete_v(s, limits, h + 1);
        },
        TermModel::List(s) => {
            if s.len() > 0 {
                lemma_enc_seq_complete_v(s, limits, h + 1);
            }
        },
        TermModel::ImproperList(s) => {
            lemma_enc_seq_complete_v(s, limits, h + 1);
        },
        TermModel::ErlangMap(ps) => {
            lemma_enc_pairs_complete_v(ps, limits, h + 1);
        },
        _ => {},
    }
}

/// A scalar is visited as itself.
#[verifier::rlimit(80)]
#[verifier::spinoff_prover]
proof fn lemma_vt_scalar(t: TermModel, d: Seq<u8>, p: int, h: int, cfg: ParseCfg, fl: spec_fn(int) -> Option<u64>)
    requires
        revisits(t, visit_limits(cfg.limits), h),
        holds_at(d, p, enc_term(t).bytes),
        t is Int || t is Float || t is BigInt || t is Atom || t is Binary || t is BitBinary || t is String,
    ensures
        v_leaf(d, p, cfg, fl) == vone(events_of(t)[0], p + enc_term(t).bytes.len()),
        events_of(t).len() == 1,
{
    let e = enc_term(t).bytes;
    lemma_holds_index(d, p, e, 0);
    match t {
        TermModel::Int(v) => {
            if 0 <= v <= 255 {
                lemma_holds_index(d, p, e, 1);
                assert(d[p + 1] as i32 == v);
            } else {
                lemma_holds_split(d, p, seq![INTEGER_EXT], be32(v as u32 as int));
                lemma_be32(d, p + 1, v as u32 as int);
                assert((v as u32) as i32 == v) by (bit_vector);
                assert(p_uint(d, at(p + 1), cfg, 4) == Ok::<(int, crate::grammar::PState), EtfError>(
                    (v as u32 as int, at(p + 5)),
                ));
            }
        },
        TermModel::Float(bits) => {
            lemma_holds_split(d, p, seq![NEW_FLOAT_EXT], be64(bits as int));
            lemma_be64(d, p + 1, bits as int);
        },
        TermModel::BigInt { sign, digits } => {
            assert(e == enc_big(sign, digits).bytes);
            if digits.len() > 255 {
                let hd = seq![LARGE_BIG_EXT] + be32(digits.len() as u32 as int);
                lemma_holds_split(d, p, hd + seq![sign], digits);
                lemma_holds_split(d, p, hd, seq![sign]);
                lemma_holds_split(d, p, seq![LARGE_BIG_EXT], be32(digits.len() as u32 as int));
                lemma_be32(d, p + 1, digits.len() as u32 as int);
                lemma_holds_index(d, p + 5, seq![sign], 0);
            } else {
                lemma_holds_split(d, p, seq![SMALL_BIG_EXT, digits.len() as u8, sign], digits);
                lemma_holds_index(d, p, e, 1);
                lemma_holds_index(d, p, e, 2);
            }
        },
        TermModel::Atom(b) => {
            if b.len() < 256 {
                lemma_holds_split(d, p, seq![SMALL_ATOM_UTF8_EXT, b.len() as u8], b);
                lemma_holds_index(d, p, e, 1);
                assert(p_atom_body(d, at(p + 1), cfg, 1) == Ok::<(Seq<u8>, crate::grammar::PState), EtfError>(
                    (b, at(p + e.len())),
                ));
            } else {
                lemma_holds_split(d, p, seq![ATOM_UTF8_EXT] + be16(b.len() as u16 as int), b);
                lemma_holds_split(d, p, seq![ATOM_UTF8_EXT], be16(b.len() as u16 as int));
                lemma_be16(d, p + 1, b.len() as u16 as int);
                assert(p_atom_body(d, at(p + 1), cfg, 2) == Ok::<(Seq<u8>, crate::grammar::PState), EtfError>(
                    (b, at(p + e.len())),
                ));
            }
        },
        TermModel::Binary(b) => {
            lemma_holds_split(d, p, seq![BINARY_EXT] + be32(b.len() as u32 as int), b);
            lemma_holds_split(d, p, seq![BINARY_EXT], be32(b.len() as u32 as int));
            lemma_be32(d, p + 1, b.len() as u32 as int);
        },
        TermModel::BitBinary { bits, data } => {
            let hd = seq![BIT_BINARY_EXT] + be32(data.len() as u32 as int);
            lemma_holds_split(d, p, hd + seq![bits], data);
            lemma_holds_split(d, p, hd, seq![bits]);
            lemma_holds_split(d, p, seq![BIT_BINARY_EXT], be32(data.len() as u32 as int));
            lemma_be32(d, p + 1, data.len() as u32 as int);
            lemma_holds_index(d, p + 5, seq![bits], 0);
        },
        TermModel::String(b) => {
            lemma_holds_split(d, p, seq![STRING_EXT] + be16(b.len() as u16 as int), b);
            lemma_holds_split(d, p, seq![STRING_EXT], be16(b.len() as u16 as int));
            lemma_be16(d, p + 1, b.len() as u16 as int);
        },
        _ => {},
    }
}

/// The events of a nonempty sequence: those of its first term, then the
/// rest.
proof fn lemma_events_seq_front(s: Seq<TermModel>)
    requires
        s.len() > 0,
    ensures
        events_seq(s) == events_of(s[0]) + events_seq(s.subrange(1, s.len() as int)),
    decreases s.len(),
{
    let rest = s.subrange(1, s.len() as int);
    if s.len() == 1 {
        assert(s.drop_last() =~= Seq::<TermModel>::empty());
        assert(rest =~= Seq::<TermModel>::empty());
        assert(Seq::<VisitEvent>::empty() + events_of(s[0]) =~= events_of(s[0]) + Seq::<VisitEvent>::empty());
    } else {
        lemma_events_seq_front(s.drop_last());
        assert(s.drop_last().subrange(1, s.len() - 1) =~= rest.drop_last());
        assert(rest.last() == s.last());
        assert(s.drop_last()[0] == s[0]);
        assert((events_of(s[0]) + events_seq(rest.drop_last())) + events_of(s.last()) =~= events_of(s[0]) + (
        events_seq(rest.drop_last()) + events_of(s.last())));
    }
}

/// The events of a nonempty pair sequence: those of its first key and
/// value, then the rest.
proof fn lemma_events_pairs_front(s: Seq<(TermModel, TermModel)>)
    requires
        s.len() > 0,
    ensures
        events_pairs(s) == events_of(s[0].0) + events_of(s[0].1) + events_pairs(s.subrange(1, s.len() as int)),
    decreases s.len(),
{
    let rest = s.subrange(1, s.len() as int);
    let k = events_of(s[0].0);
    let v = events_of(s[0].1);
    if s.len() == 1 {
        assert(s.drop_last() =~= Seq::<(TermModel, TermModel)>::empty());
        assert(rest =~= Seq::<(TermModel, TermModel)>::empty());
        assert(Seq::<VisitEvent>::empty() + k + v =~= k + v + Seq::<VisitEvent>::empty());
    } else {
        lemma_events_pairs_front(s.drop_last());
        assert(s.drop_last().subrange(1, s.len() - 1) =~= rest.drop_last());
        assert(rest.last() == s.last());
        assert(s.drop_last()[0] == s[0]);
        let r = events_pairs(rest.drop_last());
        let lk = events_of(s.last().0);
        let lv = events_of(s.last().1);
        assert(k + v + r + lk + lv =~= k + v + (r + lk + lv));
    }
}

/// A term that round-trips under the visit limits is visited as its events,
/// from wherever its encoding is held, ending after it.
pub proof fn lemma_vt_term(t: TermModel, d: Seq<u8>, p: int, h: int, cfg: ParseCfg, fl: spec_fn(int) -> Option<u64>)
    requires
        revisits(t, visit_limits(cfg.limits), h),
        holds_at(d, p, enc_term(t).bytes),
    ensures
        v_term(d, p, h, cfg, fl) == (Visit { events: events_of(t), end: Ok(p + enc_term(t).bytes.len()) }),
    decreases t, 0nat, 0nat,
{
    lemma_nil_tag(t, visit_limits(cfg.limits), h);
    let e = enc_term(t).bytes;
    lemma_holds_index(d, p, e, 0);
    match t {
        TermModel::Tuple(s) => lemma_vt_tuple(s, d, p, h, cfg, fl),
        TermModel::List(s) => lemma_vt_list(s, d, p, h, cfg, fl),
        TermModel::ImproperList(s) => lemma_vt_improper(s, d, p, h, cfg, fl),
        TermModel::ErlangMap(ps) => lemma_vt_map(ps, d, p, h, cfg, fl),
        _ => {
            lemma_vt_scalar(t, d, p, h, cfg, fl);
            assert(seq![events_of(t)[0]] =~= events_of(t));
        },
    }
}

/// Terms that round-trip under the visit limits are visited as their
/// events, one after another.
pub proof fn lemma_vt_seq(s: Seq<TermModel>, d: Seq<u8>, p: int, h: int, cfg: ParseCfg, fl: spec_fn(int) -> Option<u64>)
    requires
        all_revisit(s, visit_limits(cfg.limits), h),
        holds_at(d, p, enc_seq(s).bytes),
    ensures
        v_seq(d, p, s.len() as int, h, cfg, fl) == (Visit {
            events: events_seq(s),
            end: Ok(p + enc_seq(s).bytes.len()),
        }),
    decreases s, 0nat, s.len(),
{
    let vl = visit_limits(cfg.limits);
    if s.len() == 0 {
        assert(s =~= Seq::<TermModel>::empty());
    } else {
        let rest = s.subrange(1, s.len() as int);
        lemma_all_revisit(s, vl, h);
        lemma_all_revisit(rest, vl, h);
        assert(revisits(s[0], vl, h));
        assert forall|i: int| 0 <= i < rest.len() implies #[trigger] revisits(rest[i], vl, h) by {
            assert(rest[i] == s[i + 1]);
        }
        crate::roundtrip::lemma_enc_seq_front(s);
        lemma_enc_complete_visit(s[0], vl, h);
        lemma_holds_split(d, p, enc_term(s[0]).bytes, enc_seq(rest).bytes);
        lemma_vt_term(s[0], d, p, h, cfg, fl);
        let q = p + enc_term(s[0]).bytes.len();
        lemma_vt_seq(rest, d, q, h, cfg, fl);
        lemma_events_seq_front(s);
    }
}

/// Pairs that round-trip under the visit limits are visited as their
/// events, each key then its value, one pair after another.
#[verifier::rlimit(60)]
#[verifier::spinoff_prover]
pub proof fn lemma_vt_pairs(
    s: Seq<(TermModel, TermModel)>,
    d: Seq<u8>,
    p: int,
    h: int,
    cfg: ParseCfg,
    fl: spec_fn(int) -> Option<u64>,
)
    requires
        pairs_revisit(s, visit_limits(cfg.limits), h),
        holds_at(d, p, enc_pairs(s).bytes),
    ensures
        v_seq(d, p, 2 * s.len() as int, h, cfg, fl) == (Visit {
            events: events_pairs(s),
            end: Ok(p + enc_pairs(s).bytes.len()),
        }),
    decreases s, 0nat, s.len(),
{
    let vl = visit_limits(cfg.limits);
    if s.len() == 0 {
        assert(s =~= Seq::<(TermModel, TermModel)>::empty());
    } else {
        let rest = s.subrange(1, s.len() as int);
        lemma_pairs_revisit(s, vl, h);
        lemma_pairs_revisit(rest, vl, h);
        assert(revisits(s[0].0, vl, h) && revisits(s[0].1, vl, h));
        assert forall|i: int| #![trigger rest[i]] 0 <= i < rest.len() implies revisits(rest[i].0, vl, h)
            && revisits(rest[i].1, vl, h) by {
            assert(rest[i] == s[i + 1]);
        }
        crate::roundtrip::lemma_enc_pairs_front(s);
        lemma_enc_complete_visit(s[0].0, vl, h);
        lemma_enc_complete_visit(s[0].1, vl, h);
        let ek = enc_term(s[0].0).bytes;
        let ev = enc_term(s[0].1).bytes;
        lemma_holds_split(d, p, ek + ev, enc_pairs(rest).bytes);
        lemma_holds_split(d, p, ek, ev);
        lemma_vt_term(s[0].0, d, p, h, cfg, fl);
        let q1 = p + ek.len();
        lemma_vt_term(s[0].1, d, q1, h, cfg, fl);
        let q2 = q1 + ev.len();
        lemma_vt_pairs(rest, d, q2, h, cfg, fl);
        assert(v_seq(d, q1, 2 * s.len() - 1, h, cfg, fl) == vpre(events_of(s[0].1), v_seq(d, q2, 2 * rest.len() as int, h, cfg, fl)));
        lemma_events_pairs_front(s);
        assert(events_of(s[0].0) + (events_of(s[0].1) + events_pairs(rest)) =~= events_of(s[0].0) + events_of(s[0].1)
            + events_pairs(rest));
    }
}

/// A tuple that round-trips under the visit limits is visited as its
/// events.
#[verifier::rlimit(80)]
#[verifier::spinoff_prover]
proof fn lemma_vt_tuple(s: Seq<TermModel>, d: Seq<u8>, p: int, h: int, cfg: ParseCfg, fl: spec_fn(int) -> Option<u64>)
    requires
        revisits(TermModel::Tuple(s), visit_limits(cfg.limits), h),
        holds_at(d, p, enc_term(TermModel::Tuple(s)).bytes),
    ensures
        v_term(d, p, h, cfg, fl) == (Visit {
            events: events_of(TermModel::Tuple(s)),
            end: Ok(p + enc_term(TermModel::Tuple(s)).bytes.len()),
        }),
    decreases s, 1nat, 0nat,
{
    let vl = visit_limits(cfg.limits);
    let e = enc_term(TermModel::Tuple(s)).bytes;
    let hd = if s.len() < 256 {
        seq![SMALL_TUPLE_EXT, s.len() as u8]
    } else {
        seq![LARGE_TUPLE_EXT] + be32(s.len() as u32 as int)
    };
    lemma_enc_seq_complete_v(s, vl, h + 1);
    assert(e == hd + enc_seq(s).bytes);
    lemma_holds_split(d, p, hd, enc_seq(s).bytes);
    lemma_holds_index(d, p, e, 0);
    if s.len() < 256 {
        lemma_holds_index(d, p, hd, 1);
    } else {
        lemma_holds_split(d, p, seq![LARGE_TUPLE_EXT], be32(s.len() as u32 as int));
        lemma_be32(d, p + 1, s.len() as u32 as int);
    }
    let q = p + hd.len();
    assert(p_uint(d, at(p + 1), cfg, if d[p] == SMALL_TUPLE_EXT { 1 } else { 4 }) == Ok::<(int, crate::grammar::PState), EtfError>(
        (s.len() as int, at(q)),
    ));
    lemma_vt_seq(s, d, q, h + 1, cfg, fl);
    let start = VisitEvent::TupleStart(s.len() as int);
    assert(v_nested(d, p, h, cfg, fl) == vpost(vpre(seq![start], v_seq(d, q, s.len() as int, h + 1, cfg, fl)), VisitEvent::TupleEnd));
}

/// A proper list that round-trips under the visit limits is visited as its
/// events.
#[verifier::rlimit(100)]
#[verifier::spinoff_prover]
proof fn lemma_vt_list(s: Seq<TermModel>, d: Seq<u8>, p: int, h: int, cfg: ParseCfg, fl: spec_fn(int) -> Option<u64>)
    requires
        revisits(TermModel::List(s), visit_limits(cfg.limits), h),
        holds_at(d, p, enc_term(TermModel::List(s)).bytes),
    ensures
        v_term(d, p, h, cfg, fl) == (Visit {
            events: events_of(TermModel::List(s)),
            end: Ok(p + enc_term(TermModel::List(s)).bytes.len()),
        }),
    decreases s, 1nat, 0nat,
{
    let vl = visit_limits(cfg.limits);
    let e = enc_term(TermModel::List(s)).bytes;
    lemma_holds_index(d, p, e, 0);
    if s.len() == 0 {
        assert(s =~= Seq::<TermModel>::empty());
        assert(events_of(TermModel::List(s)) =~= seq![VisitEvent::ListStart(0), VisitEvent::ListEnd]);
    } else {
        let hd = seq![LIST_EXT] + be32(s.len() as u32 as int);
        let es = enc_seq(s).bytes;
        lemma_enc_seq_complete_v(s, vl, h + 1);
        assert(e == hd + es + seq![NIL_EXT]);
        lemma_holds_split(d, p, hd + es, seq![NIL_EXT]);
        lemma_holds_split(d, p, hd, es);
        lemma_holds_split(d, p, seq![LIST_EXT], be32(s.len() as u32 as int));
        lemma_be32(d, p + 1, s.len() as u32 as int);
        let q = p + 5;
        assert(p_uint(d, at(p + 1), cfg, 4) == Ok::<(int, crate::grammar::PState), EtfError>((s.len() as int, at(q))));
        lemma_vt_seq(s, d, q, h + 1, cfg, fl);
        let q2 = q + es.len();
        lemma_holds_index(d, q2, seq![NIL_EXT], 0);
        let body = vpre(seq![VisitEvent::ListStart(s.len() as int)], v_seq(d, q, s.len() as int, h + 1, cfg, fl));
        assert(body.end == Ok::<int, EtfError>(q2));
        assert(v_nested(d, p, h, cfg, fl) == Visit { events: body.events.push(VisitEvent::ListEnd), end: Ok::<int, EtfError>(q2 + 1) });
    }
}

/// An improper list that round-trips under the visit limits is visited as
/// its events.
#[verifier::rlimit(80)]
#[verifier::spinoff_prover]
proof fn lemma_vt_improper(s: Seq<TermModel>, d: Seq<u8>, p: int, h: int, cfg: ParseCfg, fl: spec_fn(int) -> Option<u64>)
    requires
        revisits(TermModel::ImproperList(s), visit_limits(cfg.limits), h),
        holds_at(d, p, enc_term(TermModel::ImproperList(s)).bytes),
    ensures
        v_term(d, p, h, cfg, fl) == (Visit {
            events: events_of(TermModel::ImproperList(s)),
            end: Ok(p + enc_term(TermModel::ImproperList(s)).bytes.len()),
        }),
    decreases s, 1nat, 0nat,
{
    let vl = visit_limits(cfg.limits);
    let e = enc_term(TermModel::ImproperList(s)).bytes;
    let n = s.len() - 1;
    let init = s.drop_last();
    let tail = s.last();
    let hd = seq![LIST_EXT] + be32(n as u32 as int);
    lemma_enc_seq_complete_v(s, vl, h + 1);
    lemma_all_revisit(s, vl, h + 1);
    assert(all_revisit(init, vl, h + 1) && revisits(tail, vl, h + 1));
    lemma_enc_seq_complete_v(init, vl, h + 1);
    lemma_enc_complete_visit(tail, vl, h + 1);
    let ei = enc_seq(init).bytes;
    let et = enc_term(tail).bytes;
    assert(enc_seq(s) == then(enc_seq(init), enc_term(tail)));
    assert(e == hd + ei + et);
    lemma_holds_index(d, p, e, 0);
    lemma_holds_split(d, p, hd + ei, et);
    lemma_holds_split(d, p, hd, ei);
    lemma_holds_split(d, p, seq![LIST_EXT], be32(n as u32 as int));
    lemma_be32(d, p + 1, n as u32 as int);
    let q = p + 5;
    assert(p_uint(d, at(p + 1), cfg, 4) == Ok::<(int, crate::grammar::PState), EtfError>((n, at(q))));
    lemma_vt_seq(init, d, q, h + 1, cfg, fl);
    assert(init.len() == n);
    let q2 = q + ei.len();
    lemma_nil_tag(tail, vl, h + 1);
    lemma_holds_index(d, q2, et, 0);
    lemma_vt_term(tail, d, q2, h + 1, cfg, fl);
    let body = vpre(seq![VisitEvent::ListStart(n)], v_seq(d, q, n, h + 1, cfg, fl));
    assert(body.end == Ok::<int, EtfError>(q2));
    assert(d[q2] != NIL_EXT);
    assert(v_nested(d, p, h, cfg, fl) == vpost(
        vpre(body.events.push(VisitEvent::ImproperListTail), v_term(d, q2, h + 1, cfg, fl)),
        VisitEvent::ImproperListEnd,
    ));
}

/// A map that round-trips under the visit limits is visited as its events.
#[verifier::rlimit(40)]
proof fn lemma_vt_map(ps: Seq<(TermModel, TermModel)>, d: Seq<u8>, p: int, h: int, cfg: ParseCfg, fl: spec_fn(int) -> Option<u64>)
    requires
        revisits(TermModel::ErlangMap(ps), visit_limits(cfg.limits), h),
        holds_at(d, p, enc_term(TermModel::ErlangMap(ps)).bytes),
    ensures
        v_term(d, p, h, cfg, fl) == (Visit {
            events: events_of(TermModel::ErlangMap(ps)),
            end: Ok(p + enc_term(TermModel::ErlangMap(ps)).bytes.len()),
        }),
    decreases ps, 1nat, 0nat,
{
    let vl = visit_limits(cfg.limits);
    let e = enc_term(TermModel::ErlangMap(ps)).bytes;
    let hd = seq![MAP_EXT] + be32(ps.len() as u32 as int);
    let es = enc_pairs(ps).bytes;
    lemma_enc_pairs_complete_v(ps, vl, h + 1);
    assert(e == hd + es);
    lemma_holds_index(d, p, e, 0);
    lemma_holds_split(d, p, hd, es);
    lemma_holds_split(d, p, seq![MAP_EXT], be32(ps.len() as u32 as int));
    lemma_be32(d, p + 1, ps.len() as u32 as int);
    let q = p + 5;
    assert(p_uint(d, at(p + 1), cfg, 4) == Ok::<(int, crate::grammar::PState), EtfError>((ps.len() as int, at(q))));
    lemma_vt_pairs(ps, d, q, h + 1, cfg, fl);
    let start = VisitEvent::MapStart(ps.len() as int);
    assert(v_nested(d, p, h, cfg, fl) == vpost(vpre(seq![start], v_seq(d, q, 2 * ps.len() as int, h + 1, cfg, fl)), VisitEvent::MapEnd));
}

} // verus!
