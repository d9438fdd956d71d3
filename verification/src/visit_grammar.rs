//! The events a [`Visitor`](crate::visitor::Visitor) receives, as spec
//! functions over the input.
//!
//! `v_term` states, for an input, a position, a nesting height and a
//! configuration, which events visiting one term emits, in order, and where
//! the visit ends: the position after the term, or the decode error that
//! stops it (events emitted before the error stay emitted).

use vstd::prelude::*;

use crate::cursor::{be_u64_at, short_error};
use crate::error::EtfError;
use crate::grammar::{
    p_atom_body, p_bytes, p_legacy_float, p_uint, short, PState, ParseCfg,
};
use crate::tags::{
    ATOM_UTF8_EXT, BINARY_EXT, BIT_BINARY_EXT, EXPORT_EXT, FLOAT_EXT, INTEGER_EXT, LARGE_BIG_EXT,
    LARGE_TUPLE_EXT, LIST_EXT, MAP_EXT, NEWER_REFERENCE_EXT, NEW_FLOAT_EXT, NEW_FUN_EXT,
    NEW_PID_EXT, NEW_PORT_EXT, NEW_REFERENCE_EXT, NIL_EXT, PID_EXT, PORT_EXT, RECORD_EXT,
    SMALL_ATOM_UTF8_EXT, SMALL_BIG_EXT, SMALL_INTEGER_EXT, SMALL_TUPLE_EXT, STRING_EXT,
    V4_PORT_EXT,
};
use crate::types::TermModel;

verus! {

/// A call a visitor receives.
pub enum VisitEvent {
    Int(i32),
    BigInt { sign: u8, digits: Seq<u8> },
    Float(u64),
    Atom(Seq<u8>),
    Binary(Seq<u8>),
    BitBinary { bits: u8, data: Seq<u8> },
    TupleStart(int),
    TupleEnd,
    ListStart(int),
    ListEnd,
    ImproperListTail,
    ImproperListEnd,
    MapStart(int),
    MapEnd,
    Pid(Seq<u8>),
    Port(Seq<u8>),
    Reference(Seq<u8>),
    Function(Seq<u8>),
    Record(Seq<u8>),
    String(Seq<u8>),
}

/// What a visit does: the events it emits, in order, and where it ends.
pub struct Visit {
    pub events: Seq<VisitEvent>,
    pub end: Result<int, EtfError>,
}

/// The state at position `p` (a visit claims no arena).
pub open spec fn at(p: int) -> PState {
    PState { pos: p, ptr: 0 }
}

/// A visit that stops on `e` without emitting anything.
pub open spec fn vfail(e: EtfError) -> Visit {
    Visit { events: Seq::empty(), end: Err(e) }
}

/// A visit that emits `ev` and ends at `p`.
pub open spec fn vone(ev: VisitEvent, p: int) -> Visit {
    Visit { events: seq![ev], end: Ok(p) }
}

/// `v` with `evs` emitted before it.
pub open spec fn vpre(evs: Seq<VisitEvent>, v: Visit) -> Visit {
    Visit { events: evs + v.events, end: v.end }
}

/// `v`, followed by `ev` when it ends well.
pub open spec fn vpost(v: Visit, ev: VisitEvent) -> Visit {
    match v.end {
        Ok(_) => Visit { events: v.events.push(ev), end: v.end },
        Err(_) => v,
    }
}

/// Visiting a term with no nested term, its tag at `p`.
pub open spec fn v_leaf(d: Seq<u8>, p: int, cfg: ParseCfg, fl: spec_fn(int) -> Option<u64>) -> Visit {
    let tag = d[p];
    let s1 = at(p + 1);
    if tag == SMALL_INTEGER_EXT {
        match p_uint(d, s1, cfg, 1) {
            Err(e) => vfail(e),
            Ok((v, s)) => vone(VisitEvent::Int(v as i32), s.pos),
        }
    } else if tag == INTEGER_EXT {
        match p_uint(d, s1, cfg, 4) {
            Err(e) => vfail(e),
            Ok((v, s)) => vone(VisitEvent::Int((v as u32) as i32), s.pos),
        }
    } else if tag == SMALL_BIG_EXT || tag == LARGE_BIG_EXT {
        match p_uint(d, s1, cfg, if tag == SMALL_BIG_EXT { 1 } else { 4 }) {
            Err(e) => vfail(e),
            Ok((len, s2)) => if len > cfg.limits.max_binary_size {
                vfail(EtfError::BinaryTooLarge)
            } else {
                match p_uint(d, s2, cfg, 1) {
                    Err(e) => vfail(e),
                    Ok((sign, s3)) => match p_bytes(d, s3, cfg, len) {
                        Err(e) => vfail(e),
                        Ok((digits, s4)) => vone(VisitEvent::BigInt { sign: sign as u8, digits }, s4.pos),
                    },
                }
            },
        }
    } else if tag == NEW_FLOAT_EXT {
        if p + 9 > d.len() {
            vfail(short(cfg, p + 9 - d.len()))
        } else {
            vone(VisitEvent::Float(be_u64_at(d, p + 1) as u64), p + 9)
        }
    } else if tag == FLOAT_EXT {
        match p_legacy_float(d, s1, cfg, p, fl) {
            Err(e) => vfail(e),
            Ok((TermModel::Float(bits), s)) => vone(VisitEvent::Float(bits), s.pos),
            Ok(_) => vfail(EtfError::InvalidFloat),
        }
    } else if tag == ATOM_UTF8_EXT || tag == SMALL_ATOM_UTF8_EXT {
        match p_atom_body(d, s1, cfg, if tag == ATOM_UTF8_EXT { 2 } else { 1 }) {
            Err(e) => vfail(e),
            Ok((b, s)) => vone(VisitEvent::Atom(b), s.pos),
        }
    } else if tag == NIL_EXT {
        Visit { events: seq![VisitEvent::ListStart(0), VisitEvent::ListEnd], end: Ok(p + 1) }
    } else if tag == STRING_EXT {
        match p_uint(d, s1, cfg, 2) {
            Err(e) => vfail(e),
            Ok((len, s2)) => if len > cfg.limits.max_string_len {
                vfail(EtfError::ListTooLarge)
            } else {
                match p_bytes(d, s2, cfg, len) {
                    Err(e) => vfail(e),
                    Ok((b, s3)) => vone(VisitEvent::String(b), s3.pos),
                }
            },
        }
    } else if tag == BINARY_EXT {
        match p_uint(d, s1, cfg, 4) {
            Err(e) => vfail(e),
            Ok((len, s2)) => if len > cfg.limits.max_binary_size {
                vfail(EtfError::BinaryTooLarge)
            } else {
                match p_bytes(d, s2, cfg, len) {
                    Err(e) => vfail(e),
                    Ok((b, s3)) => vone(VisitEvent::Binary(b), s3.pos),
                }
            },
        }
    } else if tag == BIT_BINARY_EXT {
        match p_uint(d, s1, cfg, 4) {
            Err(e) => vfail(e),
            Ok((len, s2)) => if len > cfg.limits.max_bit_binary_size {
                vfail(EtfError::BinaryTooLarge)
            } else {
                match p_uint(d, s2, cfg, 1) {
                    Err(e) => vfail(e),
                    Ok((bits, s3)) => match p_bytes(d, s3, cfg, len) {
                        Err(e) => vfail(e),
                        Ok((b, s4)) => vone(VisitEvent::BitBinary { bits: bits as u8, data: b }, s4.pos),
                    },
                }
            },
        }
    } else if tag == NEW_FUN_EXT {
        match p_uint(d, s1, cfg, 4) {
            Err(e) => vfail(e),
            Ok((size, s2)) => if size < 4 {
                vfail(EtfError::InvalidSize)
            } else if size - 4 > cfg.limits.max_fun_size {
                vfail(EtfError::BinaryTooLarge)
            } else {
                match p_bytes(d, s2, cfg, size - 4) {
                    Err(e) => vfail(e),
                    Ok((b, s3)) => vone(VisitEvent::Function(b), s3.pos),
                }
            },
        }
    } else {
        vfail(EtfError::UnsupportedTag(tag))
    }
}

/// Whether a tag's term nests other terms when visited.
pub open spec fn visits_nested(tag: u8) -> bool {
    tag == SMALL_TUPLE_EXT || tag == LARGE_TUPLE_EXT || tag == LIST_EXT || tag == MAP_EXT
        || tag == PID_EXT || tag == NEW_PID_EXT || tag == PORT_EXT || tag == NEW_PORT_EXT
        || tag == V4_PORT_EXT || tag == NEW_REFERENCE_EXT || tag == NEWER_REFERENCE_EXT
        || tag == EXPORT_EXT || tag == RECORD_EXT
}

/// Visiting one term at `p`, at nesting height `h`.
pub open spec fn v_term(d: Seq<u8>, p: int, h: int, cfg: ParseCfg, fl: spec_fn(int) -> Option<u64>) -> Visit
    decreases d.len() - p, 1int, 1int,
{
    if h > cfg.limits.max_depth {
        vfail(EtfError::RecursionLimitExceeded)
    } else if p < 0 || p + 1 > d.len() {
        vfail(short(cfg, 1))
    } else if !visits_nested(d[p]) {
        v_leaf(d, p, cfg, fl)
    } else {
        v_nested(d, p, h, cfg, fl)
    }
}

/// Visiting a term at `p` whose tag nests other terms.
pub open spec fn v_nested(d: Seq<u8>, p: int, h: int, cfg: ParseCfg, fl: spec_fn(int) -> Option<u64>) -> Visit
    decreases d.len() - p, 1int, 0int,
{
    if p < 0 || p >= d.len() {
        vfail(short(cfg, 1))
    } else {
        let tag = d[p];
        let s1 = at(p + 1);
        if tag == SMALL_TUPLE_EXT || tag == LARGE_TUPLE_EXT {
            match p_uint(d, s1, cfg, if tag == SMALL_TUPLE_EXT { 1 } else { 4 }) {
                Err(e) => vfail(e),
                Ok((n, s)) => if n > cfg.limits.max_tuple_arity {
                    vfail(EtfError::TupleTooLarge)
                } else if s.pos <= p || s.pos > d.len() {
                    vfail(EtfError::InvalidSize)
                } else {
                    vpost(vpre(seq![VisitEvent::TupleStart(n)], v_seq(d, s.pos, n, h + 1, cfg, fl)), VisitEvent::TupleEnd)
                },
            }
        } else if tag == LIST_EXT {
            match p_uint(d, s1, cfg, 4) {
                Err(e) => vfail(e),
                Ok((n, s)) => if n > cfg.limits.max_list_len {
                    vfail(EtfError::ListTooLarge)
                } else if s.pos <= p || s.pos > d.len() {
                    vfail(EtfError::InvalidSize)
                } else {
                    let body = vpre(seq![VisitEvent::ListStart(n)], v_seq(d, s.pos, n, h + 1, cfg, fl));
                    match body.end {
                        Err(_) => body,
                        Ok(q) => if q <= p || q > d.len() {
                            Visit { events: body.events, end: Err(EtfError::InvalidSize) }
                        } else if q == d.len() {
                            Visit { events: body.events, end: Err(short(cfg, 1)) }
                        } else if d[q] == NIL_EXT {
                            Visit { events: body.events.push(VisitEvent::ListEnd), end: Ok(q + 1) }
                        } else {
                            vpost(
                                vpre(body.events.push(VisitEvent::ImproperListTail), v_term(d, q, h + 1, cfg, fl)),
                                VisitEvent::ImproperListEnd,
                            )
                        },
                    }
                },
            }
        } else if tag == MAP_EXT {
            match p_uint(d, s1, cfg, 4) {
                Err(e) => vfail(e),
                Ok((n, s)) => if n > cfg.limits.max_map_len {
                    vfail(EtfError::MapTooLarge)
                } else if s.pos <= p || s.pos > d.len() {
                    vfail(EtfError::InvalidSize)
                } else {
                    vpost(vpre(seq![VisitEvent::MapStart(n)], v_seq(d, s.pos, 2 * n, h + 1, cfg, fl)), VisitEvent::MapEnd)
                },
            }
        } else if tag == PID_EXT || tag == NEW_PID_EXT || tag == PORT_EXT || tag == NEW_PORT_EXT || tag == V4_PORT_EXT {
            let n = if tag == PID_EXT { 9int } else if tag == PORT_EXT { 5int } else if tag == NEW_PORT_EXT { 8int } else { 12int };
            let node = v_term(d, p + 1, h + 1, cfg, fl);
            match node.end {
                Err(_) => node,
                Ok(q) => match p_bytes(d, at(q), cfg, n) {
                    Err(e) => Visit { events: node.events, end: Err(e) },
                    Ok((b, s)) => Visit {
                        events: node.events.push(
                            if tag == PID_EXT || tag == NEW_PID_EXT {
                                VisitEvent::Pid(b)
                            } else {
                                VisitEvent::Port(b)
                            },
                        ),
                        end: Ok(s.pos),
                    },
                },
            }
        } else if tag == NEW_REFERENCE_EXT || tag == NEWER_REFERENCE_EXT {
            match p_uint(d, s1, cfg, 2) {
                Err(e) => vfail(e),
                Ok((len, s2)) => if len > cfg.limits.max_reference_words {
                    vfail(EtfError::ListTooLarge)
                } else if s2.pos <= p || s2.pos > d.len() {
                    vfail(EtfError::InvalidSize)
                } else {
                    let node = v_term(d, s2.pos, h + 1, cfg, fl);
                    match node.end {
                        Err(_) => node,
                        Ok(q) => match p_uint(d, at(q), cfg, if tag == NEW_REFERENCE_EXT { 1 } else { 4 }) {
                            Err(e) => Visit { events: node.events, end: Err(e) },
                            Ok((_, s3)) => match p_bytes(d, s3, cfg, len * 4) {
                                Err(e) => Visit { events: node.events, end: Err(e) },
                                Ok((b, s4)) => Visit { events: node.events.push(VisitEvent::Reference(b)), end: Ok(s4.pos) },
                            },
                        },
                    }
                },
            }
        } else if tag == EXPORT_EXT {
            let three = v_seq(d, p + 1, 3, h + 1, cfg, fl);
            match three.end {
                Err(_) => three,
                Ok(q) => if q < p + 1 || q > d.len() {
                    Visit { events: three.events, end: Err(EtfError::InvalidSize) }
                } else {
                    Visit { events: three.events.push(VisitEvent::Function(d.subrange(p + 1, q))), end: Ok(q) }
                },
            }
        } else {
            match p_uint(d, s1, cfg, 4) {
                Err(e) => vfail(e),
                Ok((n, s2)) => if n > cfg.limits.max_map_len {
                    vfail(EtfError::MapTooLarge)
                } else {
                    match p_uint(d, s2, cfg, 1) {
                        Err(e) => vfail(e),
                        Ok((_, s3)) => if s3.pos <= p || s3.pos > d.len() {
                            vfail(EtfError::InvalidSize)
                        } else {
                            let body = v_seq(d, s3.pos, 2 * n + 2, h + 1, cfg, fl);
                            match body.end {
                                Err(_) => body,
                                Ok(q) => if q < p + 1 || q > d.len() {
                                    Visit { events: body.events, end: Err(EtfError::InvalidSize) }
                                } else {
                                    Visit { events: body.events.push(VisitEvent::Record(d.subrange(p + 1, q))), end: Ok(q) }
                                },
                            }
                        },
                    }
                },
            }
        }
    }
}

/// Visiting `n` consecutive terms at `p`, at height `h`.
pub open spec fn v_seq(d: Seq<u8>, p: int, n: int, h: int, cfg: ParseCfg, fl: spec_fn(int) -> Option<u64>) -> Visit
    decreases d.len() - p, 2int, n,
{
    if n <= 0 {
        Visit { events: Seq::empty(), end: Ok(p) }
    } else {
        let a = v_term(d, p, h, cfg, fl);
        match a.end {
            Err(_) => a,
            Ok(q) => if q <= p || q > d.len() {
                Visit { events: a.events, end: Err(EtfError::InvalidSize) }
            } else {
                vpre(a.events, v_seq(d, q, n - 1, h, cfg, fl))
            },
        }
    }
}

/// A leaf visit that ends well ends after its tag and within the input.
proof fn lemma_v_leaf_advances(d: Seq<u8>, p: int, cfg: ParseCfg, fl: spec_fn(int) -> Option<u64>)
    requires
        0 <= p < d.len(),
    ensures
        v_leaf(d, p, cfg, fl).end matches Ok(q) ==> p < q <= d.len(),
{
}

/// A visit that ends well ends after its start and within the input.
pub proof fn lemma_v_term_advances(d: Seq<u8>, p: int, h: int, cfg: ParseCfg, fl: spec_fn(int) -> Option<u64>)
    ensures
        v_term(d, p, h, cfg, fl).end matches Ok(q) ==> p < q <= d.len(),
    decreases d.len() - p, 1int, 1int,
{
    if h <= cfg.limits.max_depth && 0 <= p && p + 1 <= d.len() {
        if !visits_nested(d[p]) {
            lemma_v_leaf_advances(d, p, cfg, fl);
        } else {
            lemma_v_nested_advances(d, p, h, cfg, fl);
        }
    }
}

/// A visit of a nesting term that ends well ends after its tag and within
/// the input.
proof fn lemma_v_nested_advances(d: Seq<u8>, p: int, h: int, cfg: ParseCfg, fl: spec_fn(int) -> Option<u64>)
    requires
        0 <= p < d.len(),
    ensures
        v_nested(d, p, h, cfg, fl).end matches Ok(q) ==> p < q <= d.len(),
    decreases d.len() - p, 1int, 0int,
{
    let tag = d[p];
    let s1 = at(p + 1);
    if tag == SMALL_TUPLE_EXT || tag == LARGE_TUPLE_EXT {
        if let Ok((n, s)) = p_uint(d, s1, cfg, if tag == SMALL_TUPLE_EXT { 1 } else { 4 }) {
            if s.pos > p && s.pos <= d.len() {
                lemma_v_seq_advances(d, s.pos, n, h + 1, cfg, fl);
            }
        }
    } else if tag == LIST_EXT {
        if let Ok((n, s)) = p_uint(d, s1, cfg, 4) {
            if s.pos > p && s.pos <= d.len() {
                lemma_v_seq_advances(d, s.pos, n, h + 1, cfg, fl);
                if let Ok(q) = v_seq(d, s.pos, n, h + 1, cfg, fl).end {
                    if q > p && q < d.len() {
                        lemma_v_term_advances(d, q, h + 1, cfg, fl);
                    }
                }
            }
        }
    } else if tag == MAP_EXT {
        if let Ok((n, s)) = p_uint(d, s1, cfg, 4) {
            if s.pos > p && s.pos <= d.len() {
                lemma_v_seq_advances(d, s.pos, 2 * n, h + 1, cfg, fl);
            }
        }
    } else if tag == PID_EXT || tag == NEW_PID_EXT || tag == PORT_EXT || tag == NEW_PORT_EXT || tag == V4_PORT_EXT {
        lemma_v_term_advances(d, p + 1, h + 1, cfg, fl);
    } else if tag == NEW_REFERENCE_EXT || tag == NEWER_REFERENCE_EXT {
        if let Ok((len, s2)) = p_uint(d, s1, cfg, 2) {
            if s2.pos > p && s2.pos <= d.len() {
                lemma_v_term_advances(d, s2.pos, h + 1, cfg, fl);
            }
        }
    } else if tag == EXPORT_EXT {
        lemma_v_seq_advances(d, p + 1, 3, h + 1, cfg, fl);
    } else {
        if let Ok((n, s2)) = p_uint(d, s1, cfg, 4) {
            if let Ok((_, s3)) = p_uint(d, s2, cfg, 1) {
                if s3.pos > p && s3.pos <= d.len() {
                    lemma_v_seq_advances(d, s3.pos, 2 * n + 2, h + 1, cfg, fl);
                }
            }
        }
    }
}

/// A visit of `n` terms that ends well ends at or after its start (after,
/// when `n > 0`) and within the input.
pub proof fn lemma_v_seq_advances(d: Seq<u8>, p: int, n: int, h: int, cfg: ParseCfg, fl: spec_fn(int) -> Option<u64>)
    requires
        p <= d.len(),
    ensures
        v_seq(d, p, n, h, cfg, fl).end matches Ok(q) ==> p <= q <= d.len() && (n > 0 ==> p < q),
    decreases d.len() - p, 2int, n,
{
    if n > 0 {
        lemma_v_term_advances(d, p, h, cfg, fl);
        if let Ok(q) = v_term(d, p, h, cfg, fl).end {
            if q > p && q <= d.len() {
                lemma_v_seq_advances(d, q, n - 1, h, cfg, fl);
            }
        }
    }
}

} // verus!
