//! Streaming only changes how short reads are reported: a streaming decode
//! gives what a complete decode gives, except that where the complete
//! decode finds the input ended, the streaming one reports it incomplete.

use vstd::prelude::*;

use crate::cursor::short_error;
use crate::error::EtfError;
use crate::grammar::{
    adv, claim, lemma_term_advances, p_atom_body, p_atom_only, p_big, p_binary, p_bit_binary,
    p_bytes, p_export, p_leaf, p_legacy_float, p_list, p_map, p_new_fun, p_node_id, p_pairs,
    p_record, p_ref, p_seq, p_string, p_term, p_tuple, p_uint, PResult, PState, ParseCfg,
};
use crate::arena::{FRAME_ALIGN, FRAME_CELL, PAIR_CELL, TERM_ALIGN, TERM_CELL};
use crate::tags::{
    EXPORT_EXT, LIST_EXT, MAP_EXT, NEWER_REFERENCE_EXT, NEW_PID_EXT, NEW_PORT_EXT, NEW_REFERENCE_EXT,
    NIL_EXT, PID_EXT, PORT_EXT, SMALL_TUPLE_EXT, LARGE_TUPLE_EXT, V4_PORT_EXT,
};
use crate::visit_grammar::{
    at, lemma_v_seq_advances, lemma_v_term_advances, v_leaf, v_nested, v_seq, v_term, visits_nested, vpost, vpre,
    Visit, VisitEvent,
};

verus! {

/// `cfg` with short reads reported as the input ending.
pub open spec fn complete_cfg(cfg: ParseCfg) -> ParseCfg {
    ParseCfg { limits: cfg.limits, streaming: false, bounded: cfg.bounded, arena_end: cfg.arena_end }
}

/// `r` with an "incomplete" error read as the input ending unexpectedly.
pub open spec fn as_complete<T>(r: PResult<T>) -> PResult<T> {
    match r {
        Err(EtfError::Incomplete(_)) => Err(EtfError::UnexpectedEof),
        _ => r,
    }
}

/// The parts of a leaf decode as completely as the streaming way says.
proof fn lemma_stream_parts(d: Seq<u8>, st: PState, cfg: ParseCfg, fl: spec_fn(int) -> Option<u64>, at: int)
    ensures
        forall|w: int| #[trigger] p_uint(d, st, complete_cfg(cfg), w) == as_complete(p_uint(d, st, cfg, w)),
        forall|n: int| #[trigger] p_bytes(d, st, complete_cfg(cfg), n) == as_complete(p_bytes(d, st, cfg, n)),
        forall|w: int| #[trigger] p_atom_body(d, st, complete_cfg(cfg), w) == as_complete(p_atom_body(d, st, cfg, w)),
        p_atom_only(d, st, complete_cfg(cfg)) == as_complete(p_atom_only(d, st, cfg)),
        forall|w: int| #[trigger] p_big(d, st, complete_cfg(cfg), w) == as_complete(p_big(d, st, cfg, w)),
        p_binary(d, st, complete_cfg(cfg)) == as_complete(p_binary(d, st, cfg)),
        p_bit_binary(d, st, complete_cfg(cfg)) == as_complete(p_bit_binary(d, st, cfg)),
        p_string(d, st, complete_cfg(cfg)) == as_complete(p_string(d, st, cfg)),
        p_legacy_float(d, st, complete_cfg(cfg), at, fl) == as_complete(p_legacy_float(d, st, cfg, at, fl)),
{
    reveal(short_error);
    assert forall|w: int| #[trigger] p_atom_body(d, st, complete_cfg(cfg), w) == as_complete(p_atom_body(d, st, cfg, w)) by {
        if let Ok((len, s1)) = p_uint(d, st, cfg, w) {
            assert(p_uint(d, st, complete_cfg(cfg), w) == p_uint(d, st, cfg, w));
        }
    }
    assert(p_atom_only(d, st, complete_cfg(cfg)) == as_complete(p_atom_only(d, st, cfg))) by {
        let s1 = adv(st, 1);
        if let Ok((len, s2)) = p_uint(d, s1, cfg, 2) {}
        if let Ok((len, s2)) = p_uint(d, s1, cfg, 1) {}
    }
}

/// A PID, port, reference or fun body decodes as completely as the
/// streaming way says.
proof fn lemma_stream_opaque(d: Seq<u8>, st: PState, cfg: ParseCfg, at: int)
    ensures
        forall|n: int, pid: bool| #[trigger] p_node_id(d, st, complete_cfg(cfg), at, n, pid) == as_complete(p_node_id(d, st, cfg, at, n, pid)),
        forall|cw: int| #[trigger] p_ref(d, st, complete_cfg(cfg), at, cw) == as_complete(p_ref(d, st, cfg, at, cw)),
        p_new_fun(d, st, complete_cfg(cfg), at) == as_complete(p_new_fun(d, st, cfg, at)),
{
    let fl = |i: int| None::<u64>;
    lemma_stream_parts(d, st, cfg, fl, at);
    assert forall|n: int, pid: bool| #[trigger] p_node_id(d, st, complete_cfg(cfg), at, n, pid) == as_complete(p_node_id(d, st, cfg, at, n, pid)) by {
        if let Ok((_, s1)) = p_atom_only(d, st, cfg) {
            lemma_stream_parts(d, s1, cfg, fl, at);
        }
    }
    assert forall|cw: int| #[trigger] p_ref(d, st, complete_cfg(cfg), at, cw) == as_complete(p_ref(d, st, cfg, at, cw)) by {
        if let Ok((len, s1)) = p_uint(d, st, cfg, 2) {
            lemma_stream_parts(d, s1, cfg, fl, at);
            if let Ok((_, s2)) = p_atom_only(d, s1, cfg) {
                lemma_stream_parts(d, s2, cfg, fl, at);
                if let Ok((_, s3)) = p_uint(d, s2, cfg, cw) {
                    lemma_stream_parts(d, s3, cfg, fl, at);
                }
            }
        }
    }
    if let Ok((size, s1)) = p_uint(d, st, cfg, 4) {
        lemma_stream_parts(d, s1, cfg, fl, at);
    }
}

/// A leaf decodes as completely as the streaming way says.
#[verifier::rlimit(40)]
proof fn lemma_stream_leaf(d: Seq<u8>, st: PState, cfg: ParseCfg, fl: spec_fn(int) -> Option<u64>)
    requires
        0 <= st.pos < d.len(),
    ensures
        p_leaf(d, st, complete_cfg(cfg), fl) == as_complete(p_leaf(d, st, cfg, fl)),
{
    reveal(short_error);
    let s1 = adv(st, 1);
    lemma_stream_parts(d, s1, cfg, fl, st.pos);
    lemma_stream_opaque(d, s1, cfg, st.pos);
}

/// One term decodes as completely as the streaming way says.
pub proof fn lemma_stream_term(d: Seq<u8>, st: PState, h: int, cfg: ParseCfg, fl: spec_fn(int) -> Option<u64>)
    ensures
        p_term(d, st, h, complete_cfg(cfg), fl) == as_complete(p_term(d, st, h, cfg, fl)),
    decreases d.len() - st.pos, 1int, 1int,
{
    reveal(short_error);
    if h <= cfg.limits.max_depth && 0 <= st.pos && st.pos + 1 <= d.len() {
        lemma_stream_leaf(d, st, cfg, fl);
        lemma_stream_tuple(d, st, h, cfg, fl);
        lemma_stream_list(d, st, h, cfg, fl);
        lemma_stream_map(d, st, h, cfg, fl);
        lemma_stream_export(d, st, h, cfg, fl);
        lemma_stream_record(d, st, h, cfg, fl);
    }
}

/// A tuple decodes as completely as the streaming way says.
proof fn lemma_stream_tuple(d: Seq<u8>, st: PState, h: int, cfg: ParseCfg, fl: spec_fn(int) -> Option<u64>)
    requires
        0 <= st.pos < d.len(),
    ensures
        p_tuple(d, st, h, complete_cfg(cfg), fl) == as_complete(p_tuple(d, st, h, cfg, fl)),
    decreases d.len() - st.pos, 1int, 0int,
{
    reveal(short_error);
    let s1 = adv(st, 1);
    let w = if d[st.pos] == crate::tags::SMALL_TUPLE_EXT { 1int } else { 4int };
    if let Ok((arity, s2)) = p_uint(d, s1, cfg, w) {
        if s2.pos > st.pos && s2.pos <= d.len() {
            if let Some(s3) = claim(cfg, s2, TERM_CELL as int, TERM_ALIGN as int, arity) {
                if let Some(s4) = claim(cfg, s3, FRAME_CELL as int, FRAME_ALIGN as int, 1) {
                    lemma_stream_seq(d, s4, arity, h + 1, cfg, fl);
                }
            }
        }
    }
}

/// A list decodes as completely as the streaming way says.
proof fn lemma_stream_list(d: Seq<u8>, st: PState, h: int, cfg: ParseCfg, fl: spec_fn(int) -> Option<u64>)
    requires
        0 <= st.pos < d.len(),
    ensures
        p_list(d, st, h, complete_cfg(cfg), fl) == as_complete(p_list(d, st, h, cfg, fl)),
    decreases d.len() - st.pos, 1int, 0int,
{
    reveal(short_error);
    if let Ok((len, s2)) = p_uint(d, adv(st, 1), cfg, 4) {
        if s2.pos > st.pos && s2.pos <= d.len() {
            if let Some(s3) = claim(cfg, s2, TERM_CELL as int, TERM_ALIGN as int, len + 1) {
                if let Some(s4) = claim(cfg, s3, FRAME_CELL as int, FRAME_ALIGN as int, 1) {
                    lemma_stream_seq(d, s4, len + 1, h + 1, cfg, fl);
                }
            }
        }
    }
}

/// A map decodes as completely as the streaming way says.
proof fn lemma_stream_map(d: Seq<u8>, st: PState, h: int, cfg: ParseCfg, fl: spec_fn(int) -> Option<u64>)
    requires
        0 <= st.pos < d.len(),
    ensures
        p_map(d, st, h, complete_cfg(cfg), fl) == as_complete(p_map(d, st, h, cfg, fl)),
    decreases d.len() - st.pos, 1int, 0int,
{
    reveal(short_error);
    if let Ok((len, s2)) = p_uint(d, adv(st, 1), cfg, 4) {
        if s2.pos > st.pos && s2.pos <= d.len() {
            if let Some(s3) = claim(cfg, s2, PAIR_CELL as int, TERM_ALIGN as int, len) {
                if let Some(s4) = claim(cfg, s3, FRAME_CELL as int, FRAME_ALIGN as int, 1) {
                    lemma_stream_pairs(d, s4, len, h + 1, cfg, fl);
                }
            }
        }
    }
}

/// An export decodes as completely as the streaming way says.
proof fn lemma_stream_export(d: Seq<u8>, st: PState, h: int, cfg: ParseCfg, fl: spec_fn(int) -> Option<u64>)
    requires
        0 <= st.pos < d.len(),
    ensures
        p_export(d, st, h, complete_cfg(cfg), fl) == as_complete(p_export(d, st, h, cfg, fl)),
    decreases d.len() - st.pos, 1int, 0int,
{
    let s1 = adv(st, 1);
    lemma_stream_parts(d, s1, cfg, fl, st.pos);
    if let Ok((_, s2)) = p_atom_only(d, s1, cfg) {
        lemma_stream_parts(d, s2, cfg, fl, st.pos);
        if let Ok((_, s3)) = p_atom_only(d, s2, cfg) {
            if s3.pos > st.pos && s3.pos <= d.len() {
                if let Some(s4) = claim(cfg, s3, TERM_CELL as int, TERM_ALIGN as int, 1) {
                    if let Some(s5) = claim(cfg, s4, FRAME_CELL as int, FRAME_ALIGN as int, 1) {
                        lemma_stream_seq(d, s5, 1, h + 1, cfg, fl);
                    }
                }
            }
        }
    }
}

/// A record decodes as completely as the streaming way says.
proof fn lemma_stream_record(d: Seq<u8>, st: PState, h: int, cfg: ParseCfg, fl: spec_fn(int) -> Option<u64>)
    requires
        0 <= st.pos < d.len(),
    ensures
        p_record(d, st, h, complete_cfg(cfg), fl) == as_complete(p_record(d, st, h, cfg, fl)),
    decreases d.len() - st.pos, 1int, 0int,
{
    reveal(short_error);
    if let Ok((n, s2)) = p_uint(d, adv(st, 1), cfg, 4) {
        if let Ok((_, s3)) = p_uint(d, s2, cfg, 1) {
            if s3.pos > st.pos && s3.pos <= d.len() {
                if let Some(s4) = claim(cfg, s3, TERM_CELL as int, TERM_ALIGN as int, 1) {
                    if let Some(s5) = claim(cfg, s4, FRAME_CELL as int, FRAME_ALIGN as int, 1) {
                        lemma_stream_seq(d, s5, 2 * n + 2, h + 1, cfg, fl);
                    }
                }
            }
        }
    }
}

/// A sequence of terms decodes as completely as the streaming way says.
pub proof fn lemma_stream_seq(d: Seq<u8>, st: PState, n: int, h: int, cfg: ParseCfg, fl: spec_fn(int) -> Option<u64>)
    ensures
        p_seq(d, st, n, h, complete_cfg(cfg), fl) == as_complete(p_seq(d, st, n, h, cfg, fl)),
    decreases d.len() - st.pos, 2int, n,
{
    if n > 0 {
        lemma_stream_term(d, st, h, cfg, fl);
        lemma_term_advances(d, st, h, cfg, fl);
        if let Ok((t, s1)) = p_term(d, st, h, cfg, fl) {
            if s1.pos > st.pos && s1.pos <= d.len() {
                lemma_stream_seq(d, s1, n - 1, h, cfg, fl);
            }
        }
    }
}

/// A sequence of pairs decodes as completely as the streaming way says.
pub proof fn lemma_stream_pairs(d: Seq<u8>, st: PState, n: int, h: int, cfg: ParseCfg, fl: spec_fn(int) -> Option<u64>)
    ensures
        p_pairs(d, st, n, h, complete_cfg(cfg), fl) == as_complete(p_pairs(d, st, n, h, cfg, fl)),
    decreases d.len() - st.pos, 2int, n,
{
    if n > 0 {
        lemma_stream_term(d, st, h, cfg, fl);
        lemma_term_advances(d, st, h, cfg, fl);
        if let Ok((k, s1)) = p_term(d, st, h, cfg, fl) {
            if s1.pos > st.pos && s1.pos <= d.len() {
                lemma_stream_term(d, s1, h, cfg, fl);
                lemma_term_advances(d, s1, h, cfg, fl);
                if let Ok((v, s2)) = p_term(d, s1, h, cfg, fl) {
                    if s2.pos > s1.pos && s2.pos <= d.len() {
                        lemma_stream_pairs(d, s2, n - 1, h, cfg, fl);
                    }
                }
            }
        }
    }
}

/// `v` with an "incomplete" error read as the input ending unexpectedly.
pub open spec fn vcomplete(v: Visit) -> Visit {
    Visit {
        events: v.events,
        end: match v.end {
            Err(EtfError::Incomplete(_)) => Err(EtfError::UnexpectedEof),
            other => other,
        },
    }
}

/// Reading the end of a visit as complete commutes with the events around
/// it.
proof fn lemma_vcomplete_frame(evs: Seq<VisitEvent>, v: Visit, ev: VisitEvent)
    ensures
        vcomplete(vpre(evs, v)) == vpre(evs, vcomplete(v)),
        vcomplete(vpost(v, ev)) == vpost(vcomplete(v), ev),
{
}

/// The parts of a visit decode at every state as completely as the
/// streaming way says.
proof fn lemma_stream_parts_everywhere(d: Seq<u8>, cfg: ParseCfg, fl: spec_fn(int) -> Option<u64>)
    ensures
        forall|st: PState, w: int| #[trigger] p_uint(d, st, complete_cfg(cfg), w) == as_complete(p_uint(d, st, cfg, w)),
        forall|st: PState, n: int| #[trigger] p_bytes(d, st, complete_cfg(cfg), n) == as_complete(p_bytes(d, st, cfg, n)),
        forall|st: PState, w: int| #[trigger] p_atom_body(d, st, complete_cfg(cfg), w) == as_complete(p_atom_body(d, st, cfg, w)),
        forall|st: PState, a: int| #[trigger] p_legacy_float(d, st, complete_cfg(cfg), a, fl) == as_complete(p_legacy_float(d, st, cfg, a, fl)),
{
    assert forall|st: PState, w: int| #[trigger] p_uint(d, st, complete_cfg(cfg), w) == as_complete(p_uint(d, st, cfg, w)) by {
        lemma_stream_parts(d, st, cfg, fl, 0);
    }
    assert forall|st: PState, n: int| #[trigger] p_bytes(d, st, complete_cfg(cfg), n) == as_complete(p_bytes(d, st, cfg, n)) by {
        lemma_stream_parts(d, st, cfg, fl, 0);
    }
    assert forall|st: PState, w: int| #[trigger] p_atom_body(d, st, complete_cfg(cfg), w) == as_complete(p_atom_body(d, st, cfg, w)) by {
        lemma_stream_parts(d, st, cfg, fl, 0);
    }
    assert forall|st: PState, a: int| #[trigger] p_legacy_float(d, st, complete_cfg(cfg), a, fl) == as_complete(p_legacy_float(d, st, cfg, a, fl)) by {
        lemma_stream_parts(d, st, cfg, fl, a);
    }
}

/// A leaf is visited as completely as the streaming way says.
#[verifier::rlimit(40)]
proof fn lemma_vstream_leaf(d: Seq<u8>, p: int, cfg: ParseCfg, fl: spec_fn(int) -> Option<u64>)
    requires
        0 <= p < d.len(),
    ensures
        v_leaf(d, p, complete_cfg(cfg), fl) == vcomplete(v_leaf(d, p, cfg, fl)),
{
    reveal(short_error);
    lemma_stream_parts_everywhere(d, cfg, fl);
}

/// One term is visited as completely as the streaming way says.
pub proof fn lemma_vstream_term(d: Seq<u8>, p: int, h: int, cfg: ParseCfg, fl: spec_fn(int) -> Option<u64>)
    ensures
        v_term(d, p, h, complete_cfg(cfg), fl) == vcomplete(v_term(d, p, h, cfg, fl)),
    decreases d.len() - p, 1int, 1int,
{
    reveal(short_error);
    if h <= cfg.limits.max_depth && 0 <= p && p + 1 <= d.len() {
        if !visits_nested(d[p]) {
            lemma_vstream_leaf(d, p, cfg, fl);
        } else {
            lemma_vstream_nested(d, p, h, cfg, fl);
        }
    }
}

/// A term whose tag nests other terms is visited as completely as the
/// streaming way says.
#[verifier::rlimit(60)]
proof fn lemma_vstream_nested(d: Seq<u8>, p: int, h: int, cfg: ParseCfg, fl: spec_fn(int) -> Option<u64>)
    requires
        0 <= p < d.len(),
    ensures
        v_nested(d, p, h, complete_cfg(cfg), fl) == vcomplete(v_nested(d, p, h, cfg, fl)),
    decreases d.len() - p, 1int, 0int,
{
    reveal(short_error);
    lemma_stream_parts_everywhere(d, cfg, fl);
    let ccfg = complete_cfg(cfg);
    let tag = d[p];
    let s1 = at(p + 1);
    if tag == SMALL_TUPLE_EXT || tag == LARGE_TUPLE_EXT || tag == MAP_EXT {
        let w = if tag == SMALL_TUPLE_EXT { 1int } else { 4int };
        if let Ok((n, s)) = p_uint(d, s1, cfg, w) {
            if s.pos > p && s.pos <= d.len() {
                let m = if tag == MAP_EXT { 2 * n } else { n };
                lemma_vstream_seq(d, s.pos, m, h + 1, cfg, fl);
                let start = if tag == MAP_EXT { VisitEvent::MapStart(n) } else { VisitEvent::TupleStart(n) };
                let end = if tag == MAP_EXT { VisitEvent::MapEnd } else { VisitEvent::TupleEnd };
                lemma_vcomplete_frame(seq![start], v_seq(d, s.pos, m, h + 1, cfg, fl), end);
                lemma_vcomplete_frame(seq![start], vpre(seq![start], v_seq(d, s.pos, m, h + 1, cfg, fl)), end);
            }
        }
    } else if tag == LIST_EXT {
        if let Ok((n, s)) = p_uint(d, s1, cfg, 4) {
            if s.pos > p && s.pos <= d.len() {
                lemma_vstream_seq(d, s.pos, n, h + 1, cfg, fl);
                lemma_v_seq_advances(d, s.pos, n, h + 1, cfg, fl);
                let body = vpre(seq![VisitEvent::ListStart(n)], v_seq(d, s.pos, n, h + 1, cfg, fl));
                if let Ok(q) = body.end {
                    if q > p && q < d.len() && d[q] != NIL_EXT {
                        lemma_vstream_term(d, q, h + 1, cfg, fl);
                        let tail = v_term(d, q, h + 1, cfg, fl);
                        let tevs = body.events.push(VisitEvent::ImproperListTail);
                        lemma_vcomplete_frame(tevs, tail, VisitEvent::ImproperListEnd);
                        lemma_vcomplete_frame(tevs, vpre(tevs, tail), VisitEvent::ImproperListEnd);
                    }
                }
            }
        }
    } else if tag == PID_EXT || tag == NEW_PID_EXT || tag == PORT_EXT || tag == NEW_PORT_EXT || tag == V4_PORT_EXT {
        lemma_vstream_term(d, p + 1, h + 1, cfg, fl);
    } else if tag == NEW_REFERENCE_EXT || tag == NEWER_REFERENCE_EXT {
        if let Ok((len, s2)) = p_uint(d, s1, cfg, 2) {
            if s2.pos > p && s2.pos <= d.len() {
                lemma_vstream_term(d, s2.pos, h + 1, cfg, fl);
            }
        }
    } else if tag == EXPORT_EXT {
        lemma_vstream_seq(d, p + 1, 3, h + 1, cfg, fl);
    } else {
        if let Ok((n, s2)) = p_uint(d, s1, cfg, 4) {
            if let Ok((_, s3)) = p_uint(d, s2, cfg, 1) {
                if s3.pos > p && s3.pos <= d.len() {
                    lemma_vstream_seq(d, s3.pos, 2 * n + 2, h + 1, cfg, fl);
                }
            }
        }
    }
}

/// A sequence of terms is visited as completely as the streaming way says.
pub proof fn lemma_vstream_seq(d: Seq<u8>, p: int, n: int, h: int, cfg: ParseCfg, fl: spec_fn(int) -> Option<u64>)
    requires
        p <= d.len(),
    ensures
        v_seq(d, p, n, h, complete_cfg(cfg), fl) == vcomplete(v_seq(d, p, n, h, cfg, fl)),
    decreases d.len() - p, 2int, n,
{
    if n > 0 {
        lemma_vstream_term(d, p, h, cfg, fl);
        lemma_v_term_advances(d, p, h, cfg, fl);
        if let Ok(q) = v_term(d, p, h, cfg, fl).end {
            if q > p && q <= d.len() {
                lemma_vstream_seq(d, q, n - 1, h, cfg, fl);
                lemma_vcomplete_frame(v_term(d, p, h, cfg, fl).events, v_seq(d, q, n - 1, h, cfg, fl), VisitEvent::ListEnd);
            }
        }
    }
}

} // verus!
