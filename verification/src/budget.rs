//! The arena only bounds a decode: over a bounded arena a decode gives what
//! it gives over an unbounded one, or runs out of arena.

use vstd::prelude::*;

use crate::error::EtfError;
use crate::grammar::{
    claim, lemma_term_advances, p_export,
    p_leaf, p_list, p_map, p_pairs, p_record, p_seq, p_term, p_tuple, PResult, PState, ParseCfg,
};
use crate::types::TermModel;

verus! {

/// The configuration `cfg` with an arena that is never exhausted.
pub open spec fn unbounded(cfg: ParseCfg) -> ParseCfg {
    ParseCfg { limits: cfg.limits, streaming: cfg.streaming, bounded: false, arena_end: 0 }
}

/// `b` is `u`, up to where the arena pointer ends, or the arena ran out.
pub open spec fn within_budget<T>(b: PResult<T>, u: PResult<T>) -> bool {
    ||| b == Err::<(T, PState), EtfError>(EtfError::ArenaExhausted)
    ||| (b matches Err(eb) && u matches Err(eu) && eb == eu)
    ||| (b matches Ok((vb, sb)) && u matches Ok((vu, su)) && vb == vu && sb.pos == su.pos)
}

/// `b` is `u`, up to where the arena pointer ends.
pub open spec fn same_outcome<T>(b: PResult<T>, u: PResult<T>) -> bool {
    ||| (b matches Err(eb) && u matches Err(eu) && eb == eu)
    ||| (b matches Ok((vb, sb)) && u matches Ok((vu, su)) && vb == vu && sb.pos == su.pos)
}

/// The parts of a leaf decode the same over any arena.
proof fn lemma_same_parts(d: Seq<u8>, sb: PState, su: PState, cfg: ParseCfg, fl: spec_fn(int) -> Option<u64>, at: int)
    requires
        sb.pos == su.pos,
    ensures
        forall|w: int| same_outcome(#[trigger] crate::grammar::p_uint(d, sb, cfg, w), crate::grammar::p_uint(d, su, unbounded(cfg), w)),
        forall|n: int| same_outcome(#[trigger] crate::grammar::p_bytes(d, sb, cfg, n), crate::grammar::p_bytes(d, su, unbounded(cfg), n)),
        forall|w: int| same_outcome(#[trigger] crate::grammar::p_atom_body(d, sb, cfg, w), crate::grammar::p_atom_body(d, su, unbounded(cfg), w)),
        same_outcome(crate::grammar::p_atom_only(d, sb, cfg), crate::grammar::p_atom_only(d, su, unbounded(cfg))),
        forall|w: int| same_outcome(#[trigger] crate::grammar::p_big(d, sb, cfg, w), crate::grammar::p_big(d, su, unbounded(cfg), w)),
        same_outcome(crate::grammar::p_binary(d, sb, cfg), crate::grammar::p_binary(d, su, unbounded(cfg))),
        same_outcome(crate::grammar::p_bit_binary(d, sb, cfg), crate::grammar::p_bit_binary(d, su, unbounded(cfg))),
        same_outcome(crate::grammar::p_legacy_float(d, sb, cfg, at, fl), crate::grammar::p_legacy_float(d, su, unbounded(cfg), at, fl)),
        within_budget(crate::grammar::p_string(d, sb, cfg), crate::grammar::p_string(d, su, unbounded(cfg))),
{
    assert forall|w: int| same_outcome(#[trigger] crate::grammar::p_atom_body(d, sb, cfg, w), crate::grammar::p_atom_body(d, su, unbounded(cfg), w)) by {
        if let Ok((len, s1)) = crate::grammar::p_uint(d, sb, cfg, w) {
            assert(crate::grammar::p_uint(d, su, unbounded(cfg), w) matches Ok((l2, t1)) && l2 == len && t1.pos == s1.pos);
        }
    }
    assert(same_outcome(crate::grammar::p_atom_only(d, sb, cfg), crate::grammar::p_atom_only(d, su, unbounded(cfg)))) by {
        let s1b = crate::grammar::adv(sb, 1);
        let s1u = crate::grammar::adv(su, 1);
        if let Ok((len, s2)) = crate::grammar::p_uint(d, s1b, cfg, 2) {}
        if let Ok((len, s2)) = crate::grammar::p_uint(d, s1b, cfg, 1) {}
    }
}

/// A PID, port, reference or fun body decodes the same over any arena.
proof fn lemma_same_opaque(d: Seq<u8>, sb: PState, su: PState, cfg: ParseCfg, at: int)
    requires
        sb.pos == su.pos,
    ensures
        forall|n: int, pid: bool| same_outcome(#[trigger] crate::grammar::p_node_id(d, sb, cfg, at, n, pid), crate::grammar::p_node_id(d, su, unbounded(cfg), at, n, pid)),
        forall|cw: int| same_outcome(#[trigger] crate::grammar::p_ref(d, sb, cfg, at, cw), crate::grammar::p_ref(d, su, unbounded(cfg), at, cw)),
        same_outcome(crate::grammar::p_new_fun(d, sb, cfg, at), crate::grammar::p_new_fun(d, su, unbounded(cfg), at)),
{
    let fl = |i: int| None::<u64>;
    lemma_same_parts(d, sb, su, cfg, fl, at);
    assert forall|n: int, pid: bool| same_outcome(#[trigger] crate::grammar::p_node_id(d, sb, cfg, at, n, pid), crate::grammar::p_node_id(d, su, unbounded(cfg), at, n, pid)) by {
        if let Ok((_, s1b)) = crate::grammar::p_atom_only(d, sb, cfg) {
            let s1u = PState { pos: s1b.pos, ptr: su.ptr };
            lemma_same_parts(d, s1b, s1u, cfg, fl, at);
        }
    }
    assert forall|cw: int| same_outcome(#[trigger] crate::grammar::p_ref(d, sb, cfg, at, cw), crate::grammar::p_ref(d, su, unbounded(cfg), at, cw)) by {
        if let Ok((len, s1b)) = crate::grammar::p_uint(d, sb, cfg, 2) {
            let s1u = PState { pos: s1b.pos, ptr: su.ptr };
            lemma_same_parts(d, s1b, s1u, cfg, fl, at);
            if let Ok((_, s2b)) = crate::grammar::p_atom_only(d, s1b, cfg) {
                let s2u = PState { pos: s2b.pos, ptr: su.ptr };
                lemma_same_parts(d, s2b, s2u, cfg, fl, at);
                if let Ok((_, s3b)) = crate::grammar::p_uint(d, s2b, cfg, cw) {
                    let s3u = PState { pos: s3b.pos, ptr: su.ptr };
                    lemma_same_parts(d, s3b, s3u, cfg, fl, at);
                }
            }
        }
    }
    if let Ok((size, s1b)) = crate::grammar::p_uint(d, sb, cfg, 4) {
        let s1u = PState { pos: s1b.pos, ptr: su.ptr };
        lemma_same_parts(d, s1b, s1u, cfg, fl, at);
    }
}

/// A leaf decodes the same over any arena, or runs out of it.
#[verifier::rlimit(40)]
proof fn lemma_budget_leaf(d: Seq<u8>, sb: PState, su: PState, cfg: ParseCfg, fl: spec_fn(int) -> Option<u64>)
    requires
        sb.pos == su.pos,
        0 <= sb.pos < d.len(),
    ensures
        within_budget(p_leaf(d, sb, cfg, fl), p_leaf(d, su, unbounded(cfg), fl)),
{
    let s1b = crate::grammar::adv(sb, 1);
    let s1u = crate::grammar::adv(su, 1);
    lemma_same_parts(d, s1b, s1u, cfg, fl, sb.pos);
    lemma_same_opaque(d, s1b, s1u, cfg, sb.pos);
}

/// One term decodes the same over any arena, or runs out of it.
pub proof fn lemma_budget_term(
    d: Seq<u8>,
    sb: PState,
    su: PState,
    h: int,
    cfg: ParseCfg,
    fl: spec_fn(int) -> Option<u64>,
)
    requires
        sb.pos == su.pos,
    ensures
        within_budget(p_term(d, sb, h, cfg, fl), p_term(d, su, h, unbounded(cfg), fl)),
    decreases d.len() - sb.pos, 1int, 1int,
{
    if h <= cfg.limits.max_depth && 0 <= sb.pos && sb.pos + 1 <= d.len() {
        lemma_budget_leaf(d, sb, su, cfg, fl);
        lemma_budget_tuple(d, sb, su, h, cfg, fl);
        lemma_budget_list(d, sb, su, h, cfg, fl);
        lemma_budget_map(d, sb, su, h, cfg, fl);
        lemma_budget_export(d, sb, su, h, cfg, fl);
        lemma_budget_record(d, sb, su, h, cfg, fl);
    }
}

/// A tuple decodes the same over any arena, or runs out of it.
proof fn lemma_budget_tuple(d: Seq<u8>, sb: PState, su: PState, h: int, cfg: ParseCfg, fl: spec_fn(int) -> Option<u64>)
    requires
        sb.pos == su.pos,
        0 <= sb.pos < d.len(),
    ensures
        within_budget(p_tuple(d, sb, h, cfg, fl), p_tuple(d, su, h, unbounded(cfg), fl)),
    decreases d.len() - sb.pos, 1int, 0int,
{
    let s1b = crate::grammar::adv(sb, 1);
    let w = if d[sb.pos] == crate::tags::SMALL_TUPLE_EXT { 1int } else { 4int };
    if let Ok((arity, s2b)) = crate::grammar::p_uint(d, s1b, cfg, w) {
        let s2u = PState { pos: s2b.pos, ptr: su.ptr };
        if s2b.pos > sb.pos && s2b.pos <= d.len() {
            if let Some(s3b) = claim(cfg, s2b, crate::arena::TERM_CELL as int, crate::arena::TERM_ALIGN as int, arity) {
                if let Some(s4b) = claim(cfg, s3b, crate::arena::FRAME_CELL as int, crate::arena::FRAME_ALIGN as int, 1) {
                    lemma_budget_seq(d, s4b, s2u, arity, h + 1, cfg, fl);
                }
            }
        }
    }
}

/// A list decodes the same over any arena, or runs out of it.
proof fn lemma_budget_list(d: Seq<u8>, sb: PState, su: PState, h: int, cfg: ParseCfg, fl: spec_fn(int) -> Option<u64>)
    requires
        sb.pos == su.pos,
        0 <= sb.pos < d.len(),
    ensures
        within_budget(p_list(d, sb, h, cfg, fl), p_list(d, su, h, unbounded(cfg), fl)),
    decreases d.len() - sb.pos, 1int, 0int,
{
    let s1b = crate::grammar::adv(sb, 1);
    if let Ok((len, s2b)) = crate::grammar::p_uint(d, s1b, cfg, 4) {
        let s2u = PState { pos: s2b.pos, ptr: su.ptr };
        if s2b.pos > sb.pos && s2b.pos <= d.len() {
            if let Some(s3b) = claim(cfg, s2b, crate::arena::TERM_CELL as int, crate::arena::TERM_ALIGN as int, len + 1) {
                if let Some(s4b) = claim(cfg, s3b, crate::arena::FRAME_CELL as int, crate::arena::FRAME_ALIGN as int, 1) {
                    lemma_budget_seq(d, s4b, s2u, len + 1, h + 1, cfg, fl);
                }
            }
        }
    }
}

/// A map decodes the same over any arena, or runs out of it.
proof fn lemma_budget_map(d: Seq<u8>, sb: PState, su: PState, h: int, cfg: ParseCfg, fl: spec_fn(int) -> Option<u64>)
    requires
        sb.pos == su.pos,
        0 <= sb.pos < d.len(),
    ensures
        within_budget(p_map(d, sb, h, cfg, fl), p_map(d, su, h, unbounded(cfg), fl)),
    decreases d.len() - sb.pos, 1int, 0int,
{
    let s1b = crate::grammar::adv(sb, 1);
    if let Ok((len, s2b)) = crate::grammar::p_uint(d, s1b, cfg, 4) {
        let s2u = PState { pos: s2b.pos, ptr: su.ptr };
        if s2b.pos > sb.pos && s2b.pos <= d.len() {
            if let Some(s3b) = claim(cfg, s2b, crate::arena::PAIR_CELL as int, crate::arena::TERM_ALIGN as int, len) {
                if let Some(s4b) = claim(cfg, s3b, crate::arena::FRAME_CELL as int, crate::arena::FRAME_ALIGN as int, 1) {
                    lemma_budget_pairs(d, s4b, s2u, len, h + 1, cfg, fl);
                }
            }
        }
    }
}

/// An export decodes the same over any arena, or runs out of it.
proof fn lemma_budget_export(d: Seq<u8>, sb: PState, su: PState, h: int, cfg: ParseCfg, fl: spec_fn(int) -> Option<u64>)
    requires
        sb.pos == su.pos,
        0 <= sb.pos < d.len(),
    ensures
        within_budget(p_export(d, sb, h, cfg, fl), p_export(d, su, h, unbounded(cfg), fl)),
    decreases d.len() - sb.pos, 1int, 0int,
{
    let s1b = crate::grammar::adv(sb, 1);
    let s1u = crate::grammar::adv(su, 1);
    lemma_same_parts(d, s1b, s1u, cfg, fl, sb.pos);
    if let Ok((_, s2b)) = crate::grammar::p_atom_only(d, s1b, cfg) {
        let s2u = PState { pos: s2b.pos, ptr: su.ptr };
        lemma_same_parts(d, s2b, s2u, cfg, fl, sb.pos);
        if let Ok((_, s3b)) = crate::grammar::p_atom_only(d, s2b, cfg) {
            let s3u = PState { pos: s3b.pos, ptr: su.ptr };
            if s3b.pos > sb.pos && s3b.pos <= d.len() {
                if let Some(s4b) = claim(cfg, s3b, crate::arena::TERM_CELL as int, crate::arena::TERM_ALIGN as int, 1) {
                    if let Some(s5b) = claim(cfg, s4b, crate::arena::FRAME_CELL as int, crate::arena::FRAME_ALIGN as int, 1) {
                        lemma_budget_seq(d, s5b, s3u, 1, h + 1, cfg, fl);
                    }
                }
            }
        }
    }
}

/// A record decodes the same over any arena, or runs out of it.
proof fn lemma_budget_record(d: Seq<u8>, sb: PState, su: PState, h: int, cfg: ParseCfg, fl: spec_fn(int) -> Option<u64>)
    requires
        sb.pos == su.pos,
        0 <= sb.pos < d.len(),
    ensures
        within_budget(p_record(d, sb, h, cfg, fl), p_record(d, su, h, unbounded(cfg), fl)),
    decreases d.len() - sb.pos, 1int, 0int,
{
    let s1b = crate::grammar::adv(sb, 1);
    if let Ok((n, s2b)) = crate::grammar::p_uint(d, s1b, cfg, 4) {
        if let Ok((_, s3b)) = crate::grammar::p_uint(d, s2b, cfg, 1) {
            let s3u = PState { pos: s3b.pos, ptr: su.ptr };
            if s3b.pos > sb.pos && s3b.pos <= d.len() {
                if let Some(s4b) = claim(cfg, s3b, crate::arena::TERM_CELL as int, crate::arena::TERM_ALIGN as int, 1) {
                    if let Some(s5b) = claim(cfg, s4b, crate::arena::FRAME_CELL as int, crate::arena::FRAME_ALIGN as int, 1) {
                        lemma_budget_seq(d, s5b, s3u, 2 * n + 2, h + 1, cfg, fl);
                    }
                }
            }
        }
    }
}

/// A sequence of terms decodes the same over any arena, or runs out of it.
pub proof fn lemma_budget_seq(
    d: Seq<u8>,
    sb: PState,
    su: PState,
    n: int,
    h: int,
    cfg: ParseCfg,
    fl: spec_fn(int) -> Option<u64>,
)
    requires
        sb.pos == su.pos,
    ensures
        within_budget(p_seq(d, sb, n, h, cfg, fl), p_seq(d, su, n, h, unbounded(cfg), fl)),
    decreases d.len() - sb.pos, 2int, n,
{
    if n > 0 {
        lemma_budget_term(d, sb, su, h, cfg, fl);
        lemma_term_advances(d, sb, h, cfg, fl);
        if let Ok((tb, s1b)) = p_term(d, sb, h, cfg, fl) {
            if let Ok((tu, s1u)) = p_term(d, su, h, unbounded(cfg), fl) {
                if s1b.pos > sb.pos && s1b.pos <= d.len() {
                    lemma_budget_seq(d, s1b, s1u, n - 1, h, cfg, fl);
                }
            }
        }
    }
}

/// A sequence of pairs decodes the same over any arena, or runs out of it.
pub proof fn lemma_budget_pairs(
    d: Seq<u8>,
    sb: PState,
    su: PState,
    n: int,
    h: int,
    cfg: ParseCfg,
    fl: spec_fn(int) -> Option<u64>,
)
    requires
        sb.pos == su.pos,
    ensures
        within_budget(p_pairs(d, sb, n, h, cfg, fl), p_pairs(d, su, n, h, unbounded(cfg), fl)),
    decreases d.len() - sb.pos, 2int, n,
{
    if n > 0 {
        lemma_budget_term(d, sb, su, h, cfg, fl);
        lemma_term_advances(d, sb, h, cfg, fl);
        if let Ok((kb, s1b)) = p_term(d, sb, h, cfg, fl) {
            if let Ok((ku, s1u)) = p_term(d, su, h, unbounded(cfg), fl) {
                if s1b.pos > sb.pos && s1b.pos <= d.len() {
                    lemma_budget_term(d, s1b, s1u, h, cfg, fl);
                    lemma_term_advances(d, s1b, h, cfg, fl);
                    if let Ok((vb, s2b)) = p_term(d, s1b, h, cfg, fl) {
                        if let Ok((vu, s2u)) = p_term(d, s1u, h, unbounded(cfg), fl) {
                            if s2b.pos > s1b.pos && s2b.pos <= d.len() {
                                lemma_budget_pairs(d, s2b, s2u, n - 1, h, cfg, fl);
                            }
                        }
                    }
                }
            }
        }
    }
}

} // verus!
