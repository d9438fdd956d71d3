//! The grammar of the Erlang External Term Format, as spec functions.
//!
//! `p_term` states, for an input sequence, a position, a nesting height
//! and a configuration, what decoding one term yields: the term's model and
//! the position after it, or the error the decoder reports.  The decoder in
//! `parser.rs` is proved to compute exactly this.
//!
//! Two things are threaded through besides the position: the bump pointer
//! of the arena (see `arena.rs`), and — through `fl`, keyed by the offset of
//! the tag byte — the value the float-text hook gave each legacy
//! `FLOAT_EXT`.

use vstd::prelude::*;

use crate::arena::{spec_alloc, FRAME_ALIGN, FRAME_CELL, PAIR_CELL, TERM_ALIGN, TERM_CELL};
use crate::cursor::{be_u16_at, be_u32_at, be_u64_at, short_error};
use crate::error::EtfError;
use crate::limits::Limits;
use crate::tags::{
    ATOM_UTF8_EXT, BINARY_EXT, BIT_BINARY_EXT, EXPORT_EXT, FLOAT_EXT, INTEGER_EXT, LARGE_BIG_EXT,
    LARGE_TUPLE_EXT, LIST_EXT, MAP_EXT, NEWER_REFERENCE_EXT, NEW_FLOAT_EXT, NEW_FUN_EXT,
    NEW_PID_EXT, NEW_PORT_EXT, NEW_REFERENCE_EXT, NIL_EXT, PID_EXT, PORT_EXT, RECORD_EXT,
    SMALL_ATOM_UTF8_EXT, SMALL_BIG_EXT, SMALL_INTEGER_EXT, SMALL_TUPLE_EXT, STRING_EXT,
    V4_PORT_EXT,
};
use crate::types::TermModel;
use vstd::utf8::valid_utf8;

verus! {

/// What a decode is run with: the limits, whether short reads mean "more
/// data may come", and the arena (when `bounded`; the region ends at
/// `arena_end`).  An unbounded decode never runs out of arena.
pub struct ParseCfg {
    pub limits: Limits,
    pub streaming: bool,
    pub bounded: bool,
    pub arena_end: int,
}

/// The position in the input and the bump pointer of the arena.
pub struct PState {
    pub pos: int,
    pub ptr: int,
}

/// The outcome of decoding a `T`: the value and the state after it, or an error.
pub type PResult<T> = Result<(T, PState), EtfError>;

/// The error a read that needs `n` more bytes than the input holds yields
/// under `cfg`.
pub open spec fn short(cfg: ParseCfg, n: int) -> EtfError {
    short_error(cfg.streaming, n)
}

/// The state after skipping `n` bytes.
pub open spec fn adv(st: PState, n: int) -> PState {
    PState { pos: st.pos + n, ptr: st.ptr }
}

/// The state after claiming `count` cells of `size` bytes aligned to
/// `align` from the arena, or `None` when the arena is exhausted.
pub open spec fn claim(cfg: ParseCfg, st: PState, size: int, align: int, count: int) -> Option<PState> {
    if !cfg.bounded {
        Some(st)
    } else {
        match spec_alloc(st.ptr, cfg.arena_end, size, align, count) {
            Some((_, next)) => Some(PState { pos: st.pos, ptr: next }),
            None => None,
        }
    }
}

/// The `n` bytes at the current position.
pub open spec fn p_bytes(d: Seq<u8>, st: PState, cfg: ParseCfg, n: int) -> PResult<Seq<u8>> {
    if st.pos + n > d.len() {
        Err(short(cfg, st.pos + n - d.len()))
    } else {
        Ok((d.subrange(st.pos, st.pos + n), adv(st, n)))
    }
}

/// An unsigned big-endian integer of `w` bytes (1, 2 or 4).
pub open spec fn p_uint(d: Seq<u8>, st: PState, cfg: ParseCfg, w: int) -> PResult<int> {
    if st.pos + w > d.len() {
        Err(short(cfg, st.pos + w - d.len()))
    } else if w == 1 {
        Ok((d[st.pos] as int, adv(st, 1)))
    } else if w == 2 {
        Ok((be_u16_at(d, st.pos), adv(st, 2)))
    } else {
        Ok((be_u32_at(d, st.pos), adv(st, 4)))
    }
}

/// The index of the first zero byte of `s` at or after `i`, or `s.len()`.
pub open spec fn first_zero_from(s: Seq<u8>, i: int) -> int
    decreases s.len() - i,
{
    if i >= s.len() {
        s.len() as int
    } else if s[i] == 0 {
        i
    } else {
        first_zero_from(s, i + 1)
    }
}

/// An atom body whose length field has `w` bytes.
pub open spec fn p_atom_body(d: Seq<u8>, st: PState, cfg: ParseCfg, w: int) -> PResult<Seq<u8>> {
    match p_uint(d, st, cfg, w) {
        Err(e) => Err(e),
        Ok((len, s1)) => if len > cfg.limits.max_atom_len {
            Err(EtfError::AtomTooLarge)
        } else {
            p_bytes(d, s1, cfg, len)
        },
    }
}

/// A field that must be an atom (node, module or function name).
pub open spec fn p_atom_only(d: Seq<u8>, st: PState, cfg: ParseCfg) -> PResult<Seq<u8>> {
    if st.pos + 1 > d.len() {
        Err(short(cfg, 1))
    } else if d[st.pos] == ATOM_UTF8_EXT {
        p_atom_body(d, adv(st, 1), cfg, 2)
    } else if d[st.pos] == SMALL_ATOM_UTF8_EXT {
        p_atom_body(d, adv(st, 1), cfg, 1)
    } else {
        Err(EtfError::InvalidAtomField)
    }
}

/// Wrap a decoded byte payload into a term.
pub open spec fn wrap(r: PResult<Seq<u8>>, f: spec_fn(Seq<u8>) -> TermModel) -> PResult<TermModel> {
    match r {
        Err(e) => Err(e),
        Ok((b, s)) => Ok((f(b), s)),
    }
}

/// A bignum body (after the tag) whose digit count has `w` bytes.
pub open spec fn p_big(d: Seq<u8>, st: PState, cfg: ParseCfg, w: int) -> PResult<TermModel> {
    match p_uint(d, st, cfg, w) {
        Err(e) => Err(e),
        Ok((len, s1)) => if len > cfg.limits.max_bignum_size {
            Err(EtfError::BinaryTooLarge)
        } else {
            match p_uint(d, s1, cfg, 1) {
                Err(e) => Err(e),
                Ok((sign, s2)) => match p_bytes(d, s2, cfg, len) {
                    Err(e) => Err(e),
                    Ok((digits, s3)) => Ok((TermModel::BigInt { sign: sign as u8, digits }, s3)),
                },
            }
        },
    }
}

/// A `BINARY_EXT` body.
pub open spec fn p_binary(d: Seq<u8>, st: PState, cfg: ParseCfg) -> PResult<TermModel> {
    match p_uint(d, st, cfg, 4) {
        Err(e) => Err(e),
        Ok((len, s1)) => if len > cfg.limits.max_binary_size {
            Err(EtfError::BinaryTooLarge)
        } else {
            wrap(p_bytes(d, s1, cfg, len), |b| TermModel::Binary(b))
        },
    }
}

/// A `BIT_BINARY_EXT` body.
pub open spec fn p_bit_binary(d: Seq<u8>, st: PState, cfg: ParseCfg) -> PResult<TermModel> {
    match p_uint(d, st, cfg, 4) {
        Err(e) => Err(e),
        Ok((len, s1)) => if len > cfg.limits.max_bit_binary_size {
            Err(EtfError::BinaryTooLarge)
        } else {
            match p_uint(d, s1, cfg, 1) {
                Err(e) => Err(e),
                Ok((bits, s2)) => wrap(
                    p_bytes(d, s2, cfg, len),
                    |b| TermModel::BitBinary { bits: bits as u8, data: b },
                ),
            }
        },
    }
}

/// The list of byte-sized integers a `STRING_EXT` expands to.
pub open spec fn string_ints(b: Seq<u8>) -> Seq<TermModel> {
    Seq::new(b.len(), |i: int| TermModel::Int(b[i] as i32))
}

/// A `STRING_EXT` body.
pub open spec fn p_string(d: Seq<u8>, st: PState, cfg: ParseCfg) -> PResult<TermModel> {
    match p_uint(d, st, cfg, 2) {
        Err(e) => Err(e),
        Ok((len, s1)) => if len > cfg.limits.max_string_len {
            Err(EtfError::ListTooLarge)
        } else {
            match p_bytes(d, s1, cfg, len) {
                Err(e) => Err(e),
                Ok((b, s2)) => if cfg.limits.expand_string_ext_to_list {
                    match claim(cfg, s2, TERM_CELL as int, TERM_ALIGN as int, len) {
                        None => Err(EtfError::ArenaExhausted),
                        Some(s3) => Ok((TermModel::List(string_ints(b)), s3)),
                    }
                } else {
                    Ok((TermModel::String(b), s2))
                },
            }
        },
    }
}

/// A legacy `FLOAT_EXT` body whose tag is at `at`: 31 bytes of text, cut
/// at the first zero byte, which must be UTF-8; its value is the one the
/// float-text hook gave.
pub open spec fn p_legacy_float(
    d: Seq<u8>,
    st: PState,
    cfg: ParseCfg,
    at: int,
    fl: spec_fn(int) -> Option<u64>,
) -> PResult<TermModel> {
    match p_bytes(d, st, cfg, 31) {
        Err(e) => Err(e),
        Ok((b, s1)) => if !valid_utf8(b.subrange(0, first_zero_from(b, 0))) {
            Err(EtfError::InvalidUtf8)
        } else {
            match fl(at) {
                None => Err(EtfError::InvalidFloat),
                Some(bits) => Ok((TermModel::Float(bits), s1)),
            }
        },
    }
}

/// A PID or port body (tag at `at`): a node atom and `n` bytes; the term
/// holds every byte from the tag on.
pub open spec fn p_node_id(
    d: Seq<u8>,
    st: PState,
    cfg: ParseCfg,
    at: int,
    n: int,
    pid: bool,
) -> PResult<TermModel> {
    match p_atom_only(d, st, cfg) {
        Err(e) => Err(e),
        Ok((_, s1)) => match p_bytes(d, s1, cfg, n) {
            Err(e) => Err(e),
            Ok((_, s2)) => if pid {
                Ok((TermModel::Pid(d.subrange(at, s2.pos)), s2))
            } else {
                Ok((TermModel::Port(d.subrange(at, s2.pos)), s2))
            },
        },
    }
}

/// A reference body (tag at `at`) whose creation field has `cw` bytes.
pub open spec fn p_ref(d: Seq<u8>, st: PState, cfg: ParseCfg, at: int, cw: int) -> PResult<TermModel> {
    match p_uint(d, st, cfg, 2) {
        Err(e) => Err(e),
        Ok((len, s1)) => if len > cfg.limits.max_reference_words {
            Err(EtfError::ReferenceTooLarge)
        } else {
            match p_atom_only(d, s1, cfg) {
                Err(e) => Err(e),
                Ok((_, s2)) => match p_uint(d, s2, cfg, cw) {
                    Err(e) => Err(e),
                    Ok((_, s3)) => match p_bytes(d, s3, cfg, len * 4) {
                        Err(e) => Err(e),
                        Ok((_, s4)) => Ok((TermModel::Ref(d.subrange(at, s4.pos)), s4)),
                    },
                },
            }
        },
    }
}

/// A `NEW_FUN_EXT` body (tag at `at`): a size field counting itself, then
/// the rest of the payload.
pub open spec fn p_new_fun(d: Seq<u8>, st: PState, cfg: ParseCfg, at: int) -> PResult<TermModel> {
    match p_uint(d, st, cfg, 4) {
        Err(e) => Err(e),
        Ok((size, s1)) => if size < 4 {
            Err(EtfError::InvalidSize)
        } else if size - 4 > cfg.limits.max_fun_size {
            Err(EtfError::BinaryTooLarge)
        } else {
            match p_bytes(d, s1, cfg, size - 4) {
                Err(e) => Err(e),
                Ok((_, s2)) => Ok((TermModel::Function(d.subrange(at, s2.pos)), s2)),
            }
        },
    }
}

/// A term with no nested terms (every tag but the compound ones), with
/// its tag at `st.pos`.
pub open spec fn p_leaf(d: Seq<u8>, st: PState, cfg: ParseCfg, fl: spec_fn(int) -> Option<u64>) -> PResult<
    TermModel,
> {
    let tag = d[st.pos];
    let at = st.pos;
    let s1 = adv(st, 1);
    if tag == SMALL_INTEGER_EXT {
        if s1.pos + 1 > d.len() {
            Err(short(cfg, 1))
        } else {
            Ok((TermModel::Int(d[s1.pos] as i32), adv(s1, 1)))
        }
    } else if tag == INTEGER_EXT {
        if s1.pos + 4 > d.len() {
            Err(short(cfg, s1.pos + 4 - d.len()))
        } else {
            Ok((TermModel::Int((be_u32_at(d, s1.pos) as u32) as i32), adv(s1, 4)))
        }
    } else if tag == NEW_FLOAT_EXT {
        if s1.pos + 8 > d.len() {
            Err(short(cfg, s1.pos + 8 - d.len()))
        } else {
            Ok((TermModel::Float(be_u64_at(d, s1.pos) as u64), adv(s1, 8)))
        }
    } else if tag == NIL_EXT {
        Ok((TermModel::List(Seq::empty()), s1))
    } else if tag == ATOM_UTF8_EXT {
        wrap(p_atom_body(d, s1, cfg, 2), |b| TermModel::Atom(b))
    } else if tag == SMALL_ATOM_UTF8_EXT {
        wrap(p_atom_body(d, s1, cfg, 1), |b| TermModel::Atom(b))
    } else if tag == STRING_EXT {
        p_string(d, s1, cfg)
    } else if tag == BINARY_EXT {
        p_binary(d, s1, cfg)
    } else if tag == BIT_BINARY_EXT {
        p_bit_binary(d, s1, cfg)
    } else if tag == SMALL_BIG_EXT {
        p_big(d, s1, cfg, 1)
    } else if tag == LARGE_BIG_EXT {
        p_big(d, s1, cfg, 4)
    } else if tag == FLOAT_EXT {
        p_legacy_float(d, s1, cfg, at, fl)
    } else if tag == PID_EXT {
        p_node_id(d, s1, cfg, at, 9, true)
    } else if tag == NEW_PID_EXT {
        p_node_id(d, s1, cfg, at, 12, true)
    } else if tag == PORT_EXT {
        p_node_id(d, s1, cfg, at, 5, false)
    } else if tag == NEW_PORT_EXT {
        p_node_id(d, s1, cfg, at, 8, false)
    } else if tag == V4_PORT_EXT {
        p_node_id(d, s1, cfg, at, 12, false)
    } else if tag == NEW_REFERENCE_EXT {
        p_ref(d, s1, cfg, at, 1)
    } else if tag == NEWER_REFERENCE_EXT {
        p_ref(d, s1, cfg, at, 4)
    } else if tag == NEW_FUN_EXT {
        p_new_fun(d, s1, cfg, at)
    } else {
        Err(EtfError::UnsupportedTag(tag))
    }
}

/// Whether a tag introduces a term with nested terms.
pub open spec fn is_compound_tag(tag: u8) -> bool {
    tag == SMALL_TUPLE_EXT || tag == LARGE_TUPLE_EXT || tag == LIST_EXT || tag == MAP_EXT
        || tag == EXPORT_EXT || tag == RECORD_EXT
}

/// One term at position `st.pos`, at nesting height `h` (the number of
/// enclosing compound terms).
pub open spec fn p_term(
    d: Seq<u8>,
    st: PState,
    h: int,
    cfg: ParseCfg,
    fl: spec_fn(int) -> Option<u64>,
) -> PResult<TermModel>
    decreases d.len() - st.pos, 1int, 1int,
{
    if h > cfg.limits.max_depth {
        Err(EtfError::RecursionLimitExceeded)
    } else if st.pos < 0 || st.pos + 1 > d.len() {
        Err(short(cfg, 1))
    } else {
        let tag = d[st.pos];
        if tag == SMALL_TUPLE_EXT || tag == LARGE_TUPLE_EXT {
            p_tuple(d, st, h, cfg, fl)
        } else if tag == LIST_EXT {
            p_list(d, st, h, cfg, fl)
        } else if tag == MAP_EXT {
            p_map(d, st, h, cfg, fl)
        } else if tag == EXPORT_EXT {
            p_export(d, st, h, cfg, fl)
        } else if tag == RECORD_EXT {
            p_record(d, st, h, cfg, fl)
        } else {
            p_leaf(d, st, cfg, fl)
        }
    }
}

/// A tuple whose tag is at `st.pos`: an arity of 1 (`SMALL_TUPLE_EXT`) or
/// 4 bytes, then the elements.
pub open spec fn p_tuple(
    d: Seq<u8>,
    st: PState,
    h: int,
    cfg: ParseCfg,
    fl: spec_fn(int) -> Option<u64>,
) -> PResult<TermModel>
    decreases d.len() - st.pos, 1int, 0int,
{
    let s1 = adv(st, 1);
    match p_uint(d, s1, cfg, if d[st.pos] == SMALL_TUPLE_EXT { 1 } else { 4 }) {
        Err(e) => Err(e),
        Ok((arity, s2)) => if s2.pos <= st.pos || s2.pos > d.len() {
            Err(EtfError::InvalidSize)
        } else if arity > cfg.limits.max_tuple_arity {
            Err(EtfError::TupleTooLarge)
        } else {
            match claim(cfg, s2, TERM_CELL as int, TERM_ALIGN as int, arity) {
                None => Err(EtfError::ArenaExhausted),
                Some(s3) => if arity == 0 {
                    Ok((TermModel::Tuple(Seq::empty()), s3))
                } else {
                    match claim(cfg, s3, FRAME_CELL as int, FRAME_ALIGN as int, 1) {
                        None => Err(EtfError::ArenaExhausted),
                        Some(s4) => match p_seq(d, s4, arity, h + 1, cfg, fl) {
                            Err(e) => Err(e),
                            Ok((ts, s5)) => Ok((TermModel::Tuple(ts), s5)),
                        },
                    }
                },
            }
        },
    }
}

/// A `LIST_EXT` whose tag is at `st.pos`: a length, that many elements and
/// a tail.  A list whose tail is `[]` is proper.
pub open spec fn p_list(
    d: Seq<u8>,
    st: PState,
    h: int,
    cfg: ParseCfg,
    fl: spec_fn(int) -> Option<u64>,
) -> PResult<TermModel>
    decreases d.len() - st.pos, 1int, 0int,
{
    match p_uint(d, adv(st, 1), cfg, 4) {
        Err(e) => Err(e),
        Ok((len, s2)) => if s2.pos <= st.pos || s2.pos > d.len() {
            Err(EtfError::InvalidSize)
        } else if len > cfg.limits.max_list_len {
            Err(EtfError::ListTooLarge)
        } else if len + 1 > usize::MAX {
            Err(EtfError::ArenaExhausted)
        } else {
            match claim(cfg, s2, TERM_CELL as int, TERM_ALIGN as int, len + 1) {
                None => Err(EtfError::ArenaExhausted),
                Some(s3) => match claim(cfg, s3, FRAME_CELL as int, FRAME_ALIGN as int, 1) {
                    None => Err(EtfError::ArenaExhausted),
                    Some(s4) => match p_seq(d, s4, len + 1, h + 1, cfg, fl) {
                        Err(e) => Err(e),
                        Ok((ts, s5)) => if ts.last().is_nil() {
                            Ok((TermModel::List(ts.drop_last()), s5))
                        } else {
                            Ok((TermModel::ImproperList(ts), s5))
                        },
                    },
                },
            }
        },
    }
}

/// A `MAP_EXT` whose tag is at `st.pos`: an arity, then that many keys and
/// values.
pub open spec fn p_map(
    d: Seq<u8>,
    st: PState,
    h: int,
    cfg: ParseCfg,
    fl: spec_fn(int) -> Option<u64>,
) -> PResult<TermModel>
    decreases d.len() - st.pos, 1int, 0int,
{
    match p_uint(d, adv(st, 1), cfg, 4) {
        Err(e) => Err(e),
        Ok((len, s2)) => if s2.pos <= st.pos || s2.pos > d.len() {
            Err(EtfError::InvalidSize)
        } else if len > cfg.limits.max_map_len {
            Err(EtfError::MapTooLarge)
        } else {
            match claim(cfg, s2, PAIR_CELL as int, TERM_ALIGN as int, len) {
                None => Err(EtfError::ArenaExhausted),
                Some(s3) => if len == 0 {
                    Ok((TermModel::ErlangMap(Seq::empty()), s3))
                } else {
                    match claim(cfg, s3, FRAME_CELL as int, FRAME_ALIGN as int, 1) {
                        None => Err(EtfError::ArenaExhausted),
                        Some(s4) => match p_pairs(d, s4, len, h + 1, cfg, fl) {
                            Err(e) => Err(e),
                            Ok((ps, s5)) => Ok((TermModel::ErlangMap(ps), s5)),
                        },
                    }
                },
            }
        },
    }
}

/// An `EXPORT_EXT` whose tag is at `st.pos`: module and function atoms,
/// then the arity as a nested term.  The term holds every byte from the
/// tag on.
pub open spec fn p_export(
    d: Seq<u8>,
    st: PState,
    h: int,
    cfg: ParseCfg,
    fl: spec_fn(int) -> Option<u64>,
) -> PResult<TermModel>
    decreases d.len() - st.pos, 1int, 0int,
{
    match p_atom_only(d, adv(st, 1), cfg) {
        Err(e) => Err(e),
        Ok((_, s2)) => match p_atom_only(d, s2, cfg) {
            Err(e) => Err(e),
            Ok((_, s3)) => if s3.pos <= st.pos || s3.pos > d.len() {
                Err(EtfError::InvalidSize)
            } else {
                match claim(cfg, s3, TERM_CELL as int, TERM_ALIGN as int, 1) {
                    None => Err(EtfError::ArenaExhausted),
                    Some(s4) => match claim(cfg, s4, FRAME_CELL as int, FRAME_ALIGN as int, 1) {
                        None => Err(EtfError::ArenaExhausted),
                        Some(s5) => match p_seq(d, s5, 1, h + 1, cfg, fl) {
                            Err(e) => Err(e),
                            Ok((_, s6)) => Ok((TermModel::Function(d.subrange(st.pos, s6.pos)), s6)),
                        },
                    },
                }
            },
        },
    }
}

/// A `RECORD_EXT` whose tag is at `st.pos`: a field count `n` and a flags
/// byte, then `2 * n + 2` nested terms.  The term holds every byte from the
/// tag on.
pub open spec fn p_record(
    d: Seq<u8>,
    st: PState,
    h: int,
    cfg: ParseCfg,
    fl: spec_fn(int) -> Option<u64>,
) -> PResult<TermModel>
    decreases d.len() - st.pos, 1int, 0int,
{
    match p_uint(d, adv(st, 1), cfg, 4) {
        Err(e) => Err(e),
        Ok((n, s2)) => if n > cfg.limits.max_map_len {
            Err(EtfError::MapTooLarge)
        } else {
            match p_uint(d, s2, cfg, 1) {
                Err(e) => Err(e),
                Ok((_, s3)) => if s3.pos <= st.pos || s3.pos > d.len() {
                    Err(EtfError::InvalidSize)
                } else {
                    match claim(cfg, s3, TERM_CELL as int, TERM_ALIGN as int, 1) {
                        None => Err(EtfError::ArenaExhausted),
                        Some(s4) => match claim(cfg, s4, FRAME_CELL as int, FRAME_ALIGN as int, 1) {
                            None => Err(EtfError::ArenaExhausted),
                            Some(s5) => match p_seq(d, s5, 2 * n + 2, h + 1, cfg, fl) {
                                Err(e) => Err(e),
                                Ok((_, s6)) => Ok((TermModel::Record(d.subrange(st.pos, s6.pos)), s6)),
                            },
                        },
                    }
                },
            }
        },
    }
}

/// `n` consecutive terms at height `h`.
pub open spec fn p_seq(
    d: Seq<u8>,
    st: PState,
    n: int,
    h: int,
    cfg: ParseCfg,
    fl: spec_fn(int) -> Option<u64>,
) -> PResult<Seq<TermModel>>
    decreases d.len() - st.pos, 2int, n,
{
    if n <= 0 {
        Ok((Seq::empty(), st))
    } else {
        match p_term(d, st, h, cfg, fl) {
            Err(e) => Err(e),
            Ok((t, s1)) => if s1.pos <= st.pos || s1.pos > d.len() {
                Err(EtfError::InvalidSize)
            } else {
                match p_seq(d, s1, n - 1, h, cfg, fl) {
                    Err(e) => Err(e),
                    Ok((ts, s2)) => Ok((seq![t] + ts, s2)),
                }
            },
        }
    }
}

/// `n` consecutive key-value pairs at height `h`.
pub open spec fn p_pairs(
    d: Seq<u8>,
    st: PState,
    n: int,
    h: int,
    cfg: ParseCfg,
    fl: spec_fn(int) -> Option<u64>,
) -> PResult<Seq<(TermModel, TermModel)>>
    decreases d.len() - st.pos, 2int, n,
{
    if n <= 0 {
        Ok((Seq::empty(), st))
    } else {
        match p_term(d, st, h, cfg, fl) {
            Err(e) => Err(e),
            Ok((k, s1)) => if s1.pos <= st.pos || s1.pos > d.len() {
                Err(EtfError::InvalidSize)
            } else {
                match p_term(d, s1, h, cfg, fl) {
                    Err(e) => Err(e),
                    Ok((v, s2)) => if s2.pos <= s1.pos || s2.pos > d.len() {
                        Err(EtfError::InvalidSize)
                    } else {
                        match p_pairs(d, s2, n - 1, h, cfg, fl) {
                            Err(e) => Err(e),
                            Ok((ps, s3)) => Ok((seq![(k, v)] + ps, s3)),
                        }
                    },
                }
            },
        }
    }
}

} // verus!

verus! {

/// A decoded leaf ends after its tag and within the input.
pub proof fn lemma_leaf_advances(d: Seq<u8>, st: PState, cfg: ParseCfg, fl: spec_fn(int) -> Option<u64>)
    requires
        0 <= st.pos < d.len(),
    ensures
        p_leaf(d, st, cfg, fl) matches Ok((_, s)) ==> st.pos < s.pos <= d.len(),
{
}

/// A decoded term ends after its start and within the input.
pub proof fn lemma_term_advances(
    d: Seq<u8>,
    st: PState,
    h: int,
    cfg: ParseCfg,
    fl: spec_fn(int) -> Option<u64>,
)
    ensures
        p_term(d, st, h, cfg, fl) matches Ok((_, s)) ==> st.pos < s.pos <= d.len(),
    decreases d.len() - st.pos, 1int, 1int,
{
    if h <= cfg.limits.max_depth && 0 <= st.pos && st.pos + 1 <= d.len() {
        let tag = d[st.pos];
        if tag == SMALL_TUPLE_EXT || tag == LARGE_TUPLE_EXT || tag == LIST_EXT || tag == MAP_EXT
            || tag == EXPORT_EXT || tag == RECORD_EXT {
            lemma_compound_advances(d, st, h, cfg, fl);
        } else {
            lemma_leaf_advances(d, st, cfg, fl);
        }
    }
}

/// A decoded compound term ends after its tag and within the input.
pub proof fn lemma_compound_advances(
    d: Seq<u8>,
    st: PState,
    h: int,
    cfg: ParseCfg,
    fl: spec_fn(int) -> Option<u64>,
)
    requires
        0 <= st.pos < d.len(),
    ensures
        p_tuple(d, st, h, cfg, fl) matches Ok((_, s)) ==> st.pos < s.pos <= d.len(),
        p_list(d, st, h, cfg, fl) matches Ok((_, s)) ==> st.pos < s.pos <= d.len(),
        p_map(d, st, h, cfg, fl) matches Ok((_, s)) ==> st.pos < s.pos <= d.len(),
        p_export(d, st, h, cfg, fl) matches Ok((_, s)) ==> st.pos < s.pos <= d.len(),
        p_record(d, st, h, cfg, fl) matches Ok((_, s)) ==> st.pos < s.pos <= d.len(),
    decreases d.len() - st.pos, 1int, 0int,
{
    let s1 = adv(st, 1);
    if let Ok((arity, s2)) = p_uint(d, s1, cfg, if d[st.pos] == SMALL_TUPLE_EXT { 1 } else { 4 }) {
        if s2.pos > st.pos && s2.pos <= d.len() {
            if let Some(s3) = claim(cfg, s2, TERM_CELL as int, TERM_ALIGN as int, arity) {
                if let Some(s4) = claim(cfg, s3, FRAME_CELL as int, FRAME_ALIGN as int, 1) {
                    lemma_seq_advances(d, s4, arity, h + 1, cfg, fl);
                }
            }
        }
    }
    if let Ok((len, s2)) = p_uint(d, s1, cfg, 4) {
        if s2.pos > st.pos && s2.pos <= d.len() {
            if let Some(s3) = claim(cfg, s2, TERM_CELL as int, TERM_ALIGN as int, len + 1) {
                if let Some(s4) = claim(cfg, s3, FRAME_CELL as int, FRAME_ALIGN as int, 1) {
                    lemma_seq_advances(d, s4, len + 1, h + 1, cfg, fl);
                }
            }
            if let Some(s3) = claim(cfg, s2, PAIR_CELL as int, TERM_ALIGN as int, len) {
                if let Some(s4) = claim(cfg, s3, FRAME_CELL as int, FRAME_ALIGN as int, 1) {
                    lemma_pairs_advances(d, s4, len, h + 1, cfg, fl);
                }
            }
        }
        if let Ok((_, s3)) = p_uint(d, s2, cfg, 1) {
            if s3.pos > st.pos && s3.pos <= d.len() {
                if let Some(s4) = claim(cfg, s3, TERM_CELL as int, TERM_ALIGN as int, 1) {
                    if let Some(s5) = claim(cfg, s4, FRAME_CELL as int, FRAME_ALIGN as int, 1) {
                        lemma_seq_advances(d, s5, 2 * len + 2, h + 1, cfg, fl);
                    }
                }
            }
        }
    }
    if let Ok((_, s2)) = p_atom_only(d, s1, cfg) {
        if let Ok((_, s3)) = p_atom_only(d, s2, cfg) {
            if s3.pos > st.pos && s3.pos <= d.len() {
                if let Some(s4) = claim(cfg, s3, TERM_CELL as int, TERM_ALIGN as int, 1) {
                    if let Some(s5) = claim(cfg, s4, FRAME_CELL as int, FRAME_ALIGN as int, 1) {
                        lemma_seq_advances(d, s5, 1, h + 1, cfg, fl);
                    }
                }
            }
        }
    }
}

/// Decoded terms end at or after their start and within the input.
pub proof fn lemma_seq_advances(
    d: Seq<u8>,
    st: PState,
    n: int,
    h: int,
    cfg: ParseCfg,
    fl: spec_fn(int) -> Option<u64>,
)
    requires
        st.pos <= d.len(),
    ensures
        p_seq(d, st, n, h, cfg, fl) matches Ok((_, s)) ==> st.pos <= s.pos <= d.len() && (n > 0
            ==> st.pos < s.pos),
    decreases d.len() - st.pos, 2int, n,
{
    if n > 0 {
        lemma_term_advances(d, st, h, cfg, fl);
        if let Ok((_, s1)) = p_term(d, st, h, cfg, fl) {
            if s1.pos > st.pos && s1.pos <= d.len() {
                lemma_seq_advances(d, s1, n - 1, h, cfg, fl);
            }
        }
    }
}

/// Decoded pairs end at or after their start and within the input.
pub proof fn lemma_pairs_advances(
    d: Seq<u8>,
    st: PState,
    n: int,
    h: int,
    cfg: ParseCfg,
    fl: spec_fn(int) -> Option<u64>,
)
    requires
        st.pos <= d.len(),
    ensures
        p_pairs(d, st, n, h, cfg, fl) matches Ok((_, s)) ==> st.pos <= s.pos <= d.len() && (n > 0
            ==> st.pos < s.pos),
    decreases d.len() - st.pos, 2int, n,
{
    if n > 0 {
        lemma_term_advances(d, st, h, cfg, fl);
        if let Ok((_, s1)) = p_term(d, st, h, cfg, fl) {
            if s1.pos > st.pos && s1.pos <= d.len() {
                lemma_term_advances(d, s1, h, cfg, fl);
                if let Ok((_, s2)) = p_term(d, s1, h, cfg, fl) {
                    if s2.pos > s1.pos && s2.pos <= d.len() {
                        lemma_pairs_advances(d, s2, n - 1, h, cfg, fl);
                    }
                }
            }
        }
    }
}

} // verus!

verus! {

/// `fl` gives every recorded legacy float the value it was recorded with.
pub open spec fn agrees(fl: spec_fn(int) -> Option<u64>, m: Map<int, Option<u64>>) -> bool {
    forall|k: int| #[trigger] m.contains_key(k) ==> fl(k) == m[k]
}

/// `submap_of` is transitive.
pub proof fn lemma_submap_trans(m1: Map<int, Option<u64>>, m2: Map<int, Option<u64>>, m3: Map<int, Option<u64>>)
    requires
        m1.submap_of(m2),
        m2.submap_of(m3),
    ensures
        m1.submap_of(m3),
{
    assert forall|k: int| #[trigger] m1.contains_key(k) implies m3.contains_key(k) && m3[k] == m1[k] by {
        assert(m2.contains_key(k));
    }
}

/// `agrees` is kept when fewer floats are recorded.
pub proof fn lemma_agrees_submap(
    fl: spec_fn(int) -> Option<u64>,
    m1: Map<int, Option<u64>>,
    m2: Map<int, Option<u64>>,
)
    requires
        m1.submap_of(m2),
        agrees(fl, m2),
    ensures
        agrees(fl, m1),
{
    assert forall|k: int| #[trigger] m1.contains_key(k) implies fl(k) == m1[k] by {
        assert(m2.contains_key(k));
    }
}

} // verus!

verus! {

/// Put `acc` in front of the decoded sequence of `r`.
pub open spec fn prepend<T>(acc: Seq<T>, r: PResult<Seq<T>>) -> PResult<Seq<T>> {
    match r {
        Ok((ts, s)) => Ok((acc + ts, s)),
        Err(e) => Err(e),
    }
}

/// `prepend` twice is `prepend` of the concatenation.
pub proof fn lemma_prepend_prepend<T>(a: Seq<T>, b: Seq<T>, r: PResult<Seq<T>>)
    ensures
        prepend(a, prepend(b, r)) == prepend(a + b, r),
{
    if let Ok((ts, s)) = r {
        assert(a + (b + ts) =~= (a + b) + ts);
    }
}

/// One step of `p_seq`: the first term, then the rest.
pub proof fn lemma_seq_step(
    d: Seq<u8>,
    st: PState,
    n: int,
    h: int,
    cfg: ParseCfg,
    fl: spec_fn(int) -> Option<u64>,
)
    requires
        n > 0,
    ensures
        p_seq(d, st, n, h, cfg, fl) == match p_term(d, st, h, cfg, fl) {
            Err(e) => Err(e),
            Ok((t, s1)) => prepend(seq![t], p_seq(d, s1, n - 1, h, cfg, fl)),
        },
{
    lemma_term_advances(d, st, h, cfg, fl);
}

/// Terms nested past the depth limit are refused.
pub proof fn lemma_seq_too_deep(
    d: Seq<u8>,
    st: PState,
    n: int,
    h: int,
    cfg: ParseCfg,
    fl: spec_fn(int) -> Option<u64>,
)
    requires
        n > 0,
        h > cfg.limits.max_depth,
    ensures
        p_seq(d, st, n, h, cfg, fl) == Err::<(Seq<TermModel>, PState), EtfError>(EtfError::RecursionLimitExceeded),
        p_pairs(d, st, n, h, cfg, fl) == Err::<(Seq<(TermModel, TermModel)>, PState), EtfError>(
            EtfError::RecursionLimitExceeded,
        ),
{
    lemma_seq_step(d, st, n, h, cfg, fl);
    lemma_pairs_step(d, st, n, h, cfg, fl);
}

/// One step of `p_pairs`: the first key and value, then the rest.
pub proof fn lemma_pairs_step(
    d: Seq<u8>,
    st: PState,
    n: int,
    h: int,
    cfg: ParseCfg,
    fl: spec_fn(int) -> Option<u64>,
)
    requires
        n > 0,
    ensures
        p_pairs(d, st, n, h, cfg, fl) == match p_term(d, st, h, cfg, fl) {
            Err(e) => Err(e),
            Ok((k, s1)) => match p_term(d, s1, h, cfg, fl) {
                Err(e) => Err(e),
                Ok((v, s2)) => prepend(seq![(k, v)], p_pairs(d, s2, n - 1, h, cfg, fl)),
            },
        },
{
    lemma_term_advances(d, st, h, cfg, fl);
    if let Ok((_, s1)) = p_term(d, st, h, cfg, fl) {
        lemma_term_advances(d, s1, h, cfg, fl);
    }
}

} // verus!
