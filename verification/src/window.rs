//! Decoding depends only on the bytes decoded: a term that decodes from a
//! window of one input decodes the same from the same bytes anywhere in
//! another.

use vstd::prelude::*;

use crate::arena::{FRAME_ALIGN, FRAME_CELL, PAIR_CELL, TERM_ALIGN, TERM_CELL};
use crate::error::EtfError;
use crate::grammar::{
    adv, claim, lemma_pairs_advances, lemma_seq_advances, lemma_term_advances, p_atom_body, p_atom_only, p_big,
    p_binary, p_bit_binary, p_bytes, p_export, p_leaf, p_legacy_float, p_list, p_map, p_new_fun, p_node_id,
    p_pairs, p_record, p_ref, p_seq, p_string, p_term, p_tuple, p_uint, PResult, PState, ParseCfg,
};

verus! {

/// `st` moved by `delta` bytes.
pub open spec fn sh(st: PState, delta: int) -> PState {
    PState { pos: st.pos + delta, ptr: st.ptr }
}

/// `moved` is what decoding at a position moved by `delta` in the other
/// input gives, where decoding here gives `r`: when `r` is a value ending
/// at or before `hi`, the same value, ending `delta` bytes further.
pub open spec fn win_of<T>(moved: PResult<T>, r: PResult<T>, delta: int, hi: int) -> bool {
    match r {
        Ok((v, s)) => s.pos <= hi ==> moved == Ok::<(T, PState), EtfError>((v, sh(s, delta))),
        Err(_) => true,
    }
}

/// `d2` holds the bytes of `d` from `lo` to `hi`, `delta` bytes further on.
pub open spec fn window(d: Seq<u8>, d2: Seq<u8>, lo: int, hi: int, delta: int) -> bool {
    &&& 0 <= lo <= hi <= d.len()
    &&& 0 <= lo + delta
    &&& hi + delta <= d2.len()
    &&& forall|i: int| lo <= i < hi ==> #[trigger] d2[i + delta] == d[i]
}

/// Two readings of the legacy floats that agree on every float whose text
/// lies within the window.
pub open spec fn floats_agree_within(
    fl: spec_fn(int) -> Option<u64>,
    fl2: spec_fn(int) -> Option<u64>,
    lo: int,
    hi: int,
    delta: int,
) -> bool {
    forall|at: int| lo <= at && at + 32 <= hi ==> #[trigger] fl2(at + delta) == fl(at)
}

/// The bytes of `d` from `a` to `b`, within the window, are those of `d2`
/// `delta` bytes further on.
pub proof fn lemma_win_bytes(d: Seq<u8>, d2: Seq<u8>, lo: int, hi: int, delta: int, a: int, b: int)
    requires
        window(d, d2, lo, hi, delta),
        lo <= a <= b <= hi,
    ensures
        d2.subrange(a + delta, b + delta) == d.subrange(a, b),
{
    assert forall|i: int| 0 <= i < b - a implies #[trigger] d2.subrange(a + delta, b + delta)[i] == d.subrange(a, b)[i] by {
        assert(d2[(a + i) + delta] == d[a + i]);
    }
    assert(d2.subrange(a + delta, b + delta) =~= d.subrange(a, b));
}

/// The reads a leaf decode is made of, in the window.
proof fn lemma_win_parts(d: Seq<u8>, d2: Seq<u8>, lo: int, hi: int, delta: int, st: PState, cfg: ParseCfg)
    requires
        window(d, d2, lo, hi, delta),
        lo <= st.pos <= hi,
    ensures
        forall|w: int|
            (w == 1 || w == 2 || w == 4) ==> win_of(#[trigger] p_uint(d2, sh(st, delta), cfg, w), p_uint(d, st, cfg, w), delta, hi),
        forall|n: int| 0 <= n ==> win_of(#[trigger] p_bytes(d2, sh(st, delta), cfg, n), p_bytes(d, st, cfg, n), delta, hi),
{
    assert forall|w: int| (w == 1 || w == 2 || w == 4) implies win_of(
        #[trigger] p_uint(d2, sh(st, delta), cfg, w),
        p_uint(d, st, cfg, w),
        delta,
        hi,
    ) by {
        if st.pos + w <= hi {
            assert(d2[st.pos + delta] == d[st.pos]);
            if w >= 2 {
                assert(d2[(st.pos + 1) + delta] == d[st.pos + 1]);
            }
            if w == 4 {
                assert(d2[(st.pos + 2) + delta] == d[st.pos + 2]);
                assert(d2[(st.pos + 3) + delta] == d[st.pos + 3]);
            }
        }
    }
    assert forall|n: int| 0 <= n implies win_of(#[trigger] p_bytes(d2, sh(st, delta), cfg, n), p_bytes(d, st, cfg, n), delta, hi) by {
        if st.pos + n <= hi {
            lemma_win_bytes(d, d2, lo, hi, delta, st.pos, st.pos + n);
        }
    }
}

/// A body whose length field has `w` bytes, in the window.
proof fn lemma_win_atom_body(d: Seq<u8>, d2: Seq<u8>, lo: int, hi: int, delta: int, st: PState, cfg: ParseCfg, w: int)
    requires
        window(d, d2, lo, hi, delta),
        lo <= st.pos <= hi,
        w == 1 || w == 2 || w == 4,
    ensures
        win_of(p_atom_body(d2, sh(st, delta), cfg, w), p_atom_body(d, st, cfg, w), delta, hi),
        win_of(p_big(d2, sh(st, delta), cfg, w), p_big(d, st, cfg, w), delta, hi),
{
    lemma_win_parts(d, d2, lo, hi, delta, st, cfg);
    if let Ok((len, s1)) = p_uint(d, st, cfg, w) {
        if s1.pos <= hi {
            lemma_win_parts(d, d2, lo, hi, delta, s1, cfg);
            if let Ok((_, s2)) = p_uint(d, s1, cfg, 1) {
                if s2.pos <= hi {
                    lemma_win_parts(d, d2, lo, hi, delta, s2, cfg);
                }
            }
        }
    }
}

/// An atom field, in the window.
proof fn lemma_win_atom_only(d: Seq<u8>, d2: Seq<u8>, lo: int, hi: int, delta: int, st: PState, cfg: ParseCfg)
    requires
        window(d, d2, lo, hi, delta),
        lo <= st.pos <= hi,
    ensures
        win_of(p_atom_only(d2, sh(st, delta), cfg), p_atom_only(d, st, cfg), delta, hi),
{
    if st.pos < hi {
        assert(d2[st.pos + delta] == d[st.pos]);
        lemma_win_atom_body(d, d2, lo, hi, delta, adv(st, 1), cfg, 1);
        lemma_win_atom_body(d, d2, lo, hi, delta, adv(st, 1), cfg, 2);
        assert(sh(adv(st, 1), delta) == adv(sh(st, delta), 1));
    }
}

/// The bodies of the leaves with a length field, in the window.
proof fn lemma_win_bodies(
    d: Seq<u8>,
    d2: Seq<u8>,
    lo: int,
    hi: int,
    delta: int,
    st: PState,
    cfg: ParseCfg,
    fl: spec_fn(int) -> Option<u64>,
    fl2: spec_fn(int) -> Option<u64>,
    at: int,
)
    requires
        window(d, d2, lo, hi, delta),
        lo <= st.pos <= hi,
        floats_agree_within(fl, fl2, lo, hi, delta),
        st.pos == at + 1,
        lo <= at,
    ensures
        win_of(p_binary(d2, sh(st, delta), cfg), p_binary(d, st, cfg), delta, hi),
        win_of(p_bit_binary(d2, sh(st, delta), cfg), p_bit_binary(d, st, cfg), delta, hi),
        win_of(p_string(d2, sh(st, delta), cfg), p_string(d, st, cfg), delta, hi),
        win_of(p_legacy_float(d2, sh(st, delta), cfg, at + delta, fl2), p_legacy_float(d, st, cfg, at, fl), delta, hi),
        win_of(p_new_fun(d2, sh(st, delta), cfg, at + delta), p_new_fun(d, st, cfg, at), delta, hi),
{
    lemma_win_parts(d, d2, lo, hi, delta, st, cfg);
    if let Ok((len, s1)) = p_uint(d, st, cfg, 4) {
        if s1.pos <= hi {
            lemma_win_parts(d, d2, lo, hi, delta, s1, cfg);
            if let Ok((_, s2)) = p_bytes(d, s1, cfg, len - 4) {
                if s2.pos <= hi {
                    lemma_win_bytes(d, d2, lo, hi, delta, at, s2.pos);
                }
            }
            if let Ok((_, s2)) = p_uint(d, s1, cfg, 1) {
                if s2.pos <= hi {
                    lemma_win_parts(d, d2, lo, hi, delta, s2, cfg);
                }
            }
        }
    }
    if let Ok((len, s1)) = p_uint(d, st, cfg, 2) {
        if s1.pos <= hi {
            lemma_win_parts(d, d2, lo, hi, delta, s1, cfg);
        }
    }
    if let Ok((b, s1)) = p_bytes(d, st, cfg, 31) {
        if s1.pos <= hi {
            assert(fl2(at + delta) == fl(at));
        }
    }
}

/// A PID, port or reference body, in the window.
proof fn lemma_win_ids(d: Seq<u8>, d2: Seq<u8>, lo: int, hi: int, delta: int, st: PState, cfg: ParseCfg, at: int)
    requires
        window(d, d2, lo, hi, delta),
        lo <= st.pos <= hi,
        lo <= at < st.pos,
    ensures
        forall|n: int, pid: bool|
            0 <= n ==> win_of(
                #[trigger] p_node_id(d2, sh(st, delta), cfg, at + delta, n, pid),
                p_node_id(d, st, cfg, at, n, pid),
                delta,
                hi,
            ),
        forall|cw: int|
            (cw == 1 || cw == 4) ==> win_of(
                #[trigger] p_ref(d2, sh(st, delta), cfg, at + delta, cw),
                p_ref(d, st, cfg, at, cw),
                delta,
                hi,
            ),
{
    lemma_win_atom_only(d, d2, lo, hi, delta, st, cfg);
    lemma_win_parts(d, d2, lo, hi, delta, st, cfg);
    assert forall|n: int, pid: bool| 0 <= n implies win_of(
        #[trigger] p_node_id(d2, sh(st, delta), cfg, at + delta, n, pid),
        p_node_id(d, st, cfg, at, n, pid),
        delta,
        hi,
    ) by {
        if let Ok((_, s1)) = p_atom_only(d, st, cfg) {
            if s1.pos <= hi {
                lemma_win_parts(d, d2, lo, hi, delta, s1, cfg);
                if let Ok((_, s2)) = p_bytes(d, s1, cfg, n) {
                    if s2.pos <= hi {
                        lemma_win_bytes(d, d2, lo, hi, delta, at, s2.pos);
                    }
                }
            }
        }
    }
    assert forall|cw: int| (cw == 1 || cw == 4) implies win_of(
        #[trigger] p_ref(d2, sh(st, delta), cfg, at + delta, cw),
        p_ref(d, st, cfg, at, cw),
        delta,
        hi,
    ) by {
        if let Ok((len, s1)) = p_uint(d, st, cfg, 2) {
            if s1.pos <= hi {
                lemma_win_atom_only(d, d2, lo, hi, delta, s1, cfg);
                if let Ok((_, s2)) = p_atom_only(d, s1, cfg) {
                    if s2.pos <= hi {
                        lemma_win_parts(d, d2, lo, hi, delta, s2, cfg);
                        if let Ok((_, s3)) = p_uint(d, s2, cfg, cw) {
                            if s3.pos <= hi {
                                lemma_win_parts(d, d2, lo, hi, delta, s3, cfg);
                                if let Ok((_, s4)) = p_bytes(d, s3, cfg, len * 4) {
                                    if s4.pos <= hi {
                                        lemma_win_bytes(d, d2, lo, hi, delta, at, s4.pos);
                                    }
                                }
                            }
                        }
                    }
                }
            }
        }
    }
}

/// A term with no nested terms, whose tag lies in the window.
#[verifier::rlimit(60)]
proof fn lemma_win_leaf(
    d: Seq<u8>,
    d2: Seq<u8>,
    lo: int,
    hi: int,
    delta: int,
    st: PState,
    cfg: ParseCfg,
    fl: spec_fn(int) -> Option<u64>,
    fl2: spec_fn(int) -> Option<u64>,
)
    requires
        window(d, d2, lo, hi, delta),
        lo <= st.pos < hi,
        floats_agree_within(fl, fl2, lo, hi, delta),
    ensures
        win_of(p_leaf(d2, sh(st, delta), cfg, fl2), p_leaf(d, st, cfg, fl), delta, hi),
{
    let s1 = adv(st, 1);
    assert(d2[st.pos + delta] == d[st.pos]);
    assert(sh(s1, delta) == adv(sh(st, delta), 1));
    lemma_win_parts(d, d2, lo, hi, delta, s1, cfg);
    lemma_win_atom_body(d, d2, lo, hi, delta, s1, cfg, 1);
    lemma_win_atom_body(d, d2, lo, hi, delta, s1, cfg, 2);
    lemma_win_atom_body(d, d2, lo, hi, delta, s1, cfg, 4);
    lemma_win_bodies(d, d2, lo, hi, delta, s1, cfg, fl, fl2, st.pos);
    lemma_win_ids(d, d2, lo, hi, delta, s1, cfg, st.pos);
    if s1.pos + 8 <= hi {
        assert forall|i: int| s1.pos <= i < s1.pos + 8 implies d2[i + delta] == d[i] by {}
        assert(crate::cursor::be_u64_at(d2, s1.pos + delta) == crate::cursor::be_u64_at(d, s1.pos));
    }
    if s1.pos + 4 <= hi {
        assert(d2[s1.pos + delta] == d[s1.pos] && d2[(s1.pos + 1) + delta] == d[s1.pos + 1] && d2[(s1.pos + 2)
            + delta] == d[s1.pos + 2] && d2[(s1.pos + 3) + delta] == d[s1.pos + 3]);
    }
    if s1.pos + 1 <= hi {
        assert(d2[s1.pos + delta] == d[s1.pos]);
    }
}

/// One term that starts in the window.
pub proof fn lemma_win_term(
    d: Seq<u8>,
    d2: Seq<u8>,
    lo: int,
    hi: int,
    delta: int,
    st: PState,
    h: int,
    cfg: ParseCfg,
    fl: spec_fn(int) -> Option<u64>,
    fl2: spec_fn(int) -> Option<u64>,
)
    requires
        window(d, d2, lo, hi, delta),
        lo <= st.pos <= hi,
        floats_agree_within(fl, fl2, lo, hi, delta),
    ensures
        win_of(p_term(d2, sh(st, delta), h, cfg, fl2), p_term(d, st, h, cfg, fl), delta, hi),
    decreases d.len() - st.pos, 1int, 1int,
{
    lemma_term_advances(d, st, h, cfg, fl);
    if h <= cfg.limits.max_depth && st.pos < hi {
        assert(d2[st.pos + delta] == d[st.pos]);
        lemma_win_leaf(d, d2, lo, hi, delta, st, cfg, fl, fl2);
        lemma_win_tuple(d, d2, lo, hi, delta, st, h, cfg, fl, fl2);
        lemma_win_list(d, d2, lo, hi, delta, st, h, cfg, fl, fl2);
        lemma_win_map(d, d2, lo, hi, delta, st, h, cfg, fl, fl2);
        lemma_win_export(d, d2, lo, hi, delta, st, h, cfg, fl, fl2);
        lemma_win_record(d, d2, lo, hi, delta, st, h, cfg, fl, fl2);
    }
}

/// A tuple whose tag lies in the window.
#[verifier::rlimit(80)]
#[verifier::spinoff_prover]
proof fn lemma_win_tuple(
    d: Seq<u8>,
    d2: Seq<u8>,
    lo: int,
    hi: int,
    delta: int,
    st: PState,
    h: int,
    cfg: ParseCfg,
    fl: spec_fn(int) -> Option<u64>,
    fl2: spec_fn(int) -> Option<u64>,
)
    requires
        window(d, d2, lo, hi, delta),
        lo <= st.pos < hi,
        floats_agree_within(fl, fl2, lo, hi, delta),
    ensures
        win_of(p_tuple(d2, sh(st, delta), h, cfg, fl2), p_tuple(d, st, h, cfg, fl), delta, hi),
    decreases d.len() - st.pos, 1int, 0int,
{
    let s1 = adv(st, 1);
    assert(d2[st.pos + delta] == d[st.pos]);
    assert(sh(s1, delta) == adv(sh(st, delta), 1));
    lemma_win_parts(d, d2, lo, hi, delta, s1, cfg);
    let w = if d[st.pos] == crate::tags::SMALL_TUPLE_EXT { 1int } else { 4int };
    if let Ok((arity, s2)) = p_uint(d, s1, cfg, w) {
        if s2.pos <= d.len() {
            if let Some(s3) = claim(cfg, s2, TERM_CELL as int, TERM_ALIGN as int, arity) {
                if let Some(s4) = claim(cfg, s3, FRAME_CELL as int, FRAME_ALIGN as int, 1) {
                    lemma_seq_advances(d, s4, arity, h + 1, cfg, fl);
                    if s2.pos > st.pos && s2.pos <= hi {
                        assert(claim(cfg, sh(s2, delta), TERM_CELL as int, TERM_ALIGN as int, arity) == Some(sh(s3, delta)));
                        assert(claim(cfg, sh(s3, delta), FRAME_CELL as int, FRAME_ALIGN as int, 1) == Some(sh(s4, delta)));
                        lemma_win_seq(d, d2, lo, hi, delta, s4, arity, h + 1, cfg, fl, fl2);
                    }
                }
            }
        }
    }
}

/// A list whose tag lies in the window.
#[verifier::rlimit(80)]
#[verifier::spinoff_prover]
proof fn lemma_win_list(
    d: Seq<u8>,
    d2: Seq<u8>,
    lo: int,
    hi: int,
    delta: int,
    st: PState,
    h: int,
    cfg: ParseCfg,
    fl: spec_fn(int) -> Option<u64>,
    fl2: spec_fn(int) -> Option<u64>,
)
    requires
        window(d, d2, lo, hi, delta),
        lo <= st.pos < hi,
        floats_agree_within(fl, fl2, lo, hi, delta),
    ensures
        win_of(p_list(d2, sh(st, delta), h, cfg, fl2), p_list(d, st, h, cfg, fl), delta, hi),
    decreases d.len() - st.pos, 1int, 0int,
{
    let s1 = adv(st, 1);
    assert(sh(s1, delta) == adv(sh(st, delta), 1));
    lemma_win_parts(d, d2, lo, hi, delta, s1, cfg);
    if let Ok((len, s2)) = p_uint(d, s1, cfg, 4) {
        if s2.pos <= d.len() {
            if let Some(s3) = claim(cfg, s2, TERM_CELL as int, TERM_ALIGN as int, len + 1) {
                if let Some(s4) = claim(cfg, s3, FRAME_CELL as int, FRAME_ALIGN as int, 1) {
                    lemma_seq_advances(d, s4, len + 1, h + 1, cfg, fl);
                    if s2.pos > st.pos && s2.pos <= hi {
                        assert(claim(cfg, sh(s2, delta), TERM_CELL as int, TERM_ALIGN as int, len + 1) == Some(sh(s3, delta)));
                        assert(claim(cfg, sh(s3, delta), FRAME_CELL as int, FRAME_ALIGN as int, 1) == Some(sh(s4, delta)));
                        lemma_win_seq(d, d2, lo, hi, delta, s4, len + 1, h + 1, cfg, fl, fl2);
                    }
                }
            }
        }
    }
}

/// A map whose tag lies in the window.
#[verifier::rlimit(80)]
#[verifier::spinoff_prover]
proof fn lemma_win_map(
    d: Seq<u8>,
    d2: Seq<u8>,
    lo: int,
    hi: int,
    delta: int,
    st: PState,
    h: int,
    cfg: ParseCfg,
    fl: spec_fn(int) -> Option<u64>,
    fl2: spec_fn(int) -> Option<u64>,
)
    requires
        window(d, d2, lo, hi, delta),
        lo <= st.pos < hi,
        floats_agree_within(fl, fl2, lo, hi, delta),
    ensures
        win_of(p_map(d2, sh(st, delta), h, cfg, fl2), p_map(d, st, h, cfg, fl), delta, hi),
    decreases d.len() - st.pos, 1int, 0int,
{
    let s1 = adv(st, 1);
    assert(sh(s1, delta) == adv(sh(st, delta), 1));
    lemma_win_parts(d, d2, lo, hi, delta, s1, cfg);
    if let Ok((len, s2)) = p_uint(d, s1, cfg, 4) {
        if s2.pos <= d.len() {
            if let Some(s3) = claim(cfg, s2, PAIR_CELL as int, TERM_ALIGN as int, len) {
                if let Some(s4) = claim(cfg, s3, FRAME_CELL as int, FRAME_ALIGN as int, 1) {
                    lemma_pairs_advances(d, s4, len, h + 1, cfg, fl);
                    if s2.pos > st.pos && s2.pos <= hi {
                        assert(claim(cfg, sh(s2, delta), PAIR_CELL as int, TERM_ALIGN as int, len) == Some(sh(s3, delta)));
                        assert(claim(cfg, sh(s3, delta), FRAME_CELL as int, FRAME_ALIGN as int, 1) == Some(sh(s4, delta)));
                        lemma_win_pairs(d, d2, lo, hi, delta, s4, len, h + 1, cfg, fl, fl2);
                    }
                }
            }
        }
    }
}

/// An export whose tag lies in the window.
#[verifier::rlimit(80)]
#[verifier::spinoff_prover]
proof fn lemma_win_export(
    d: Seq<u8>,
    d2: Seq<u8>,
    lo: int,
    hi: int,
    delta: int,
    st: PState,
    h: int,
    cfg: ParseCfg,
    fl: spec_fn(int) -> Option<u64>,
    fl2: spec_fn(int) -> Option<u64>,
)
    requires
        window(d, d2, lo, hi, delta),
        lo <= st.pos < hi,
        floats_agree_within(fl, fl2, lo, hi, delta),
    ensures
        win_of(p_export(d2, sh(st, delta), h, cfg, fl2), p_export(d, st, h, cfg, fl), delta, hi),
    decreases d.len() - st.pos, 1int, 0int,
{
    let s1 = adv(st, 1);
    assert(sh(s1, delta) == adv(sh(st, delta), 1));
    lemma_win_atom_only(d, d2, lo, hi, delta, s1, cfg);
    if let Ok((_, s2)) = p_atom_only(d, s1, cfg) {
        if s2.pos <= hi {
            lemma_win_atom_only(d, d2, lo, hi, delta, s2, cfg);
            if let Ok((_, s3)) = p_atom_only(d, s2, cfg) {
                if s3.pos > st.pos && s3.pos <= hi {
                    if let Some(s4) = claim(cfg, s3, TERM_CELL as int, TERM_ALIGN as int, 1) {
                        if let Some(s5) = claim(cfg, s4, FRAME_CELL as int, FRAME_ALIGN as int, 1) {
                            assert(claim(cfg, sh(s3, delta), TERM_CELL as int, TERM_ALIGN as int, 1) == Some(sh(s4, delta)));
                            assert(claim(cfg, sh(s4, delta), FRAME_CELL as int, FRAME_ALIGN as int, 1) == Some(sh(s5, delta)));
                            lemma_win_seq(d, d2, lo, hi, delta, s5, 1, h + 1, cfg, fl, fl2);
                            lemma_seq_advances(d, s5, 1, h + 1, cfg, fl);
                            if let Ok((_, s6)) = p_seq(d, s5, 1, h + 1, cfg, fl) {
                                if s6.pos <= hi {
                                    lemma_win_bytes(d, d2, lo, hi, delta, st.pos, s6.pos);
                                }
                            }
                        }
                    }
                }
            }
        }
    }
}

/// A record whose tag lies in the window.
#[verifier::rlimit(80)]
#[verifier::spinoff_prover]
proof fn lemma_win_record(
    d: Seq<u8>,
    d2: Seq<u8>,
    lo: int,
    hi: int,
    delta: int,
    st: PState,
    h: int,
    cfg: ParseCfg,
    fl: spec_fn(int) -> Option<u64>,
    fl2: spec_fn(int) -> Option<u64>,
)
    requires
        window(d, d2, lo, hi, delta),
        lo <= st.pos < hi,
        floats_agree_within(fl, fl2, lo, hi, delta),
    ensures
        win_of(p_record(d2, sh(st, delta), h, cfg, fl2), p_record(d, st, h, cfg, fl), delta, hi),
    decreases d.len() - st.pos, 1int, 0int,
{
    let s1 = adv(st, 1);
    assert(sh(s1, delta) == adv(sh(st, delta), 1));
    lemma_win_parts(d, d2, lo, hi, delta, s1, cfg);
    if let Ok((n, s2)) = p_uint(d, s1, cfg, 4) {
        if let Ok((_, s3)) = p_uint(d, s2, cfg, 1) {
            if s3.pos > st.pos && s3.pos <= d.len() {
                if let Some(s4) = claim(cfg, s3, TERM_CELL as int, TERM_ALIGN as int, 1) {
                    if let Some(s5) = claim(cfg, s4, FRAME_CELL as int, FRAME_ALIGN as int, 1) {
                        lemma_seq_advances(d, s5, 2 * n + 2, h + 1, cfg, fl);
                    }
                }
            }
        }
        if s2.pos <= hi {
            lemma_win_parts(d, d2, lo, hi, delta, s2, cfg);
            if let Ok((_, s3)) = p_uint(d, s2, cfg, 1) {
                if s3.pos > st.pos && s3.pos <= hi {
                    if let Some(s4) = claim(cfg, s3, TERM_CELL as int, TERM_ALIGN as int, 1) {
                        if let Some(s5) = claim(cfg, s4, FRAME_CELL as int, FRAME_ALIGN as int, 1) {
                            assert(claim(cfg, sh(s3, delta), TERM_CELL as int, TERM_ALIGN as int, 1) == Some(sh(s4, delta)));
                            assert(claim(cfg, sh(s4, delta), FRAME_CELL as int, FRAME_ALIGN as int, 1) == Some(sh(s5, delta)));
                            lemma_win_seq(d, d2, lo, hi, delta, s5, 2 * n + 2, h + 1, cfg, fl, fl2);
                            lemma_seq_advances(d, s5, 2 * n + 2, h + 1, cfg, fl);
                            if let Ok((_, s6)) = p_seq(d, s5, 2 * n + 2, h + 1, cfg, fl) {
                                if s6.pos <= hi {
                                    lemma_win_bytes(d, d2, lo, hi, delta, st.pos, s6.pos);
                                }
                            }
                        }
                    }
                }
            }
        }
    }
}

/// `n` terms, the first of which starts in the window.
pub proof fn lemma_win_seq(
    d: Seq<u8>,
    d2: Seq<u8>,
    lo: int,
    hi: int,
    delta: int,
    st: PState,
    n: int,
    h: int,
    cfg: ParseCfg,
    fl: spec_fn(int) -> Option<u64>,
    fl2: spec_fn(int) -> Option<u64>,
)
    requires
        window(d, d2, lo, hi, delta),
        lo <= st.pos <= hi,
        floats_agree_within(fl, fl2, lo, hi, delta),
    ensures
        win_of(p_seq(d2, sh(st, delta), n, h, cfg, fl2), p_seq(d, st, n, h, cfg, fl), delta, hi),
    decreases d.len() - st.pos, 2int, n,
{
    if n > 0 {
        lemma_win_term(d, d2, lo, hi, delta, st, h, cfg, fl, fl2);
        lemma_term_advances(d, st, h, cfg, fl);
        if let Ok((t, s1)) = p_term(d, st, h, cfg, fl) {
            if s1.pos > st.pos && s1.pos <= d.len() {
                lemma_seq_advances(d, s1, n - 1, h, cfg, fl);
                if s1.pos <= hi {
                    lemma_win_seq(d, d2, lo, hi, delta, s1, n - 1, h, cfg, fl, fl2);
                }
            }
        }
    }
}

/// `n` pairs of terms, the first of which starts in the window.
#[verifier::rlimit(80)]
#[verifier::spinoff_prover]
pub proof fn lemma_win_pairs(
    d: Seq<u8>,
    d2: Seq<u8>,
    lo: int,
    hi: int,
    delta: int,
    st: PState,
    n: int,
    h: int,
    cfg: ParseCfg,
    fl: spec_fn(int) -> Option<u64>,
    fl2: spec_fn(int) -> Option<u64>,
)
    requires
        window(d, d2, lo, hi, delta),
        lo <= st.pos <= hi,
        floats_agree_within(fl, fl2, lo, hi, delta),
    ensures
        win_of(p_pairs(d2, sh(st, delta), n, h, cfg, fl2), p_pairs(d, st, n, h, cfg, fl), delta, hi),
    decreases d.len() - st.pos, 2int, n,
{
    if n > 0 {
        lemma_win_term(d, d2, lo, hi, delta, st, h, cfg, fl, fl2);
        lemma_term_advances(d, st, h, cfg, fl);
        if let Ok((_, s1)) = p_term(d, st, h, cfg, fl) {
            if s1.pos > st.pos && s1.pos <= d.len() {
                lemma_term_advances(d, s1, h, cfg, fl);
                if s1.pos <= hi {
                    lemma_win_term(d, d2, lo, hi, delta, s1, h, cfg, fl, fl2);
                }
                if let Ok((_, s2)) = p_term(d, s1, h, cfg, fl) {
                    if s2.pos > s1.pos && s2.pos <= d.len() {
                        lemma_pairs_advances(d, s2, n - 1, h, cfg, fl);
                        if s2.pos <= hi {
                            lemma_win_pairs(d, d2, lo, hi, delta, s2, n - 1, h, cfg, fl, fl2);
                        }
                    }
                }
            }
        }
    }
}

} // verus!
