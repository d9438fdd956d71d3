//! A streaming decode of a proper prefix of a term's encoding reports the
//! input incomplete: where the whole encoding decodes, each of its
//! prefixes decodes the same up to the cut, and short there.

use vstd::prelude::*;

use crate::arena::{FRAME_ALIGN, FRAME_CELL, PAIR_CELL, TERM_ALIGN, TERM_CELL};
use crate::cursor::short_error;
use crate::error::EtfError;
use crate::grammar::{
    adv, claim, lemma_pairs_advances, lemma_seq_advances, lemma_term_advances, p_atom_body, p_atom_only, p_big,
    p_binary, p_bit_binary, p_bytes, p_export, p_leaf, p_legacy_float, p_list, p_map, p_new_fun, p_node_id,
    p_pairs, p_record, p_ref, p_seq, p_string, p_term, p_tuple, p_uint, PResult, PState, ParseCfg,
};

verus! {

/// `cut` is what decoding the prefix of length `k` gives where decoding the
/// whole input gives `r`: when `r` is a value ending at or before `k`, the
/// same; when it ends after `k`, the input reported incomplete.
pub open spec fn cut_of<T>(cut: PResult<T>, r: PResult<T>, k: int) -> bool {
    match r {
        Ok((_, s)) => if s.pos <= k {
            cut == r
        } else {
            cut matches Err(EtfError::Incomplete(_))
        },
        Err(_) => true,
    }
}

/// Two readings of the legacy floats that agree on every float whose text
/// lies within the first `k` bytes.
pub open spec fn floats_agree_before(fl: spec_fn(int) -> Option<u64>, fl2: spec_fn(int) -> Option<u64>, k: int) -> bool {
    forall|at: int| 0 <= at && at + 32 <= k ==> #[trigger] fl2(at) == fl(at)
}

/// The reads a leaf decode is made of, on a prefix.
proof fn lemma_cut_parts(d: Seq<u8>, k: int, st: PState, cfg: ParseCfg)
    requires
        0 <= st.pos <= k <= d.len(),
        cfg.streaming,
    ensures
        forall|w: int| (w == 1 || w == 2 || w == 4) ==> cut_of(#[trigger] p_uint(d.subrange(0, k), st, cfg, w), p_uint(d, st, cfg, w), k),
        forall|n: int| 0 <= n ==> cut_of(#[trigger] p_bytes(d.subrange(0, k), st, cfg, n), p_bytes(d, st, cfg, n), k),
{
    reveal(short_error);
    let d2 = d.subrange(0, k);
    assert forall|w: int| (w == 1 || w == 2 || w == 4) implies cut_of(#[trigger] p_uint(d2, st, cfg, w), p_uint(d, st, cfg, w), k) by {
        if st.pos + w <= k {
            assert(d2[st.pos] == d[st.pos]);
            if w >= 2 {
                assert(d2[st.pos + 1] == d[st.pos + 1]);
            }
            if w == 4 {
                assert(d2[st.pos + 2] == d[st.pos + 2]);
                assert(d2[st.pos + 3] == d[st.pos + 3]);
            }
        }
    }
    assert forall|n: int| 0 <= n implies cut_of(#[trigger] p_bytes(d2, st, cfg, n), p_bytes(d, st, cfg, n), k) by {
        if st.pos + n <= k {
            assert(d2.subrange(st.pos, st.pos + n) =~= d.subrange(st.pos, st.pos + n));
        }
    }
}

/// A body whose length field has `w` bytes, on a prefix.
proof fn lemma_cut_atom_body(d: Seq<u8>, k: int, st: PState, cfg: ParseCfg, w: int)
    requires
        0 <= st.pos <= k <= d.len(),
        cfg.streaming,
        w == 1 || w == 2 || w == 4,
    ensures
        cut_of(p_atom_body(d.subrange(0, k), st, cfg, w), p_atom_body(d, st, cfg, w), k),
        cut_of(p_big(d.subrange(0, k), st, cfg, w), p_big(d, st, cfg, w), k),
{
    lemma_cut_parts(d, k, st, cfg);
    if let Ok((len, s1)) = p_uint(d, st, cfg, w) {
        if s1.pos <= k {
            lemma_cut_parts(d, k, s1, cfg);
            if let Ok((_, s2)) = p_uint(d, s1, cfg, 1) {
                if s2.pos <= k {
                    lemma_cut_parts(d, k, s2, cfg);
                }
            }
        }
    }
}

/// An atom field, on a prefix.
proof fn lemma_cut_atom_only(d: Seq<u8>, k: int, st: PState, cfg: ParseCfg)
    requires
        0 <= st.pos <= k <= d.len(),
        cfg.streaming,
    ensures
        cut_of(p_atom_only(d.subrange(0, k), st, cfg), p_atom_only(d, st, cfg), k),
{
    reveal(short_error);
    if st.pos < k {
        lemma_cut_atom_body(d, k, adv(st, 1), cfg, 1);
        lemma_cut_atom_body(d, k, adv(st, 1), cfg, 2);
    }
}

/// The bodies of the leaves with a length field, on a prefix.
proof fn lemma_cut_bodies(d: Seq<u8>, k: int, st: PState, cfg: ParseCfg, fl: spec_fn(int) -> Option<u64>, fl2: spec_fn(int) -> Option<u64>, at: int)
    requires
        0 <= st.pos <= k <= d.len(),
        cfg.streaming,
        floats_agree_before(fl, fl2, k),
        st.pos == at + 1,
        0 <= at,
    ensures
        cut_of(p_binary(d.subrange(0, k), st, cfg), p_binary(d, st, cfg), k),
        cut_of(p_bit_binary(d.subrange(0, k), st, cfg), p_bit_binary(d, st, cfg), k),
        cut_of(p_string(d.subrange(0, k), st, cfg), p_string(d, st, cfg), k),
        cut_of(p_legacy_float(d.subrange(0, k), st, cfg, at, fl2), p_legacy_float(d, st, cfg, at, fl), k),
        cut_of(p_new_fun(d.subrange(0, k), st, cfg, at), p_new_fun(d, st, cfg, at), k),
{
    lemma_cut_parts(d, k, st, cfg);
    if let Ok((len, s1)) = p_uint(d, st, cfg, 4) {
        if s1.pos <= k {
            lemma_cut_parts(d, k, s1, cfg);
            if let Ok((_, s2)) = p_bytes(d, s1, cfg, len - 4) {
                if s2.pos <= k {
                    assert(d.subrange(0, k).subrange(at, s2.pos) =~= d.subrange(at, s2.pos));
                }
            }
            if let Ok((_, s2)) = p_uint(d, s1, cfg, 1) {
                if s2.pos <= k {
                    lemma_cut_parts(d, k, s2, cfg);
                }
            }
        }
    }
    if let Ok((len, s1)) = p_uint(d, st, cfg, 2) {
        if s1.pos <= k {
            lemma_cut_parts(d, k, s1, cfg);
        }
    }
    if let Ok((b, s1)) = p_bytes(d, st, cfg, 31) {
        if s1.pos <= k {
            assert(fl2(at) == fl(at));
        }
    }
}

/// A PID, port or reference body, on a prefix.
proof fn lemma_cut_ids(d: Seq<u8>, k: int, st: PState, cfg: ParseCfg, at: int)
    requires
        0 <= st.pos <= k <= d.len(),
        cfg.streaming,
        0 <= at < st.pos,
    ensures
        forall|n: int, pid: bool|
            0 <= n ==> cut_of(#[trigger] p_node_id(d.subrange(0, k), st, cfg, at, n, pid), p_node_id(d, st, cfg, at, n, pid), k),
        forall|cw: int|
            (cw == 1 || cw == 4) ==> cut_of(#[trigger] p_ref(d.subrange(0, k), st, cfg, at, cw), p_ref(d, st, cfg, at, cw), k),
{
    let d2 = d.subrange(0, k);
    lemma_cut_atom_only(d, k, st, cfg);
    lemma_cut_parts(d, k, st, cfg);
    assert forall|n: int, pid: bool| 0 <= n implies cut_of(
        #[trigger] p_node_id(d2, st, cfg, at, n, pid),
        p_node_id(d, st, cfg, at, n, pid),
        k,
    ) by {
        if let Ok((_, s1)) = p_atom_only(d, st, cfg) {
            if s1.pos <= k {
                lemma_cut_parts(d, k, s1, cfg);
                if let Ok((_, s2)) = p_bytes(d, s1, cfg, n) {
                    if s2.pos <= k {
                        assert(d2.subrange(at, s2.pos) =~= d.subrange(at, s2.pos));
                    }
                }
            }
        }
    }
    assert forall|cw: int| (cw == 1 || cw == 4) implies cut_of(
        #[trigger] p_ref(d2, st, cfg, at, cw),
        p_ref(d, st, cfg, at, cw),
        k,
    ) by {
        if let Ok((len, s1)) = p_uint(d, st, cfg, 2) {
            if s1.pos <= k {
                lemma_cut_atom_only(d, k, s1, cfg);
                if let Ok((_, s2)) = p_atom_only(d, s1, cfg) {
                    if s2.pos <= k {
                        lemma_cut_parts(d, k, s2, cfg);
                        if let Ok((_, s3)) = p_uint(d, s2, cfg, cw) {
                            if s3.pos <= k {
                                lemma_cut_parts(d, k, s3, cfg);
                                if let Ok((_, s4)) = p_bytes(d, s3, cfg, len * 4) {
                                    if s4.pos <= k {
                                        assert(d2.subrange(at, s4.pos) =~= d.subrange(at, s4.pos));
                                    }
                                }
                            }
                        }
                    }
                }
            }
        }
    }
}

/// A term with no nested terms, on a prefix that holds its tag.
#[verifier::rlimit(60)]
proof fn lemma_cut_leaf(d: Seq<u8>, k: int, st: PState, cfg: ParseCfg, fl: spec_fn(int) -> Option<u64>, fl2: spec_fn(int) -> Option<u64>)
    requires
        0 <= st.pos < k <= d.len(),
        cfg.streaming,
        floats_agree_before(fl, fl2, k),
    ensures
        cut_of(p_leaf(d.subrange(0, k), st, cfg, fl2), p_leaf(d, st, cfg, fl), k),
{
    reveal(short_error);
    let d2 = d.subrange(0, k);
    let s1 = adv(st, 1);
    assert(d2[st.pos] == d[st.pos]);
    lemma_cut_parts(d, k, s1, cfg);
    lemma_cut_atom_body(d, k, s1, cfg, 1);
    lemma_cut_atom_body(d, k, s1, cfg, 2);
    lemma_cut_atom_body(d, k, s1, cfg, 4);
    lemma_cut_bodies(d, k, s1, cfg, fl, fl2, st.pos);
    lemma_cut_ids(d, k, s1, cfg, st.pos);
    if s1.pos + 8 <= k {
        assert forall|i: int| s1.pos <= i < s1.pos + 8 implies d2[i] == d[i] by {}
        assert(crate::cursor::be_u64_at(d2, s1.pos) == crate::cursor::be_u64_at(d, s1.pos));
    }
    if s1.pos + 4 <= k {
        assert(d2[s1.pos] == d[s1.pos] && d2[s1.pos + 1] == d[s1.pos + 1] && d2[s1.pos + 2] == d[s1.pos + 2]
            && d2[s1.pos + 3] == d[s1.pos + 3]);
    }
    if s1.pos + 1 <= k {
        assert(d2[s1.pos] == d[s1.pos]);
    }
}

/// One term, on a prefix that starts no later than the term.
pub proof fn lemma_cut_term(
    d: Seq<u8>,
    k: int,
    st: PState,
    h: int,
    cfg: ParseCfg,
    fl: spec_fn(int) -> Option<u64>,
    fl2: spec_fn(int) -> Option<u64>,
)
    requires
        0 <= st.pos <= k <= d.len(),
        cfg.streaming,
        floats_agree_before(fl, fl2, k),
    ensures
        cut_of(p_term(d.subrange(0, k), st, h, cfg, fl2), p_term(d, st, h, cfg, fl), k),
    decreases d.len() - st.pos, 1int, 1int,
{
    reveal(short_error);
    lemma_term_advances(d, st, h, cfg, fl);
    if h <= cfg.limits.max_depth && st.pos < k {
        assert(d.subrange(0, k)[st.pos] == d[st.pos]);
        lemma_cut_leaf(d, k, st, cfg, fl, fl2);
        lemma_cut_tuple(d, k, st, h, cfg, fl, fl2);
        lemma_cut_list(d, k, st, h, cfg, fl, fl2);
        lemma_cut_map(d, k, st, h, cfg, fl, fl2);
        lemma_cut_export(d, k, st, h, cfg, fl, fl2);
        lemma_cut_record(d, k, st, h, cfg, fl, fl2);
    }
}

/// A tuple, on a prefix that holds its tag.
#[verifier::rlimit(80)]
#[verifier::spinoff_prover]
proof fn lemma_cut_tuple(
    d: Seq<u8>,
    k: int,
    st: PState,
    h: int,
    cfg: ParseCfg,
    fl: spec_fn(int) -> Option<u64>,
    fl2: spec_fn(int) -> Option<u64>,
)
    requires
        0 <= st.pos < k <= d.len(),
        cfg.streaming,
        floats_agree_before(fl, fl2, k),
    ensures
        cut_of(p_tuple(d.subrange(0, k), st, h, cfg, fl2), p_tuple(d, st, h, cfg, fl), k),
    decreases d.len() - st.pos, 1int, 0int,
{
    let s1 = adv(st, 1);
    assert(d.subrange(0, k)[st.pos] == d[st.pos]);
    lemma_cut_parts(d, k, s1, cfg);
    let w = if d[st.pos] == crate::tags::SMALL_TUPLE_EXT { 1int } else { 4int };
    if let Ok((arity, s2)) = p_uint(d, s1, cfg, w) {
        if s2.pos > st.pos && s2.pos <= k {
            if let Some(s3) = claim(cfg, s2, TERM_CELL as int, TERM_ALIGN as int, arity) {
                if let Some(s4) = claim(cfg, s3, FRAME_CELL as int, FRAME_ALIGN as int, 1) {
                    lemma_cut_seq(d, k, s4, arity, h + 1, cfg, fl, fl2);
                }
            }
        }
        if s2.pos <= d.len() {
            if let Some(s3) = claim(cfg, s2, TERM_CELL as int, TERM_ALIGN as int, arity) {
                if let Some(s4) = claim(cfg, s3, FRAME_CELL as int, FRAME_ALIGN as int, 1) {
                    lemma_seq_advances(d, s4, arity, h + 1, cfg, fl);
                }
            }
        }
    }
}

/// A list, on a prefix that holds its tag.
#[verifier::rlimit(80)]
#[verifier::spinoff_prover]
proof fn lemma_cut_list(
    d: Seq<u8>,
    k: int,
    st: PState,
    h: int,
    cfg: ParseCfg,
    fl: spec_fn(int) -> Option<u64>,
    fl2: spec_fn(int) -> Option<u64>,
)
    requires
        0 <= st.pos < k <= d.len(),
        cfg.streaming,
        floats_agree_before(fl, fl2, k),
    ensures
        cut_of(p_list(d.subrange(0, k), st, h, cfg, fl2), p_list(d, st, h, cfg, fl), k),
    decreases d.len() - st.pos, 1int, 0int,
{
    lemma_cut_parts(d, k, adv(st, 1), cfg);
    if let Ok((len, s2)) = p_uint(d, adv(st, 1), cfg, 4) {
        if s2.pos > st.pos && s2.pos <= k {
            if let Some(s3) = claim(cfg, s2, TERM_CELL as int, TERM_ALIGN as int, len + 1) {
                if let Some(s4) = claim(cfg, s3, FRAME_CELL as int, FRAME_ALIGN as int, 1) {
                    lemma_cut_seq(d, k, s4, len + 1, h + 1, cfg, fl, fl2);
                }
            }
        }
        if s2.pos <= d.len() {
            if let Some(s3) = claim(cfg, s2, TERM_CELL as int, TERM_ALIGN as int, len + 1) {
                if let Some(s4) = claim(cfg, s3, FRAME_CELL as int, FRAME_ALIGN as int, 1) {
                    lemma_seq_advances(d, s4, len + 1, h + 1, cfg, fl);
                }
            }
        }
    }
}

/// A map, on a prefix that holds its tag.
#[verifier::rlimit(80)]
#[verifier::spinoff_prover]
proof fn lemma_cut_map(
    d: Seq<u8>,
    k: int,
    st: PState,
    h: int,
    cfg: ParseCfg,
    fl: spec_fn(int) -> Option<u64>,
    fl2: spec_fn(int) -> Option<u64>,
)
    requires
        0 <= st.pos < k <= d.len(),
        cfg.streaming,
        floats_agree_before(fl, fl2, k),
    ensures
        cut_of(p_map(d.subrange(0, k), st, h, cfg, fl2), p_map(d, st, h, cfg, fl), k),
    decreases d.len() - st.pos, 1int, 0int,
{
    lemma_cut_parts(d, k, adv(st, 1), cfg);
    if let Ok((len, s2)) = p_uint(d, adv(st, 1), cfg, 4) {
        if s2.pos > st.pos && s2.pos <= k {
            if let Some(s3) = claim(cfg, s2, PAIR_CELL as int, TERM_ALIGN as int, len) {
                if let Some(s4) = claim(cfg, s3, FRAME_CELL as int, FRAME_ALIGN as int, 1) {
                    lemma_cut_pairs(d, k, s4, len, h + 1, cfg, fl, fl2);
                }
            }
        }
        if s2.pos <= d.len() {
            if let Some(s3) = claim(cfg, s2, PAIR_CELL as int, TERM_ALIGN as int, len) {
                if let Some(s4) = claim(cfg, s3, FRAME_CELL as int, FRAME_ALIGN as int, 1) {
                    lemma_pairs_advances(d, s4, len, h + 1, cfg, fl);
                }
            }
        }
    }
}

/// An export, on a prefix that holds its tag.
#[verifier::rlimit(80)]
#[verifier::spinoff_prover]
proof fn lemma_cut_export(
    d: Seq<u8>,
    k: int,
    st: PState,
    h: int,
    cfg: ParseCfg,
    fl: spec_fn(int) -> Option<u64>,
    fl2: spec_fn(int) -> Option<u64>,
)
    requires
        0 <= st.pos < k <= d.len(),
        cfg.streaming,
        floats_agree_before(fl, fl2, k),
    ensures
        cut_of(p_export(d.subrange(0, k), st, h, cfg, fl2), p_export(d, st, h, cfg, fl), k),
    decreases d.len() - st.pos, 1int, 0int,
{
    let s1 = adv(st, 1);
    lemma_cut_atom_only(d, k, s1, cfg);
    if let Ok((_, s2)) = p_atom_only(d, s1, cfg) {
        if s2.pos <= k {
            lemma_cut_atom_only(d, k, s2, cfg);
            if let Ok((_, s3)) = p_atom_only(d, s2, cfg) {
                if s3.pos > st.pos && s3.pos <= k {
                    if let Some(s4) = claim(cfg, s3, TERM_CELL as int, TERM_ALIGN as int, 1) {
                        if let Some(s5) = claim(cfg, s4, FRAME_CELL as int, FRAME_ALIGN as int, 1) {
                            lemma_cut_seq(d, k, s5, 1, h + 1, cfg, fl, fl2);
                            lemma_seq_advances(d, s5, 1, h + 1, cfg, fl);
                            if let Ok((_, s6)) = p_seq(d, s5, 1, h + 1, cfg, fl) {
                                if s6.pos <= k {
                                    assert(d.subrange(0, k).subrange(st.pos, s6.pos) =~= d.subrange(st.pos, s6.pos));
                                }
                            }
                        }
                    }
                }
            }
        }
    }
}

/// A record, on a prefix that holds its tag.
#[verifier::rlimit(80)]
#[verifier::spinoff_prover]
proof fn lemma_cut_record(
    d: Seq<u8>,
    k: int,
    st: PState,
    h: int,
    cfg: ParseCfg,
    fl: spec_fn(int) -> Option<u64>,
    fl2: spec_fn(int) -> Option<u64>,
)
    requires
        0 <= st.pos < k <= d.len(),
        cfg.streaming,
        floats_agree_before(fl, fl2, k),
    ensures
        cut_of(p_record(d.subrange(0, k), st, h, cfg, fl2), p_record(d, st, h, cfg, fl), k),
    decreases d.len() - st.pos, 1int, 0int,
{
    lemma_cut_parts(d, k, adv(st, 1), cfg);
    if let Ok((n, s2)) = p_uint(d, adv(st, 1), cfg, 4) {
        if let Ok((_, s3)) = p_uint(d, s2, cfg, 1) {
            if s3.pos > st.pos && s3.pos <= d.len() {
                if let Some(s4) = claim(cfg, s3, TERM_CELL as int, TERM_ALIGN as int, 1) {
                    if let Some(s5) = claim(cfg, s4, FRAME_CELL as int, FRAME_ALIGN as int, 1) {
                        lemma_seq_advances(d, s5, 2 * n + 2, h + 1, cfg, fl);
                    }
                }
            }
        }
        if s2.pos <= k {
            lemma_cut_parts(d, k, s2, cfg);
            if let Ok((_, s3)) = p_uint(d, s2, cfg, 1) {
                if s3.pos > st.pos && s3.pos <= k {
                    if let Some(s4) = claim(cfg, s3, TERM_CELL as int, TERM_ALIGN as int, 1) {
                        if let Some(s5) = claim(cfg, s4, FRAME_CELL as int, FRAME_ALIGN as int, 1) {
                            lemma_cut_seq(d, k, s5, 2 * n + 2, h + 1, cfg, fl, fl2);
                            lemma_seq_advances(d, s5, 2 * n + 2, h + 1, cfg, fl);
                            if let Ok((_, s6)) = p_seq(d, s5, 2 * n + 2, h + 1, cfg, fl) {
                                if s6.pos <= k {
                                    assert(d.subrange(0, k).subrange(st.pos, s6.pos) =~= d.subrange(st.pos, s6.pos));
                                }
                            }
                        }
                    }
                }
            }
        }
    }
}

/// `n` terms, on a prefix that starts no later than the first.
pub proof fn lemma_cut_seq(
    d: Seq<u8>,
    k: int,
    st: PState,
    n: int,
    h: int,
    cfg: ParseCfg,
    fl: spec_fn(int) -> Option<u64>,
    fl2: spec_fn(int) -> Option<u64>,
)
    requires
        0 <= st.pos <= k <= d.len(),
        cfg.streaming,
        floats_agree_before(fl, fl2, k),
    ensures
        cut_of(p_seq(d.subrange(0, k), st, n, h, cfg, fl2), p_seq(d, st, n, h, cfg, fl), k),
    decreases d.len() - st.pos, 2int, n,
{
    if n > 0 {
        lemma_cut_term(d, k, st, h, cfg, fl, fl2);
        lemma_term_advances(d, st, h, cfg, fl);
        if let Ok((t, s1)) = p_term(d, st, h, cfg, fl) {
            if s1.pos > st.pos && s1.pos <= d.len() {
                lemma_seq_advances(d, s1, n - 1, h, cfg, fl);
                if s1.pos <= k {
                    lemma_cut_seq(d, k, s1, n - 1, h, cfg, fl, fl2);
                }
            }
        }
    }
}

/// `n` pairs of terms, on a prefix that starts no later than the first.
#[verifier::rlimit(80)]
#[verifier::spinoff_prover]
pub proof fn lemma_cut_pairs(
    d: Seq<u8>,
    k: int,
    st: PState,
    n: int,
    h: int,
    cfg: ParseCfg,
    fl: spec_fn(int) -> Option<u64>,
    fl2: spec_fn(int) -> Option<u64>,
)
    requires
        0 <= st.pos <= k <= d.len(),
        cfg.streaming,
        floats_agree_before(fl, fl2, k),
    ensures
        cut_of(p_pairs(d.subrange(0, k), st, n, h, cfg, fl2), p_pairs(d, st, n, h, cfg, fl), k),
    decreases d.len() - st.pos, 2int, n,
{
    if n > 0 {
        lemma_cut_term(d, k, st, h, cfg, fl, fl2);
        lemma_term_advances(d, st, h, cfg, fl);
        if let Ok((_, s1)) = p_term(d, st, h, cfg, fl) {
            if s1.pos > st.pos && s1.pos <= d.len() {
                lemma_term_advances(d, s1, h, cfg, fl);
                if s1.pos <= k {
                    lemma_cut_term(d, k, s1, h, cfg, fl, fl2);
                }
                if let Ok((_, s2)) = p_term(d, s1, h, cfg, fl) {
                    if s2.pos > s1.pos && s2.pos <= d.len() {
                        lemma_pairs_advances(d, s2, n - 1, h, cfg, fl);
                        if s2.pos <= k {
                            lemma_cut_pairs(d, k, s2, n - 1, h, cfg, fl, fl2);
                        }
                    }
                }
            }
        }
    }
}

} // verus!
