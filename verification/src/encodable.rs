//! Every term a decode yields encodes: the encoder refuses only an improper
//! list with no tail, which decoding never yields.

use vstd::prelude::*;

use crate::arena::{FRAME_ALIGN, FRAME_CELL, PAIR_CELL, TERM_ALIGN, TERM_CELL};
use crate::encoder::{enc_pairs, enc_seq, enc_term};
use crate::grammar::{
    adv, claim, lemma_term_advances, p_leaf, p_list, p_map, p_pairs, p_seq, p_term, p_tuple, p_uint, PState,
    ParseCfg,
};
use crate::types::TermModel;

verus! {

/// Each term of `s` encodes completely.
pub open spec fn all_encode(s: Seq<TermModel>) -> bool {
    forall|i: int| 0 <= i < s.len() ==> #[trigger] enc_term(s[i]).complete
}

/// Each key and value of `s` encodes completely.
pub open spec fn pairs_encode(s: Seq<(TermModel, TermModel)>) -> bool {
    forall|i: int| #![trigger s[i]] 0 <= i < s.len() ==> enc_term(s[i].0).complete && enc_term(s[i].1).complete
}

/// Terms that each encode completely encode completely one after another.
pub proof fn lemma_seq_encodes(s: Seq<TermModel>)
    requires
        all_encode(s),
    ensures
        enc_seq(s).complete,
    decreases s.len(),
{
    if s.len() > 0 {
        assert forall|i: int| 0 <= i < s.drop_last().len() implies #[trigger] enc_term(s.drop_last()[i]).complete by {
            assert(s.drop_last()[i] == s[i]);
        }
        lemma_seq_encodes(s.drop_last());
        assert(enc_term(s[s.len() - 1]).complete);
    }
}

/// Pairs whose keys and values each encode completely encode completely.
pub proof fn lemma_pairs_encode(s: Seq<(TermModel, TermModel)>)
    requires
        pairs_encode(s),
    ensures
        enc_pairs(s).complete,
    decreases s.len(),
{
    if s.len() > 0 {
        assert forall|i: int| #![trigger s.drop_last()[i]] 0 <= i < s.drop_last().len() implies enc_term(
            s.drop_last()[i].0,
        ).complete && enc_term(s.drop_last()[i].1).complete by {
            assert(s.drop_last()[i] == s[i]);
        }
        lemma_pairs_encode(s.drop_last());
        assert(s.last() == s[s.len() - 1]);
    }
}

/// A term with no nested terms that a decode yields encodes completely.
proof fn lemma_leaf_encodes(d: Seq<u8>, st: PState, cfg: ParseCfg, fl: spec_fn(int) -> Option<u64>)
    requires
        0 <= st.pos < d.len(),
    ensures
        p_leaf(d, st, cfg, fl) matches Ok((t, _)) ==> enc_term(t).complete,
{
    if let Ok((t, _)) = p_leaf(d, st, cfg, fl) {
        if let TermModel::List(s) = t {
            if s.len() > 0 {
                assert(all_encode(s));
                lemma_seq_encodes(s);
            }
        }
    }
}

/// Every term a decode yields encodes completely.
pub proof fn lemma_term_encodes(d: Seq<u8>, st: PState, h: int, cfg: ParseCfg, fl: spec_fn(int) -> Option<u64>)
    ensures
        p_term(d, st, h, cfg, fl) matches Ok((t, _)) ==> enc_term(t).complete,
    decreases d.len() - st.pos, 1int, 1int,
{
    if h <= cfg.limits.max_depth && 0 <= st.pos && st.pos + 1 <= d.len() {
        lemma_leaf_encodes(d, st, cfg, fl);
        lemma_tuple_encodes(d, st, h, cfg, fl);
        lemma_list_encodes(d, st, h, cfg, fl);
        lemma_map_encodes(d, st, h, cfg, fl);
    }
}

/// A tuple a decode yields encodes completely.
proof fn lemma_tuple_encodes(d: Seq<u8>, st: PState, h: int, cfg: ParseCfg, fl: spec_fn(int) -> Option<u64>)
    requires
        0 <= st.pos < d.len(),
    ensures
        p_tuple(d, st, h, cfg, fl) matches Ok((t, _)) ==> enc_term(t).complete,
    decreases d.len() - st.pos, 1int, 0int,
{
    let s1 = adv(st, 1);
    let w = if d[st.pos] == crate::tags::SMALL_TUPLE_EXT { 1int } else { 4int };
    if let Ok((arity, s2)) = p_uint(d, s1, cfg, w) {
        if s2.pos > st.pos && s2.pos <= d.len() {
            if let Some(s3) = claim(cfg, s2, TERM_CELL as int, TERM_ALIGN as int, arity) {
                if arity == 0 {
                    lemma_seq_encodes(Seq::empty());
                }
                if let Some(s4) = claim(cfg, s3, FRAME_CELL as int, FRAME_ALIGN as int, 1) {
                    lemma_seq_all_encode(d, s4, arity, h + 1, cfg, fl);
                    if let Ok((ts, _)) = p_seq(d, s4, arity, h + 1, cfg, fl) {
                        lemma_seq_encodes(ts);
                    }
                }
            }
        }
    }
}

/// A list a decode yields encodes completely: a list with a tail other
/// than `[]` keeps at least that tail.
proof fn lemma_list_encodes(d: Seq<u8>, st: PState, h: int, cfg: ParseCfg, fl: spec_fn(int) -> Option<u64>)
    requires
        0 <= st.pos < d.len(),
    ensures
        p_list(d, st, h, cfg, fl) matches Ok((t, _)) ==> enc_term(t).complete,
    decreases d.len() - st.pos, 1int, 0int,
{
    if let Ok((len, s2)) = p_uint(d, adv(st, 1), cfg, 4) {
        if s2.pos > st.pos && s2.pos <= d.len() {
            if let Some(s3) = claim(cfg, s2, TERM_CELL as int, TERM_ALIGN as int, len + 1) {
                if let Some(s4) = claim(cfg, s3, FRAME_CELL as int, FRAME_ALIGN as int, 1) {
                    lemma_seq_all_encode(d, s4, len + 1, h + 1, cfg, fl);
                    if let Ok((ts, _)) = p_seq(d, s4, len + 1, h + 1, cfg, fl) {
                        lemma_seq_encodes(ts);
                        let init = ts.drop_last();
                        assert forall|i: int| 0 <= i < init.len() implies #[trigger] enc_term(init[i]).complete by {
                            assert(init[i] == ts[i]);
                        }
                        lemma_seq_encodes(init);
                    }
                }
            }
        }
    }
}

/// A map a decode yields encodes completely.
proof fn lemma_map_encodes(d: Seq<u8>, st: PState, h: int, cfg: ParseCfg, fl: spec_fn(int) -> Option<u64>)
    requires
        0 <= st.pos < d.len(),
    ensures
        p_map(d, st, h, cfg, fl) matches Ok((t, _)) ==> enc_term(t).complete,
    decreases d.len() - st.pos, 1int, 0int,
{
    if let Ok((len, s2)) = p_uint(d, adv(st, 1), cfg, 4) {
        if s2.pos > st.pos && s2.pos <= d.len() {
            if let Some(s3) = claim(cfg, s2, PAIR_CELL as int, TERM_ALIGN as int, len) {
                if len == 0 {
                    lemma_pairs_encode(Seq::empty());
                }
                if let Some(s4) = claim(cfg, s3, FRAME_CELL as int, FRAME_ALIGN as int, 1) {
                    lemma_pairs_all_encode(d, s4, len, h + 1, cfg, fl);
                    if let Ok((ps, _)) = p_pairs(d, s4, len, h + 1, cfg, fl) {
                        lemma_pairs_encode(ps);
                    }
                }
            }
        }
    }
}

/// Every term of a sequence a decode yields encodes completely.
proof fn lemma_seq_all_encode(d: Seq<u8>, st: PState, n: int, h: int, cfg: ParseCfg, fl: spec_fn(int) -> Option<u64>)
    ensures
        p_seq(d, st, n, h, cfg, fl) matches Ok((ts, _)) ==> all_encode(ts),
    decreases d.len() - st.pos, 2int, n,
{
    if n > 0 {
        lemma_term_encodes(d, st, h, cfg, fl);
        lemma_term_advances(d, st, h, cfg, fl);
        if let Ok((t, s1)) = p_term(d, st, h, cfg, fl) {
            if s1.pos > st.pos && s1.pos <= d.len() {
                lemma_seq_all_encode(d, s1, n - 1, h, cfg, fl);
                if let Ok((rest, _)) = p_seq(d, s1, n - 1, h, cfg, fl) {
                    let ts = seq![t] + rest;
                    assert forall|i: int| 0 <= i < ts.len() implies #[trigger] enc_term(ts[i]).complete by {
                        if i > 0 {
                            assert(ts[i] == rest[i - 1]);
                        }
                    }
                }
            }
        }
    }
}

/// Every key and value of a sequence of pairs a decode yields encodes
/// completely.
proof fn lemma_pairs_all_encode(d: Seq<u8>, st: PState, n: int, h: int, cfg: ParseCfg, fl: spec_fn(int) -> Option<u64>)
    ensures
        p_pairs(d, st, n, h, cfg, fl) matches Ok((ps, _)) ==> pairs_encode(ps),
    decreases d.len() - st.pos, 2int, n,
{
    if n > 0 {
        lemma_term_encodes(d, st, h, cfg, fl);
        lemma_term_advances(d, st, h, cfg, fl);
        if let Ok((k, s1)) = p_term(d, st, h, cfg, fl) {
            if s1.pos > st.pos && s1.pos <= d.len() {
                lemma_term_encodes(d, s1, h, cfg, fl);
                lemma_term_advances(d, s1, h, cfg, fl);
                if let Ok((v, s2)) = p_term(d, s1, h, cfg, fl) {
                    if s2.pos > s1.pos && s2.pos <= d.len() {
                        lemma_pairs_all_encode(d, s2, n - 1, h, cfg, fl);
                        if let Ok((rest, _)) = p_pairs(d, s2, n - 1, h, cfg, fl) {
                            let ps = seq![(k, v)] + rest;
                            assert forall|i: int| #![trigger ps[i]] 0 <= i < ps.len() implies enc_term(ps[i].0).complete
                                && enc_term(ps[i].1).complete by {
                                if i > 0 {
                                    assert(ps[i] == rest[i - 1]);
                                }
                            }
                        }
                    }
                }
            }
        }
    }
}

} // verus!
