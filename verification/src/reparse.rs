//! Every term a decode yields decodes back from its encoding, wherever that
//! encoding stands: what the encoder re-emits as raw bytes (PIDs, ports,
//! references, funs, records) decodes as it did, and the rest is rebuilt.

use vstd::prelude::*;

use crate::budget::{lemma_budget_term, unbounded};
use crate::encoder::{be32, emit, enc_pairs, enc_seq, enc_term};
use crate::encodable::{lemma_pairs_encode, lemma_seq_encodes};
use crate::error::EtfError;
use crate::limits::Limits;
use crate::grammar::{
    adv, lemma_term_advances, p_leaf, string_ints, p_list, p_map, p_pairs, p_seq, p_term, p_tuple, p_uint, PResult, PState, ParseCfg,
};
use crate::parser::{legacy_text, reading, FloatText};
use crate::roundtrip::{
    holds_at, lemma_all_roundtrip, lemma_be32, lemma_enc_complete, lemma_enc_pairs_front, lemma_enc_seq_front, lemma_holds_index,
    lemma_holds_split, lemma_list_unbounded, lemma_rt_term, lemma_seq_then_nil, lemma_tuple_unbounded, roundtrips,
};
use crate::tags::{LARGE_TUPLE_EXT, LIST_EXT, MAP_EXT, NIL_EXT, SMALL_TUPLE_EXT};
use crate::types::TermModel;
use crate::window::{floats_agree_within, lemma_win_bytes, lemma_win_term, sh, window};

verus! {

/// `r` is a value equal to `v` that ends at `end`.
pub open spec fn lands<T>(r: PResult<T>, v: T, end: int) -> bool {
    match r {
        Ok((v2, s2)) => v2 == v && s2.pos == end,
        Err(_) => false,
    }
}

/// `t` encodes, and its encoding decodes back to `t` at height `h` under
/// `cfg`, wherever it stands in an input whose legacy floats are read as
/// `F` reads them.
pub open spec fn reparses<F: FloatText>(t: TermModel, h: int, cfg: ParseCfg) -> bool {
    &&& enc_term(t).complete
    &&& forall|d2: Seq<u8>, st2: PState|
        holds_at(d2, st2.pos, enc_term(t).bytes) ==> lands(
            #[trigger] p_term(d2, st2, h, cfg, reading::<F>(d2)),
            t,
            st2.pos + enc_term(t).bytes.len(),
        )
}

/// `F` reads the floats of a window as it reads the same bytes elsewhere.
pub proof fn lemma_floats_window<F: FloatText>(d: Seq<u8>, d2: Seq<u8>, lo: int, hi: int, delta: int)
    requires
        window(d, d2, lo, hi, delta),
    ensures
        floats_agree_within(reading::<F>(d), reading::<F>(d2), lo, hi, delta),
{
    assert forall|at: int| lo <= at && at + 32 <= hi implies #[trigger] reading::<F>(d2)(at + delta) == reading::<F>(d)(
        at,
    ) by {
        lemma_win_bytes(d, d2, lo, hi, delta, at + 1, at + 32);
        assert(d2.subrange(at + delta + 1, at + delta + 32) == d.subrange(at + 1, at + 32));
        assert(legacy_text(d2, at + delta) == legacy_text(d, at));
    }
}

/// Bytes of `d` that `d2` holds at `p2` form a window.
proof fn lemma_holds_window(d: Seq<u8>, a: int, b: int, d2: Seq<u8>, p2: int)
    requires
        0 <= a <= b <= d.len(),
        holds_at(d2, p2, d.subrange(a, b)),
    ensures
        window(d, d2, a, b, p2 - a),
{
    assert forall|i: int| a <= i < b implies #[trigger] d2[i + (p2 - a)] == d[i] by {
        lemma_holds_index(d2, p2, d.subrange(a, b), i - a);
    }
}

/// What the window and the arena give, put together.
proof fn lemma_lands_from(
    r: PResult<TermModel>,
    w: PResult<TermModel>,
    u: PResult<TermModel>,
    t: TermModel,
    s1: PState,
    delta: int,
)
    requires
        r == Ok::<(TermModel, PState), EtfError>((t, s1)),
        crate::window::win_of(w, r, delta, s1.pos),
        crate::budget::within_budget(w, u),
    ensures
        lands(u, t, s1.pos + delta),
{
}

/// A term that a decode yields as the very bytes it decoded decodes back
/// from the same bytes in `d2` at `st2`.
#[verifier::rlimit(100)]
#[verifier::spinoff_prover]
proof fn lemma_raw_at<F: FloatText>(
    d: Seq<u8>,
    st: PState,
    h: int,
    cfg: ParseCfg,
    t: TermModel,
    s1: PState,
    d2: Seq<u8>,
    st2: PState,
)
    requires
        unbounded(cfg) == cfg,
        0 <= st.pos <= s1.pos <= d.len(),
        p_term(d, st, h, cfg, reading::<F>(d)) == Ok::<(TermModel, PState), EtfError>((t, s1)),
        holds_at(d2, st2.pos, d.subrange(st.pos, s1.pos)),
    ensures
        lands(p_term(d2, st2, h, cfg, reading::<F>(d2)), t, st2.pos + (s1.pos - st.pos)),
{
    let delta = st2.pos - st.pos;
    lemma_holds_window(d, st.pos, s1.pos, d2, st2.pos);
    lemma_floats_window::<F>(d, d2, st.pos, s1.pos, delta);
    lemma_win_term(d, d2, st.pos, s1.pos, delta, st, h, cfg, reading::<F>(d), reading::<F>(d2));
    lemma_budget_term(d2, sh(st, delta), st2, h, cfg, reading::<F>(d2));
    lemma_lands_from(
        p_term(d, st, h, cfg, reading::<F>(d)),
        p_term(d2, sh(st, delta), h, cfg, reading::<F>(d2)),
        p_term(d2, st2, h, unbounded(cfg), reading::<F>(d2)),
        t,
        s1,
        delta,
    );
}

/// A term that a decode yields as the very bytes it decoded decodes back
/// from them anywhere.
pub proof fn lemma_raw_reparses<F: FloatText>(d: Seq<u8>, st: PState, h: int, cfg: ParseCfg, t: TermModel, s1: PState)
    requires
        unbounded(cfg) == cfg,
        0 <= st.pos <= s1.pos <= d.len(),
        p_term(d, st, h, cfg, reading::<F>(d)) == Ok::<(TermModel, PState), EtfError>((t, s1)),
        enc_term(t) == emit(d.subrange(st.pos, s1.pos)),
    ensures
        reparses::<F>(t, h, cfg),
{
    assert forall|d2: Seq<u8>, st2: PState| holds_at(d2, st2.pos, enc_term(t).bytes) implies lands(
        #[trigger] p_term(d2, st2, h, cfg, reading::<F>(d2)),
        t,
        st2.pos + enc_term(t).bytes.len(),
    ) by {
        lemma_raw_at::<F>(d, st, h, cfg, t, s1, d2, st2);
    }
}

/// Terms that each decode back decode back one after another.
#[verifier::spinoff_prover]
pub proof fn lemma_rp_seq<F: FloatText>(s: Seq<TermModel>, d2: Seq<u8>, st2: PState, h: int, cfg: ParseCfg)
    requires
        forall|i: int| 0 <= i < s.len() ==> #[trigger] reparses::<F>(s[i], h, cfg),
        enc_seq(s).complete,
        holds_at(d2, st2.pos, enc_seq(s).bytes),
    ensures
        lands(p_seq(d2, st2, s.len() as int, h, cfg, reading::<F>(d2)), s, st2.pos + enc_seq(s).bytes.len()),
    decreases s.len(),
{
    let fl2 = reading::<F>(d2);
    if s.len() == 0 {
        assert(s =~= Seq::<TermModel>::empty());
    } else {
        let rest = s.subrange(1, s.len() as int);
        lemma_enc_seq_front(s);
        assert(reparses::<F>(s[0], h, cfg));
        let e0 = enc_term(s[0]).bytes;
        lemma_holds_split(d2, st2.pos, e0, enc_seq(rest).bytes);
        assert(lands(p_term(d2, st2, h, cfg, fl2), s[0], st2.pos + e0.len()));
        let s1 = p_term(d2, st2, h, cfg, fl2)->Ok_0.1;
        assert forall|i: int| 0 <= i < rest.len() implies #[trigger] reparses::<F>(rest[i], h, cfg) by {
            assert(rest[i] == s[i + 1]);
        }
        lemma_rp_seq::<F>(rest, d2, s1, h, cfg);
        crate::grammar::lemma_seq_step(d2, st2, s.len() as int, h, cfg, fl2);
        assert(seq![s[0]] + rest =~= s);
    }
}

/// Pairs whose keys and values each decode back decode back one after
/// another.
#[verifier::rlimit(60)]
#[verifier::spinoff_prover]
pub proof fn lemma_rp_pairs<F: FloatText>(s: Seq<(TermModel, TermModel)>, d2: Seq<u8>, st2: PState, h: int, cfg: ParseCfg)
    requires
        forall|i: int|
            #![trigger s[i]]
            0 <= i < s.len() ==> reparses::<F>(s[i].0, h, cfg) && reparses::<F>(s[i].1, h, cfg),
        enc_pairs(s).complete,
        holds_at(d2, st2.pos, enc_pairs(s).bytes),
    ensures
        lands(p_pairs(d2, st2, s.len() as int, h, cfg, reading::<F>(d2)), s, st2.pos + enc_pairs(s).bytes.len()),
    decreases s.len(),
{
    let fl2 = reading::<F>(d2);
    if s.len() == 0 {
        assert(s =~= Seq::<(TermModel, TermModel)>::empty());
    } else {
        let rest = s.subrange(1, s.len() as int);
        lemma_enc_pairs_front(s);
        assert(reparses::<F>(s[0].0, h, cfg) && reparses::<F>(s[0].1, h, cfg));
        let ek = enc_term(s[0].0).bytes;
        let ev = enc_term(s[0].1).bytes;
        lemma_holds_split(d2, st2.pos, ek + ev, enc_pairs(rest).bytes);
        lemma_holds_split(d2, st2.pos, ek, ev);
        assert(lands(p_term(d2, st2, h, cfg, fl2), s[0].0, st2.pos + ek.len()));
        let s1 = p_term(d2, st2, h, cfg, fl2)->Ok_0.1;
        assert(lands(p_term(d2, s1, h, cfg, fl2), s[0].1, s1.pos + ev.len()));
        let s2 = p_term(d2, s1, h, cfg, fl2)->Ok_0.1;
        assert forall|i: int| #![trigger rest[i]] 0 <= i < rest.len() implies reparses::<F>(rest[i].0, h, cfg)
            && reparses::<F>(rest[i].1, h, cfg) by {
            assert(rest[i] == s[i + 1]);
        }
        lemma_rp_pairs::<F>(rest, d2, s2, h, cfg);
        crate::grammar::lemma_pairs_step(d2, st2, s.len() as int, h, cfg, fl2);
        assert(seq![s[0]] + rest =~= s);
    }
}

/// Each term of `s` encodes, given that each decodes back.
proof fn lemma_all_encode<F: FloatText>(s: Seq<TermModel>, h: int, cfg: ParseCfg)
    requires
        forall|i: int| 0 <= i < s.len() ==> #[trigger] reparses::<F>(s[i], h, cfg),
    ensures
        enc_seq(s).complete,
{
    assert forall|i: int| 0 <= i < s.len() implies #[trigger] enc_term(s[i]).complete by {
        assert(reparses::<F>(s[i], h, cfg));
    }
    lemma_seq_encodes(s);
}

/// A tuple whose elements decode back decodes back.
#[verifier::rlimit(60)]
#[verifier::spinoff_prover]
pub proof fn lemma_rp_tuple<F: FloatText>(s: Seq<TermModel>, h: int, cfg: ParseCfg)
    requires
        !cfg.bounded,
        h <= cfg.limits.max_depth,
        s.len() <= cfg.limits.max_tuple_arity,
        s.len() <= u32::MAX,
        forall|i: int| 0 <= i < s.len() ==> #[trigger] reparses::<F>(s[i], h + 1, cfg),
    ensures
        reparses::<F>(TermModel::Tuple(s), h, cfg),
{
    let t = TermModel::Tuple(s);
    lemma_all_encode::<F>(s, h + 1, cfg);
    let hd = if s.len() < 256 {
        seq![SMALL_TUPLE_EXT, s.len() as u8]
    } else {
        seq![LARGE_TUPLE_EXT] + be32(s.len() as u32 as int)
    };
    let e = enc_term(t).bytes;
    assert(e == hd + enc_seq(s).bytes);
    assert forall|d: Seq<u8>, st: PState| holds_at(d, st.pos, enc_term(t).bytes) implies lands(
        #[trigger] p_term(d, st, h, cfg, reading::<F>(d)),
        t,
        st.pos + enc_term(t).bytes.len(),
    ) by {
        let fl = reading::<F>(d);
        let p = st.pos;
        lemma_holds_split(d, p, hd, enc_seq(s).bytes);
        lemma_holds_index(d, p, e, 0);
        if s.len() < 256 {
            lemma_holds_index(d, p, hd, 1);
        } else {
            lemma_holds_split(d, p, seq![LARGE_TUPLE_EXT], be32(s.len() as u32 as int));
            lemma_be32(d, p + 1, s.len() as u32 as int);
        }
        let s2 = adv(st, hd.len() as int);
        assert(p_uint(d, adv(st, 1), cfg, if d[p] == SMALL_TUPLE_EXT { 1 } else { 4 }) == Ok::<(int, PState), EtfError>(
            (s.len() as int, s2),
        ));
        lemma_rp_seq::<F>(s, d, s2, h + 1, cfg);
        lemma_tuple_unbounded(d, st, h, cfg, fl, s.len() as int, s2);
        if s.len() == 0 {
            assert(s =~= Seq::<TermModel>::empty());
        }
        assert(lands(p_tuple(d, st, h, cfg, fl), t, p + e.len()));
    }
}

/// A proper, nonempty list whose elements decode back decodes back.
#[verifier::rlimit(80)]
#[verifier::spinoff_prover]
pub proof fn lemma_rp_list<F: FloatText>(s: Seq<TermModel>, h: int, cfg: ParseCfg)
    requires
        !cfg.bounded,
        h + 1 <= cfg.limits.max_depth,
        0 < s.len() <= cfg.limits.max_list_len,
        s.len() <= u32::MAX,
        s.len() + 1 <= usize::MAX,
        forall|i: int| 0 <= i < s.len() ==> #[trigger] reparses::<F>(s[i], h + 1, cfg),
    ensures
        reparses::<F>(TermModel::List(s), h, cfg),
{
    let t = TermModel::List(s);
    lemma_all_encode::<F>(s, h + 1, cfg);
    let hd = seq![LIST_EXT] + be32(s.len() as u32 as int);
    let es = enc_seq(s).bytes;
    let e = enc_term(t).bytes;
    assert(e == hd + es + seq![NIL_EXT]);
    assert forall|d: Seq<u8>, st: PState| holds_at(d, st.pos, enc_term(t).bytes) implies lands(
        #[trigger] p_term(d, st, h, cfg, reading::<F>(d)),
        t,
        st.pos + enc_term(t).bytes.len(),
    ) by {
        let fl = reading::<F>(d);
        let p = st.pos;
        lemma_holds_index(d, p, e, 0);
        lemma_holds_split(d, p, hd + es, seq![NIL_EXT]);
        lemma_holds_split(d, p, hd, es);
        lemma_holds_split(d, p, seq![LIST_EXT], be32(s.len() as u32 as int));
        lemma_be32(d, p + 1, s.len() as u32 as int);
        let s2 = adv(st, 5);
        lemma_rp_seq::<F>(s, d, s2, h + 1, cfg);
        let s3 = p_seq(d, s2, s.len() as int, h + 1, cfg, fl)->Ok_0.1;
        assert(s3.pos == s2.pos + es.len());
        lemma_holds_index(d, s3.pos, seq![NIL_EXT], 0);
        lemma_seq_then_nil(d, s2, s.len() as int, h + 1, cfg, fl, s, s3);
        let ts = s.push(TermModel::List(Seq::empty()));
        assert(ts.drop_last() =~= s);
        assert(p_uint(d, adv(st, 1), cfg, 4) == Ok::<(int, PState), EtfError>((s.len() as int, s2)));
        lemma_list_unbounded(d, st, h, cfg, fl, s.len() as int, s2);
        assert(ts.last().is_nil());
        assert(lands(p_list(d, st, h, cfg, fl), t, p + e.len()));
    }
}

/// An improper list whose elements and tail decode back decodes back.
#[verifier::rlimit(80)]
#[verifier::spinoff_prover]
pub proof fn lemma_rp_improper<F: FloatText>(s: Seq<TermModel>, h: int, cfg: ParseCfg)
    requires
        !cfg.bounded,
        h <= cfg.limits.max_depth,
        1 <= s.len(),
        s.len() - 1 <= cfg.limits.max_list_len,
        s.len() - 1 <= u32::MAX,
        s.len() <= usize::MAX,
        !s.last().is_nil(),
        forall|i: int| 0 <= i < s.len() ==> #[trigger] reparses::<F>(s[i], h + 1, cfg),
    ensures
        reparses::<F>(TermModel::ImproperList(s), h, cfg),
{
    let t = TermModel::ImproperList(s);
    lemma_all_encode::<F>(s, h + 1, cfg);
    let n = s.len() - 1;
    let hd = seq![LIST_EXT] + be32(n as u32 as int);
    let es = enc_seq(s).bytes;
    let e = enc_term(t).bytes;
    assert(e == hd + es);
    assert forall|d: Seq<u8>, st: PState| holds_at(d, st.pos, enc_term(t).bytes) implies lands(
        #[trigger] p_term(d, st, h, cfg, reading::<F>(d)),
        t,
        st.pos + enc_term(t).bytes.len(),
    ) by {
        let fl = reading::<F>(d);
        let p = st.pos;
        lemma_holds_index(d, p, e, 0);
        lemma_holds_split(d, p, hd, es);
        lemma_holds_split(d, p, seq![LIST_EXT], be32(n as u32 as int));
        lemma_be32(d, p + 1, n as u32 as int);
        let s2 = adv(st, 5);
        lemma_rp_seq::<F>(s, d, s2, h + 1, cfg);
        assert(p_uint(d, adv(st, 1), cfg, 4) == Ok::<(int, PState), EtfError>((n, s2)));
        lemma_list_unbounded(d, st, h, cfg, fl, n, s2);
        assert(lands(p_list(d, st, h, cfg, fl), t, p + e.len()));
    }
}

/// A map whose keys and values decode back decodes back.
#[verifier::rlimit(80)]
#[verifier::spinoff_prover]
pub proof fn lemma_rp_map<F: FloatText>(ps: Seq<(TermModel, TermModel)>, h: int, cfg: ParseCfg)
    requires
        !cfg.bounded,
        h <= cfg.limits.max_depth,
        ps.len() <= cfg.limits.max_map_len,
        ps.len() <= u32::MAX,
        forall|i: int|
            #![trigger ps[i]]
            0 <= i < ps.len() ==> reparses::<F>(ps[i].0, h + 1, cfg) && reparses::<F>(ps[i].1, h + 1, cfg),
    ensures
        reparses::<F>(TermModel::ErlangMap(ps), h, cfg),
{
    let t = TermModel::ErlangMap(ps);
    assert forall|i: int| #![trigger ps[i]] 0 <= i < ps.len() implies enc_term(ps[i].0).complete && enc_term(
        ps[i].1,
    ).complete by {
        assert(reparses::<F>(ps[i].0, h + 1, cfg) && reparses::<F>(ps[i].1, h + 1, cfg));
    }
    lemma_pairs_encode(ps);
    let hd = seq![MAP_EXT] + be32(ps.len() as u32 as int);
    let es = enc_pairs(ps).bytes;
    let e = enc_term(t).bytes;
    assert(e == hd + es);
    assert forall|d: Seq<u8>, st: PState| holds_at(d, st.pos, enc_term(t).bytes) implies lands(
        #[trigger] p_term(d, st, h, cfg, reading::<F>(d)),
        t,
        st.pos + enc_term(t).bytes.len(),
    ) by {
        let fl = reading::<F>(d);
        let p = st.pos;
        lemma_holds_index(d, p, e, 0);
        lemma_holds_split(d, p, hd, es);
        lemma_holds_split(d, p, seq![MAP_EXT], be32(ps.len() as u32 as int));
        lemma_be32(d, p + 1, ps.len() as u32 as int);
        let s2 = adv(st, 5);
        lemma_rp_pairs::<F>(ps, d, s2, h + 1, cfg);
        if ps.len() == 0 {
            assert(ps =~= Seq::<(TermModel, TermModel)>::empty());
        }
        assert(lands(p_map(d, st, h, cfg, fl), t, p + e.len()));
    }
}

/// Whether `t` holds the bytes it was decoded from, which the encoder
/// writes back as they are.
pub open spec fn is_raw(t: TermModel) -> bool {
    t is Pid || t is Port || t is Ref || t is Function || t is Record
}

/// A term that round-trips decodes back.
proof fn lemma_rt_reparses<F: FloatText>(t: TermModel, h: int, cfg: ParseCfg)
    requires
        !cfg.bounded,
        roundtrips(t, cfg.limits, h),
    ensures
        reparses::<F>(t, h, cfg),
{
    lemma_enc_complete(t, cfg.limits, h);
    assert forall|d2: Seq<u8>, st2: PState| holds_at(d2, st2.pos, enc_term(t).bytes) implies lands(
        #[trigger] p_term(d2, st2, h, cfg, reading::<F>(d2)),
        t,
        st2.pos + enc_term(t).bytes.len(),
    ) by {
        lemma_rt_term(t, d2, st2, h, cfg, reading::<F>(d2));
    }
}

/// Every nonempty proper list within `t`, at height `h`, holds at most
/// `max_list_len` elements and sits above the depth limit.  Every list a
/// `LIST_EXT` decodes to does; a `STRING_EXT` expanded to a list must, for
/// the list the encoder writes for it to decode.
pub open spec fn lists_fit(t: TermModel, limits: Limits, h: int) -> bool
    decreases t, 0nat,
{
    match t {
        TermModel::List(s) => s.len() == 0 || (s.len() <= limits.max_list_len && h + 1 <= limits.max_depth
            && all_fit(s, limits, h + 1)),
        TermModel::Tuple(s) => all_fit(s, limits, h + 1),
        TermModel::ImproperList(s) => all_fit(s, limits, h + 1),
        TermModel::ErlangMap(ps) => pairs_fit(ps, limits, h + 1),
        _ => true,
    }
}

/// Every list within every term of `s` fits, at height `h`.
pub open spec fn all_fit(s: Seq<TermModel>, limits: Limits, h: int) -> bool
    decreases s, s.len(),
{
    if s.len() == 0 {
        true
    } else {
        all_fit(s.drop_last(), limits, h) && lists_fit(s.last(), limits, h)
    }
}

/// Every list within every key and value of `s` fits, at height `h`.
pub open spec fn pairs_fit(s: Seq<(TermModel, TermModel)>, limits: Limits, h: int) -> bool
    decreases s, s.len(),
{
    if s.len() == 0 {
        true
    } else {
        pairs_fit(s.drop_last(), limits, h) && lists_fit(s.last().0, limits, h) && lists_fit(s.last().1, limits, h)
    }
}

/// The lists within `t` fit, where strings are expanded to lists.
pub open spec fn fits(t: TermModel, limits: Limits, h: int) -> bool {
    !limits.expand_string_ext_to_list || lists_fit(t, limits, h)
}

/// `all_fit` holds element by element.
proof fn lemma_all_fit(s: Seq<TermModel>, limits: Limits, h: int)
    requires
        all_fit(s, limits, h),
    ensures
        forall|i: int| 0 <= i < s.len() ==> #[trigger] lists_fit(s[i], limits, h),
    decreases s.len(),
{
    if s.len() > 0 {
        lemma_all_fit(s.drop_last(), limits, h);
        assert forall|i: int| 0 <= i < s.len() implies #[trigger] lists_fit(s[i], limits, h) by {
            if i < s.len() - 1 {
                assert(s.drop_last()[i] == s[i]);
            }
        }
    }
}

/// `pairs_fit` holds pair by pair.
proof fn lemma_pairs_fit(s: Seq<(TermModel, TermModel)>, limits: Limits, h: int)
    requires
        pairs_fit(s, limits, h),
    ensures
        forall|i: int| #![trigger s[i]] 0 <= i < s.len() ==> lists_fit(s[i].0, limits, h) && lists_fit(s[i].1, limits, h),
    decreases s.len(),
{
    if s.len() > 0 {
        lemma_pairs_fit(s.drop_last(), limits, h);
        assert forall|i: int| #![trigger s[i]] 0 <= i < s.len() implies lists_fit(s[i].0, limits, h) && lists_fit(
            s[i].1,
            limits,
            h,
        ) by {
            if i < s.len() - 1 {
                assert(s.drop_last()[i] == s[i]);
            }
        }
    }
}

/// `t` is a `STRING_EXT` expanded to a list.
pub open spec fn expanded(t: TermModel) -> bool {
    exists|b: Seq<u8>| b.len() <= u16::MAX && t == TermModel::List(#[trigger] string_ints(b))
}

/// A string expanded to a list that fits round-trips as that list.
proof fn lemma_expanded_roundtrips(t: TermModel, limits: Limits, h: int)
    requires
        expanded(t),
        lists_fit(t, limits, h),
        h <= limits.max_depth,
    ensures
        roundtrips(t, limits, h),
{
    let b = choose|b: Seq<u8>| b.len() <= u16::MAX && t == TermModel::List(#[trigger] string_ints(b));
    let s = string_ints(b);
    if s.len() > 0 {
        assert forall|i: int| 0 <= i < s.len() implies #[trigger] roundtrips(s[i], limits, h + 1) by {
            assert(s[i] == TermModel::Int(b[i] as i32));
        }
        lemma_all_roundtrip(s, limits, h + 1);
    }
}

/// A term with no nested terms that a decode yields either holds the bytes
/// it was decoded from, round-trips, or is a string expanded to a list.
#[verifier::rlimit(100)]
#[verifier::spinoff_prover]
proof fn lemma_leaf_kinds(d: Seq<u8>, st: PState, h: int, cfg: ParseCfg, fl: spec_fn(int) -> Option<u64>)
    requires
        0 <= st.pos < d.len(),
        h <= cfg.limits.max_depth,
    ensures
        p_leaf(d, st, cfg, fl) matches Ok((t, s1)) ==> if is_raw(t) {
            enc_term(t) == emit(d.subrange(st.pos, s1.pos))
        } else {
            roundtrips(t, cfg.limits, h) || (cfg.limits.expand_string_ext_to_list && expanded(t))
        },
{
    if let Ok((t, s1)) = p_leaf(d, st, cfg, fl) {
        let s2 = adv(st, 1);
        if s2.pos + 4 <= d.len() {
            assert(crate::cursor::be_u32_at(d, s2.pos) <= u32::MAX);
        }
        if s2.pos + 2 <= d.len() {
            assert(crate::cursor::be_u16_at(d, s2.pos) <= u16::MAX);
        }
        if d[st.pos] == crate::tags::STRING_EXT && cfg.limits.expand_string_ext_to_list {
            if let Ok((len, s3)) = p_uint(d, s2, cfg, 2) {
                let b = d.subrange(s3.pos, s3.pos + len);
                assert(t == TermModel::List(string_ints(b)));
                assert(expanded(t));
            }
        }
    }
}

/// Every term a decode yields decodes back, where the lists within it fit.
pub proof fn lemma_parse_reparses<F: FloatText>(d: Seq<u8>, st: PState, h: int, cfg: ParseCfg)
    requires
        unbounded(cfg) == cfg,
    ensures
        p_term(d, st, h, cfg, reading::<F>(d)) matches Ok((t, _)) ==> (fits(t, cfg.limits, h) ==> reparses::<F>(
            t,
            h,
            cfg,
        )),
    decreases d.len() - st.pos, 1int, 1int,
{
    let fl = reading::<F>(d);
    if h <= cfg.limits.max_depth && 0 <= st.pos && st.pos + 1 <= d.len() {
        lemma_term_advances(d, st, h, cfg, fl);
        let tag = d[st.pos];
        if tag == SMALL_TUPLE_EXT || tag == LARGE_TUPLE_EXT {
            lemma_tuple_parse_reparses::<F>(d, st, h, cfg);
        } else if tag == LIST_EXT {
            lemma_list_parse_reparses::<F>(d, st, h, cfg);
        } else if tag == MAP_EXT {
            lemma_map_parse_reparses::<F>(d, st, h, cfg);
        } else if tag == crate::tags::EXPORT_EXT || tag == crate::tags::RECORD_EXT {
            if let Ok((t, s1)) = p_term(d, st, h, cfg, fl) {
                assert(enc_term(t) == emit(d.subrange(st.pos, s1.pos)));
                lemma_raw_reparses::<F>(d, st, h, cfg, t, s1);
            }
        } else {
            lemma_leaf_kinds(d, st, h, cfg, fl);
            if let Ok((t, s1)) = p_term(d, st, h, cfg, fl) {
                if is_raw(t) {
                    lemma_raw_reparses::<F>(d, st, h, cfg, t, s1);
                } else if fits(t, cfg.limits, h) {
                    if !roundtrips(t, cfg.limits, h) {
                        lemma_expanded_roundtrips(t, cfg.limits, h);
                    }
                    lemma_rt_reparses::<F>(t, h, cfg);
                }
            }
        }
    }
}

/// Every term of a sequence a decode yields decodes back, where the lists
/// within it fit.
proof fn lemma_seq_parse_reparses<F: FloatText>(d: Seq<u8>, st: PState, n: int, h: int, cfg: ParseCfg)
    requires
        unbounded(cfg) == cfg,
        n >= 0,
    ensures
        p_seq(d, st, n, h, cfg, reading::<F>(d)) matches Ok((ts, _)) ==> ts.len() == n && forall|i: int|
            0 <= i < ts.len() ==> fits(#[trigger] ts[i], cfg.limits, h) ==> reparses::<F>(ts[i], h, cfg),
    decreases d.len() - st.pos, 2int, n,
{
    let fl = reading::<F>(d);
    if n > 0 {
        lemma_parse_reparses::<F>(d, st, h, cfg);
        lemma_term_advances(d, st, h, cfg, fl);
        if let Ok((t, s1)) = p_term(d, st, h, cfg, fl) {
            if s1.pos > st.pos && s1.pos <= d.len() {
                lemma_seq_parse_reparses::<F>(d, s1, n - 1, h, cfg);
                if let Ok((rest, _)) = p_seq(d, s1, n - 1, h, cfg, fl) {
                    let ts = seq![t] + rest;
                    assert forall|i: int| 0 <= i < ts.len() implies fits(#[trigger] ts[i], cfg.limits, h) ==> reparses::<F>(
                        ts[i],
                        h,
                        cfg,
                    ) by {
                        if i > 0 {
                            assert(ts[i] == rest[i - 1]);
                        }
                    }
                }
            }
        }
    }
}

/// Every key and value of a sequence of pairs a decode yields decodes
/// back, where the lists within it fit.
proof fn lemma_pairs_parse_reparses<F: FloatText>(d: Seq<u8>, st: PState, n: int, h: int, cfg: ParseCfg)
    requires
        unbounded(cfg) == cfg,
        n >= 0,
    ensures
        p_pairs(d, st, n, h, cfg, reading::<F>(d)) matches Ok((ps, _)) ==> ps.len() == n && forall|i: int|
            #![trigger ps[i]]
            0 <= i < ps.len() ==> (fits(ps[i].0, cfg.limits, h) ==> reparses::<F>(ps[i].0, h, cfg)) && (fits(
                ps[i].1,
                cfg.limits,
                h,
            ) ==> reparses::<F>(ps[i].1, h, cfg)),
    decreases d.len() - st.pos, 2int, n,
{
    let fl = reading::<F>(d);
    if n > 0 {
        lemma_parse_reparses::<F>(d, st, h, cfg);
        lemma_term_advances(d, st, h, cfg, fl);
        if let Ok((k, s1)) = p_term(d, st, h, cfg, fl) {
            if s1.pos > st.pos && s1.pos <= d.len() {
                lemma_parse_reparses::<F>(d, s1, h, cfg);
                lemma_term_advances(d, s1, h, cfg, fl);
                if let Ok((v, s2)) = p_term(d, s1, h, cfg, fl) {
                    if s2.pos > s1.pos && s2.pos <= d.len() {
                        lemma_pairs_parse_reparses::<F>(d, s2, n - 1, h, cfg);
                        if let Ok((rest, _)) = p_pairs(d, s2, n - 1, h, cfg, fl) {
                            let ps = seq![(k, v)] + rest;
                            assert forall|i: int| #![trigger ps[i]] 0 <= i < ps.len() implies (fits(
                                ps[i].0,
                                cfg.limits,
                                h,
                            ) ==> reparses::<F>(ps[i].0, h, cfg)) && (fits(ps[i].1, cfg.limits, h) ==> reparses::<F>(
                                ps[i].1,
                                h,
                                cfg,
                            )) by {
                                if i > 0 {
                                    assert(ps[i] == rest[i - 1]);
                                }
                            }
                        }
                    }
                }
            }
        }
    }
}

/// Where each term of `ts` decodes back where its lists fit, and the lists
/// of all of them fit at height `h`, each decodes back.
proof fn lemma_fit_children<F: FloatText>(ts: Seq<TermModel>, h: int, cfg: ParseCfg)
    requires
        forall|i: int| 0 <= i < ts.len() ==> fits(#[trigger] ts[i], cfg.limits, h) ==> reparses::<F>(ts[i], h, cfg),
        !cfg.limits.expand_string_ext_to_list || all_fit(ts, cfg.limits, h),
    ensures
        forall|i: int| 0 <= i < ts.len() ==> #[trigger] reparses::<F>(ts[i], h, cfg),
{
    if cfg.limits.expand_string_ext_to_list {
        lemma_all_fit(ts, cfg.limits, h);
    }
    assert forall|i: int| 0 <= i < ts.len() implies #[trigger] reparses::<F>(ts[i], h, cfg) by {
        assert(fits(ts[i], cfg.limits, h));
    }
}

/// A tuple a decode yields decodes back, where the lists within it fit.
#[verifier::rlimit(60)]
proof fn lemma_tuple_parse_reparses<F: FloatText>(d: Seq<u8>, st: PState, h: int, cfg: ParseCfg)
    requires
        unbounded(cfg) == cfg,
        0 <= st.pos < d.len(),
        h <= cfg.limits.max_depth,
    ensures
        p_tuple(d, st, h, cfg, reading::<F>(d)) matches Ok((t, _)) ==> (fits(t, cfg.limits, h) ==> reparses::<F>(
            t,
            h,
            cfg,
        )),
    decreases d.len() - st.pos, 1int, 0int,
{
    let fl = reading::<F>(d);
    let s1 = adv(st, 1);
    let w = if d[st.pos] == SMALL_TUPLE_EXT { 1int } else { 4int };
    if let Ok((arity, s2)) = p_uint(d, s1, cfg, w) {
        if s2.pos > st.pos && s2.pos <= d.len() && arity <= cfg.limits.max_tuple_arity {
            if w == 4 {
                assert(crate::cursor::be_u32_at(d, s1.pos) <= u32::MAX);
            }
            if arity == 0 {
                lemma_rp_tuple::<F>(Seq::empty(), h, cfg);
            } else {
                lemma_seq_parse_reparses::<F>(d, s2, arity, h + 1, cfg);
                if let Ok((ts, _)) = p_seq(d, s2, arity, h + 1, cfg, fl) {
                    if fits(TermModel::Tuple(ts), cfg.limits, h) {
                        lemma_fit_children::<F>(ts, h + 1, cfg);
                        lemma_rp_tuple::<F>(ts, h, cfg);
                    }
                }
            }
        }
    }
}

/// A list a decode yields decodes back, where the lists within it fit.
#[verifier::rlimit(60)]
proof fn lemma_list_parse_reparses<F: FloatText>(d: Seq<u8>, st: PState, h: int, cfg: ParseCfg)
    requires
        unbounded(cfg) == cfg,
        0 <= st.pos < d.len(),
        h <= cfg.limits.max_depth,
    ensures
        p_list(d, st, h, cfg, reading::<F>(d)) matches Ok((t, _)) ==> (fits(t, cfg.limits, h) ==> reparses::<F>(
            t,
            h,
            cfg,
        )),
    decreases d.len() - st.pos, 1int, 0int,
{
    let fl = reading::<F>(d);
    if let Ok((len, s2)) = p_uint(d, adv(st, 1), cfg, 4) {
        assert(crate::cursor::be_u32_at(d, st.pos + 1) <= u32::MAX);
        if s2.pos > st.pos && s2.pos <= d.len() && len <= cfg.limits.max_list_len && len + 1 <= usize::MAX {
            lemma_seq_parse_reparses::<F>(d, s2, len + 1, h + 1, cfg);
            if let Ok((ts, _)) = p_seq(d, s2, len + 1, h + 1, cfg, fl) {
                crate::grammar::lemma_seq_step(d, s2, len + 1, h + 1, cfg, fl);
                assert(h + 1 <= cfg.limits.max_depth);
                if ts.last().is_nil() {
                    let s = ts.drop_last();
                    if fits(TermModel::List(s), cfg.limits, h) {
                        if len == 0 {
                            assert(s.len() == 0);
                            lemma_rt_reparses::<F>(TermModel::List(s), h, cfg);
                        } else {
                            assert forall|i: int| 0 <= i < s.len() implies fits(#[trigger] s[i], cfg.limits, h + 1)
                                ==> reparses::<F>(s[i], h + 1, cfg) by {
                                assert(s[i] == ts[i]);
                            }
                            lemma_fit_children::<F>(s, h + 1, cfg);
                            lemma_rp_list::<F>(s, h, cfg);
                        }
                    }
                } else if fits(TermModel::ImproperList(ts), cfg.limits, h) {
                    lemma_fit_children::<F>(ts, h + 1, cfg);
                    lemma_rp_improper::<F>(ts, h, cfg);
                }
            }
        }
    }
}

/// A map a decode yields decodes back, where the lists within it fit.
#[verifier::rlimit(60)]
proof fn lemma_map_parse_reparses<F: FloatText>(d: Seq<u8>, st: PState, h: int, cfg: ParseCfg)
    requires
        unbounded(cfg) == cfg,
        0 <= st.pos < d.len(),
        h <= cfg.limits.max_depth,
    ensures
        p_map(d, st, h, cfg, reading::<F>(d)) matches Ok((t, _)) ==> (fits(t, cfg.limits, h) ==> reparses::<F>(
            t,
            h,
            cfg,
        )),
    decreases d.len() - st.pos, 1int, 0int,
{
    let fl = reading::<F>(d);
    if let Ok((len, s2)) = p_uint(d, adv(st, 1), cfg, 4) {
        assert(crate::cursor::be_u32_at(d, st.pos + 1) <= u32::MAX);
        if s2.pos > st.pos && s2.pos <= d.len() && len <= cfg.limits.max_map_len {
            if len == 0 {
                lemma_rp_map::<F>(Seq::empty(), h, cfg);
            } else {
                lemma_pairs_parse_reparses::<F>(d, s2, len, h + 1, cfg);
                if let Ok((ps, _)) = p_pairs(d, s2, len, h + 1, cfg, fl) {
                    if fits(TermModel::ErlangMap(ps), cfg.limits, h) {
                        if cfg.limits.expand_string_ext_to_list {
                            lemma_pairs_fit(ps, cfg.limits, h + 1);
                        }
                        assert forall|i: int| #![trigger ps[i]] 0 <= i < ps.len() implies reparses::<F>(ps[i].0, h + 1, cfg)
                            && reparses::<F>(ps[i].1, h + 1, cfg) by {
                            assert(fits(ps[i].0, cfg.limits, h + 1) && fits(ps[i].1, cfg.limits, h + 1));
                        }
                        lemma_rp_map::<F>(ps, h, cfg);
                    }
                }
            }
        }
    }
}

} // verus!
