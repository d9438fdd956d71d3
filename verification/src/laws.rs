//! What holds of the library as a whole.

use vstd::prelude::*;

use crate::api::{declared_size, is_compressed, p_body, parse_contract, result_model};
use crate::arena::{region_end, region_first, spec_align_up, spec_alloc, ArenaRegion};
use crate::budget::{lemma_budget_term, unbounded, within_budget};
use crate::encoder::{compressed_contract, compressed_header, compressed_outcome, emit, enc_stream, enc_term};
use crate::error::{EtfError, Needed};
use crate::grammar::{agrees, p_term, PState, ParseCfg};
use crate::cursor::be_u16_at;
use crate::limits::{
    Limits, MAX_ATOM_LEN, MAX_BIGNUM_SIZE, MAX_BINARY_SIZE, MAX_BIT_BINARY_SIZE, MAX_DEPTH, MAX_FUN_SIZE, MAX_LIST_LEN,
    MAX_MAP_LEN, MAX_REFERENCE_WORDS, MAX_STRING_LEN, MAX_TUPLE_ARITY,
};
use crate::roundtrip::{atom_field_end, holds_at, lemma_be32, lemma_enc_complete, lemma_rt_term, roundtrips};
use crate::tags::{
    ATOM_CACHE_REF, ATOM_UTF8_EXT, BINARY_EXT, BIT_BINARY_EXT, COMPRESSED, EXPORT_EXT, FLOAT_EXT,
    INTEGER_EXT, LARGE_BIG_EXT, LARGE_TUPLE_EXT, LIST_EXT, LOCAL_EXT, MAP_EXT, NEWER_REFERENCE_EXT,
    NEW_FLOAT_EXT, NEW_FUN_EXT, NEW_PID_EXT, NEW_PORT_EXT, NEW_REFERENCE_EXT, NIL_EXT, PID_EXT,
    PORT_EXT, RECORD_EXT, SMALL_ATOM_UTF8_EXT, SMALL_BIG_EXT, SMALL_INTEGER_EXT, SMALL_TUPLE_EXT,
    STRING_EXT, V4_PORT_EXT,
};
use crate::streaming::{complete_cfg, lemma_stream_term, vcomplete};
use crate::reparse::{lands, lemma_parse_reparses, lists_fit, reparses};
use crate::parser::{reading, FloatText};
use crate::types::{Term, TermModel};
use crate::zlib::{inflates_one_way, lossless, ZlibBackend};
use crate::revisit::{events_of, lemma_enc_complete_visit, lemma_vt_term, revisits, visit_limits};
use crate::visit_grammar::{v_term, Visit, VisitEvent};
use crate::visitor::{delivered, extends, oks, stream_cfg, visits_calls, Delivery};

verus! {

/// The result a decode of the term at `pos` of `d` gives over an arena that
/// is never exhausted.
pub open spec fn p_body_unbounded(
    d: Seq<u8>,
    pos: int,
    limits: Limits,
    streaming: bool,
    fl: spec_fn(int) -> Option<u64>,
) -> Result<TermModel, EtfError> {
    let cfg = ParseCfg { limits, streaming, bounded: false, arena_end: 0 };
    match p_term(d, PState { pos, ptr: 0 }, 0, cfg, fl) {
        Ok((t, _)) => Ok(t),
        Err(e) => Err(e),
    }
}

/// The arena only bounds a parse: over any arena region, a parse gives
/// what it gives over an arena that is never exhausted, or fails with
/// [`EtfError::ArenaExhausted`].
pub proof fn law_arena_only_bounds(
    d: Seq<u8>,
    pos: int,
    region: ArenaRegion,
    limits: Limits,
    streaming: bool,
    fl: spec_fn(int) -> Option<u64>,
)
    ensures
        p_body(d, pos, region, limits, streaming, fl) == Err::<TermModel, EtfError>(EtfError::ArenaExhausted)
            || p_body(d, pos, region, limits, streaming, fl) == p_body_unbounded(d, pos, limits, streaming, fl),
{
    let cfg = ParseCfg {
        limits,
        streaming,
        bounded: true,
        arena_end: region_end(region.start as int, region.len as int),
    };
    let sb = PState { pos, ptr: region_first(region.start as int, region.len as int) };
    let su = PState { pos, ptr: 0 };
    lemma_budget_term(d, sb, su, 0, cfg, fl);
}

/// Decoding what the encoder writes gives back the term.
///
/// For a term that round-trips under `limits` (every length fits its wire
/// field and its limit, nesting stays within the depth limit, strings stay
/// compact, no improper list lacks a tail or ends in `[]`, every PID, port,
/// reference and fun holds the bytes of such a term — an `EXPORT_EXT` fun
/// with a small-integer arity — and no record occurs), the stream
/// `encode_to_vec` and
/// `encode_to_buf` produce is complete, is not compressed, and parses —
/// streaming or not, over any arena region — to the same term, unless the
/// arena runs out.
pub proof fn law_parse_after_encode(
    t: TermModel,
    region: ArenaRegion,
    limits: Limits,
    streaming: bool,
    fl: spec_fn(int) -> Option<u64>,
)
    requires
        roundtrips(t, limits, 0),
    ensures
        enc_stream(t).complete,
        !is_compressed(enc_stream(t).bytes),
        p_body(enc_stream(t).bytes, 1, region, limits, streaming, fl) == Ok::<TermModel, EtfError>(t)
            || p_body(enc_stream(t).bytes, 1, region, limits, streaming, fl) == Err::<TermModel, EtfError>(
            EtfError::ArenaExhausted,
        ),
{
    let e = enc_term(t);
    lemma_enc_complete(t, limits, 0);
    let d = enc_stream(t).bytes;
    assert(d == seq![crate::tags::ETF_MAGIC] + e.bytes);
    assert(d.subrange(1, 1 + e.bytes.len() as int) =~= e.bytes);
    assert(holds_at(d, 1, e.bytes));
    assert(d[1] == e.bytes[0]);
    let cfg0 = ParseCfg { limits, streaming, bounded: false, arena_end: 0 };
    lemma_rt_term(t, d, PState { pos: 1, ptr: 0 }, 0, cfg0, fl);
    law_arena_only_bounds(d, 1, region, limits, streaming, fl);
}

/// Decoding, encoding and decoding again gives the term back.
///
/// Where the term at `pos` of `d` decodes to `t` (streaming or not, over
/// any arena region, its legacy floats read as `F` reads them; where
/// strings are expanded to lists, every nonempty list within `t` holds no
/// more elements than the list limit allows and sits above the depth
/// limit, as the list the encoder writes for it must), the stream `encode_to_vec` and `encode_to_buf`
/// produce for `t` is complete, is not compressed, and decodes (streaming
/// or not, over any arena region, its floats read as `F` reads them) to
/// `t` again, unless that arena runs out.  This holds of every term,
/// records and funs included: what the encoder writes back as raw bytes
/// decodes as it did where it was first read.
pub proof fn law_parse_encode_parse<F: FloatText>(
    d: Seq<u8>,
    pos: int,
    region: ArenaRegion,
    limits: Limits,
    streaming: bool,
    t: TermModel,
    region2: ArenaRegion,
    streaming2: bool,
)
    requires
        !limits.expand_string_ext_to_list || lists_fit(t, limits, 0),
        p_body(d, pos, region, limits, streaming, reading::<F>(d)) == Ok::<TermModel, EtfError>(t),
    ensures
        enc_stream(t).complete,
        !is_compressed(enc_stream(t).bytes),
        p_body(enc_stream(t).bytes, 1, region2, limits, streaming2, reading::<F>(enc_stream(t).bytes))
            == Ok::<TermModel, EtfError>(t) || p_body(
            enc_stream(t).bytes,
            1,
            region2,
            limits,
            streaming2,
            reading::<F>(enc_stream(t).bytes),
        ) == Err::<TermModel, EtfError>(EtfError::ArenaExhausted),
{
    let fl = reading::<F>(d);
    let cfg = ParseCfg { limits, streaming, bounded: false, arena_end: 0 };
    let cfgc = ParseCfg { limits, streaming: false, bounded: false, arena_end: 0 };
    law_arena_only_bounds(d, pos, region, limits, streaming, fl);
    let st = PState { pos, ptr: 0 };
    lemma_stream_term(d, st, 0, cfg, fl);
    assert(complete_cfg(cfg) == cfgc);
    assert(unbounded(cfgc) == cfgc);
    lemma_parse_reparses::<F>(d, st, 0, cfgc);
    assert(reparses::<F>(t, 0, cfgc));
    let e = enc_term(t);
    let v = enc_stream(t).bytes;
    assert(v == seq![crate::tags::ETF_MAGIC] + e.bytes);
    assert(v.subrange(1, 1 + e.bytes.len() as int) =~= e.bytes);
    assert(holds_at(v, 1, e.bytes));
    let fl2 = reading::<F>(v);
    let st2 = PState { pos: 1, ptr: 0 };
    assert(lands(p_term(v, st2, 0, cfgc, fl2), t, 1 + e.bytes.len() as int));
    let cfg2 = ParseCfg { limits, streaming: streaming2, bounded: false, arena_end: 0 };
    lemma_stream_term(v, st2, 0, cfg2, fl2);
    assert(complete_cfg(cfg2) == cfgc);
    law_arena_only_bounds(v, 1, region2, limits, streaming2, fl2);
    assert(v[1] == e.bytes[0]);
}

/// A visitor that answers every call `Ok` receives every event the visit
/// grammar states for the input, in order and nothing else, and the visit
/// returns `Ok` exactly when the grammar's visit of the input ends `Ok`.
pub proof fn law_visit_answered_ok<E: From<EtfError>, F: FloatText>(
    d: Seq<u8>,
    p: int,
    limits: Limits,
    streaming: bool,
    before: Seq<(VisitEvent, Result<(), E>)>,
    after: Seq<(VisitEvent, Result<(), E>)>,
    r: Result<(), E>,
)
    requires
        visits_calls::<E, F>(d, p, limits, streaming, before, after, r),
        forall|i: int| before.len() <= i < after.len() ==> (#[trigger] after[i]).1 is Ok,
    ensures
        after == before + oks::<E>(v_term(d, p, 0, stream_cfg(limits, streaming), reading::<F>(d)).events),
        r is Ok <==> v_term(d, p, 0, stream_cfg(limits, streaming), reading::<F>(d)).end is Ok,
{
    let v = v_term(d, p, 0, stream_cfg(limits, streaming), reading::<F>(d));
    let (log, pos) = choose|log: Delivery, pos: int| #[trigger] delivered(v, log, r, pos) && extends(before, after, log, r);
    if log.refused {
        let k = after.len() - 1;
        assert(after[k] == (log.events.last(), r));
        assert(after[k].1 is Ok);
    }
}

/// Where strings are expanded to lists, a `STRING_EXT` decodes to the list
/// of its payload's bytes, in order, each an integer whose value is the
/// byte's unsigned value (0 to 255), and the decode ends after the payload.
pub proof fn law_string_expands_to_bytes(
    d: Seq<u8>,
    st: PState,
    h: int,
    cfg: ParseCfg,
    fl: spec_fn(int) -> Option<u64>,
    t: TermModel,
    s: PState,
)
    requires
        cfg.limits.expand_string_ext_to_list,
        0 <= st.pos < d.len(),
        d[st.pos] == STRING_EXT,
        p_term(d, st, h, cfg, fl) == Ok::<(TermModel, PState), EtfError>((t, s)),
    ensures
        t is List,
        (t->List_0).len() == be_u16_at(d, st.pos + 1),
        s.pos == st.pos + 3 + (t->List_0).len(),
        forall|i: int|
            0 <= i < (t->List_0).len() ==> (#[trigger] (t->List_0)[i]) is Int && 0 <= (t->List_0)[i]->Int_0 <= 255
                && (t->List_0)[i]->Int_0 == d[st.pos + 3 + i],
{
    let l = t->List_0;
    assert forall|i: int| 0 <= i < l.len() implies (#[trigger] l[i]) is Int && 0 <= l[i]->Int_0 <= 255 && l[i]->Int_0
        == d[st.pos + 3 + i] by {
        assert(d.subrange(st.pos + 3, s.pos)[i] == d[st.pos + 3 + i]);
    }
}

/// A PID or a port visits as it decodes: where the decoder reads one at
/// `st` (its node name an atom field, then the fixed part: 9 bytes for
/// `PID_EXT`, 12 for `NEW_PID_EXT`, 5 for `PORT_EXT`, 8 for `NEW_PORT_EXT`,
/// 12 for `V4_PORT_EXT`), the visit reports the node atom, then the bytes
/// of the fixed part as a PID or port, and ends where the decode ends.
pub proof fn law_visit_ids_as_decoded(
    d: Seq<u8>,
    st: PState,
    h: int,
    cfg: ParseCfg,
    fl: spec_fn(int) -> Option<u64>,
    t: TermModel,
    s: PState,
)
    requires
        p_term(d, st, h, cfg, fl) == Ok::<(TermModel, PState), EtfError>((t, s)),
        t is Pid || t is Port,
        h + 1 <= cfg.limits.max_depth,
    ensures
        ({
            let tag = d[st.pos];
            let q = atom_field_end(d, st.pos + 1, cfg.limits);
            let v = v_term(d, st.pos, h, cfg, fl);
            &&& st.pos + 1 < q <= s.pos
            &&& tag == PID_EXT ==> s.pos == q + 9
            &&& tag == NEW_PID_EXT ==> s.pos == q + 12
            &&& tag == PORT_EXT ==> s.pos == q + 5
            &&& tag == NEW_PORT_EXT ==> s.pos == q + 8
            &&& tag == V4_PORT_EXT ==> s.pos == q + 12
            &&& v.end == Ok::<int, EtfError>(s.pos)
            &&& v.events.len() == 2
            &&& v.events[0] is Atom
            &&& v.events[1] == (if t is Pid {
                VisitEvent::Pid(d.subrange(q, s.pos))
            } else {
                VisitEvent::Port(d.subrange(q, s.pos))
            })
        }),
{
    let p = st.pos;
    let node = v_term(d, p + 1, h + 1, cfg, fl);
    assert(d[p + 1] == ATOM_UTF8_EXT || d[p + 1] == SMALL_ATOM_UTF8_EXT);
    if d[p + 1] == SMALL_ATOM_UTF8_EXT {
        assert(be_u16_at(d, p + 1) >= 0);
    }
    assert(node.end == Ok::<int, EtfError>(atom_field_end(d, p + 1, cfg.limits)));
}

/// A compressed stream whose payload `zlib-rs` inflates to `body`, of the
/// declared size, parses as `body` does.
proof fn lemma_inflated_decode<Z: ZlibBackend, F: FloatText>(
    d: Seq<u8>,
    body: Seq<u8>,
    streaming: bool,
    region: ArenaRegion,
    limits: Limits,
    buf_len: nat,
    r: Result<Term, EtfError>,
)
    requires
        is_compressed(d),
        d.len() >= 6,
        declared_size(d) == body.len(),
        buf_len >= body.len(),
        inflates_one_way::<Z>(),
        Z::inflates(d.subrange(6, d.len() as int), body.len(), Ok(body)),
        parse_contract::<Z, F>(d, streaming, region, limits, Some(buf_len), r),
    ensures
        result_model(r) == p_body(body, 0, region, limits, false, reading::<F>(body)),
{
    let out2 = choose|out2: Result<Seq<u8>, EtfError>|
        #[trigger] Z::inflates(d.subrange(6, d.len() as int), declared_size(d) as nat, out2) && match out2 {
            Ok(b) => b.len() == declared_size(d) && result_model(r) == p_body(b, 0, region, limits, false, reading::<F>(b)),
            Err(err) => r == Err::<Term, EtfError>(err),
        };
    assert(out2 == Ok::<Seq<u8>, EtfError>(body));
}

/// Parsing what [`encode_to_compressed`](crate::encode_to_compressed)
/// writes gives the term back, with a backend that inflates what it
/// deflated ([`lossless`], [`inflates_one_way`]; both built-in backends
/// are, by `lemma_zlib_rs_lossless` and `lemma_miniz_lossless`).
///
/// For a term that round-trips under `limits` and whose encoding fits the
/// 32-bit size field, when `encode_to_compressed` with the backend `Z`
/// returned `Ok(n)`, leaving `output` in its output buffer, parsing the
/// first `n` bytes of `output` with `Z` — streaming or not, over any arena
/// region, with a decompression buffer at least as large as the encoded
/// term — gives the term back, unless the arena runs out.
#[verifier::rlimit(60)]
#[verifier::spinoff_prover]
pub proof fn law_compressed_roundtrip<Z: ZlibBackend, F: FloatText>(
    t: TermModel,
    inter_len: nat,
    out_len: nat,
    inter: Seq<u8>,
    output: Seq<u8>,
    n: usize,
    streaming: bool,
    region: ArenaRegion,
    limits: Limits,
    buf_len: nat,
    r: Result<Term, EtfError>,
)
    requires
        roundtrips(t, limits, 0),
        enc_term(t).bytes.len() <= u32::MAX,
        lossless::<Z>(),
        inflates_one_way::<Z>(),
        compressed_contract::<Z>(t, inter_len, out_len, inter, output, Ok(n)),
        output.len() == out_len,
        out_len <= usize::MAX,
        buf_len >= enc_term(t).bytes.len(),
        parse_contract::<Z, F>(output.subrange(0, n as int), streaming, region, limits, Some(buf_len), r),
    ensures
        result_model(r) == Ok::<TermModel, EtfError>(t) || result_model(r) == Err::<TermModel, EtfError>(
            EtfError::ArenaExhausted,
        ),
{
    let body = enc_term(t).bytes;
    lemma_enc_complete(t, limits, 0);
    let e = enc_stream(t).bytes;
    assert(e == seq![crate::tags::ETF_MAGIC] + body);
    assert(e.subrange(1, e.len() as int) =~= body);
    let cap = (out_len - 6) as nat;
    let out = choose|out: Result<Seq<u8>, EtfError>|
        #[trigger] Z::deflates(e.subrange(1, e.len() as int), cap, out) && compressed_outcome(out, output, Ok(n));
    assert(Z::deflates(body, cap, out) && compressed_outcome(out, output, Ok(n)));
    assert(out is Ok);
    let c = out->Ok_0;
    assert(n == 6 + c.len());
    assert(Z::inflates(c, body.len(), Ok(body)));
    let d = output.subrange(0, n as int);
    assert(d.subrange(6, d.len() as int) =~= c);
    assert(output.subrange(0, 6) == compressed_header(body.len() as int));
    assert(d[0] == output.subrange(0, 6)[0]);
    assert(d[1] == output.subrange(0, 6)[1]);
    assert(is_compressed(d));
    assert(d.subrange(2, 6) =~= crate::encoder::be32(body.len() as u32 as int));
    lemma_be32(d, 2, body.len() as int);
    assert(declared_size(d) == body.len());
    lemma_inflated_decode::<Z, F>(d, body, streaming, region, limits, buf_len, r);
    let fl = reading::<F>(body);
    assert(holds_at(body, 0, body)) by {
        assert(body.subrange(0, body.len() as int) =~= body);
    }
    let cfg0 = ParseCfg { limits, streaming: false, bounded: false, arena_end: 0 };
    lemma_rt_term(t, body, PState { pos: 0, ptr: 0 }, 0, cfg0, fl);
    law_arena_only_bounds(body, 0, region, limits, false, fl);
}

/// Every term a decode yields encodes: the encoder refuses only an improper
/// list with no tail, which no decode yields; so
/// [`encode_to_vec`](crate::encode_to_vec) succeeds on every term that
/// [`parse_etf`](crate::parse_etf) returns.
pub proof fn law_parsed_terms_encode(
    d: Seq<u8>,
    pos: int,
    region: ArenaRegion,
    limits: Limits,
    streaming: bool,
    fl: spec_fn(int) -> Option<u64>,
)
    ensures
        p_body(d, pos, region, limits, streaming, fl) matches Ok(t) ==> enc_stream(t).complete,
{
    let cfg = ParseCfg {
        limits,
        streaming,
        bounded: true,
        arena_end: region_end(region.start as int, region.len as int),
    };
    let st = PState { pos, ptr: region_first(region.start as int, region.len as int) };
    crate::encodable::lemma_term_encodes(d, st, 0, cfg, fl);
}

/// The complete parse of `d` decodes one term that ends exactly at the end
/// of `d`, reading its legacy floats as `F` does.
pub open spec fn parses_whole<F: FloatText>(d: Seq<u8>, region: ArenaRegion, limits: Limits) -> bool {
    let cfg = ParseCfg {
        limits,
        streaming: false,
        bounded: true,
        arena_end: region_end(region.start as int, region.len as int),
    };
    let st = PState { pos: 1, ptr: region_first(region.start as int, region.len as int) };
    &&& d.len() > 0
    &&& d[0] == crate::tags::ETF_MAGIC
    &&& p_term(d, st, 0, cfg, reading::<F>(d)) matches Ok((_, s)) && s.pos == d.len()
}

/// A streaming parse of a proper prefix of a complete encoding reports the
/// input incomplete: where [`parse_etf`](crate::parse_etf) decodes the
/// whole of an uncompressed stream `d` as one term, the outcome of
/// [`parse_etf_streaming`](crate::parse_etf_streaming) on the first `k`
/// bytes of `d`, `k` short of its length, with the same arena region and
/// limits, is [`EtfError::Incomplete`].
pub proof fn law_prefix_incomplete<Z: ZlibBackend, F: FloatText>(
    d: Seq<u8>,
    region: ArenaRegion,
    limits: Limits,
    buf_len: Option<nat>,
    k: int,
    r: Result<Term, EtfError>,
)
    requires
        !is_compressed(d),
        parses_whole::<F>(d, region, limits),
        0 <= k < d.len(),
        parse_contract::<Z, F>(d.subrange(0, k), true, region, limits, buf_len, r),
    ensures
        r matches Err(EtfError::Incomplete(_)),
{
    reveal(crate::cursor::short_error);
    let d2 = d.subrange(0, k);
    if k > 0 {
        let cfg = ParseCfg {
            limits,
            streaming: true,
            bounded: true,
            arena_end: region_end(region.start as int, region.len as int),
        };
        let st = PState { pos: 1, ptr: region_first(region.start as int, region.len as int) };
        crate::streaming::lemma_stream_term(d, st, 0, cfg, reading::<F>(d));
        assert(crate::streaming::complete_cfg(cfg) == ParseCfg {
            limits,
            streaming: false,
            bounded: true,
            arena_end: region_end(region.start as int, region.len as int),
        });
        assert forall|at: int| 0 <= at && at + 32 <= k implies #[trigger] reading::<F>(d2)(at) == reading::<F>(d)(at) by {
            assert(d2.subrange(at + 1, at + 32) =~= d.subrange(at + 1, at + 32));
        }
        crate::prefix::lemma_cut_term(d, k, st, 0, cfg, reading::<F>(d), reading::<F>(d2));
        assert(d2[0] == d[0]);
        if k >= 2 {
            assert(d2[1] == d[1]);
        }
    }
}

/// Whether `t` is an opaque term: a PID, port, reference, fun or record.
pub open spec fn is_opaque(t: TermModel) -> bool {
    t is Pid || t is Port || t is Ref || t is Function || t is Record
}

/// Opaque terms carry their tag byte, so they are re-emitted exactly as they
/// were parsed: when a term decoded from `d` is opaque, its encoding is the
/// bytes it was decoded from.
pub proof fn law_opaque_reemitted(d: Seq<u8>, st: PState, h: int, cfg: ParseCfg, fl: spec_fn(int) -> Option<u64>)
    ensures
        (p_term(d, st, h, cfg, fl) matches Ok((t, s)) ==> (is_opaque(t) ==> enc_term(t) == emit(
            d.subrange(st.pos, s.pos),
        ))),
{
}

/// The default limits are the `MAX_*` constants of the same names: 64 MiB
/// for binaries, bit strings, funs and bignums, 1 000 000 list elements,
/// map pairs and tuple elements, 65 535 bytes for atoms and strings, five
/// reference words, a nesting depth of 128; and `STRING_EXT` expands to
/// lists.
pub proof fn law_default_limits()
    ensures
        ({
            let d = Limits::spec_default();
            &&& d.max_binary_size == MAX_BINARY_SIZE && MAX_BINARY_SIZE == 64 * 1024 * 1024
            &&& d.max_bit_binary_size == MAX_BIT_BINARY_SIZE && MAX_BIT_BINARY_SIZE == 64 * 1024 * 1024
            &&& d.max_list_len == MAX_LIST_LEN && MAX_LIST_LEN == 1_000_000
            &&& d.max_map_len == MAX_MAP_LEN && MAX_MAP_LEN == 1_000_000
            &&& d.max_atom_len == MAX_ATOM_LEN && MAX_ATOM_LEN == 65_535
            &&& d.max_tuple_arity == MAX_TUPLE_ARITY && MAX_TUPLE_ARITY == 1_000_000
            &&& d.max_string_len == MAX_STRING_LEN && MAX_STRING_LEN == 65_535
            &&& d.max_reference_words == MAX_REFERENCE_WORDS && MAX_REFERENCE_WORDS == 5
            &&& d.max_depth == MAX_DEPTH && MAX_DEPTH == 128
            &&& d.max_fun_size == MAX_FUN_SIZE && MAX_FUN_SIZE == 64 * 1024 * 1024
            &&& d.max_bignum_size == MAX_BIGNUM_SIZE && MAX_BIGNUM_SIZE == 64 * 1024 * 1024
            &&& d.expand_string_ext_to_list
        }),
{
}

/// The tag bytes of the format are pairwise distinct.
pub proof fn law_tags_distinct()
    ensures
        ({
            let tags = seq![
                ATOM_UTF8_EXT, SMALL_ATOM_UTF8_EXT, SMALL_INTEGER_EXT, INTEGER_EXT, SMALL_BIG_EXT,
                LARGE_BIG_EXT, NEW_FLOAT_EXT, FLOAT_EXT, SMALL_TUPLE_EXT, LARGE_TUPLE_EXT, NIL_EXT,
                STRING_EXT, LIST_EXT, MAP_EXT, BINARY_EXT, BIT_BINARY_EXT, PID_EXT, NEW_PID_EXT,
                PORT_EXT, NEW_PORT_EXT, V4_PORT_EXT, NEW_REFERENCE_EXT, NEWER_REFERENCE_EXT,
                NEW_FUN_EXT, EXPORT_EXT, RECORD_EXT, COMPRESSED, ATOM_CACHE_REF, LOCAL_EXT,
            ];
            forall|i: int, j: int| 0 <= i < j < tags.len() ==> tags[i] != tags[j]
        }),
{
}

/// `r` with an "incomplete" error read as the input ending unexpectedly.
pub open spec fn complete_result(r: Result<TermModel, EtfError>) -> Result<TermModel, EtfError> {
    match r {
        Err(EtfError::Incomplete(_)) => Err(EtfError::UnexpectedEof),
        _ => r,
    }
}

/// Streaming only changes how input that ends too soon is reported: where
/// a complete parse finds the input ended ([`EtfError::UnexpectedEof`]), a
/// streaming parse of the same bytes reports it incomplete
/// ([`EtfError::Incomplete`]); every other outcome is the same.
pub proof fn law_streaming_reports_short_input(
    d: Seq<u8>,
    pos: int,
    region: ArenaRegion,
    limits: Limits,
    fl: spec_fn(int) -> Option<u64>,
)
    ensures
        p_body(d, pos, region, limits, false, fl) == complete_result(p_body(d, pos, region, limits, true, fl)),
{
    let cfg = ParseCfg {
        limits,
        streaming: true,
        bounded: true,
        arena_end: region_end(region.start as int, region.len as int),
    };
    let st = PState { pos, ptr: region_first(region.start as int, region.len as int) };
    crate::streaming::lemma_stream_term(d, st, 0, cfg, fl);
}

/// A stream that is compressed and holds its whole size field.
pub open spec fn compressed_with_size(d: Seq<u8>) -> bool {
    is_compressed(d) && d.len() >= 6
}

/// Streaming only changes how input that ends too soon is reported, as the
/// two entry points state what they return.  For a compressed stream whose
/// size field is there, [`parse_etf`](crate::parse_etf) and
/// [`parse_etf_streaming`](crate::parse_etf_streaming) admit the same
/// outcomes.  Otherwise, with the same arena, limits, buffer and float
/// reading, the complete parse gives what the streaming parse gives, with an
/// "incomplete" error read as the input ending unexpectedly.
pub proof fn law_streaming_entry_points<Z: ZlibBackend, F: FloatText>(
    d: Seq<u8>,
    region: ArenaRegion,
    limits: Limits,
    buf_len: Option<nat>,
    r: Result<Term, EtfError>,
    complete: Result<Term, EtfError>,
    streamed: Result<Term, EtfError>,
)
    ensures
        compressed_with_size(d) ==> (parse_contract::<Z, F>(d, true, region, limits, buf_len, r)
            == parse_contract::<Z, F>(d, false, region, limits, buf_len, r)),
        !compressed_with_size(d) && parse_contract::<Z, F>(d, false, region, limits, buf_len, complete)
            && parse_contract::<Z, F>(d, true, region, limits, buf_len, streamed) ==> result_model(complete)
            == complete_result(result_model(streamed)),
{
    reveal(crate::cursor::short_error);
    if d.len() > 0 && d[0] == crate::tags::ETF_MAGIC && !is_compressed(d) {
        law_streaming_reports_short_input(d, 1, region, limits, reading::<F>(d));
    }
}

/// An allocation that succeeds is aligned, starts at or after the bump
/// pointer, and ends within the region, where the bump pointer moves to.
pub proof fn law_alloc_aligned_within(ptr: int, end: int, size: int, align: int, count: int)
    requires
        0 <= ptr <= end,
        align > 0,
        size >= 0,
        count >= 0,
    ensures
        spec_alloc(ptr, end, size, align, count) matches Some((addr, next)) ==> {
            &&& addr % align == 0
            &&& ptr <= addr < end
            &&& next == addr + size * count
            &&& next <= end
        },
{
    let a = spec_align_up(ptr, align);
    assert(a % align == 0 && a >= ptr) by (nonlinear_arith)
        requires
            align > 0,
            ptr >= 0,
            a == (if ptr % align == 0 { ptr } else { ptr + (align - ptr % align) }),
    {
    }
    assert(size * count >= 0) by (nonlinear_arith)
        requires
            size >= 0,
            count >= 0,
    {
    }
}

/// The size of what is needed is known exactly when it is a `Size`.
pub proof fn law_needed_size_matches_is_exact(n: Needed)
    ensures
        (match n {
            Needed::Size(k) => Some(k),
            Needed::Unknown => None::<usize>,
        }) is Some <==> (n is Size),
{
}

/// Streaming only changes how a visit reports input that ends too soon: a
/// complete visit of the term at `p` delivers the same events as a
/// streaming visit of the same bytes and ends where it ends, except that
/// where the streaming visit reports the input incomplete
/// ([`EtfError::Incomplete`]), the complete one finds it ended
/// ([`EtfError::UnexpectedEof`]).
pub proof fn law_visit_streaming_reports_short_input(d: Seq<u8>, p: int, limits: Limits, fl: spec_fn(int) -> Option<u64>)
    ensures
        v_term(d, p, 0, stream_cfg(limits, false), fl) == vcomplete(v_term(d, p, 0, stream_cfg(limits, true), fl)),
{
    crate::streaming::lemma_vstream_term(d, p, 0, stream_cfg(limits, true), fl);
    assert(crate::streaming::complete_cfg(stream_cfg(limits, true)) == stream_cfg(limits, false));
}

/// Visiting what the encoder writes reports the term.
///
/// For a term a visit reports back ([`revisits`]: as for decoding, but with
/// no opaque term) under the limits a visit checks (see [`visit_limits`]:
/// compact strings are reported as they are, and bignum digits count
/// against the binary size limit), the stream the encoder
/// produces is complete and not compressed, and a visit of it — streaming
/// or not — delivers the events of the term ([`events_of`]) and ends at the
/// end of the stream; so the visit fails only where the visitor refuses an
/// event.
pub proof fn law_visit_after_encode(t: TermModel, limits: Limits, streaming: bool, fl: spec_fn(int) -> Option<u64>)
    requires
        revisits(t, visit_limits(limits), 0),
    ensures
        enc_stream(t).complete,
        !is_compressed(enc_stream(t).bytes),
        v_term(enc_stream(t).bytes, 1, 0, stream_cfg(limits, streaming), fl) == (Visit {
            events: events_of(t),
            end: Ok(enc_stream(t).bytes.len() as int),
        }),
{
    let e = enc_term(t);
    lemma_enc_complete_visit(t, visit_limits(limits), 0);
    let d = enc_stream(t).bytes;
    assert(d == seq![crate::tags::ETF_MAGIC] + e.bytes);
    assert(d.subrange(1, 1 + e.bytes.len() as int) =~= e.bytes);
    assert(holds_at(d, 1, e.bytes));
    assert(d[1] == e.bytes[0]);
    lemma_vt_term(t, d, 1, 0, stream_cfg(limits, streaming), fl);
}

} // verus!
