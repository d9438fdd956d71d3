//! Visiting a term without building it: the decoder calls a [`Visitor`]
//! for each scalar it decodes and at the start and end of each compound
//! term, as the input is consumed.

use vstd::prelude::*;

use crate::api::{buffer_len, declared_size, is_compressed};
use crate::arena::Bump;
use crate::cursor::{short_error, Cursor};
use crate::error::EtfError;
use crate::grammar::{agrees, lemma_agrees_submap, lemma_submap_trans, ParseCfg};
use crate::limits::Limits;
use crate::parser::{floats_behind, floats_read, reading, parse_atom_body, parse_legacy_float, read_uint, take_bytes, FloatText};
use crate::tags::{
    ATOM_UTF8_EXT, BINARY_EXT, BIT_BINARY_EXT, EXPORT_EXT, FLOAT_EXT, INTEGER_EXT, LARGE_BIG_EXT,
    LARGE_TUPLE_EXT, LIST_EXT, MAP_EXT, NEWER_REFERENCE_EXT, NEW_FLOAT_EXT, NEW_FUN_EXT,
    NEW_PID_EXT, NEW_PORT_EXT, NEW_REFERENCE_EXT, NIL_EXT, PID_EXT, PORT_EXT, RECORD_EXT,
    SMALL_ATOM_UTF8_EXT, SMALL_BIG_EXT, SMALL_INTEGER_EXT, SMALL_TUPLE_EXT, STRING_EXT,
    V4_PORT_EXT, COMPRESSED, ETF_MAGIC,
};
use crate::types::Term;
use crate::visit_grammar::{
    lemma_v_seq_advances, lemma_v_term_advances, v_leaf, v_nested, v_seq, v_term, vfail, visits_nested, vone,
    vpost, vpre, Visit, VisitEvent,
};
use crate::zlib::ZlibBackend;

verus! {

/// A visitor that receives events as an ETF term tree is decoded.
///
/// Each method receives one event and records it, with its answer, in
/// [`Visitor::calls`].  A method that returns an error stops the decode,
/// and that error is returned.
pub trait Visitor {
    /// The error type returned by visitor methods; decode errors are
    /// converted into it.
    type Error: From<EtfError>;

    /// The calls this visitor has received, oldest first: each event with
    /// the answer the visitor gave it.  Every method records its call here,
    /// so a visitor verified with Verus keeps this history (as ghost state);
    /// the empty default, which no method can meet, only lets visitors
    /// written outside Verus compile.
    open spec fn calls(&self) -> Seq<(VisitEvent, Result<(), Self::Error>)> {
        Seq::empty()
    }

    /// Called for a small integer or integer term (`SMALL_INTEGER_EXT`,
    /// `INTEGER_EXT`).
    fn visit_int(&mut self, value: i32) -> (r: Result<(), Self::Error>)
        ensures
            final(self).calls() == old(self).calls().push((VisitEvent::Int(value), r)),
    ;

    /// Called for a big integer (`SMALL_BIG_EXT`, `LARGE_BIG_EXT`).
    fn visit_big_int(&mut self, sign: u8, digits: &[u8]) -> (r: Result<(), Self::Error>)
        ensures
            final(self).calls() == old(self).calls().push((VisitEvent::BigInt { sign, digits: digits@ }, r)),
    ;

    /// Called for a float term (`NEW_FLOAT_EXT`, `FLOAT_EXT`), with the
    /// bits of its IEEE 754 binary64 value.
    fn visit_float(&mut self, bits: u64) -> (r: Result<(), Self::Error>)
        ensures
            final(self).calls() == old(self).calls().push((VisitEvent::Float(bits), r)),
    ;

    /// Called for an atom term (`ATOM_UTF8_EXT`, `SMALL_ATOM_UTF8_EXT`).
    /// The bytes are not checked to be UTF-8.
    fn visit_atom(&mut self, bytes: &[u8]) -> (r: Result<(), Self::Error>)
        ensures
            final(self).calls() == old(self).calls().push((VisitEvent::Atom(bytes@), r)),
    ;

    /// Called for a binary term (`BINARY_EXT`).
    fn visit_binary(&mut self, data: &[u8]) -> (r: Result<(), Self::Error>)
        ensures
            final(self).calls() == old(self).calls().push((VisitEvent::Binary(data@), r)),
    ;

    /// Called for a bit-binary term (`BIT_BINARY_EXT`).
    fn visit_bit_binary(&mut self, bits: u8, data: &[u8]) -> (r: Result<(), Self::Error>)
        ensures
            final(self).calls() == old(self).calls().push((VisitEvent::BitBinary { bits, data: data@ }, r)),
    ;

    /// Called at the start of a tuple of `arity` elements
    /// (`SMALL_TUPLE_EXT`, `LARGE_TUPLE_EXT`).
    fn visit_tuple_start(&mut self, arity: usize) -> (r: Result<(), Self::Error>)
        ensures
            final(self).calls() == old(self).calls().push((VisitEvent::TupleStart(arity as int), r)),
    ;

    /// Called at the end of a tuple.
    fn visit_tuple_end(&mut self) -> (r: Result<(), Self::Error>)
        ensures
            final(self).calls() == old(self).calls().push((VisitEvent::TupleEnd, r)),
    ;

    /// Called at the start of a list of `len` elements before the tail
    /// (`LIST_EXT`, and `NIL_EXT` with `len` 0).
    fn visit_list_start(&mut self, len: usize) -> (r: Result<(), Self::Error>)
        ensures
            final(self).calls() == old(self).calls().push((VisitEvent::ListStart(len as int), r)),
    ;

    /// Called at the end of a proper list.
    fn visit_list_end(&mut self) -> (r: Result<(), Self::Error>)
        ensures
            final(self).calls() == old(self).calls().push((VisitEvent::ListEnd, r)),
    ;

    /// Called before the tail of an improper list; exactly one term is
    /// visited for the tail, then [`visit_improper_list_end`](Self::visit_improper_list_end).
    fn visit_improper_list_tail(&mut self) -> (r: Result<(), Self::Error>)
        ensures
            final(self).calls() == old(self).calls().push((VisitEvent::ImproperListTail, r)),
    ;

    /// Called at the end of an improper list.
    fn visit_improper_list_end(&mut self) -> (r: Result<(), Self::Error>)
        ensures
            final(self).calls() == old(self).calls().push((VisitEvent::ImproperListEnd, r)),
    ;

    /// Called at the start of a map of `arity` pairs (`MAP_EXT`).
    fn visit_map_start(&mut self, arity: usize) -> (r: Result<(), Self::Error>)
        ensures
            final(self).calls() == old(self).calls().push((VisitEvent::MapStart(arity as int), r)),
    ;

    /// Called at the end of a map.
    fn visit_map_end(&mut self) -> (r: Result<(), Self::Error>)
        ensures
            final(self).calls() == old(self).calls().push((VisitEvent::MapEnd, r)),
    ;

    /// Called for a PID term, with the bytes after its node atom (the node
    /// is visited first) (`PID_EXT`, `NEW_PID_EXT`).
    fn visit_pid(&mut self, data: &[u8]) -> (r: Result<(), Self::Error>)
        ensures
            final(self).calls() == old(self).calls().push((VisitEvent::Pid(data@), r)),
    ;

    /// Called for a port term, with the bytes after its node atom
    /// (`PORT_EXT`, `NEW_PORT_EXT`, `V4_PORT_EXT`).
    fn visit_port(&mut self, data: &[u8]) -> (r: Result<(), Self::Error>)
        ensures
            final(self).calls() == old(self).calls().push((VisitEvent::Port(data@), r)),
    ;

    /// Called for a reference term, with its ID words (`NEW_REFERENCE_EXT`,
    /// `NEWER_REFERENCE_EXT`).
    fn visit_reference(&mut self, data: &[u8]) -> (r: Result<(), Self::Error>)
        ensures
            final(self).calls() == old(self).calls().push((VisitEvent::Reference(data@), r)),
    ;

    /// Called for a fun: the payload of a `NEW_FUN_EXT`, or the bytes of an
    /// `EXPORT_EXT` after its tag (whose module, function and arity are
    /// visited first).
    fn visit_function(&mut self, data: &[u8]) -> (r: Result<(), Self::Error>)
        ensures
            final(self).calls() == old(self).calls().push((VisitEvent::Function(data@), r)),
    ;

    /// Called for a record (`RECORD_EXT`), with the bytes after its tag
    /// (whose nested terms are visited first).
    fn visit_record(&mut self, data: &[u8]) -> (r: Result<(), Self::Error>)
        ensures
            final(self).calls() == old(self).calls().push((VisitEvent::Record(data@), r)),
    ;

    /// Called for a compact string (`STRING_EXT`), with its bytes.
    fn visit_string(&mut self, data: &[u8]) -> (r: Result<(), Self::Error>)
        ensures
            final(self).calls() == old(self).calls().push((VisitEvent::String(data@), r)),
    ;
}

/// The calls a visit made: the events delivered, and whether the visitor
/// refused the last one.
pub struct Delivery {
    pub events: Seq<VisitEvent>,
    pub refused: bool,
}

/// The events `evs`, each answered `Ok`.
pub open spec fn oks<E>(evs: Seq<VisitEvent>) -> Seq<(VisitEvent, Result<(), E>)> {
    Seq::new(evs.len(), |i: int| (evs[i], Ok::<(), E>(())))
}

/// The calls a visit that made the calls `log` and returned `r` adds to a
/// visitor's history: each event of `log` answered `Ok`, but a refused last
/// one, answered `r`.
pub open spec fn log_calls<E>(log: Delivery, r: Result<(), E>) -> Seq<(VisitEvent, Result<(), E>)> {
    if log.refused {
        oks::<E>(log.events.drop_last()).push((log.events.last(), r))
    } else {
        oks::<E>(log.events)
    }
}

/// Between `before` and `after` the visitor received exactly the calls of
/// `log`, and a refusal in `log` is of an event delivered, whose answer, an
/// error, is `r`.
pub open spec fn received<V: Visitor>(before: V, after: V, log: Delivery, r: Result<(), V::Error>) -> bool {
    extends(before.calls(), after.calls(), log, r)
}

/// The history `after` is `before` with the calls of `log` and `r`, and a
/// refusal in `log` is of an event delivered, whose answer, an error, is
/// `r`.
pub open spec fn extends<E>(
    before: Seq<(VisitEvent, Result<(), E>)>,
    after: Seq<(VisitEvent, Result<(), E>)>,
    log: Delivery,
    r: Result<(), E>,
) -> bool {
    &&& log.refused ==> log.events.len() > 0 && r is Err
    &&& after == before + log_calls(log, r)
}

/// The events `a + b`, each answered `Ok`, are those of `a` then those of `b`.
pub proof fn lemma_oks_concat<E>(a: Seq<VisitEvent>, b: Seq<VisitEvent>)
    ensures
        oks::<E>(a + b) == oks::<E>(a) + oks::<E>(b),
{
    assert(oks::<E>(a + b) =~= oks::<E>(a) + oks::<E>(b));
}

/// A visit that received nothing leaves the history as it was.
pub proof fn lemma_received_none<V: Visitor>(v: V, r: Result<(), V::Error>)
    ensures
        received(v, v, Delivery { events: Seq::empty(), refused: false }, r),
{
    assert(v.calls() + log_calls(Delivery { events: Seq::empty(), refused: false }, r) =~= v.calls());
}

/// One call, answered `a`.
pub proof fn lemma_received_one<V: Visitor>(v0: V, v1: V, ev: VisitEvent, a: Result<(), V::Error>)
    requires
        v1.calls() == v0.calls().push((ev, a)),
    ensures
        received(v0, v1, Delivery { events: seq![ev], refused: a is Err }, a),
{
    if let Ok(u) = a {
        assert(u == ());
        assert(a == Ok::<(), V::Error>(()));
    }
    assert(seq![ev].drop_last() =~= Seq::<VisitEvent>::empty());
    assert(v0.calls() + log_calls(Delivery { events: seq![ev], refused: a is Err }, a) =~= v0.calls().push((ev, a)));
}

/// Calls received one after another: a first visit that was not refused,
/// then a second one, whose refusal, if any, was of an event it delivered.
pub proof fn lemma_received_then<V: Visitor>(
    v0: V,
    v1: V,
    v2: V,
    l1: Delivery,
    r1: Result<(), V::Error>,
    l2: Delivery,
    r2: Result<(), V::Error>,
)
    requires
        received(v0, v1, l1, r1),
        !l1.refused,
        received(v1, v2, l2, r2),
        l2.refused ==> l2.events.len() > 0,
    ensures
        received(v0, v2, Delivery { events: l1.events + l2.events, refused: l2.refused }, r2),
{
    let e = l1.events + l2.events;
    if l2.refused {
        assert(e.drop_last() =~= l1.events + l2.events.drop_last());
        assert(oks::<V::Error>(l1.events.drop_last() + l2.events.drop_last()) == oks::<V::Error>(l1.events.drop_last()) + oks::<V::Error>(l2.events.drop_last()));
        lemma_oks_concat::<V::Error>(l1.events, l2.events.drop_last());
        assert(e.last() == l2.events.last());
    } else {
        lemma_oks_concat::<V::Error>(l1.events, l2.events);
    }
    assert(v2.calls() =~= v0.calls() + log_calls(Delivery { events: e, refused: l2.refused }, r2));
}

/// The calls `log` a visit made and its result `r`, with the cursor left at
/// `pos`, are those the visit `v` states: the events delivered are the
/// first events of `v`; when the visitor refused the last one, `r` is an
/// error; otherwise every event was delivered, and `r` is `Ok` where `v`
/// ends at `pos`, or the conversion of the decode error `v` stops on.
pub open spec fn delivered<E: From<EtfError>>(v: Visit, log: Delivery, r: Result<(), E>, pos: int) -> bool {
    &&& log.events.len() <= v.events.len()
    &&& v.events.subrange(0, log.events.len() as int) == log.events
    &&& log.refused ==> r is Err && log.events.len() > 0
    &&& !log.refused ==> log.events == v.events
    &&& !log.refused ==> (r is Ok <==> v.end is Ok)
    &&& (!log.refused && r is Ok) ==> v.end == Ok::<int, EtfError>(pos)
    &&& (!log.refused && r is Err) ==> (v.end matches Err(e) && (
        <E as vstd::std_specs::convert::FromSpec<EtfError>>::obeys_from_spec() ==> r == Err::<(), E>(
            <E as vstd::std_specs::convert::FromSpec<EtfError>>::from_spec(e),
        )))
}

/// The configuration a visit runs with: the limits, and how short reads
/// are reported.  A visit claims no arena.
pub open spec fn visit_cfg(c: Cursor, limits: Limits) -> ParseCfg {
    ParseCfg { limits, streaming: c.is_streaming(), bounded: true, arena_end: 0 }
}

/// Delivering `evs` first and then what a visit `v` does delivers
/// `vpre(evs, v)`.
pub proof fn lemma_deliver_pre<E: From<EtfError>>(evs: Seq<VisitEvent>, v: Visit, log: Delivery, r: Result<(), E>, pos: int)
    requires
        delivered(v, log, r, pos),
    ensures
        delivered(vpre(evs, v), Delivery { events: evs + log.events, refused: log.refused }, r, pos),
{
    assert((evs + v.events).subrange(0, (evs + log.events).len() as int) =~= evs + log.events);
}

/// After a visit `v` that ended in an error or a refusal, nothing more is
/// delivered: the visit `vpost(v, ev)` delivered the same.
pub proof fn lemma_deliver_post_err<E: From<EtfError>>(v: Visit, log: Delivery, r: Result<(), E>, pos: int, ev: VisitEvent)
    requires
        delivered(v, log, r, pos),
        r is Err,
    ensures
        delivered(vpost(v, ev), log, r, pos),
{
    if v.end is Ok {
        assert(v.events.push(ev).subrange(0, log.events.len() as int) =~= v.events.subrange(0, log.events.len() as int));
    }
}

/// After a visit `v` that ended well, the event `ev` is delivered, and the
/// visitor's answer `a` decides the result.
pub proof fn lemma_deliver_post_ok<E: From<EtfError>>(v: Visit, log: Delivery, pos: int, ev: VisitEvent, a: Result<(), E>)
    requires
        delivered(v, log, Ok::<(), E>(()), pos),
    ensures
        delivered(vpost(v, ev), Delivery { events: log.events.push(ev), refused: a is Err }, a, pos),
{
    assert(v.events.push(ev).subrange(0, log.events.push(ev).len() as int) =~= log.events.push(ev));
}

/// Delivering one event whose visit ends at `pos`.
pub proof fn lemma_deliver_one<E: From<EtfError>>(ev: VisitEvent, pos: int, a: Result<(), E>)
    ensures
        delivered(vone(ev, pos), Delivery { events: seq![ev], refused: a is Err }, a, pos),
{
    assert(seq![ev].subrange(0, 1) =~= seq![ev]);
}

/// A decode error before any event.
pub proof fn lemma_deliver_fail<E: From<EtfError>>(e: EtfError, r: Result<(), E>, pos: int)
    requires
        r is Err,
        <E as vstd::std_specs::convert::FromSpec<EtfError>>::obeys_from_spec() ==> r == Err::<(), E>(
            <E as vstd::std_specs::convert::FromSpec<EtfError>>::from_spec(e),
        ),
    ensures
        delivered(vfail(e), Delivery { events: Seq::empty(), refused: false }, r, pos),
{
    assert(Seq::<VisitEvent>::empty().subrange(0, 0) =~= Seq::<VisitEvent>::empty());
}

/// What a visit may change of the cursor: the position moves forward, and
/// legacy floats are recorded.
pub open spec fn vsteps(c0: Cursor, c1: Cursor) -> bool {
    &&& c1.input() == c0.input()
    &&& c1.is_streaming() == c0.is_streaming()
    &&& c1.pos() >= c0.pos()
    &&& c0.floats().submap_of(c1.floats())
    &&& floats_behind(c1)
}

/// A decode error before any event.
fn fail<V: Visitor>(e: EtfError) -> (r: (Result<(), V::Error>, Ghost<Delivery>))
    ensures
        r.1@ == (Delivery { events: Seq::empty(), refused: false }),
        r.0 is Err,
        <V::Error as vstd::std_specs::convert::FromSpec<EtfError>>::obeys_from_spec() ==> r.0
            == Err::<(), V::Error>(<V::Error as vstd::std_specs::convert::FromSpec<EtfError>>::from_spec(e)),
        forall|pos: int| #[trigger] delivered(vfail(e), r.1@, r.0, pos),
        forall|v: V| #[trigger] received(v, v, r.1@, r.0),
{
    let r = (Err(V::Error::from(e)), Ghost(Delivery { events: Seq::empty(), refused: false }));
    proof {
        assert forall|pos: int| #[trigger] delivered(vfail(e), r.1@, r.0, pos) by {
            lemma_deliver_fail(e, r.0, pos);
        }
        assert forall|v: V| #[trigger] received(v, v, r.1@, r.0) by {
            lemma_received_none(v, r.0);
        }
    }
    r
}

/// The visitor's answer `a` to the event `ev`.
fn answer<V: Visitor>(a: Result<(), V::Error>, ev: Ghost<VisitEvent>) -> (r: (Result<(), V::Error>, Ghost<Delivery>))
    ensures
        r.0 == a,
        r.1@ == (Delivery { events: seq![ev@], refused: a is Err }),
        forall|pos: int| #[trigger] delivered(vone(ev@, pos), r.1@, r.0, pos),
        forall|v0: V, v1: V| v1.calls() == v0.calls().push((ev@, a)) ==> #[trigger] received(v0, v1, r.1@, r.0),
{
    let refused = a.is_err();
    let r = (a, Ghost(Delivery { events: seq![ev@], refused }));
    proof {
        assert forall|pos: int| #[trigger] delivered(vone(ev@, pos), r.1@, r.0, pos) by {
            lemma_deliver_one(ev@, pos, a);
        }
        assert forall|v0: V, v1: V| v1.calls() == v0.calls().push((ev@, a)) implies #[trigger] received(v0, v1, r.1@, r.0) by {
            lemma_received_one(v0, v1, ev@, a);
        }
    }
    r
}

/// The visit of the leaf term whose tag is at `c0`'s position went from
/// `c0` to `c1`, made the calls `log` and returned `r`, as `v_leaf` states
/// for every reading of the legacy floats that agrees with those recorded.
pub open spec fn leaf_visited<E: From<EtfError>>(c0: Cursor, c1: Cursor, limits: Limits, log: Delivery, r: Result<(), E>) -> bool {
    &&& vsteps(c0, c1)
    &&& forall|fl: spec_fn(int) -> Option<u64>|
        agrees(fl, c1.floats()) ==> delivered(
            #[trigger] v_leaf(c0.input(), c0.pos() as int, visit_cfg(c0, limits), fl),
            log,
            r,
            c1.pos() as int,
        )
}

/// The cursor is at a tag, and `empty` is an arena with no room.
pub open spec fn at_tag(c: Cursor, empty: Bump) -> bool {
    &&& floats_behind(c)
    &&& c.pos() < c.input().len()
    &&& empty.end() == 0
    &&& empty.ptr() == 0
}

/// The tag at the cursor.
pub open spec fn tag_at(c: Cursor) -> u8 {
    c.input()[c.pos() as int]
}

/// `SMALL_INTEGER_EXT` or `INTEGER_EXT`.
fn visit_int<V: Visitor>(cursor: &mut Cursor, visitor: &mut V, empty: &Bump) -> (r: (Result<(), V::Error>, Ghost<Delivery>))
    requires
        at_tag(*old(cursor), *empty),
        tag_at(*old(cursor)) == SMALL_INTEGER_EXT || tag_at(*old(cursor)) == INTEGER_EXT,
    ensures
        final(cursor).floats() == old(cursor).floats(),
        leaf_visited(*old(cursor), *final(cursor), empty.spec_limits(), r.1@, r.0),
        received(*old(visitor), *final(visitor), r.1@, r.0),
{
    let tag = match cursor.read_u8() {
        Ok(t) => t,
        Err(e) => return fail::<V>(e),
    };
    let v = match read_uint(cursor, empty, if tag == SMALL_INTEGER_EXT { 1 } else { 4 }) {
        Ok(v) => v,
        Err(e) => return fail::<V>(e),
    };
    let value: i32 = if tag == SMALL_INTEGER_EXT { v as i32 } else { (v as u32) as i32 };
    answer::<V>(visitor.visit_int(value), Ghost(VisitEvent::Int(value)))
}

/// `SMALL_BIG_EXT` or `LARGE_BIG_EXT`.
fn visit_big<V: Visitor>(cursor: &mut Cursor, visitor: &mut V, empty: &Bump) -> (r: (Result<(), V::Error>, Ghost<Delivery>))
    requires
        at_tag(*old(cursor), *empty),
        tag_at(*old(cursor)) == SMALL_BIG_EXT || tag_at(*old(cursor)) == LARGE_BIG_EXT,
    ensures
        final(cursor).floats() == old(cursor).floats(),
        leaf_visited(*old(cursor), *final(cursor), empty.spec_limits(), r.1@, r.0),
        received(*old(visitor), *final(visitor), r.1@, r.0),
{
    let tag = match cursor.read_u8() {
        Ok(t) => t,
        Err(e) => return fail::<V>(e),
    };
    let len = match read_uint(cursor, empty, if tag == SMALL_BIG_EXT { 1 } else { 4 }) {
        Ok(v) => v,
        Err(e) => return fail::<V>(e),
    };
    if len > empty.limits().max_binary_size {
        return fail::<V>(EtfError::BinaryTooLarge);
    }
    let sign = match read_uint(cursor, empty, 1) {
        Ok(v) => v as u8,
        Err(e) => return fail::<V>(e),
    };
    let digits = match take_bytes(cursor, empty, len) {
        Ok(b) => b,
        Err(e) => return fail::<V>(e),
    };
    answer::<V>(visitor.visit_big_int(sign, digits), Ghost(VisitEvent::BigInt { sign, digits: digits@ }))
}

/// `NEW_FLOAT_EXT`.
fn visit_new_float<V: Visitor>(cursor: &mut Cursor, visitor: &mut V, empty: &Bump) -> (r: (Result<(), V::Error>, Ghost<Delivery>))
    requires
        at_tag(*old(cursor), *empty),
        tag_at(*old(cursor)) == NEW_FLOAT_EXT,
    ensures
        final(cursor).floats() == old(cursor).floats(),
        leaf_visited(*old(cursor), *final(cursor), empty.spec_limits(), r.1@, r.0),
        received(*old(visitor), *final(visitor), r.1@, r.0),
{
    match cursor.read_u8() {
        Ok(_) => {},
        Err(e) => return fail::<V>(e),
    }
    let bits = match cursor.read_u64() {
        Ok(v) => v,
        Err(e) => return fail::<V>(e),
    };
    answer::<V>(visitor.visit_float(bits), Ghost(VisitEvent::Float(bits)))
}

/// `FLOAT_EXT`: the float-text hook decodes the text.
fn visit_legacy_float<'a, V: Visitor, F: FloatText>(cursor: &mut Cursor<'a>, visitor: &mut V, empty: &Bump) -> (r: (
    Result<(), V::Error>,
    Ghost<Delivery>,
))
    requires
        floats_read::<F>(*old(cursor)),
        at_tag(*old(cursor), *empty),
        tag_at(*old(cursor)) == FLOAT_EXT,
    ensures
        floats_read::<F>(*final(cursor)),
        leaf_visited(*old(cursor), *final(cursor), empty.spec_limits(), r.1@, r.0),
        received(*old(visitor), *final(visitor), r.1@, r.0),
{
    let at = cursor.consumed();
    match cursor.read_u8() {
        Ok(_) => {},
        Err(e) => return fail::<V>(e),
    }
    match parse_legacy_float::<F>(cursor, empty, at) {
        Ok(Term::Float(bits)) => answer::<V>(visitor.visit_float(bits), Ghost(VisitEvent::Float(bits))),
        Ok(_) => fail::<V>(EtfError::InvalidFloat),
        Err(e) => fail::<V>(e),
    }
}

/// `ATOM_UTF8_EXT` or `SMALL_ATOM_UTF8_EXT`.
fn visit_atom<V: Visitor>(cursor: &mut Cursor, visitor: &mut V, empty: &Bump) -> (r: (Result<(), V::Error>, Ghost<Delivery>))
    requires
        at_tag(*old(cursor), *empty),
        tag_at(*old(cursor)) == ATOM_UTF8_EXT || tag_at(*old(cursor)) == SMALL_ATOM_UTF8_EXT,
    ensures
        final(cursor).floats() == old(cursor).floats(),
        leaf_visited(*old(cursor), *final(cursor), empty.spec_limits(), r.1@, r.0),
        received(*old(visitor), *final(visitor), r.1@, r.0),
{
    let tag = match cursor.read_u8() {
        Ok(t) => t,
        Err(e) => return fail::<V>(e),
    };
    let b = match parse_atom_body(cursor, empty, if tag == ATOM_UTF8_EXT { 2 } else { 1 }) {
        Ok(b) => b,
        Err(e) => return fail::<V>(e),
    };
    answer::<V>(visitor.visit_atom(b), Ghost(VisitEvent::Atom(b@)))
}

/// `NIL_EXT`: an empty list.
fn visit_nil<V: Visitor>(cursor: &mut Cursor, visitor: &mut V, empty: &Bump) -> (r: (Result<(), V::Error>, Ghost<Delivery>))
    requires
        at_tag(*old(cursor), *empty),
        tag_at(*old(cursor)) == NIL_EXT,
    ensures
        final(cursor).floats() == old(cursor).floats(),
        leaf_visited(*old(cursor), *final(cursor), empty.spec_limits(), r.1@, r.0),
        received(*old(visitor), *final(visitor), r.1@, r.0),
{
    match cursor.read_u8() {
        Ok(_) => {},
        Err(e) => return fail::<V>(e),
    }
    let ghost evs = seq![VisitEvent::ListStart(0), VisitEvent::ListEnd];
    let ghost v0 = *visitor;
    let a0 = visitor.visit_list_start(0);
    match a0 {
        Ok(()) => {
            let ghost v1 = *visitor;
            let a = visitor.visit_list_end();
            let refused = a.is_err();
            proof {
                assert(evs.subrange(0, 2) =~= evs);
                lemma_received_one(v0, v1, VisitEvent::ListStart(0), a0);
                lemma_received_one(v1, *visitor, VisitEvent::ListEnd, a);
                lemma_received_then(
                    v0,
                    v1,
                    *visitor,
                    Delivery { events: seq![VisitEvent::ListStart(0)], refused: false },
                    a0,
                    Delivery { events: seq![VisitEvent::ListEnd], refused: a is Err },
                    a,
                );
                assert(seq![VisitEvent::ListStart(0)] + seq![VisitEvent::ListEnd] =~= evs);
            }
            (a, Ghost(Delivery { events: evs, refused }))
        },
        Err(x) => {
            proof {
                assert(evs.subrange(0, 1) =~= seq![VisitEvent::ListStart(0)]);
                lemma_received_one(v0, *visitor, VisitEvent::ListStart(0), a0);
            }
            (Err(x), Ghost(Delivery { events: seq![VisitEvent::ListStart(0)], refused: true }))
        },
    }
}

/// `STRING_EXT`, `BINARY_EXT` or `BIT_BINARY_EXT`: bytes behind a length.
fn visit_bytes<V: Visitor>(cursor: &mut Cursor, visitor: &mut V, empty: &Bump) -> (r: (Result<(), V::Error>, Ghost<Delivery>))
    requires
        at_tag(*old(cursor), *empty),
        tag_at(*old(cursor)) == STRING_EXT || tag_at(*old(cursor)) == BINARY_EXT || tag_at(*old(cursor)) == BIT_BINARY_EXT,
    ensures
        final(cursor).floats() == old(cursor).floats(),
        leaf_visited(*old(cursor), *final(cursor), empty.spec_limits(), r.1@, r.0),
        received(*old(visitor), *final(visitor), r.1@, r.0),
{
    let tag = match cursor.read_u8() {
        Ok(t) => t,
        Err(e) => return fail::<V>(e),
    };
    let len = match read_uint(cursor, empty, if tag == STRING_EXT { 2 } else { 4 }) {
        Ok(v) => v,
        Err(e) => return fail::<V>(e),
    };
    if tag == STRING_EXT {
        if len > empty.limits().max_string_len {
            return fail::<V>(EtfError::ListTooLarge);
        }
        let data = match take_bytes(cursor, empty, len) {
            Ok(b) => b,
            Err(e) => return fail::<V>(e),
        };
        answer::<V>(visitor.visit_string(data), Ghost(VisitEvent::String(data@)))
    } else if tag == BINARY_EXT {
        if len > empty.limits().max_binary_size {
            return fail::<V>(EtfError::BinaryTooLarge);
        }
        let data = match take_bytes(cursor, empty, len) {
            Ok(b) => b,
            Err(e) => return fail::<V>(e),
        };
        answer::<V>(visitor.visit_binary(data), Ghost(VisitEvent::Binary(data@)))
    } else {
        if len > empty.limits().max_bit_binary_size {
            return fail::<V>(EtfError::BinaryTooLarge);
        }
        let bits = match read_uint(cursor, empty, 1) {
            Ok(v) => v as u8,
            Err(e) => return fail::<V>(e),
        };
        let data = match take_bytes(cursor, empty, len) {
            Ok(b) => b,
            Err(e) => return fail::<V>(e),
        };
        answer::<V>(visitor.visit_bit_binary(bits, data), Ghost(VisitEvent::BitBinary { bits, data: data@ }))
    }
}

/// `NEW_FUN_EXT`: its payload after the size field.
fn visit_new_fun<V: Visitor>(cursor: &mut Cursor, visitor: &mut V, empty: &Bump) -> (r: (Result<(), V::Error>, Ghost<Delivery>))
    requires
        at_tag(*old(cursor), *empty),
        tag_at(*old(cursor)) == NEW_FUN_EXT,
    ensures
        final(cursor).floats() == old(cursor).floats(),
        leaf_visited(*old(cursor), *final(cursor), empty.spec_limits(), r.1@, r.0),
        received(*old(visitor), *final(visitor), r.1@, r.0),
{
    match cursor.read_u8() {
        Ok(_) => {},
        Err(e) => return fail::<V>(e),
    }
    let size = match read_uint(cursor, empty, 4) {
        Ok(v) => v,
        Err(e) => return fail::<V>(e),
    };
    if size < 4 {
        return fail::<V>(EtfError::InvalidSize);
    }
    if size - 4 > empty.limits().max_fun_size {
        return fail::<V>(EtfError::BinaryTooLarge);
    }
    let data = match take_bytes(cursor, empty, size - 4) {
        Ok(b) => b,
        Err(e) => return fail::<V>(e),
    };
    answer::<V>(visitor.visit_function(data), Ghost(VisitEvent::Function(data@)))
}

/// A term with no nested term, its tag at the cursor.
fn visit_leaf<'a, V: Visitor, F: FloatText>(cursor: &mut Cursor<'a>, visitor: &mut V, empty: &Bump) -> (r: (
    Result<(), V::Error>,
    Ghost<Delivery>,
))
    requires
        floats_read::<F>(*old(cursor)),
        at_tag(*old(cursor), *empty),
        !visits_nested(tag_at(*old(cursor))),
    ensures
        floats_read::<F>(*final(cursor)),
        leaf_visited(*old(cursor), *final(cursor), empty.spec_limits(), r.1@, r.0),
        received(*old(visitor), *final(visitor), r.1@, r.0),
{
    let tag = match cursor.peek() {
        Some(t) => t,
        None => return fail::<V>(EtfError::UnexpectedEof),
    };
    if tag == SMALL_INTEGER_EXT || tag == INTEGER_EXT {
        visit_int(cursor, visitor, empty)
    } else if tag == SMALL_BIG_EXT || tag == LARGE_BIG_EXT {
        visit_big(cursor, visitor, empty)
    } else if tag == NEW_FLOAT_EXT {
        visit_new_float(cursor, visitor, empty)
    } else if tag == FLOAT_EXT {
        visit_legacy_float::<V, F>(cursor, visitor, empty)
    } else if tag == ATOM_UTF8_EXT || tag == SMALL_ATOM_UTF8_EXT {
        visit_atom(cursor, visitor, empty)
    } else if tag == NIL_EXT {
        visit_nil(cursor, visitor, empty)
    } else if tag == STRING_EXT || tag == BINARY_EXT || tag == BIT_BINARY_EXT {
        visit_bytes(cursor, visitor, empty)
    } else if tag == NEW_FUN_EXT {
        visit_new_fun(cursor, visitor, empty)
    } else {
        fail::<V>(EtfError::UnsupportedTag(tag))
    }
}

/// The visit of one term at height `h` at `c0`'s position went from `c0`
/// to `c1`, made the calls `log` and returned `r`, as `v_term` states for
/// every reading of the legacy floats that agrees with those recorded.
pub open spec fn term_visited<E: From<EtfError>>(c0: Cursor, c1: Cursor, h: int, limits: Limits, log: Delivery, r: Result<(), E>) -> bool {
    &&& vsteps(c0, c1)
    &&& forall|fl: spec_fn(int) -> Option<u64>|
        agrees(fl, c1.floats()) ==> delivered(
            #[trigger] v_term(c0.input(), c0.pos() as int, h, visit_cfg(c0, limits), fl),
            log,
            r,
            c1.pos() as int,
        )
}

/// As [`term_visited`], for a term whose tag nests other terms.
pub open spec fn nested_visited<E: From<EtfError>>(c0: Cursor, c1: Cursor, h: int, limits: Limits, log: Delivery, r: Result<(), E>) -> bool {
    &&& vsteps(c0, c1)
    &&& forall|fl: spec_fn(int) -> Option<u64>|
        agrees(fl, c1.floats()) ==> delivered(
            #[trigger] v_nested(c0.input(), c0.pos() as int, h, visit_cfg(c0, limits), fl),
            log,
            r,
            c1.pos() as int,
        )
}

/// As [`term_visited`], for `n` consecutive terms at height `h`.
pub open spec fn seq_visited<E: From<EtfError>>(c0: Cursor, c1: Cursor, n: int, h: int, limits: Limits, log: Delivery, r: Result<(), E>) -> bool {
    &&& vsteps(c0, c1)
    &&& forall|fl: spec_fn(int) -> Option<u64>|
        agrees(fl, c1.floats()) ==> delivered(
            #[trigger] v_seq(c0.input(), c0.pos() as int, n, h, visit_cfg(c0, limits), fl),
            log,
            r,
            c1.pos() as int,
        )
}

/// `s` starts with `t`.
pub open spec fn starts_with(s: Seq<VisitEvent>, t: Seq<VisitEvent>) -> bool {
    &&& t.len() <= s.len()
    &&& forall|i: int| 0 <= i < t.len() ==> #[trigger] s[i] == t[i]
}

/// A refusal seen in a visit `v` is seen the same way in any visit `w`
/// whose events start with those of `v`.
pub proof fn lemma_deliver_prefix<E: From<EtfError>>(v: Visit, w: Visit, log: Delivery, r: Result<(), E>, pos: int)
    requires
        delivered(v, log, r, pos),
        log.refused,
        starts_with(w.events, v.events),
    ensures
        delivered(w, log, r, pos),
{
    assert(w.events.subrange(0, log.events.len() as int) =~= v.events.subrange(0, log.events.len() as int));
}

/// A visit `v` that returned an error delivered the same in a visit `w`
/// that is `v` where `v` stops on a decode error, and otherwise starts with
/// the events of `v`.
pub proof fn lemma_deliver_err_prefix<E: From<EtfError>>(v: Visit, w: Visit, log: Delivery, r: Result<(), E>, pos: int)
    requires
        delivered(v, log, r, pos),
        r is Err,
        v.end is Err ==> w == v,
        v.end is Ok ==> starts_with(w.events, v.events),
    ensures
        delivered(w, log, r, pos),
{
    if v.end is Ok {
        lemma_deliver_prefix(v, w, log, r, pos);
    }
}

/// The visitor refused the last of `evs`, the events a visit `v` starts with.
pub proof fn lemma_deliver_refused<E: From<EtfError>>(evs: Seq<VisitEvent>, v: Visit, r: Result<(), E>, pos: int)
    requires
        r is Err,
        evs.len() > 0,
        starts_with(v.events, evs),
    ensures
        delivered(v, Delivery { events: evs, refused: true }, r, pos),
{
    assert(v.events.subrange(0, evs.len() as int) =~= evs);
}

/// A sequence whose first term ended well continues after it.
pub proof fn lemma_v_seq_step_ok(d: Seq<u8>, p: int, m: int, h: int, cfg: ParseCfg, fl: spec_fn(int) -> Option<u64>, q: int)
    requires
        m > 0,
        v_term(d, p, h, cfg, fl).end == Ok::<int, EtfError>(q),
    ensures
        v_seq(d, p, m, h, cfg, fl) == vpre(v_term(d, p, h, cfg, fl).events, v_seq(d, q, m - 1, h, cfg, fl)),
{
    lemma_v_term_advances(d, p, h, cfg, fl);
}

/// A sequence whose first term's visit returned an error returns it too.
pub proof fn lemma_v_seq_step_err<E: From<EtfError>>(
    d: Seq<u8>,
    p: int,
    m: int,
    h: int,
    cfg: ParseCfg,
    fl: spec_fn(int) -> Option<u64>,
    log: Delivery,
    r: Result<(), E>,
    pos: int,
)
    requires
        m > 0,
        delivered(v_term(d, p, h, cfg, fl), log, r, pos),
        r is Err,
    ensures
        delivered(v_seq(d, p, m, h, cfg, fl), log, r, pos),
{
    lemma_v_term_advances(d, p, h, cfg, fl);
    let a = v_term(d, p, h, cfg, fl);
    if let Ok(q) = a.end {
        let w = v_seq(d, p, m, h, cfg, fl);
        assert(w == vpre(a.events, v_seq(d, q, m - 1, h, cfg, fl)));
        lemma_deliver_prefix(a, w, log, r, pos);
    }
}

/// After the events `evs` were all delivered, the decode error `e`.
fn fail_after<V: Visitor>(e: EtfError, evs: Ghost<Seq<VisitEvent>>) -> (r: (Result<(), V::Error>, Ghost<Delivery>))
    ensures
        r.1@ == (Delivery { events: evs@, refused: false }),
        r.0 is Err,
        forall|pos: int| #[trigger] delivered(Visit { events: evs@, end: Err(e) }, r.1@, r.0, pos),
        forall|v0: V, v1: V| v1.calls() == v0.calls() + oks::<V::Error>(evs@) ==> #[trigger] received(v0, v1, r.1@, r.0),
{
    let r = (Err(V::Error::from(e)), Ghost(Delivery { events: evs@, refused: false }));
    proof {
        assert(evs@.subrange(0, evs@.len() as int) =~= evs@);
    }
    r
}

/// After the events `evs` were all delivered, the visitor's answer `a` to
/// `ev`.
fn answer_after<V: Visitor>(a: Result<(), V::Error>, evs: Ghost<Seq<VisitEvent>>, ev: Ghost<VisitEvent>) -> (r: (
    Result<(), V::Error>,
    Ghost<Delivery>,
))
    ensures
        r.0 == a,
        r.1@ == (Delivery { events: evs@.push(ev@), refused: a is Err }),
        forall|pos: int| #[trigger] delivered(Visit { events: evs@.push(ev@), end: Ok(pos) }, r.1@, r.0, pos),
        forall|v0: V, v1: V| v1.calls() == (v0.calls() + oks::<V::Error>(evs@)).push((ev@, a)) ==> #[trigger] received(
            v0,
            v1,
            r.1@,
            r.0,
        ),
{
    let refused = a.is_err();
    let r = (a, Ghost(Delivery { events: evs@.push(ev@), refused }));
    proof {
        assert(evs@.push(ev@).subrange(0, evs@.push(ev@).len() as int) =~= evs@.push(ev@));
        assert forall|v0: V, v1: V| v1.calls() == (v0.calls() + oks::<V::Error>(evs@)).push((ev@, a)) implies #[trigger] received(
            v0,
            v1,
            r.1@,
            r.0,
        ) by {
            if let Ok(u) = a {
                assert(u == ());
                assert(a == Ok::<(), V::Error>(()));
            }
            assert(evs@.push(ev@).drop_last() =~= evs@);
            assert(oks::<V::Error>(evs@.push(ev@)) =~= oks::<V::Error>(evs@).push((ev@, Ok::<(), V::Error>(()))));
            assert(v1.calls() =~= v0.calls() + log_calls(r.1@, r.0));
        }
    }
    r
}

/// `n` consecutive terms, each one level below height `h`.
fn visit_seq<'a, V: Visitor, F: FloatText>(cursor: &mut Cursor<'a>, visitor: &mut V, empty: &Bump, n: u64, h: usize) -> (r: (
    Result<(), V::Error>,
    Ghost<Delivery>,
))
    requires
        floats_read::<F>(*old(cursor)),
        floats_behind(*old(cursor)),
        empty.end() == 0,
        empty.ptr() == 0,
    ensures
        floats_read::<F>(*final(cursor)),
        seq_visited(*old(cursor), *final(cursor), n as int, h + 1, empty.spec_limits(), r.1@, r.0),
        received(*old(visitor), *final(visitor), r.1@, r.0),
    decreases old(cursor).input().len() - old(cursor).pos(), 2int, n,
{
    cursor.check_inv();
    let ghost d = cursor.input();
    let ghost c0 = *cursor;
    let ghost cfg = visit_cfg(c0, empty.spec_limits());
    let ghost mut acc: Seq<VisitEvent> = Seq::empty();
    let ghost v0 = *visitor;
    let mut i: u64 = 0;
    proof {
        assert(v0.calls() + oks::<V::Error>(acc) =~= v0.calls());
        assert forall|fl: spec_fn(int) -> Option<u64>| agrees(fl, cursor.floats()) implies #[trigger] v_seq(d, c0.pos() as int, n as int, h + 1, cfg, fl)
            == vpre(acc, v_seq(d, cursor.pos() as int, n - i, h + 1, cfg, fl)) by {
            assert(acc + v_seq(d, c0.pos() as int, n as int, h + 1, cfg, fl).events =~= v_seq(d, c0.pos() as int, n as int, h + 1, cfg, fl).events);
        }
    }
    while i < n
        invariant
            floats_read::<F>(*cursor),
            c0 == *old(cursor),
            d == c0.input(),
            cfg == visit_cfg(c0, empty.spec_limits()),
            empty.end() == 0,
            empty.ptr() == 0,
            i <= n,
            cursor.input() == d,
            cursor.is_streaming() == c0.is_streaming(),
            c0.floats().submap_of(cursor.floats()),
            floats_behind(*cursor),
            cursor.pos() >= c0.pos(),
            forall|fl: spec_fn(int) -> Option<u64>|
                agrees(fl, cursor.floats()) ==> #[trigger] v_seq(d, c0.pos() as int, n as int, h + 1, cfg, fl)
                    == vpre(acc, v_seq(d, cursor.pos() as int, n - i, h + 1, cfg, fl)),
            v0 == *old(visitor),
            visitor.calls() == v0.calls() + oks::<V::Error>(acc),
        decreases n - i,
    {
        cursor.check_inv();
        let ghost ci = *cursor;
        let ghost vi = *visitor;
        let (a, log) = visit_child::<V, F>(cursor, visitor, empty, h);
        proof {
            lemma_submap_trans(c0.floats(), ci.floats(), cursor.floats());
        }
        if a.is_err() {
            proof {
                assert forall|fl: spec_fn(int) -> Option<u64>| agrees(fl, cursor.floats()) implies delivered(
                    #[trigger] v_seq(d, c0.pos() as int, n as int, h + 1, cfg, fl),
                    Delivery { events: acc + log@.events, refused: log@.refused },
                    a,
                    cursor.pos() as int,
                ) by {
                    lemma_agrees_submap(fl, ci.floats(), cursor.floats());
                    lemma_v_seq_step_err(d, ci.pos() as int, n - i, h + 1, cfg, fl, log@, a, cursor.pos() as int);
                    lemma_deliver_pre(acc, v_seq(d, ci.pos() as int, n - i, h + 1, cfg, fl), log@, a, cursor.pos() as int);
                }
                lemma_received_then(v0, vi, *visitor, Delivery { events: acc, refused: false }, Ok::<(), V::Error>(()), log@, a);
            }
            return (a, Ghost(Delivery { events: acc + log@.events, refused: log@.refused }));
        }
        proof {
            let ghost before = acc;
            lemma_oks_concat::<V::Error>(acc, log@.events);
            acc = acc + log@.events;
            assert forall|fl: spec_fn(int) -> Option<u64>| agrees(fl, cursor.floats()) implies #[trigger] v_seq(d, c0.pos() as int, n as int, h + 1, cfg, fl)
                == vpre(acc, v_seq(d, cursor.pos() as int, n - (i + 1), h + 1, cfg, fl)) by {
                lemma_agrees_submap(fl, ci.floats(), cursor.floats());
                lemma_v_seq_step_ok(d, ci.pos() as int, n - i, h + 1, cfg, fl, cursor.pos() as int);
                let rest = v_seq(d, cursor.pos() as int, n - (i + 1), h + 1, cfg, fl);
                assert((before + log@.events) + rest.events =~= before + (log@.events + rest.events));
            }
        }
        i = i + 1;
    }
    proof {
        assert forall|fl: spec_fn(int) -> Option<u64>| agrees(fl, cursor.floats()) implies delivered(
            #[trigger] v_seq(d, c0.pos() as int, n as int, h + 1, cfg, fl),
            Delivery { events: acc, refused: false },
            Ok::<(), V::Error>(()),
            cursor.pos() as int,
        ) by {
            assert(acc + Seq::<VisitEvent>::empty() =~= acc);
            assert(acc.subrange(0, acc.len() as int) =~= acc);
        }
    }
    (Ok(()), Ghost(Delivery { events: acc, refused: false }))
}

/// One term one level below height `h`: past every depth limit when `h`
/// is the largest height there is.
fn visit_child<'a, V: Visitor, F: FloatText>(cursor: &mut Cursor<'a>, visitor: &mut V, empty: &Bump, h: usize) -> (r: (
    Result<(), V::Error>,
    Ghost<Delivery>,
))
    requires
        floats_read::<F>(*old(cursor)),
        floats_behind(*old(cursor)),
        empty.end() == 0,
        empty.ptr() == 0,
    ensures
        floats_read::<F>(*final(cursor)),
        term_visited(*old(cursor), *final(cursor), h + 1, empty.spec_limits(), r.1@, r.0),
        received(*old(visitor), *final(visitor), r.1@, r.0),
    decreases old(cursor).input().len() - old(cursor).pos(), 1int, 3int,
{
    if h == usize::MAX {
        return fail::<V>(EtfError::RecursionLimitExceeded);
    }
    visit_term::<V, F>(cursor, visitor, empty, h + 1)
}

/// One term at height `h`, its tag at the cursor.
fn visit_term<'a, V: Visitor, F: FloatText>(cursor: &mut Cursor<'a>, visitor: &mut V, empty: &Bump, h: usize) -> (r: (
    Result<(), V::Error>,
    Ghost<Delivery>,
))
    requires
        floats_read::<F>(*old(cursor)),
        floats_behind(*old(cursor)),
        empty.end() == 0,
        empty.ptr() == 0,
    ensures
        floats_read::<F>(*final(cursor)),
        term_visited(*old(cursor), *final(cursor), h as int, empty.spec_limits(), r.1@, r.0),
        received(*old(visitor), *final(visitor), r.1@, r.0),
    decreases old(cursor).input().len() - old(cursor).pos(), 1int, 2int,
{
    if h > empty.limits().max_depth {
        return fail::<V>(EtfError::RecursionLimitExceeded);
    }
    let tag = match cursor.peek() {
        Some(t) => t,
        None => return fail::<V>(cursor.eof_or_incomplete(1)),
    };
    let ghost c0 = *cursor;
    let ghost cfg = visit_cfg(c0, empty.spec_limits());
    if tag == SMALL_TUPLE_EXT || tag == LARGE_TUPLE_EXT || tag == LIST_EXT || tag == MAP_EXT || tag == PID_EXT
        || tag == NEW_PID_EXT || tag == PORT_EXT || tag == NEW_PORT_EXT || tag == V4_PORT_EXT
        || tag == NEW_REFERENCE_EXT || tag == NEWER_REFERENCE_EXT || tag == EXPORT_EXT || tag == RECORD_EXT {
        let r = visit_nested::<V, F>(cursor, visitor, empty, h);
        proof {
            assert forall|fl: spec_fn(int) -> Option<u64>| agrees(fl, cursor.floats()) implies delivered(
                #[trigger] v_term(c0.input(), c0.pos() as int, h as int, cfg, fl),
                r.1@,
                r.0,
                cursor.pos() as int,
            ) by {
                assert(v_term(c0.input(), c0.pos() as int, h as int, cfg, fl) == v_nested(c0.input(), c0.pos() as int, h as int, cfg, fl));
            }
        }
        r
    } else {
        let r = visit_leaf::<V, F>(cursor, visitor, empty);
        proof {
            assert forall|fl: spec_fn(int) -> Option<u64>| agrees(fl, cursor.floats()) implies delivered(
                #[trigger] v_term(c0.input(), c0.pos() as int, h as int, cfg, fl),
                r.1@,
                r.0,
                cursor.pos() as int,
            ) by {
                assert(v_term(c0.input(), c0.pos() as int, h as int, cfg, fl) == v_leaf(c0.input(), c0.pos() as int, cfg, fl));
            }
        }
        r
    }
}

/// A term whose tag, at the cursor, nests other terms.
fn visit_nested<'a, V: Visitor, F: FloatText>(cursor: &mut Cursor<'a>, visitor: &mut V, empty: &Bump, h: usize) -> (r: (
    Result<(), V::Error>,
    Ghost<Delivery>,
))
    requires
        floats_read::<F>(*old(cursor)),
        at_tag(*old(cursor), *empty),
        visits_nested(tag_at(*old(cursor))),
    ensures
        floats_read::<F>(*final(cursor)),
        nested_visited(*old(cursor), *final(cursor), h as int, empty.spec_limits(), r.1@, r.0),
        received(*old(visitor), *final(visitor), r.1@, r.0),
    decreases old(cursor).input().len() - old(cursor).pos(), 1int, 1int,
{
    let tag = match cursor.peek() {
        Some(t) => t,
        None => return fail::<V>(EtfError::UnexpectedEof),
    };
    if tag == SMALL_TUPLE_EXT || tag == LARGE_TUPLE_EXT || tag == MAP_EXT {
        visit_tuple_or_map::<V, F>(cursor, visitor, empty, h)
    } else if tag == LIST_EXT {
        visit_list::<V, F>(cursor, visitor, empty, h)
    } else if tag == PID_EXT || tag == NEW_PID_EXT || tag == PORT_EXT || tag == NEW_PORT_EXT || tag == V4_PORT_EXT {
        visit_node::<V, F>(cursor, visitor, empty, h)
    } else if tag == NEW_REFERENCE_EXT || tag == NEWER_REFERENCE_EXT {
        visit_ref::<V, F>(cursor, visitor, empty, h)
    } else {
        visit_export_or_record::<V, F>(cursor, visitor, empty, h)
    }
}

/// A tuple (`SMALL_TUPLE_EXT`, `LARGE_TUPLE_EXT`) or a map (`MAP_EXT`):
/// its start, its elements (for a map, each key then its value), its end.
#[verifier::rlimit(40)]
#[verifier::spinoff_prover]
fn visit_tuple_or_map<'a, V: Visitor, F: FloatText>(cursor: &mut Cursor<'a>, visitor: &mut V, empty: &Bump, h: usize) -> (r: (
    Result<(), V::Error>,
    Ghost<Delivery>,
))
    requires
        floats_read::<F>(*old(cursor)),
        at_tag(*old(cursor), *empty),
        tag_at(*old(cursor)) == SMALL_TUPLE_EXT || tag_at(*old(cursor)) == LARGE_TUPLE_EXT || tag_at(*old(cursor))
            == MAP_EXT,
    ensures
        floats_read::<F>(*final(cursor)),
        nested_visited(*old(cursor), *final(cursor), h as int, empty.spec_limits(), r.1@, r.0),
        received(*old(visitor), *final(visitor), r.1@, r.0),
    decreases old(cursor).input().len() - old(cursor).pos(), 1int, 0int,
{
    let ghost c0 = *cursor;
    let ghost d = c0.input();
    let ghost cfg = visit_cfg(c0, empty.spec_limits());
    let tag = match cursor.read_u8() {
        Ok(t) => t,
        Err(e) => return fail::<V>(e),
    };
    let n = match read_uint(cursor, empty, if tag == SMALL_TUPLE_EXT { 1 } else { 4 }) {
        Ok(v) => v,
        Err(e) => return fail::<V>(e),
    };
    let is_map = tag == MAP_EXT;
    if is_map {
        if n > empty.limits().max_map_len {
            return fail::<V>(EtfError::MapTooLarge);
        }
    } else if n > empty.limits().max_tuple_arity {
        return fail::<V>(EtfError::TupleTooLarge);
    }
    let ghost start = if is_map { VisitEvent::MapStart(n as int) } else { VisitEvent::TupleStart(n as int) };
    let ghost end = if is_map { VisitEvent::MapEnd } else { VisitEvent::TupleEnd };
    let ghost cs = *cursor;
    let count: u64 = if is_map { 2 * (n as u64) } else { n as u64 };
    let ghost v0 = *visitor;
    let opened = if is_map { visitor.visit_map_start(n) } else { visitor.visit_tuple_start(n) };
    let ghost v1 = *visitor;
    proof {
        lemma_received_one(v0, v1, start, opened);
    }
    match opened {
        Ok(()) => {},
        Err(x) => {
            proof {
                assert forall|fl: spec_fn(int) -> Option<u64>| agrees(fl, cursor.floats()) implies delivered(
                    #[trigger] v_nested(d, c0.pos() as int, h as int, cfg, fl),
                    Delivery { events: seq![start], refused: true },
                    Err::<(), V::Error>(x),
                    cursor.pos() as int,
                ) by {
                    let body = vpre(seq![start], v_seq(d, cs.pos() as int, count as int, h + 1, cfg, fl));
                    let w = vpost(body, end);
                    assert(v_nested(d, c0.pos() as int, h as int, cfg, fl) == w);
                    assert(w.events[0] == start);
                    lemma_deliver_refused(seq![start], w, Err::<(), V::Error>(x), cursor.pos() as int);
                }
            }
            return (Err(x), Ghost(Delivery { events: seq![start], refused: true }));
        },
    }
    let (a, log) = visit_seq::<V, F>(cursor, visitor, empty, count, h);
    let ghost v2 = *visitor;
    proof {
        lemma_received_then(v0, v1, v2, Delivery { events: seq![start], refused: false }, opened, log@, a);
    }
    if a.is_err() {
        proof {
            assert forall|fl: spec_fn(int) -> Option<u64>| agrees(fl, cursor.floats()) implies delivered(
                #[trigger] v_nested(d, c0.pos() as int, h as int, cfg, fl),
                Delivery { events: seq![start] + log@.events, refused: log@.refused },
                a,
                cursor.pos() as int,
            ) by {
                let s = v_seq(d, cs.pos() as int, count as int, h + 1, cfg, fl);
                assert(v_nested(d, c0.pos() as int, h as int, cfg, fl) == vpost(vpre(seq![start], s), end));
                lemma_deliver_pre(seq![start], s, log@, a, cursor.pos() as int);
                lemma_deliver_post_err(
                    vpre(seq![start], s),
                    Delivery { events: seq![start] + log@.events, refused: log@.refused },
                    a,
                    cursor.pos() as int,
                    end,
                );
            }
        }
        return (a, Ghost(Delivery { events: seq![start] + log@.events, refused: log@.refused }));
    }
    let closed = if is_map { visitor.visit_map_end() } else { visitor.visit_tuple_end() };
    let refused = closed.is_err();
    proof {
        lemma_received_one(v2, *visitor, end, closed);
        lemma_received_then(
            v0,
            v2,
            *visitor,
            Delivery { events: seq![start] + log@.events, refused: false },
            a,
            Delivery { events: seq![end], refused },
            closed,
        );
        assert(seq![start] + log@.events + seq![end] =~= (seq![start] + log@.events).push(end));
        assert forall|fl: spec_fn(int) -> Option<u64>| agrees(fl, cursor.floats()) implies delivered(
            #[trigger] v_nested(d, c0.pos() as int, h as int, cfg, fl),
            Delivery { events: (seq![start] + log@.events).push(end), refused },
            closed,
            cursor.pos() as int,
        ) by {
            let s = v_seq(d, cs.pos() as int, count as int, h + 1, cfg, fl);
            assert(v_nested(d, c0.pos() as int, h as int, cfg, fl) == vpost(vpre(seq![start], s), end));
            lemma_deliver_pre(seq![start], s, log@, a, cursor.pos() as int);
            lemma_deliver_post_ok(
                vpre(seq![start], s),
                Delivery { events: seq![start] + log@.events, refused: false },
                cursor.pos() as int,
                end,
                closed,
            );
        }
    }
    (closed, Ghost(Delivery { events: (seq![start] + log@.events).push(end), refused }))
}

/// A list (`LIST_EXT`): its start, its elements, then a `NIL_EXT` tail and
/// its end, or an improper tail term between two events.
#[verifier::rlimit(60)]
#[verifier::spinoff_prover]
fn visit_list<'a, V: Visitor, F: FloatText>(cursor: &mut Cursor<'a>, visitor: &mut V, empty: &Bump, h: usize) -> (r: (
    Result<(), V::Error>,
    Ghost<Delivery>,
))
    requires
        floats_read::<F>(*old(cursor)),
        at_tag(*old(cursor), *empty),
        tag_at(*old(cursor)) == LIST_EXT,
    ensures
        floats_read::<F>(*final(cursor)),
        nested_visited(*old(cursor), *final(cursor), h as int, empty.spec_limits(), r.1@, r.0),
        received(*old(visitor), *final(visitor), r.1@, r.0),
    decreases old(cursor).input().len() - old(cursor).pos(), 1int, 0int,
{
    let ghost c0 = *cursor;
    let ghost d = c0.input();
    let ghost cfg = visit_cfg(c0, empty.spec_limits());
    match cursor.read_u8() {
        Ok(_) => {},
        Err(e) => return fail::<V>(e),
    }
    let n = match read_uint(cursor, empty, 4) {
        Ok(v) => v,
        Err(e) => return fail::<V>(e),
    };
    if n > empty.limits().max_list_len {
        return fail::<V>(EtfError::ListTooLarge);
    }
    let ghost start = VisitEvent::ListStart(n as int);
    let ghost cs = *cursor;
    let ghost v0 = *visitor;
    let opened = visitor.visit_list_start(n);
    let ghost v1 = *visitor;
    proof {
        lemma_received_one(v0, v1, start, opened);
    }
    match opened {
        Ok(()) => {},
        Err(x) => {
            proof {
                assert forall|fl: spec_fn(int) -> Option<u64>| agrees(fl, cursor.floats()) implies delivered(
                    #[trigger] v_nested(d, c0.pos() as int, h as int, cfg, fl),
                    Delivery { events: seq![start], refused: true },
                    Err::<(), V::Error>(x),
                    cursor.pos() as int,
                ) by {
                    let body = vpre(seq![start], v_seq(d, cs.pos() as int, n as int, h + 1, cfg, fl));
                    let w = v_nested(d, c0.pos() as int, h as int, cfg, fl);
                    lemma_v_seq_advances(d, cs.pos() as int, n as int, h + 1, cfg, fl);
                    assert(body.events[0] == start);
                    if let Ok(q) = body.end {
                        if q < d.len() && d[q] != NIL_EXT {
                            let tail = v_term(d, q, h + 1, cfg, fl);
                            assert(w == vpost(vpre(body.events.push(VisitEvent::ImproperListTail), tail), VisitEvent::ImproperListEnd));
                            assert(w.events[0] == (body.events.push(VisitEvent::ImproperListTail) + tail.events)[0]);
                        }
                    }
                    assert(w.events[0] == start);
                    lemma_deliver_refused(seq![start], w, Err::<(), V::Error>(x), cursor.pos() as int);
                }
            }
            return (Err(x), Ghost(Delivery { events: seq![start], refused: true }));
        },
    }
    let (a, log) = visit_seq::<V, F>(cursor, visitor, empty, n as u64, h);
    let ghost body_evs = seq![start] + log@.events;
    let ghost v2 = *visitor;
    proof {
        lemma_received_then(v0, v1, v2, Delivery { events: seq![start], refused: false }, opened, log@, a);
        lemma_oks_concat::<V::Error>(seq![start], log@.events);
    }
    if a.is_err() {
        proof {
            assert forall|fl: spec_fn(int) -> Option<u64>| agrees(fl, cursor.floats()) implies delivered(
                #[trigger] v_nested(d, c0.pos() as int, h as int, cfg, fl),
                Delivery { events: body_evs, refused: log@.refused },
                a,
                cursor.pos() as int,
            ) by {
                let s = v_seq(d, cs.pos() as int, n as int, h + 1, cfg, fl);
                let body = vpre(seq![start], s);
                let w = v_nested(d, c0.pos() as int, h as int, cfg, fl);
                lemma_deliver_pre(seq![start], s, log@, a, cursor.pos() as int);
                lemma_v_seq_advances(d, cs.pos() as int, n as int, h + 1, cfg, fl);
                if let Ok(q) = body.end {
                    if q < d.len() && d[q] != NIL_EXT {
                        let tail = v_term(d, q, h + 1, cfg, fl);
                        assert(w == vpost(vpre(body.events.push(VisitEvent::ImproperListTail), tail), VisitEvent::ImproperListEnd));
                        assert forall|i: int| 0 <= i < body.events.len() implies #[trigger] w.events[i] == body.events[i] by {
                            assert((body.events.push(VisitEvent::ImproperListTail) + tail.events)[i] == body.events[i]);
                        }
                    }
                    assert(starts_with(w.events, body.events));
                }
                lemma_deliver_err_prefix(body, w, Delivery { events: body_evs, refused: log@.refused }, a, cursor.pos() as int);
            }
        }
        return (a, Ghost(Delivery { events: body_evs, refused: log@.refused }));
    }
    cursor.check_inv();
    let ghost cb = *cursor;
    let t = match cursor.peek() {
        Some(t) => t,
        None => {
            let r = fail_after::<V>(cursor.eof_or_incomplete(1), Ghost(body_evs));
            proof {
                assert forall|fl: spec_fn(int) -> Option<u64>| agrees(fl, cursor.floats()) implies delivered(
                    #[trigger] v_nested(d, c0.pos() as int, h as int, cfg, fl),
                    r.1@,
                    r.0,
                    cursor.pos() as int,
                ) by {
                    let s = v_seq(d, cs.pos() as int, n as int, h + 1, cfg, fl);
                    assert(s.end == Ok::<int, EtfError>(cb.pos() as int));
                    assert(v_nested(d, c0.pos() as int, h as int, cfg, fl) == Visit { events: body_evs, end: Err::<int, EtfError>(short_error(c0.is_streaming(), 1)) });
                }
            }
            return r;
        },
    };
    if t == NIL_EXT {
        let _ = cursor.read_u8();
        let r = answer_after::<V>(visitor.visit_list_end(), Ghost(body_evs), Ghost(VisitEvent::ListEnd));
        proof {
            assert forall|fl: spec_fn(int) -> Option<u64>| agrees(fl, cursor.floats()) implies delivered(
                #[trigger] v_nested(d, c0.pos() as int, h as int, cfg, fl),
                r.1@,
                r.0,
                cursor.pos() as int,
            ) by {
                let s = v_seq(d, cs.pos() as int, n as int, h + 1, cfg, fl);
                assert(s.end == Ok::<int, EtfError>(cb.pos() as int));
                assert(v_nested(d, c0.pos() as int, h as int, cfg, fl) == Visit { events: body_evs.push(VisitEvent::ListEnd), end: Ok::<int, EtfError>(cursor.pos() as int) });
            }
        }
        return r;
    }
    let ghost tail_evs = body_evs.push(VisitEvent::ImproperListTail);
    let marked = visitor.visit_improper_list_tail();
    let ghost v3 = *visitor;
    proof {
        lemma_received_one(v2, v3, VisitEvent::ImproperListTail, marked);
        lemma_received_then(
            v0,
            v2,
            v3,
            Delivery { events: body_evs, refused: false },
            a,
            Delivery { events: seq![VisitEvent::ImproperListTail], refused: marked is Err },
            marked,
        );
        assert(body_evs + seq![VisitEvent::ImproperListTail] =~= tail_evs);
    }
    match marked {
        Ok(()) => {},
        Err(x) => {
            proof {
                assert forall|fl: spec_fn(int) -> Option<u64>| agrees(fl, cursor.floats()) implies delivered(
                    #[trigger] v_nested(d, c0.pos() as int, h as int, cfg, fl),
                    Delivery { events: tail_evs, refused: true },
                    Err::<(), V::Error>(x),
                    cursor.pos() as int,
                ) by {
                    let s = v_seq(d, cs.pos() as int, n as int, h + 1, cfg, fl);
                    assert(s.end == Ok::<int, EtfError>(cb.pos() as int));
                    let tail = v_term(d, cb.pos() as int, h + 1, cfg, fl);
                    let w = v_nested(d, c0.pos() as int, h as int, cfg, fl);
                    assert(w == vpost(vpre(tail_evs, tail), VisitEvent::ImproperListEnd));
                    assert forall|i: int| 0 <= i < tail_evs.len() implies #[trigger] w.events[i] == tail_evs[i] by {
                        assert((tail_evs + tail.events)[i] == tail_evs[i]);
                    }
                    lemma_deliver_refused(tail_evs, w, Err::<(), V::Error>(x), cursor.pos() as int);
                }
            }
            return (Err(x), Ghost(Delivery { events: tail_evs, refused: true }));
        },
    }
    let (a2, log2) = visit_child::<V, F>(cursor, visitor, empty, h);
    let ghost v4 = *visitor;
    proof {
        lemma_submap_trans(c0.floats(), cb.floats(), cursor.floats());
        lemma_received_then(v0, v3, v4, Delivery { events: tail_evs, refused: false }, marked, log2@, a2);
    }
    if a2.is_err() {
        proof {
            assert forall|fl: spec_fn(int) -> Option<u64>| agrees(fl, cursor.floats()) implies delivered(
                #[trigger] v_nested(d, c0.pos() as int, h as int, cfg, fl),
                Delivery { events: tail_evs + log2@.events, refused: log2@.refused },
                a2,
                cursor.pos() as int,
            ) by {
                lemma_agrees_submap(fl, cb.floats(), cursor.floats());
                let s = v_seq(d, cs.pos() as int, n as int, h + 1, cfg, fl);
                assert(s.end == Ok::<int, EtfError>(cb.pos() as int));
                let tail = v_term(d, cb.pos() as int, h + 1, cfg, fl);
                assert(v_nested(d, c0.pos() as int, h as int, cfg, fl) == vpost(vpre(tail_evs, tail), VisitEvent::ImproperListEnd));
                lemma_deliver_pre(tail_evs, tail, log2@, a2, cursor.pos() as int);
                lemma_deliver_post_err(
                    vpre(tail_evs, tail),
                    Delivery { events: tail_evs + log2@.events, refused: log2@.refused },
                    a2,
                    cursor.pos() as int,
                    VisitEvent::ImproperListEnd,
                );
            }
        }
        return (a2, Ghost(Delivery { events: tail_evs + log2@.events, refused: log2@.refused }));
    }
    let closed = visitor.visit_improper_list_end();
    let refused = closed.is_err();
    proof {
        lemma_received_one(v4, *visitor, VisitEvent::ImproperListEnd, closed);
        lemma_received_then(
            v0,
            v4,
            *visitor,
            Delivery { events: tail_evs + log2@.events, refused: false },
            a2,
            Delivery { events: seq![VisitEvent::ImproperListEnd], refused },
            closed,
        );
        assert(tail_evs + log2@.events + seq![VisitEvent::ImproperListEnd] =~= (tail_evs + log2@.events).push(
            VisitEvent::ImproperListEnd,
        ));
        assert forall|fl: spec_fn(int) -> Option<u64>| agrees(fl, cursor.floats()) implies delivered(
            #[trigger] v_nested(d, c0.pos() as int, h as int, cfg, fl),
            Delivery { events: (tail_evs + log2@.events).push(VisitEvent::ImproperListEnd), refused },
            closed,
            cursor.pos() as int,
        ) by {
            lemma_agrees_submap(fl, cb.floats(), cursor.floats());
            let s = v_seq(d, cs.pos() as int, n as int, h + 1, cfg, fl);
            assert(s.end == Ok::<int, EtfError>(cb.pos() as int));
            let tail = v_term(d, cb.pos() as int, h + 1, cfg, fl);
            assert(v_nested(d, c0.pos() as int, h as int, cfg, fl) == vpost(vpre(tail_evs, tail), VisitEvent::ImproperListEnd));
            lemma_deliver_pre(tail_evs, tail, log2@, a2, cursor.pos() as int);
            lemma_deliver_post_ok(
                vpre(tail_evs, tail),
                Delivery { events: tail_evs + log2@.events, refused: false },
                cursor.pos() as int,
                VisitEvent::ImproperListEnd,
                closed,
            );
        }
    }
    (closed, Ghost(Delivery { events: (tail_evs + log2@.events).push(VisitEvent::ImproperListEnd), refused }))
}

/// A PID (`PID_EXT`, `NEW_PID_EXT`) or a port (`PORT_EXT`, `NEW_PORT_EXT`,
/// `V4_PORT_EXT`): its node atom, then its fixed-size tail.
fn visit_node<'a, V: Visitor, F: FloatText>(cursor: &mut Cursor<'a>, visitor: &mut V, empty: &Bump, h: usize) -> (r: (
    Result<(), V::Error>,
    Ghost<Delivery>,
))
    requires
        floats_read::<F>(*old(cursor)),
        at_tag(*old(cursor), *empty),
        tag_at(*old(cursor)) == PID_EXT || tag_at(*old(cursor)) == NEW_PID_EXT || tag_at(*old(cursor)) == PORT_EXT
            || tag_at(*old(cursor)) == NEW_PORT_EXT || tag_at(*old(cursor)) == V4_PORT_EXT,
    ensures
        floats_read::<F>(*final(cursor)),
        nested_visited(*old(cursor), *final(cursor), h as int, empty.spec_limits(), r.1@, r.0),
        received(*old(visitor), *final(visitor), r.1@, r.0),
    decreases old(cursor).input().len() - old(cursor).pos(), 1int, 0int,
{
    let ghost c0 = *cursor;
    let ghost d = c0.input();
    let ghost cfg = visit_cfg(c0, empty.spec_limits());
    let tag = match cursor.read_u8() {
        Ok(t) => t,
        Err(e) => return fail::<V>(e),
    };
    let ghost c1 = *cursor;
    let (a, log) = visit_child::<V, F>(cursor, visitor, empty, h);
    if a.is_err() {
        proof {
            assert forall|fl: spec_fn(int) -> Option<u64>| agrees(fl, cursor.floats()) implies delivered(
                #[trigger] v_nested(d, c0.pos() as int, h as int, cfg, fl),
                log@,
                a,
                cursor.pos() as int,
            ) by {
                let node = v_term(d, c1.pos() as int, h + 1, cfg, fl);
                let w = v_nested(d, c0.pos() as int, h as int, cfg, fl);
                if node.end is Ok {
                    assert(w.events.len() >= node.events.len());
                    assert forall|i: int| 0 <= i < node.events.len() implies #[trigger] w.events[i] == node.events[i] by {}
                }
                lemma_deliver_err_prefix(node, w, log@, a, cursor.pos() as int);
            }
        }
        return (a, log);
    }
    let ghost cn = *cursor;
    let n: usize = if tag == PID_EXT {
        9
    } else if tag == PORT_EXT {
        5
    } else if tag == NEW_PORT_EXT {
        8
    } else {
        12
    };
    let data = match take_bytes(cursor, empty, n) {
        Ok(b) => b,
        Err(e) => {
            let r = fail_after::<V>(e, Ghost(log@.events));
            proof {
                assert forall|fl: spec_fn(int) -> Option<u64>| agrees(fl, cursor.floats()) implies delivered(
                    #[trigger] v_nested(d, c0.pos() as int, h as int, cfg, fl),
                    r.1@,
                    r.0,
                    cursor.pos() as int,
                ) by {
                    let node = v_term(d, c1.pos() as int, h + 1, cfg, fl);
                    assert(node.end == Ok::<int, EtfError>(cn.pos() as int));
                }
            }
            return r;
        },
    };
    let is_pid = tag == PID_EXT || tag == NEW_PID_EXT;
    let ghost ev = if is_pid { VisitEvent::Pid(data@) } else { VisitEvent::Port(data@) };
    let answer = if is_pid { visitor.visit_pid(data) } else { visitor.visit_port(data) };
    let r = answer_after::<V>(answer, Ghost(log@.events), Ghost(ev));
    proof {
        assert forall|fl: spec_fn(int) -> Option<u64>| agrees(fl, cursor.floats()) implies delivered(
            #[trigger] v_nested(d, c0.pos() as int, h as int, cfg, fl),
            r.1@,
            r.0,
            cursor.pos() as int,
        ) by {
            let node = v_term(d, c1.pos() as int, h + 1, cfg, fl);
            assert(node.end == Ok::<int, EtfError>(cn.pos() as int));
        }
    }
    r
}

/// A reference (`NEW_REFERENCE_EXT`, `NEWER_REFERENCE_EXT`): its node
/// atom, then its creation and ID words.
fn visit_ref<'a, V: Visitor, F: FloatText>(cursor: &mut Cursor<'a>, visitor: &mut V, empty: &Bump, h: usize) -> (r: (
    Result<(), V::Error>,
    Ghost<Delivery>,
))
    requires
        floats_read::<F>(*old(cursor)),
        at_tag(*old(cursor), *empty),
        tag_at(*old(cursor)) == NEW_REFERENCE_EXT || tag_at(*old(cursor)) == NEWER_REFERENCE_EXT,
    ensures
        floats_read::<F>(*final(cursor)),
        nested_visited(*old(cursor), *final(cursor), h as int, empty.spec_limits(), r.1@, r.0),
        received(*old(visitor), *final(visitor), r.1@, r.0),
    decreases old(cursor).input().len() - old(cursor).pos(), 1int, 0int,
{
    let ghost c0 = *cursor;
    let ghost d = c0.input();
    let ghost cfg = visit_cfg(c0, empty.spec_limits());
    let tag = match cursor.read_u8() {
        Ok(t) => t,
        Err(e) => return fail::<V>(e),
    };
    let len = match read_uint(cursor, empty, 2) {
        Ok(v) => v,
        Err(e) => return fail::<V>(e),
    };
    if len > empty.limits().max_reference_words {
        return fail::<V>(EtfError::ListTooLarge);
    }
    let ghost c1 = *cursor;
    let (a, log) = visit_child::<V, F>(cursor, visitor, empty, h);
    if a.is_err() {
        proof {
            assert forall|fl: spec_fn(int) -> Option<u64>| agrees(fl, cursor.floats()) implies delivered(
                #[trigger] v_nested(d, c0.pos() as int, h as int, cfg, fl),
                log@,
                a,
                cursor.pos() as int,
            ) by {
                let node = v_term(d, c1.pos() as int, h + 1, cfg, fl);
                let w = v_nested(d, c0.pos() as int, h as int, cfg, fl);
                if node.end is Ok {
                    assert(w.events.len() >= node.events.len());
                    assert forall|i: int| 0 <= i < node.events.len() implies #[trigger] w.events[i] == node.events[i] by {}
                }
                lemma_deliver_err_prefix(node, w, log@, a, cursor.pos() as int);
            }
        }
        return (a, log);
    }
    let ghost cn = *cursor;
    let creation = read_uint(cursor, empty, if tag == NEW_REFERENCE_EXT { 1 } else { 4 });
    if let Err(e) = creation {
        let r = fail_after::<V>(e, Ghost(log@.events));
        proof {
            assert forall|fl: spec_fn(int) -> Option<u64>| agrees(fl, cursor.floats()) implies delivered(
                #[trigger] v_nested(d, c0.pos() as int, h as int, cfg, fl),
                r.1@,
                r.0,
                cursor.pos() as int,
            ) by {
                let node = v_term(d, c1.pos() as int, h + 1, cfg, fl);
                assert(node.end == Ok::<int, EtfError>(cn.pos() as int));
            }
        }
        return r;
    }
    let ghost cc = *cursor;
    let id = match take_bytes(cursor, empty, len * 4) {
        Ok(b) => b,
        Err(e) => {
            let r = fail_after::<V>(e, Ghost(log@.events));
            proof {
                assert forall|fl: spec_fn(int) -> Option<u64>| agrees(fl, cursor.floats()) implies delivered(
                    #[trigger] v_nested(d, c0.pos() as int, h as int, cfg, fl),
                    r.1@,
                    r.0,
                    cursor.pos() as int,
                ) by {
                    let node = v_term(d, c1.pos() as int, h + 1, cfg, fl);
                    assert(node.end == Ok::<int, EtfError>(cn.pos() as int));
                }
            }
            return r;
        },
    };
    let r = answer_after::<V>(visitor.visit_reference(id), Ghost(log@.events), Ghost(VisitEvent::Reference(id@)));
    proof {
        assert forall|fl: spec_fn(int) -> Option<u64>| agrees(fl, cursor.floats()) implies delivered(
            #[trigger] v_nested(d, c0.pos() as int, h as int, cfg, fl),
            r.1@,
            r.0,
            cursor.pos() as int,
        ) by {
            let node = v_term(d, c1.pos() as int, h + 1, cfg, fl);
            assert(node.end == Ok::<int, EtfError>(cn.pos() as int));
        }
    }
    r
}

/// An export (`EXPORT_EXT`: module, function and arity) or a record
/// (`RECORD_EXT`: field count, flags, module, name, field names, field
/// values): its nested terms, then the bytes they span after the tag.
fn visit_export_or_record<'a, V: Visitor, F: FloatText>(cursor: &mut Cursor<'a>, visitor: &mut V, empty: &Bump, h: usize) -> (r: (
    Result<(), V::Error>,
    Ghost<Delivery>,
))
    requires
        floats_read::<F>(*old(cursor)),
        at_tag(*old(cursor), *empty),
        tag_at(*old(cursor)) == EXPORT_EXT || tag_at(*old(cursor)) == RECORD_EXT,
    ensures
        floats_read::<F>(*final(cursor)),
        nested_visited(*old(cursor), *final(cursor), h as int, empty.spec_limits(), r.1@, r.0),
        received(*old(visitor), *final(visitor), r.1@, r.0),
    decreases old(cursor).input().len() - old(cursor).pos(), 1int, 0int,
{
    let ghost c0 = *cursor;
    let ghost d = c0.input();
    let ghost cfg = visit_cfg(c0, empty.spec_limits());
    let tag = match cursor.read_u8() {
        Ok(t) => t,
        Err(e) => return fail::<V>(e),
    };
    let start = cursor.consumed();
    let is_export = tag == EXPORT_EXT;
    let mut count: u64 = 3;
    if !is_export {
        let n = match read_uint(cursor, empty, 4) {
            Ok(v) => v,
            Err(e) => return fail::<V>(e),
        };
        if n > empty.limits().max_map_len {
            return fail::<V>(EtfError::MapTooLarge);
        }
        match read_uint(cursor, empty, 1) {
            Ok(_) => {},
            Err(e) => return fail::<V>(e),
        }
        count = 2 * (n as u64) + 2;
    }
    let ghost cs = *cursor;
    let (a, log) = visit_seq::<V, F>(cursor, visitor, empty, count, h);
    if a.is_err() {
        proof {
            assert forall|fl: spec_fn(int) -> Option<u64>| agrees(fl, cursor.floats()) implies delivered(
                #[trigger] v_nested(d, c0.pos() as int, h as int, cfg, fl),
                log@,
                a,
                cursor.pos() as int,
            ) by {
                let body = v_seq(d, cs.pos() as int, count as int, h + 1, cfg, fl);
                let w = v_nested(d, c0.pos() as int, h as int, cfg, fl);
                if body.end is Ok {
                    assert(w.events.len() >= body.events.len());
                    assert forall|i: int| 0 <= i < body.events.len() implies #[trigger] w.events[i] == body.events[i] by {}
                }
                lemma_deliver_err_prefix(body, w, log@, a, cursor.pos() as int);
            }
        }
        return (a, log);
    }
    cursor.check_inv();
    let end = cursor.consumed();
    let data = cursor.slice_between(start, end);
    let ghost ev = if is_export { VisitEvent::Function(data@) } else { VisitEvent::Record(data@) };
    let answer = if is_export { visitor.visit_function(data) } else { visitor.visit_record(data) };
    let r = answer_after::<V>(answer, Ghost(log@.events), Ghost(ev));
    proof {
        assert forall|fl: spec_fn(int) -> Option<u64>| agrees(fl, cursor.floats()) implies delivered(
            #[trigger] v_nested(d, c0.pos() as int, h as int, cfg, fl),
            r.1@,
            r.0,
            cursor.pos() as int,
        ) by {
            let body = v_seq(d, cs.pos() as int, count as int, h + 1, cfg, fl);
            assert(body.end == Ok::<int, EtfError>(end as int));
        }
    }
    r
}

/// The configuration a visit of a whole stream runs with.
pub open spec fn stream_cfg(limits: Limits, streaming: bool) -> ParseCfg {
    ParseCfg { limits, streaming, bounded: true, arena_end: 0 }
}

/// Visiting the term at `p` of `d` at height 0, with `limits` and short
/// reads reporting as `streaming` says, made the calls `log`, returned `r`
/// and ended at `pos`, for every reading of the legacy floats that agrees
/// with `m`.
pub open spec fn visits_body<E: From<EtfError>>(
    d: Seq<u8>,
    p: int,
    limits: Limits,
    streaming: bool,
    m: Map<int, Option<u64>>,
    log: Delivery,
    r: Result<(), E>,
    pos: int,
) -> bool {
    forall|fl: spec_fn(int) -> Option<u64>|
        agrees(fl, m) ==> delivered(#[trigger] v_term(d, p, 0, stream_cfg(limits, streaming), fl), log, r, pos)
}

/// `r` is the decode error `e`, converted into the visitor's error type.
pub open spec fn converted<E: From<EtfError>>(r: Result<(), E>, e: EtfError) -> bool {
    &&& r is Err
    &&& <E as vstd::std_specs::convert::FromSpec<EtfError>>::obeys_from_spec() ==> r == Err::<(), E>(
        <E as vstd::std_specs::convert::FromSpec<EtfError>>::from_spec(e),
    )
}

/// What visiting the stream `d` returns (as `r`), with `limits`, a
/// decompression buffer of `buf_len` bytes (if any), and short reads
/// reporting as `streaming` says:
///
/// - an empty stream is short of its magic byte;
/// - a first byte other than 131 is [`EtfError::InvalidMagicNumber`];
/// - otherwise, unless the `COMPRESSED` tag follows, the term after the
///   magic byte is visited;
/// - a compressed stream that ends before its 4-byte size field is short
///   of the bytes missing from it; it needs a buffer of at least the declared size; then the
///   backend `Z` inflates the bytes after the size field into the first
///   declared-size bytes of the buffer, and gives one of its outcomes
///   ([`ZlibBackend::inflates`]): its error is returned, converted, or the
///   term the inflated bytes hold is visited (short reads there are never
///   "incomplete").
///
/// Decode errors reach the caller converted into the visitor's error type.
pub open spec fn visit_contract<E: From<EtfError>, Z: ZlibBackend, F: FloatText>(
    d: Seq<u8>,
    streaming: bool,
    limits: Limits,
    buf_len: Option<nat>,
    before: Seq<(VisitEvent, Result<(), E>)>,
    after: Seq<(VisitEvent, Result<(), E>)>,
    r: Result<(), E>,
) -> bool {
    if d.len() == 0 {
        converted(r, short_error(streaming, 1)) && after == before
    } else if d[0] != ETF_MAGIC {
        converted(r, EtfError::InvalidMagicNumber) && after == before
    } else if !is_compressed(d) {
        visits_calls::<E, F>(d, 1, limits, streaming, before, after, r)
    } else if d.len() < 6 {
        converted(r, short_error(streaming, 6 - d.len())) && after == before
    } else if buf_len is None || buf_len.unwrap() < declared_size(d) {
        converted(r, EtfError::InsufficientDecompressionBuffer) && after == before
    } else {
        exists|out: Result<Seq<u8>, EtfError>|
            #[trigger] Z::inflates(d.subrange(6, d.len() as int), declared_size(d) as nat, out) && match out {
                Ok(b) => b.len() == declared_size(d) && visits_calls::<E, F>(b, 0, limits, false, before, after, r),
                Err(e) => converted(r, e) && after == before,
            }
    }
}

/// Visiting the term at `p` of `d`, with `limits` and short reads reporting
/// as `streaming` says, returns `r` and takes the visitor's history from
/// `before` to `after`: the calls it makes are the events the visit grammar
/// states, in order, each answered `Ok` but a refused last one, whose
/// error `r` is; with no refusal, `r` is what the grammar states.  Each
/// legacy float is read as `F` reads its text.
pub open spec fn visits_calls<E: From<EtfError>, F: FloatText>(
    d: Seq<u8>,
    p: int,
    limits: Limits,
    streaming: bool,
    before: Seq<(VisitEvent, Result<(), E>)>,
    after: Seq<(VisitEvent, Result<(), E>)>,
    r: Result<(), E>,
) -> bool {
    exists|log: Delivery, pos: int|
        #[trigger] delivered(v_term(d, p, 0, stream_cfg(limits, streaming), reading::<F>(d)), log, r, pos) && extends(
            before,
            after,
            log,
            r,
        )
}

/// Visit one stream, complete (`streaming` false) or possibly incomplete.
fn visit_with<'a, V: Visitor, Z: ZlibBackend, F: FloatText>(
    input: &'a [u8],
    decompressed_buffer: Option<&'a mut [u8]>,
    visitor: &mut V,
    limits: &Limits,
    streaming: bool,
) -> (r: Result<(), V::Error>)
    ensures
        visit_contract::<V::Error, Z, F>(
            input@,
            streaming,
            *limits,
            buffer_len(decompressed_buffer),
            old(visitor).calls(),
            final(visitor).calls(),
            r,
        ),
{
    let mut cursor = if streaming {
        Cursor::new_streaming(input)
    } else {
        Cursor::new(input)
    };
    let magic = match cursor.read_u8() {
        Ok(b) => b,
        Err(e) => return Err(V::Error::from(e)),
    };
    if magic != ETF_MAGIC {
        return Err(V::Error::from(EtfError::InvalidMagicNumber));
    }
    let compressed = match cursor.peek() {
        Some(t) => t == COMPRESSED,
        None => false,
    };
    let empty = Bump::new(0, 0, limits);
    let ghost v0 = *visitor;
    if !compressed {
        let (r, log) = visit_term::<V, F>(&mut cursor, visitor, &empty, 0);
        proof {
            assert(visits_body(input@, 1, *limits, streaming, cursor.floats(), log@, r, cursor.pos() as int));
            assert(delivered(v_term(input@, 1, 0, stream_cfg(*limits, streaming), reading::<F>(input@)), log@, r, cursor.pos() as int));
            assert(extends(v0.calls(), visitor.calls(), log@, r));
        }
        return r;
    }
    let _ = cursor.read_u8();
    let size = match cursor.read_u32() {
        Ok(v) => v as usize,
        Err(e) => return Err(V::Error::from(e)),
    };
    let buf = match decompressed_buffer {
        Some(b) => b,
        None => return Err(V::Error::from(EtfError::InsufficientDecompressionBuffer)),
    };
    if buf.len() < size {
        return Err(V::Error::from(EtfError::InsufficientDecompressionBuffer));
    }
    let (target, _) = buf.split_at_mut(size);
    cursor.check_inv();
    let rest = cursor.slice_between(cursor.consumed(), input.len());
    assert(rest@ =~= input@.subrange(6, input@.len() as int));
    if let Err(e) = Z::decompress(target, rest) {
        let r = Err(V::Error::from(e));
        proof {
            let out = Err::<Seq<u8>, EtfError>(e);
            assert(Z::inflates(input@.subrange(6, input@.len() as int), declared_size(input@) as nat, out));
            assert(converted(r, e));
        }
        return r;
    }
    let data: &'a [u8] = target;
    let mut inner = Cursor::new(data);
    let (r, log) = visit_term::<V, F>(&mut inner, visitor, &empty, 0);
    proof {
        assert(visits_body(data@, 0, *limits, false, inner.floats(), log@, r, inner.pos() as int));
        let out = Ok::<Seq<u8>, EtfError>(data@);
        assert(Z::inflates(input@.subrange(6, input@.len() as int), declared_size(input@) as nat, out));
        assert(delivered(v_term(data@, 0, 0, stream_cfg(*limits, false), reading::<F>(data@)), log@, r, inner.pos() as int));
        assert(extends(v0.calls(), visitor.calls(), log@, r));
        assert(visits_calls::<V::Error, F>(data@, 0, *limits, false, v0.calls(), visitor.calls(), r));
    }
    r
}

/// Parse an ETF-encoded term using a [`Visitor`] instead of building an
/// AST.
///
/// This is the zero-allocation entry point: no arena is needed, and
/// compound terms are streamed as nested start/end events.
///
/// The compression wrapper (`131 80 …`) is handled with the backend `Z`
/// when a decompression buffer is provided.  `F` decodes the text of
/// legacy `FLOAT_EXT` floats.
///
/// Resource limits are controlled by `limits`.
pub fn parse_etf_with_visitor<'a, V: Visitor, Z: ZlibBackend, F: FloatText>(
    input: &'a [u8],
    decompressed_buffer: Option<&'a mut [u8]>,
    visitor: &mut V,
    limits: &Limits,
) -> (r: Result<(), V::Error>)
    ensures
        visit_contract::<V::Error, Z, F>(
            input@,
            false,
            *limits,
            buffer_len(decompressed_buffer),
            old(visitor).calls(),
            final(visitor).calls(),
            r,
        ),
{
    visit_with::<V, Z, F>(input, decompressed_buffer, visitor, limits, false)
}

/// Parse an ETF-encoded term using a [`Visitor`] from a **potentially
/// incomplete** input buffer.
///
/// This is the streaming / incremental zero-allocation entry point.  When
/// the input does not contain a complete term, the decode error is
/// [`EtfError::Incomplete`] with the minimum number of additional bytes
/// required.
///
/// Resource limits are controlled by `limits`.
pub fn parse_etf_with_visitor_streaming<'a, V: Visitor, Z: ZlibBackend, F: FloatText>(
    input: &'a [u8],
    decompressed_buffer: Option<&'a mut [u8]>,
    visitor: &mut V,
    limits: &Limits,
) -> (r: Result<(), V::Error>)
    ensures
        visit_contract::<V::Error, Z, F>(
            input@,
            true,
            *limits,
            buffer_len(decompressed_buffer),
            old(visitor).calls(),
            final(visitor).calls(),
            r,
        ),
{
    visit_with::<V, Z, F>(input, decompressed_buffer, visitor, limits, true)
}

} // verus!
