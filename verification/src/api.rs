//! The entry points: decode one ETF stream, complete or streaming.

use vstd::prelude::*;

use crate::arena::{region_end, region_first, ArenaRegion, Bump};
use crate::cursor::{be_u32_at, short_error, Cursor};
use crate::error::EtfError;
use crate::grammar::{agrees, p_term, PState, ParseCfg};
use crate::limits::Limits;
use crate::parser::{parse_term, reading, FloatText};
use crate::tags::{COMPRESSED, ETF_MAGIC};
use crate::types::{Term, TermModel};
use crate::zlib::ZlibBackend;

verus! {

/// Options passed to [`parse_etf`] and [`parse_etf_streaming`].
pub struct ParseOptions<'a> {
    /// The raw ETF byte slice to parse.
    pub input: &'a [u8],
    /// The scratch region that bounds how much the decoded term may claim.
    /// The required size depends on the complexity of the term; 8–16 kiB is
    /// a good starting point for most real-world messages.
    pub ast_arena: ArenaRegion,
    /// Resource limits enforced during parsing.
    ///
    /// Use [`Limits::default()`] for the built-in defaults, or construct a
    /// custom `Limits` with overridden fields for tighter/looser bounds.
    pub limits: Limits,
    /// An optional buffer used for decompression.  Must be large enough to
    /// hold the uncompressed data when the input is a compressed ETF stream.
    pub decompressed_buffer: Option<&'a mut [u8]>,
}

/// What decoding the term at `pos` of `d` gives: over the arena `region`
/// with `limits`, short reads reporting as `streaming` says, at nesting
/// height 0, and with `fl` giving each legacy float its value.
pub open spec fn p_body(
    d: Seq<u8>,
    pos: int,
    region: ArenaRegion,
    limits: Limits,
    streaming: bool,
    fl: spec_fn(int) -> Option<u64>,
) -> Result<TermModel, EtfError> {
    let st = PState { pos, ptr: region_first(region.start as int, region.len as int) };
    let cfg = ParseCfg {
        limits,
        streaming,
        bounded: true,
        arena_end: region_end(region.start as int, region.len as int),
    };
    match p_term(d, st, 0, cfg, fl) {
        Ok((t, _)) => Ok(t),
        Err(e) => Err(e),
    }
}

/// The model of a parse result.
pub open spec fn result_model(r: Result<Term, EtfError>) -> Result<TermModel, EtfError> {
    match r {
        Ok(t) => Ok(t@),
        Err(e) => Err(e),
    }
}

/// `r` is what [`p_body`] states for every reading of the legacy floats
/// that gives each float recorded in `m` its recorded value.
pub open spec fn decodes_body(
    d: Seq<u8>,
    pos: int,
    region: ArenaRegion,
    limits: Limits,
    streaming: bool,
    m: Map<int, Option<u64>>,
    r: Result<TermModel, EtfError>,
) -> bool {
    forall|fl: spec_fn(int) -> Option<u64>|
        agrees(fl, m) ==> #[trigger] p_body(d, pos, region, limits, streaming, fl) == r
}

/// Whether `d` starts with the magic byte and the `COMPRESSED` tag.
pub open spec fn is_compressed(d: Seq<u8>) -> bool {
    d.len() >= 2 && d[0] == ETF_MAGIC && d[1] == COMPRESSED
}

/// The uncompressed size a compressed stream declares.
pub open spec fn declared_size(d: Seq<u8>) -> int {
    be_u32_at(d, 2)
}

/// What parsing the stream `d` returns (as `r`), with the arena `region`,
/// `limits`, a decompression buffer of `buf_len` bytes (if any), and short
/// reads reporting as `streaming` says:
///
/// - an empty stream is short of its magic byte;
/// - a first byte other than 131 is [`EtfError::InvalidMagicNumber`];
/// - otherwise, unless the `COMPRESSED` tag follows, the term after the
///   magic byte is decoded;
/// - a compressed stream that ends before its 4-byte size field is short
///   of the bytes missing from it; it needs a buffer of at least the declared size; then the
///   backend `Z` inflates the bytes after the size field into the first
///   declared-size bytes of the buffer, and gives one of its outcomes
///   ([`ZlibBackend::inflates`]): its error is returned, or the term the
///   inflated bytes hold is decoded (short reads there are never
///   "incomplete").
pub open spec fn parse_contract<Z: ZlibBackend, F: FloatText>(
    d: Seq<u8>,
    streaming: bool,
    region: ArenaRegion,
    limits: Limits,
    buf_len: Option<nat>,
    r: Result<Term, EtfError>,
) -> bool {
    if d.len() == 0 {
        r == Err::<Term, EtfError>(short_error(streaming, 1))
    } else if d[0] != ETF_MAGIC {
        r == Err::<Term, EtfError>(EtfError::InvalidMagicNumber)
    } else if !is_compressed(d) {
        result_model(r) == p_body(d, 1, region, limits, streaming, reading::<F>(d))
    } else if d.len() < 6 {
        r == Err::<Term, EtfError>(short_error(streaming, 6 - d.len()))
    } else if buf_len is None || buf_len.unwrap() < declared_size(d) {
        r == Err::<Term, EtfError>(EtfError::InsufficientDecompressionBuffer)
    } else {
        exists|out: Result<Seq<u8>, EtfError>|
            #[trigger] Z::inflates(d.subrange(6, d.len() as int), declared_size(d) as nat, out) && match out {
                Ok(b) => b.len() == declared_size(d) && result_model(r) == p_body(
                    b,
                    0,
                    region,
                    limits,
                    false,
                    reading::<F>(b),
                ),
                Err(e) => r == Err::<Term, EtfError>(e),
            }
    }
}

/// The length of an optional buffer.
pub open spec fn buffer_len(b: Option<&mut [u8]>) -> Option<nat> {
    match b {
        Some(s) => Some(s@.len()),
        None => None,
    }
}

/// Decode a bare term (no magic byte) that fills `data`, such as the
/// payload of a decompressed stream, over the arena `region`.
pub fn parse_decompressed<'a, F: FloatText>(data: &'a [u8], region: ArenaRegion, limits: &Limits) -> (r: Result<
    Term<'a>,
    EtfError,
>)
    ensures
        result_model(r) == p_body(data@, 0, region, *limits, false, reading::<F>(data@)),
{
    let mut cursor = Cursor::new(data);
    let mut arena = Bump::new(region.start, region.len, limits);
    let ghost c0 = cursor;
    let ghost a0 = arena;
    let r = parse_term::<F>(&mut cursor, &mut arena, 0);
    proof {
        assert forall|fl: spec_fn(int) -> Option<u64>| agrees(fl, cursor.floats()) implies #[trigger] p_body(
            data@,
            0,
            region,
            *limits,
            false,
            fl,
        ) == result_model(r) by {
            assert(p_term(c0.input(), crate::parser::st_of(c0, a0), 0, crate::parser::cfg_of(c0, a0), fl)
                == crate::parser::term_outcome(r, crate::parser::st_of(cursor, arena)));
        }
        assert(decodes_body(data@, 0, region, *limits, false, cursor.floats(), result_model(r)));
        assert(p_body(data@, 0, region, *limits, false, reading::<F>(data@)) == result_model(r));
    }
    r
}

/// Parse one stream, complete (`streaming` false) or possibly incomplete.
fn parse_with<'a, Z: ZlibBackend, F: FloatText>(options: ParseOptions<'a>, streaming: bool) -> (r: Result<
    Term<'a>,
    EtfError,
>)
    ensures
        parse_contract::<Z, F>(
            options.input@,
            streaming,
            options.ast_arena,
            options.limits,
            buffer_len(options.decompressed_buffer),
            r,
        ),
{
    let ParseOptions { input, ast_arena, limits, decompressed_buffer } = options;
    let mut cursor = if streaming {
        Cursor::new_streaming(input)
    } else {
        Cursor::new(input)
    };
    let magic = match cursor.read_u8() {
        Ok(b) => b,
        Err(e) => return Err(e),
    };
    if magic != ETF_MAGIC {
        return Err(EtfError::InvalidMagicNumber);
    }
    let compressed = match cursor.peek() {
        Some(t) => t == COMPRESSED,
        None => false,
    };
    if !compressed {
        let mut arena = Bump::new(ast_arena.start, ast_arena.len, &limits);
        let ghost c0 = cursor;
        let ghost a0 = arena;
        let r = parse_term::<F>(&mut cursor, &mut arena, 0);
        proof {
            assert forall|fl: spec_fn(int) -> Option<u64>| agrees(fl, cursor.floats()) implies #[trigger] p_body(
                input@,
                1,
                ast_arena,
                limits,
                streaming,
                fl,
            ) == result_model(r) by {
                assert(p_term(c0.input(), crate::parser::st_of(c0, a0), 0, crate::parser::cfg_of(c0, a0), fl)
                    == crate::parser::term_outcome(r, crate::parser::st_of(cursor, arena)));
            }
            assert(decodes_body(input@, 1, ast_arena, limits, streaming, cursor.floats(), result_model(r)));
            assert(p_body(input@, 1, ast_arena, limits, streaming, reading::<F>(input@)) == result_model(r));
        }
        return r;
    }
    let _ = cursor.read_u8();
    let size = match cursor.read_u32() {
        Ok(v) => v as usize,
        Err(e) => return Err(e),
    };
    let buf = match decompressed_buffer {
        Some(b) => b,
        None => return Err(EtfError::InsufficientDecompressionBuffer),
    };
    if buf.len() < size {
        return Err(EtfError::InsufficientDecompressionBuffer);
    }
    let (target, _) = buf.split_at_mut(size);
    cursor.check_inv();
    let rest = cursor.slice_between(cursor.consumed(), input.len());
    assert(rest@ =~= input@.subrange(6, input@.len() as int));
    if let Err(e) = Z::decompress(target, rest) {
        proof {
            let out = Err::<Seq<u8>, EtfError>(e);
            assert(Z::inflates(input@.subrange(6, input@.len() as int), declared_size(input@) as nat, out));
        }
        return Err(e);
    }
    let data: &'a [u8] = target;
    let r = parse_decompressed::<F>(data, ast_arena, &limits);
    proof {
        let out = Ok::<Seq<u8>, EtfError>(data@);
        assert(Z::inflates(input@.subrange(6, input@.len() as int), declared_size(input@) as nat, out));
    }
    r
}

/// Parse an ETF-encoded term from a complete input buffer.
///
/// The wire format is `131 Tag Data…`, where `131` is the magic version
/// byte and `Tag` identifies the term type.
///
/// ## Compression
///
/// When the input starts with `131 80` (the `COMPRESSED` tag) followed by
/// a 4-byte big-endian uncompressed size and a zlib-compressed payload,
/// this function decompresses with the backend `Z` into the caller-supplied
/// [`ParseOptions::decompressed_buffer`].
///
/// ## Zero-copy
///
/// The byte payloads of the returned [`Term`] borrow from either the
/// original `input` slice or the `decompressed_buffer`.
///
/// ## Errors
///
/// Returns [`EtfError`] on malformed input, unsupported tags, arena
/// exhaustion, or decompression failure.
///
/// `F` decodes the text of legacy `FLOAT_EXT` floats.
pub fn parse_etf<'a, Z: ZlibBackend, F: FloatText>(options: ParseOptions<'a>) -> (r: Result<Term<'a>, EtfError>)
    ensures
        parse_contract::<Z, F>(
            options.input@,
            false,
            options.ast_arena,
            options.limits,
            buffer_len(options.decompressed_buffer),
            r,
        ),
{
    parse_with::<Z, F>(options, false)
}

/// Parse an ETF-encoded term from a **potentially incomplete** input buffer.
///
/// This is the incremental / streaming entry point.  When the input does
/// not contain a complete term, this function returns
/// [`EtfError::Incomplete`] with the minimum number of additional bytes
/// required.  If the full input is already available, prefer
/// [`parse_etf`]: it returns [`EtfError::UnexpectedEof`] for truly
/// truncated data, which is easier to distinguish from a mere "need more
/// data" signal.
pub fn parse_etf_streaming<'a, Z: ZlibBackend, F: FloatText>(options: ParseOptions<'a>) -> (r: Result<
    Term<'a>,
    EtfError,
>)
    ensures
        parse_contract::<Z, F>(
            options.input@,
            true,
            options.ast_arena,
            options.limits,
            buffer_len(options.decompressed_buffer),
            r,
        ),
{
    parse_with::<Z, F>(options, true)
}

} // verus!
