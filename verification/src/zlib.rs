//! Zlib backends for the `COMPRESSED` wrapper.
//!
//! A backend is a type implementing [`ZlibBackend`].  Two are built in:
//! [`ZlibRs`] (the default, over the `zlib-rs` crate) and [`MinizOxide`]
//! (over the `miniz_oxide` crate).  Callers may supply their own.

use vstd::prelude::*;

use crate::error::EtfError;
use crate::zlib::miniz_oxide_impl::{miniz_deflated, miniz_inflated};
use crate::zlib::zlib_rs_impl::{zlib_rs_deflated, zlib_rs_inflated};

pub mod miniz_oxide_impl;
pub mod zlib_rs_impl;

verus! {

/// A zlib backend.
///
/// What a backend does is stated over two relations of its own:
/// [`ZlibBackend::inflates`] and [`ZlibBackend::deflates`] say which
/// outcomes it may give for an input and a buffer size, and each call gives
/// one of them.
///
/// # Example
///
/// ```text
/// struct MyBackend;
/// impl ZlibBackend for MyBackend {
///     fn decompress(target: &mut [u8], input: &[u8]) -> Result<(), EtfError> {
///         // ... use your favourite zlib here
///         Ok(())
///     }
///     fn compress(target: &mut [u8], input: &[u8]) -> Result<usize, EtfError> {
///         Err(EtfError::CompressionFailed)
///     }
/// }
/// let term = parse_etf::<MyBackend, MyFloats>(opts)?;
/// ```
pub trait ZlibBackend {
    /// Whether `out` is an outcome of inflating `input` into a buffer of
    /// `capacity` bytes: `Ok` of the bytes the buffer then holds, or the
    /// error reported.  A backend that does not say admits every outcome.
    open spec fn inflates(input: Seq<u8>, capacity: nat, out: Result<Seq<u8>, EtfError>) -> bool {
        true
    }

    /// Whether `out` is an outcome of deflating `input` into a buffer of
    /// `capacity` bytes: `Ok` of the zlib stream written at its start, or
    /// the error reported.  A backend that does not say admits every
    /// outcome.
    open spec fn deflates(input: Seq<u8>, capacity: nat, out: Result<Seq<u8>, EtfError>) -> bool {
        true
    }

    /// Decompress a zlib-wrapped payload from `input` into `target`.
    ///
    /// `target.len()` is the exact expected size of the uncompressed data,
    /// known a priori from the ETF stream header.  Implementations must
    /// consume the entirety of `input` and produce exactly `target.len()`
    /// bytes of output.  Any deviation is reported as
    /// [`EtfError::DecompressionFailed`].
    fn decompress(target: &mut [u8], input: &[u8]) -> (r: Result<(), EtfError>)
        ensures
            final(target)@.len() == old(target)@.len(),
            Self::inflates(
                input@,
                old(target)@.len(),
                match r {
                    Ok(_) => Ok(final(target)@),
                    Err(e) => Err(e),
                },
            ),
    ;

    /// Compress `input` into a zlib stream (header, deflate data and
    /// adler32 trailer) at the start of `target`, and return the number of
    /// bytes written.  A backend that cannot compress, or a `target` that
    /// is too small, yields [`EtfError::CompressionFailed`].
    fn compress(target: &mut [u8], input: &[u8]) -> (r: Result<usize, EtfError>)
        ensures
            final(target)@.len() == old(target)@.len(),
            r matches Ok(n) ==> n <= old(target)@.len(),
            Self::deflates(
                input@,
                old(target)@.len(),
                match r {
                    Ok(n) => Ok(final(target)@.subrange(0, n as int)),
                    Err(e) => Err(e),
                },
            ),
    ;
}

/// The pure-Rust `zlib-rs` backend (the default).
pub struct ZlibRs;

/// The pure-Rust `miniz_oxide` backend.
pub struct MinizOxide;

/// The one outcome of a decompression whose named result is `inflated`:
/// the bytes, when the stream ends having filled the whole `capacity`;
/// [`EtfError::DecompressionFailed`] otherwise.
pub open spec fn filled_exactly(inflated: Option<Seq<u8>>, capacity: nat) -> Result<Seq<u8>, EtfError> {
    match inflated {
        Some(o) => if o.len() == capacity {
            Ok(o)
        } else {
            Err(EtfError::DecompressionFailed)
        },
        None => Err(EtfError::DecompressionFailed),
    }
}

/// The one outcome of a compression whose named result is `deflated`: the
/// stream, or [`EtfError::CompressionFailed`].
pub open spec fn stream_or_failure(deflated: Option<Seq<u8>>) -> Result<Seq<u8>, EtfError> {
    match deflated {
        Some(o) => Ok(o),
        None => Err(EtfError::CompressionFailed),
    }
}

impl ZlibBackend for ZlibRs {
    open spec fn inflates(input: Seq<u8>, capacity: nat, out: Result<Seq<u8>, EtfError>) -> bool {
        out == filled_exactly(zlib_rs_inflated(input, capacity), capacity)
    }

    /// The stream `zlib-rs` writes, which inflates back to `input`, or the
    /// failure.
    open spec fn deflates(input: Seq<u8>, capacity: nat, out: Result<Seq<u8>, EtfError>) -> bool {
        &&& out == stream_or_failure(zlib_rs_deflated(input, capacity))
        &&& out matches Ok(c) ==> zlib_rs_inflated(c, input.len()) == Some(input)
    }

    /// As [`zlib_rs_impl::decompress`]: succeeds exactly when `zlib-rs`
    /// inflates `input` into the whole of `target`, which then holds what it
    /// inflated.
    fn decompress(target: &mut [u8], input: &[u8]) -> (r: Result<(), EtfError>)
        ensures
            r is Ok <==> (zlib_rs_inflated(input@, old(target)@.len()) matches Some(out) && out.len()
                == old(target)@.len()),
            r is Ok ==> Some(final(target)@) == zlib_rs_inflated(input@, old(target)@.len()),
            r is Err ==> r == Err::<(), EtfError>(EtfError::DecompressionFailed),
    {
        zlib_rs_impl::decompress(target, input)
    }

    /// As [`zlib_rs_impl::compress`]: the length of the stream `zlib-rs`
    /// deflates `input` into at the start of `target`, or
    /// [`EtfError::CompressionFailed`] when it does not.
    fn compress(target: &mut [u8], input: &[u8]) -> (r: Result<usize, EtfError>)
        ensures
            match zlib_rs_deflated(input@, old(target)@.len()) {
                Some(out) => out.len() <= old(target)@.len() && r == Ok::<usize, EtfError>(out.len() as usize) && final(target)@.subrange(
                    0,
                    out.len() as int,
                ) == out && zlib_rs_inflated(out, input@.len()) == Some(input@),
                None => r == Err::<usize, EtfError>(EtfError::CompressionFailed),
            },
    {
        let _cap = target.len();
        zlib_rs_impl::compress(target, input)
    }
}

impl ZlibBackend for MinizOxide {
    open spec fn inflates(input: Seq<u8>, capacity: nat, out: Result<Seq<u8>, EtfError>) -> bool {
        out == filled_exactly(miniz_inflated(input, capacity), capacity)
    }

    /// The stream `miniz_oxide` writes, which inflates back to a non-empty
    /// `input`, or the failure.
    open spec fn deflates(input: Seq<u8>, capacity: nat, out: Result<Seq<u8>, EtfError>) -> bool {
        &&& out == stream_or_failure(miniz_deflated(input, capacity))
        &&& out matches Ok(c) ==> (input.len() > 0 ==> miniz_inflated(c, input.len()) == Some(input))
    }

    /// As [`miniz_oxide_impl::decompress`]: succeeds exactly when
    /// `miniz_oxide` inflates `input` into the whole of `target`, which then
    /// holds what it inflated.
    fn decompress(target: &mut [u8], input: &[u8]) -> (r: Result<(), EtfError>)
        ensures
            r is Ok <==> (miniz_inflated(input@, old(target)@.len()) matches Some(out) && out.len()
                == old(target)@.len()),
            r is Ok ==> Some(final(target)@) == miniz_inflated(input@, old(target)@.len()),
            r is Err ==> r == Err::<(), EtfError>(EtfError::DecompressionFailed),
    {
        miniz_oxide_impl::decompress(target, input)
    }

    /// As [`miniz_oxide_impl::compress`]: the length of the stream
    /// `miniz_oxide` deflates `input` into at the start of `target`, or
    /// [`EtfError::CompressionFailed`] when it does not.
    fn compress(target: &mut [u8], input: &[u8]) -> (r: Result<usize, EtfError>)
        ensures
            match miniz_deflated(input@, old(target)@.len()) {
                Some(out) => out.len() <= old(target)@.len() && r == Ok::<usize, EtfError>(out.len() as usize) && final(target)@.subrange(
                    0,
                    out.len() as int,
                ) == out && (input@.len() > 0 ==> miniz_inflated(out, input@.len()) == Some(input@)),
                None => r == Err::<usize, EtfError>(EtfError::CompressionFailed),
            },
    {
        let _cap = target.len();
        miniz_oxide_impl::compress(target, input)
    }
}

/// A backend inflates what it deflated from a non-empty input back to that
/// input, into a buffer of the input's size.
pub open spec fn lossless<Z: ZlibBackend>() -> bool {
    forall|input: Seq<u8>, capacity: nat, c: Seq<u8>|
        input.len() > 0 && #[trigger] Z::deflates(input, capacity, Ok(c)) ==> Z::inflates(
            c,
            input.len(),
            Ok(input),
        )
}

/// A backend inflates an input into a buffer of a size with one outcome.
pub open spec fn inflates_one_way<Z: ZlibBackend>() -> bool {
    forall|input: Seq<u8>, capacity: nat, a: Result<Seq<u8>, EtfError>, b: Result<Seq<u8>, EtfError>|
        #[trigger] Z::inflates(input, capacity, a) && #[trigger] Z::inflates(input, capacity, b) ==> a == b
}

/// The `zlib-rs` backend is lossless, and inflates one way.
pub proof fn lemma_zlib_rs_lossless()
    ensures
        lossless::<ZlibRs>(),
        inflates_one_way::<ZlibRs>(),
{
}

/// The `miniz_oxide` backend is lossless, and inflates one way.
pub proof fn lemma_miniz_lossless()
    ensures
        lossless::<MinizOxide>(),
        inflates_one_way::<MinizOxide>(),
{
}

} // verus!
