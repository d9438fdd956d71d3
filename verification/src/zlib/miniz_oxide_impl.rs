//! The `miniz_oxide` backend: one-shot inflate and deflate over its
//! streaming interface.

use vstd::prelude::*;

use crate::error::EtfError;

verus! {

/// What `miniz_oxide::inflate::stream::inflate` writes when, on a fresh
/// `InflateState` for the zlib format and with `MZFlush::Finish`, it
/// inflates `input` into a buffer of `capacity` bytes and reports
/// `MZStatus::StreamEnd`; `None` when it reports anything else.
pub uninterp spec fn miniz_inflated(input: Seq<u8>, capacity: nat) -> Option<Seq<u8>>;

/// What `miniz_oxide::deflate::stream::deflate` writes when, on a fresh
/// `CompressorOxide::default()` and with `MZFlush::Finish`, it deflates
/// `input` into a buffer of `capacity` bytes and reports
/// `MZStatus::StreamEnd`; `None` when it reports anything else.
pub uninterp spec fn miniz_deflated(input: Seq<u8>, capacity: nat) -> Option<Seq<u8>>;

/// Calls `miniz_oxide::inflate::stream::inflate` once, with
/// `MZFlush::Finish`, on a fresh state for the zlib format: on a first call
/// with `Finish` it inflates the whole stream straight into `target`.  This
/// gives the number of bytes written when the status is
/// `MZStatus::StreamEnd`, and `None` otherwise.  The contract claims that
/// the written prefix is `miniz_inflated` of the input and the buffer size;
/// it says nothing of the bytes of `target` past that prefix, nor of
/// `target` after a failure.
#[verifier::external_body]
fn inflate_finish(target: &mut [u8], input: &[u8]) -> (r: Option<usize>)
    ensures
        final(target)@.len() == old(target)@.len(),
        match miniz_inflated(input@, old(target)@.len()) {
            Some(out) => r == Some(out.len() as usize) && out.len() <= old(target)@.len() && final(target)@.subrange(0, out.len() as int) == out,
            None => r is None,
        },
{
    let mut state = miniz_oxide::inflate::stream::InflateState::new(miniz_oxide::DataFormat::Zlib);
    let res = miniz_oxide::inflate::stream::inflate(&mut state, input, target, miniz_oxide::MZFlush::Finish);
    match res.status {
        Ok(miniz_oxide::MZStatus::StreamEnd) => Some(res.bytes_written),
        _ => None,
    }
}

/// Calls `miniz_oxide::deflate::stream::deflate` once, with
/// `MZFlush::Finish`, on a fresh `CompressorOxide::default()` (level 4, zlib
/// header and adler32 trailer).  This gives the number of bytes written
/// when the status is `MZStatus::StreamEnd`, and `None` otherwise.  The
/// contract claims that the written prefix is `miniz_deflated` of the input
/// and the buffer size, and that, deflate being lossless, the inflate of
/// `inflate_finish` gives a non-empty input back from that stream into a
/// buffer of the input's size; it says nothing of the bytes of `target`
/// past that prefix, nor of `target` after a failure.
#[verifier::external_body]
fn deflate_finish(target: &mut [u8], input: &[u8]) -> (r: Option<usize>)
    ensures
        final(target)@.len() == old(target)@.len(),
        match miniz_deflated(input@, old(target)@.len()) {
            Some(out) => r == Some(out.len() as usize) && out.len() <= old(target)@.len() && final(target)@.subrange(0, out.len() as int) == out
                && (input@.len() > 0 ==> miniz_inflated(out, input@.len()) == Some(input@)),
            None => r is None,
        },
{
    let mut compressor = miniz_oxide::deflate::core::CompressorOxide::default();
    let res = miniz_oxide::deflate::stream::deflate(&mut compressor, input, target, miniz_oxide::MZFlush::Finish);
    match res.status {
        Ok(miniz_oxide::MZStatus::StreamEnd) => Some(res.bytes_written),
        _ => None,
    }
}

/// Decompress the zlib stream `input` into `target`, which must come out
/// exactly full: a stream that is corrupt, truncated, or inflates to more
/// or fewer bytes than `target` holds is refused.
pub fn decompress(target: &mut [u8], input: &[u8]) -> (r: Result<(), EtfError>)
    ensures
        final(target)@.len() == old(target)@.len(),
        r is Ok <==> (miniz_inflated(input@, old(target)@.len()) matches Some(out) && out.len()
            == old(target)@.len()),
        r is Ok ==> Some(final(target)@) == miniz_inflated(input@, old(target)@.len()),
        r is Err ==> r == Err::<(), EtfError>(EtfError::DecompressionFailed),
{
    let ghost cap = target@.len();
    let len = target.len();
    match inflate_finish(target, input) {
        Some(n) => {
            if n == len {
                proof {
                    assert(target@.subrange(0, cap as int) =~= target@);
                }
                Ok(())
            } else {
                Err(EtfError::DecompressionFailed)
            }
        },
        None => Err(EtfError::DecompressionFailed),
    }
}

/// Compress `input` into a zlib stream at the start of `target` and
/// return its length; a `target` too small for the whole stream gives
/// [`EtfError::CompressionFailed`].  A stream of a non-empty input inflates
/// back to it.
pub fn compress(target: &mut [u8], input: &[u8]) -> (r: Result<usize, EtfError>)
    ensures
        final(target)@.len() == old(target)@.len(),
        match miniz_deflated(input@, old(target)@.len()) {
            Some(out) => r == Ok::<usize, EtfError>(out.len() as usize) && out.len() <= old(target)@.len() && final(target)@.subrange(0, out.len() as int) == out
                && (input@.len() > 0 ==> miniz_inflated(out, input@.len()) == Some(input@)),
            None => r == Err::<usize, EtfError>(EtfError::CompressionFailed),
        },
{
    match deflate_finish(target, input) {
        Some(n) => Ok(n),
        None => Err(EtfError::CompressionFailed),
    }
}

} // verus!
