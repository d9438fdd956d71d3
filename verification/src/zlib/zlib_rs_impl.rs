//! The `zlib-rs` backend.

use vstd::prelude::*;

use crate::error::EtfError;

verus! {

/// The status code `zlib-rs` reports.
#[verifier::external_type_specification]
#[verifier::external_body]
pub struct ExReturnCode(zlib_rs::ReturnCode);

/// What `zlib_rs::decompress_slice` writes, with the default configuration,
/// when it inflates the zlib stream `input` into a buffer of `capacity`
/// bytes and reports `ReturnCode::Ok`; `None` when it reports anything else.
pub uninterp spec fn zlib_rs_inflated(input: Seq<u8>, capacity: nat) -> Option<Seq<u8>>;

/// What `zlib_rs::compress_slice` writes, with the default configuration,
/// when it deflates `input` into a buffer of `capacity` bytes and reports
/// `ReturnCode::Ok`; `None` when it reports anything else.
pub uninterp spec fn zlib_rs_deflated(input: Seq<u8>, capacity: nat) -> Option<Seq<u8>>;

/// Calls `zlib_rs::decompress_slice` with the default configuration.  The
/// call returns the prefix of `target` it wrote and a status code; this
/// gives the prefix's length when the status is `ReturnCode::Ok` and the
/// status otherwise.  The contract claims that the written prefix is
/// `zlib_rs_inflated` of the input and the buffer size; it says nothing of
/// the bytes of `target` past that prefix, nor of `target` after a failure.
#[verifier::external_body]
fn inflate_slice(target: &mut [u8], input: &[u8]) -> (r: Result<usize, zlib_rs::ReturnCode>)
    ensures
        final(target)@.len() == old(target)@.len(),
        match zlib_rs_inflated(input@, old(target)@.len()) {
            Some(out) => r == Ok::<usize, zlib_rs::ReturnCode>(out.len() as usize) && out.len()
                <= old(target)@.len() && final(target)@.subrange(0, out.len() as int) == out,
            None => r is Err,
        },
{
    let (out, rc) = zlib_rs::decompress_slice(target, input, Default::default());
    if rc == zlib_rs::ReturnCode::Ok {
        Ok(out.len())
    } else {
        Err(rc)
    }
}

/// Calls `zlib_rs::compress_slice` with the default configuration.  The
/// call returns the prefix of `target` it wrote and a status code; this
/// gives the prefix's length when the status is `ReturnCode::Ok` and the
/// status otherwise.  The contract claims that the written prefix is
/// `zlib_rs_deflated` of the input and the buffer size, and that, deflate
/// being lossless, `zlib_rs::decompress_slice` inflates that stream into a
/// buffer of the input's size as the input itself; it says nothing of the
/// bytes of `target` past that prefix, nor of `target` after a failure.
#[verifier::external_body]
fn deflate_slice(target: &mut [u8], input: &[u8]) -> (r: Result<usize, zlib_rs::ReturnCode>)
    ensures
        final(target)@.len() == old(target)@.len(),
        match zlib_rs_deflated(input@, old(target)@.len()) {
            Some(out) => r == Ok::<usize, zlib_rs::ReturnCode>(out.len() as usize) && out.len()
                <= old(target)@.len() && final(target)@.subrange(0, out.len() as int) == out
                && zlib_rs_inflated(out, input@.len()) == Some(input@),
            None => r is Err,
        },
{
    let (out, rc) = zlib_rs::compress_slice(target, input, Default::default());
    if rc == zlib_rs::ReturnCode::Ok {
        Ok(out.len())
    } else {
        Err(rc)
    }
}

/// Decompress the zlib stream `input` into `target`, which must come out
/// exactly full.
pub fn decompress(target: &mut [u8], input: &[u8]) -> (r: Result<(), EtfError>)
    ensures
        final(target)@.len() == old(target)@.len(),
        r is Ok <==> (zlib_rs_inflated(input@, old(target)@.len()) matches Some(out) && out.len()
            == old(target)@.len()),
        r is Ok ==> Some(final(target)@) == zlib_rs_inflated(input@, old(target)@.len()),
        r is Err ==> r == Err::<(), EtfError>(EtfError::DecompressionFailed),
{
    let ghost cap = target@.len();
    let len = target.len();
    match inflate_slice(target, input) {
        Ok(n) => {
            if n == len {
                proof {
                    assert(target@.subrange(0, cap as int) =~= target@);
                }
                Ok(())
            } else {
                Err(EtfError::DecompressionFailed)
            }
        },
        Err(_) => Err(EtfError::DecompressionFailed),
    }
}

/// Compress `input` into a zlib stream at the start of `target` and
/// return its length; the stream inflates back to `input`.
pub fn compress(target: &mut [u8], input: &[u8]) -> (r: Result<usize, EtfError>)
    ensures
        final(target)@.len() == old(target)@.len(),
        match zlib_rs_deflated(input@, old(target)@.len()) {
            Some(out) => r == Ok::<usize, EtfError>(out.len() as usize) && out.len() <= old(target)@.len()
                && final(target)@.subrange(0, out.len() as int) == out && zlib_rs_inflated(out, input@.len())
                == Some(input@),
            None => r == Err::<usize, EtfError>(EtfError::CompressionFailed),
        },
{
    match deflate_slice(target, input) {
        Ok(n) => Ok(n),
        Err(_) => Err(EtfError::CompressionFailed),
    }
}

} // verus!
