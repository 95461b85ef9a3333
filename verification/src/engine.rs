//! The diff engine: signatures, deltas and patched contents of byte
//! strings, as librsync computes them.
//!
//! What the engine computes is not spelled out here. The outcome of each of
//! its three operations has a name, and the contracts of this crate speak of
//! the outcomes by these names. That a patch undoes a delta is the engine's
//! own promise; no contract in this crate assumes it, and `round_trip`
//! tests it for the contents at hand.

use vstd::prelude::*;
use crate::path::{bytes_equal, view_of};

verus! {

/// The error of librsync, `librsync::Error`. It is passed on unopened.
#[verifier::external_type_specification]
#[verifier::external_body]
pub struct ExEngineFault(librsync::Error);

/// The outcome of `librsync::whole::signature` on `content`: the signature
/// that it writes, with BLAKE2 checksums over blocks of 2048 bytes, or
/// `None` where it fails. Trusted to depend on `content` alone.
pub uninterp spec fn signature_outcome(content: Seq<u8>) -> Option<Seq<u8>>;

/// The outcome of `librsync::whole::delta` on the signature of a base and
/// the new `content`: the delta that it writes, or `None` where it fails.
/// Trusted to depend on the two alone.
pub uninterp spec fn delta_outcome(signature: Seq<u8>, content: Seq<u8>) -> Option<Seq<u8>>;

/// The outcome of `librsync::whole::patch` on `base` and `delta`: the
/// patched content that it writes, or `None` where it fails. Trusted to
/// depend on the two alone.
pub uninterp spec fn patch_outcome(base: Seq<u8>, delta: Seq<u8>) -> Option<Seq<u8>>;

/// Calls `librsync::whole::signature` on `content` held in memory. Trusted:
/// what the call wrote where it succeeded, and that it failed where it did,
/// is the outcome that `content` alone determines.
#[verifier::external_body]
fn whole_signature(content: &[u8]) -> (result: Result<Vec<u8>, librsync::Error>)
    ensures
        match result {
            Ok(bytes) => signature_outcome(content@) == Some(bytes@),
            Err(_) => signature_outcome(content@) is None,
        },
{
    let mut written: Vec<u8> = Vec::new();
    librsync::whole::signature(&mut std::io::Cursor::new(content), &mut written)?;
    Ok(written)
}

/// Calls `librsync::whole::delta` on `content` and `signature` held in
/// memory. Trusted: what the call wrote where it succeeded, and that it
/// failed where it did, is the outcome that the two alone determine. The
/// call fails on some bytes that are no signature.
#[verifier::external_body]
fn whole_delta(signature: &[u8], content: &[u8]) -> (result: Result<Vec<u8>, librsync::Error>)
    ensures
        match result {
            Ok(bytes) => delta_outcome(signature@, content@) == Some(bytes@),
            Err(_) => delta_outcome(signature@, content@) is None,
        },
{
    let mut written: Vec<u8> = Vec::new();
    let mut new = std::io::Cursor::new(content);
    librsync::whole::delta(&mut new, &mut std::io::Cursor::new(signature), &mut written)?;
    Ok(written)
}

/// Calls `librsync::whole::patch` on `base` and `delta` held in memory.
/// Trusted: what the call wrote where it succeeded, and that it failed
/// where it did, is the outcome that the two alone determine. The call
/// fails on some bytes that are no delta, and on a delta that reaches beyond
/// the base.
#[verifier::external_body]
fn whole_patch(base: &[u8], delta: &[u8]) -> (result: Result<Vec<u8>, librsync::Error>)
    ensures
        match result {
            Ok(bytes) => patch_outcome(base@, delta@) == Some(bytes@),
            Err(_) => patch_outcome(base@, delta@) is None,
        },
{
    let mut written: Vec<u8> = Vec::new();
    let mut basis = std::io::Cursor::new(base);
    librsync::whole::patch(&mut basis, &mut std::io::Cursor::new(delta), &mut written)?;
    Ok(written)
}

/// The signature of `content`; `None` where the engine fails.
pub fn signature(content: &[u8]) -> (result: Option<Vec<u8>>)
    ensures
        view_of(result) == signature_outcome(content@),
{
    match whole_signature(content) {
        Ok(bytes) => Some(bytes),
        Err(_) => None,
    }
}

/// The delta that leads from the content behind `signature` to `content`;
/// `None` where the engine fails, as it does on bytes that do not begin
/// like a signature.
pub fn delta(signature: &[u8], content: &[u8]) -> (result: Option<Vec<u8>>)
    ensures
        view_of(result) == delta_outcome(signature@, content@),
{
    match whole_delta(signature, content) {
        Ok(bytes) => Some(bytes),
        Err(_) => None,
    }
}

/// What `delta` makes of `base`; `None` where the engine fails, as it does
/// on bytes that do not begin like a delta.
pub fn patch(base: &[u8], delta: &[u8]) -> (result: Option<Vec<u8>>)
    ensures
        view_of(result) == patch_outcome(base@, delta@),
{
    match whole_patch(base, delta) {
        Ok(bytes) => Some(bytes),
        Err(_) => None,
    }
}

/// The engine brings `stored` to `local`: it signs `stored`, computes the
/// delta of `local` against that signature, and the delta applied to
/// `stored` gives `local`, byte for byte.
pub open spec fn round_trip_holds(stored: Seq<u8>, local: Seq<u8>) -> bool {
    &&& signature_outcome(stored) matches Some(signature)
    &&& delta_outcome(signature, local) matches Some(delta)
    &&& patch_outcome(stored, delta) == Some(local)
}

/// Has the engine sign `stored`, compute the delta of `local` and apply it
/// to `stored`, and says whether that gave `local` again.
pub fn round_trip(stored: &[u8], local: &[u8]) -> (holds: bool)
    ensures
        holds == round_trip_holds(stored@, local@),
{
    match signature(stored) {
        None => false,
        Some(signed) => match delta(signed.as_slice(), local) {
            None => false,
            Some(computed) => match patch(stored, computed.as_slice()) {
                None => false,
                Some(patched) => bytes_equal(patched.as_slice(), local),
            },
        },
    }
}

} // verus!
