//! The cryptographic random source: bytes from OpenSSL, and those bytes
//! written out as binary digits.
use vstd::prelude::*;

use crate::binary::{bytes_binary, bytes_to_binary};
use crate::error::{Error, ErrorKind};

verus! {

/// The largest buffer that OpenSSL fills in one call (`c_int::MAX`).
pub const MAX_RANDOM_BYTES: usize = 2147483647;

#[verifier::external_type_specification]
#[verifier::external_body]
pub struct ExErrorStack(openssl::error::ErrorStack);

/// Relies on `openssl::rand::rand_bytes`: it overwrites the buffer in place,
/// so the length stays; it asserts that the length fits in a `c_int`.
#[verifier::external_body]
fn openssl_rand_bytes(buffer: &mut [u8]) -> (r: Result<(), openssl::error::ErrorStack>)
    requires
        old(buffer)@.len() <= MAX_RANDOM_BYTES,
    ensures
        final(buffer)@.len() == old(buffer)@.len(),
{
    openssl::rand::rand_bytes(buffer)
}

/// Fills `buffer` with cryptographically strong random bytes.
///
/// A failure of the random source gives `SamplingFailure`.
pub fn fill_bytes(buffer: &mut [u8]) -> (r: Result<(), Error>)
    requires
        old(buffer)@.len() <= MAX_RANDOM_BYTES,
    ensures
        final(buffer)@.len() == old(buffer)@.len(),
        r is Err ==> r->Err_0.kind == ErrorKind::SamplingFailure,
{
    match openssl_rand_bytes(buffer) {
        Ok(()) => Ok(()),
        Err(_) => Err(Error::new(ErrorKind::SamplingFailure, "the random source failed")),
    }
}

/// `n_bytes` random bytes, written as `8 * n_bytes` binary digits.
///
/// More bytes than one draw can give yield `InvalidParameter`; a failure of
/// the random source yields `SamplingFailure`.
pub fn get_bytes(n_bytes: usize) -> (r: Result<String, Error>)
    ensures
        r is Ok ==> exists|bytes: Seq<u8>|
            bytes.len() == n_bytes && r->Ok_0@ == #[trigger] bytes_binary(bytes),
        n_bytes > MAX_RANDOM_BYTES <==> r is Err && r->Err_0.kind == ErrorKind::InvalidParameter,
        r is Err && n_bytes <= MAX_RANDOM_BYTES ==> r->Err_0.kind == ErrorKind::SamplingFailure,
{
    if n_bytes > MAX_RANDOM_BYTES {
        return Err(Error::new(ErrorKind::InvalidParameter, "too many random bytes requested"));
    }
    let mut buffer: Vec<u8> = vec![0u8; n_bytes];
    fill_bytes(buffer.as_mut_slice())?;
    let digits = bytes_to_binary(&buffer);
    assert(buffer@.len() == n_bytes && digits@ == bytes_binary(buffer@));
    Ok(digits)
}

} // verus!
