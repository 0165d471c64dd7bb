use vstd::prelude::*;

use sha2::{Digest, Sha512};

verus! {

/// Size of a SHA-512 digest in bytes.
pub const DIGEST_SIZE: usize = 64;

/// The SHA-512 digest of a byte sequence.
pub uninterp spec fn sha512_of(data: Seq<u8>) -> Seq<u8>;

/// Relies on `sha2::Sha512` through `Digest::digest`: the 64-byte SHA-512
/// digest of the data, which depends on the bytes alone.
#[verifier::external_body]
pub(crate) fn sha512(data: &[u8]) -> (r: [u8; DIGEST_SIZE])
    ensures
        r@ == sha512_of(data@),
{
    Sha512::digest(data).into()
}

} // verus!
