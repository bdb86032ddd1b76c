//! SHA-256.

use sha2::Digest;
use vstd::prelude::*;

verus! {

/// The length of the longest message in whole bytes that SHA-256 is defined for.
pub const MAX_MESSAGE: u64 = 0x1fff_ffff_ffff_ffff;

/// The SHA-256 digest of a message.
pub uninterp spec fn sha256_digest(message: Seq<u8>) -> Seq<u8>;

/// The SHA-256 digest of a message, by `Digest::digest` of `sha2::Sha256`.
///
/// Believed of it: the digest depends on the bytes of the message alone. The message is one that
/// the 64 bits for its length in bits can hold.
#[verifier::external_body]
pub(crate) fn sha256(message: &[u8]) -> (digest: [u8; 32])
    requires
        message@.len() <= MAX_MESSAGE,
    ensures
        digest@ == sha256_digest(message@),
{
    sha2::Sha256::digest(message).into()
}

} // verus!
