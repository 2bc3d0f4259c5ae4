//! The integrity digest over streamed bytes: SHA-256, reported as lowercase
//! hexadecimal.

use sha2::{Digest, Sha256};
use vstd::prelude::*;

verus! {

/// The SHA-256 digest of a byte sequence, written as lowercase hexadecimal.
/// The digest is a function of the bytes alone; it is named here, not
/// modelled.
pub uninterp spec fn sha256_hex_of(bytes: Seq<u8>) -> Seq<char>;

/// Relies on sha2's `Sha256` through `Digest::digest`: the digest is 32 bytes
/// and depends on the input bytes alone; generic-array's `LowerHex` writes it
/// as two lowercase hexadecimal digits per byte, 64 characters in all.
#[verifier::external_body]
pub(crate) fn sha256_hex(bytes: &[u8]) -> (r: String)
    ensures
        r@ == sha256_hex_of(bytes@),
        r@.len() == 64,
{
    format!("{:x}", Sha256::digest(bytes))
}

} // verus!
