//! The cryptographic building blocks: hybrid key agreement, hybrid signatures, key
//! derivation and authenticated encryption.
use vstd::prelude::*;

pub mod aead;
pub mod hybrid_kem;
pub mod hybrid_sig;
pub mod kdf;
pub mod random;

verus! {

pub const HYBRID_SHARED_SECRET_LEN: usize = 64;

pub const K_HEADER_LEN: usize = 32;

pub const SESSION_KEY_LEN: usize = 32;

pub const NONCE_LEN: usize = 12;

pub const AEAD_TAG_LEN: usize = 16;

pub const NODE_ID_LEN: usize = 4;

/// So many zero bytes.
pub open spec fn zeros(n: nat) -> Seq<u8> {
    Seq::new(n, |i: int| 0u8)
}

/// Overwrites key material that is no longer needed.
///
/// `zeroize::Zeroize::zeroize` on a byte slice: it leaves the length as it is and sets
/// every byte to zero.
#[verifier::external_body]
pub(crate) fn wipe(bytes: &mut [u8])
    ensures
        final(bytes)@ == zeros(old(bytes)@.len()),
{
    zeroize::Zeroize::zeroize(bytes)
}

} // verus!
