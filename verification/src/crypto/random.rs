//! Random bytes and numbers.
use crate::bytes::{u32_from_be, u64_from_be};
use rand_core::Rng;
use vstd::prelude::*;

verus! {

/// Fills `buf` with random bytes.
///
/// `rand_core::Rng::fill_bytes` of `rand::rngs::ThreadRng`: every byte of the slice is
/// drawn anew. Nothing is claimed of the bytes; only the length stays.
#[verifier::external_body]
pub(crate) fn fill_random(buf: &mut [u8])
    ensures
        final(buf)@.len() == old(buf)@.len(),
{
    rand::rngs::ThreadRng::default().fill_bytes(buf)
}

/// `N` random bytes.
pub fn random_array<const N: usize>() -> (r: [u8; N])
    ensures
        r@.len() == N,
{
    let mut out = [0u8; N];
    fill_random(&mut out);
    out
}

/// `n` random bytes.
pub fn random_bytes(n: usize) -> (r: Vec<u8>)
    ensures
        r@.len() == n,
{
    let mut out: Vec<u8> = vec![0u8; n];
    fill_random(out.as_mut_slice());
    out
}

/// `rand::random` for `NonZeroU32`, which draws until the number is not zero.
#[verifier::external_body]
pub(crate) fn random_nonzero_u32() -> (r: u32)
    ensures
        r != 0,
{
    rand::random::<std::num::NonZeroU32>().get()
}

/// A random 32-bit number: that of four random bytes.
pub fn random_u32() -> u32 {
    let bytes: [u8; 4] = random_array();
    u32_from_be(&bytes)
}

/// A random 64-bit number: that of eight random bytes.
pub fn random_u64() -> u64 {
    let bytes: [u8; 8] = random_array();
    u64_from_be(&bytes)
}

} // verus!
