use vstd::prelude::*;
use rand::RngCore;

verus! {

/// `rand::rngs::OsRng::fill_bytes` on a fresh array: `N` bytes from the
/// operating system's generator. Nothing is promised of their values.
#[verifier::external_body]
pub(crate) fn os_random_array<const N: usize>() -> [u8; N] {
    let mut bytes = [0u8; N];
    rand::rngs::OsRng.fill_bytes(&mut bytes);
    bytes
}

/// `rand::random::<u64>()`: a value from the thread-local generator. Nothing
/// is promised of it.
#[verifier::external_body]
pub(crate) fn random_u64() -> u64 {
    rand::random::<u64>()
}

/// `RngCore::next_u32` on `rand::thread_rng()`. Nothing is promised of the value.
#[verifier::external_body]
pub(crate) fn thread_rng_next_u32() -> u32 {
    rand::thread_rng().next_u32()
}

/// `RngCore::fill_bytes` on `rand::thread_rng()`, into a fresh buffer of
/// `len` bytes; only the length is promised.
#[verifier::external_body]
pub(crate) fn thread_rng_bytes(len: usize) -> (bytes: Vec<u8>)
    ensures
        bytes@.len() == len,
{
    let mut bytes = vec![0u8; len];
    rand::thread_rng().fill_bytes(&mut bytes);
    bytes
}

} // verus!
