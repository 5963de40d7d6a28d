use vstd::prelude::*;
use crate::bytes::{append_bytes, bytes_equal};
use crate::digest::{sha256, spec_sha256};
use crate::entropy::os_random_array;

verus! {

/// A storage proof: the hash of the data, the challenge it answers, and
/// SHA-256 over the data followed by the challenge.
pub struct StorageProof {
    pub data_hash: [u8; 32],
    pub challenge: [u8; 32],
    pub response: [u8; 32],
}

/// A random 32-byte challenge from the operating system's generator.
pub fn generate_challenge() -> [u8; 32] {
    os_random_array()
}

/// The proof that the holder of `data` gives for `challenge`.
pub fn prove(data: &[u8], challenge: &[u8; 32]) -> (p: StorageProof)
    requires
        data@.len() + 32 <= usize::MAX,
    ensures
        p.data_hash@ == spec_sha256(data@),
        p.challenge == *challenge,
        p.response@ == spec_sha256(data@ + challenge@),
{
    let data_hash = sha256(data);
    let mut buf: Vec<u8> = Vec::new();
    append_bytes(&mut buf, data);
    append_bytes(&mut buf, challenge);
    let response = sha256(&buf);
    StorageProof { data_hash, challenge: *challenge, response }
}

/// Whether the proof is for data with the expected hash.
pub fn verify(proof: &StorageProof, expected_hash: &[u8; 32]) -> (ok: bool)
    ensures
        ok == (proof.data_hash@ == expected_hash@),
{
    bytes_equal(&proof.data_hash, expected_hash)
}

/// A proof made from some data, for any challenge, passes verification
/// against the hash of other data exactly when the two hashes agree: always
/// against the hash of the same data.
pub proof fn lemma_proof_verifies_for_held_data(
    data: Seq<u8>,
    challenge: [u8; 32],
    proof: StorageProof,
    other: Seq<u8>,
    expected_hash: [u8; 32],
)
    requires
        proof.data_hash@ == spec_sha256(data),
        proof.challenge == challenge,
        expected_hash@ == spec_sha256(other),
    ensures
        (proof.data_hash@ == expected_hash@) <==> (spec_sha256(data) == spec_sha256(other)),
        data == other ==> proof.data_hash@ == expected_hash@,
{
}

} // verus!
