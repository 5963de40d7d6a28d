use vstd::prelude::*;
use crate::bytes::{append_bytes, bytes_equal};
use crate::clock::now_secs;
use crate::contract::AUDIT_RESPONSE_WINDOW;
use crate::digest::{sha256, spec_sha256};
use crate::entropy::os_random_array;

verus! {

/// A proof-of-storage challenge: the holder of the content must answer with
/// SHA-256 over the data followed by the nonce before the deadline.
#[derive(Debug, Clone, Copy)]
pub struct StorageChallenge {
    pub content_hash: [u8; 32],
    pub nonce: [u8; 32],
    pub issued_at: u64,
    pub deadline: u64,
}

/// The answer to a storage challenge.
#[derive(Debug, Clone, Copy)]
pub struct StorageChallengeResponse {
    pub challenge: StorageChallenge,
    pub proof: [u8; 32],
}

/// The storage proof for `data` under `nonce`: SHA-256 of the data followed
/// by the nonce.
pub open spec fn storage_proof(data: Seq<u8>, nonce: [u8; 32]) -> Seq<u8> {
    spec_sha256(data + nonce@)
}

impl StorageChallenge {
    /// A challenge for `content_hash` with the given nonce, issued at `now`,
    /// due one response window later.
    pub fn new_at(content_hash: [u8; 32], nonce: [u8; 32], now: u64) -> (c: Self)
        requires
            now + AUDIT_RESPONSE_WINDOW <= u64::MAX,
        ensures
            c.content_hash == content_hash,
            c.nonce == nonce,
            c.issued_at == now,
            c.deadline == now + AUDIT_RESPONSE_WINDOW,
    {
        Self { content_hash, nonce, issued_at: now, deadline: now + AUDIT_RESPONSE_WINDOW }
    }

    /// A challenge with a random nonce from the operating system, issued now
    /// by the system clock and due one response window later (at the largest
    /// time for a clock within a window of it).
    pub fn new(content_hash: [u8; 32]) -> (c: Self)
        ensures
            c.content_hash == content_hash,
            c.deadline == if c.issued_at + AUDIT_RESPONSE_WINDOW <= u64::MAX {
                (c.issued_at + AUDIT_RESPONSE_WINDOW) as u64
            } else {
                u64::MAX
            },
    {
        let nonce: [u8; 32] = os_random_array();
        let now = now_secs();
        if now <= u64::MAX - AUDIT_RESPONSE_WINDOW {
            Self::new_at(content_hash, nonce, now)
        } else {
            Self { content_hash, nonce, issued_at: now, deadline: u64::MAX }
        }
    }

    /// `response` names this challenge: same content hash and same nonce.
    pub open spec fn accepts(&self, response: StorageChallengeResponse) -> bool {
        response.challenge.content_hash@ == self.content_hash@ && response.challenge.nonce@ == self.nonce@
    }

    /// Whether `response` answers this challenge: same content hash and same
    /// nonce.
    pub fn verify(&self, response: &StorageChallengeResponse) -> (ok: bool)
        ensures
            ok == self.accepts(*response),
    {
        bytes_equal(&response.challenge.content_hash, &self.content_hash) && bytes_equal(
            &response.challenge.nonce,
            &self.nonce,
        )
    }
}

/// The answer of a holder of `data` to `challenge`.
pub fn generate_proof(data: &[u8], challenge: &StorageChallenge) -> (r: StorageChallengeResponse)
    requires
        data@.len() + 32 <= usize::MAX,
    ensures
        r.challenge == *challenge,
        r.proof@ == storage_proof(data@, challenge.nonce),
{
    let mut buf: Vec<u8> = Vec::new();
    append_bytes(&mut buf, data);
    append_bytes(&mut buf, &challenge.nonce);
    let proof = sha256(&buf);
    StorageChallengeResponse { challenge: *challenge, proof }
}

/// A challenge accepts the answer generated for it, whatever the data.
pub proof fn lemma_generated_proof_verifies(challenge: StorageChallenge, response: StorageChallengeResponse)
    requires
        response.challenge == challenge,
    ensures
        challenge.accepts(response),
{
}

} // verus!
