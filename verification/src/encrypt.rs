use vstd::prelude::*;
use chacha20poly1305::aead::{Aead, KeyInit};
use crate::bytes::append_bytes;
use crate::entropy::os_random_array;

verus! {

/// Length of the nonce that prefixes every sealed message.
pub const NONCE_LEN: usize = 12;

/// Length of the authentication tag that ChaCha20-Poly1305 appends.
pub const TAG_LEN: usize = 16;

/// Largest plaintext the cipher accepts: fewer than 2^32 - 1 blocks of 64 bytes.
pub const MAX_PLAINTEXT_LEN: u64 = 274877906879;

/// The ChaCha20-Poly1305 ciphertext (with its tag appended) of `plaintext`
/// under `key` and `nonce`, no associated data.
pub uninterp spec fn spec_chacha_seal(key: Seq<u8>, nonce: Seq<u8>, plaintext: Seq<u8>) -> Seq<u8>;

/// What ChaCha20-Poly1305 decryption gives for `ciphertext` under `key` and
/// `nonce`: the plaintext, or `None` when the tag does not authenticate.
pub uninterp spec fn spec_chacha_open(key: Seq<u8>, nonce: Seq<u8>, ciphertext: Seq<u8>) -> Option<Seq<u8>>;

/// The type of an Ed25519 signing key.
#[verifier::external_type_specification]
#[verifier::external_body]
pub struct ExSigningKey(ed25519_dalek::SigningKey);

/// The type of an X25519 public key.
#[verifier::external_type_specification]
#[verifier::external_body]
pub struct ExX25519PublicKey(x25519_dalek::PublicKey);

/// `ChaCha20Poly1305::encrypt` with a 32-byte key and a 12-byte nonce: the
/// ciphertext is the named `spec_chacha_seal`, the plaintext's length plus a
/// 16-byte tag at its end. The crate fails only for a plaintext of 2^32 - 1
/// blocks of 64 bytes or more, which `requires` leaves out.
#[verifier::external_body]
fn chacha_seal(key: &[u8; 32], nonce: &[u8; 12], plaintext: &[u8]) -> (ciphertext: Vec<u8>)
    requires
        plaintext@.len() <= MAX_PLAINTEXT_LEN,
    ensures
        ciphertext@ == spec_chacha_seal(key@, nonce@, plaintext@),
        ciphertext@.len() == plaintext@.len() + TAG_LEN,
{
    let cipher = chacha20poly1305::ChaCha20Poly1305::new(key.into());
    cipher.encrypt(chacha20poly1305::Nonce::from_slice(nonce), plaintext).unwrap()
}

/// `ChaCha20Poly1305::decrypt` with a 32-byte key and a 12-byte nonce: the
/// named `spec_chacha_open`; a ciphertext sealed under the same key and nonce
/// opens to its plaintext (one short enough to be sealed at all).
#[verifier::external_body]
fn chacha_open(key: &[u8; 32], nonce: &[u8; 12], ciphertext: &[u8]) -> (opened: Option<Vec<u8>>)
    ensures
        match opened {
            Some(p) => spec_chacha_open(key@, nonce@, ciphertext@) == Some(p@),
            None => spec_chacha_open(key@, nonce@, ciphertext@) is None,
        },
        forall|p: Seq<u8>|
            p.len() <= MAX_PLAINTEXT_LEN && ciphertext@ == #[trigger] spec_chacha_seal(key@, nonce@, p) ==> opens_to(
                opened,
                p,
            ),
{
    let cipher = chacha20poly1305::ChaCha20Poly1305::new(key.into());
    cipher.decrypt(chacha20poly1305::Nonce::from_slice(nonce), ciphertext).ok()
}

/// `opened` holds exactly the bytes `p`.
pub open spec fn opens_to(opened: Option<Vec<u8>>, p: Seq<u8>) -> bool {
    opened matches Some(o) && o@ == p
}

/// The sealed form of `plaintext` under `key` with `nonce`: the nonce
/// followed by the ciphertext.
pub open spec fn sealed_message(key: Seq<u8>, nonce: Seq<u8>, plaintext: Seq<u8>) -> Seq<u8> {
    nonce + spec_chacha_seal(key, nonce, plaintext)
}

/// What `decrypt` gives for a message: `None` below the nonce's length,
/// else the opening of the rest under the leading nonce.
pub open spec fn opened_message(key: Seq<u8>, message: Seq<u8>) -> Option<Seq<u8>> {
    if message.len() < NONCE_LEN {
        None
    } else {
        spec_chacha_open(key, message.take(NONCE_LEN as int), message.skip(NONCE_LEN as int))
    }
}

/// Encrypts `plaintext` under `key` with the given nonce; the result is the
/// nonce followed by the ciphertext and its tag.
pub fn encrypt_with_nonce(plaintext: &[u8], key: &[u8; 32], nonce: &[u8; 12]) -> (sealed: Vec<u8>)
    requires
        plaintext@.len() <= MAX_PLAINTEXT_LEN,
    ensures
        sealed@ == sealed_message(key@, nonce@, plaintext@),
        sealed@.len() == NONCE_LEN + plaintext@.len() + TAG_LEN,
{
    let ciphertext = chacha_seal(key, nonce, plaintext);
    let mut out: Vec<u8> = Vec::new();
    append_bytes(&mut out, nonce);
    append_bytes(&mut out, ciphertext.as_slice());
    out
}

/// Encrypts `plaintext` under `key` with a random 12-byte nonce from the
/// operating system; the result is the nonce followed by the ciphertext.
pub fn encrypt(plaintext: &[u8], key: &[u8; 32]) -> (sealed: Vec<u8>)
    requires
        plaintext@.len() <= MAX_PLAINTEXT_LEN,
    ensures
        exists|nonce: Seq<u8>| nonce.len() == NONCE_LEN && sealed@ == sealed_message(key@, nonce, plaintext@),
        sealed@.len() == NONCE_LEN + plaintext@.len() + TAG_LEN,
{
    let nonce: [u8; 12] = os_random_array();
    encrypt_with_nonce(plaintext, key, &nonce)
}

/// Decrypts a message made by `encrypt`: `None` when it is shorter than a
/// nonce or does not authenticate under `key`; a message sealed under `key`
/// opens to its plaintext.
pub fn decrypt(encrypted: &[u8], key: &[u8; 32]) -> (opened: Option<Vec<u8>>)
    ensures
        match opened {
            Some(p) => opened_message(key@, encrypted@) == Some(p@),
            None => opened_message(key@, encrypted@) is None,
        },
        forall|nonce: Seq<u8>, p: Seq<u8>|
            nonce.len() == NONCE_LEN && p.len() <= MAX_PLAINTEXT_LEN && encrypted@ == #[trigger] sealed_message(
                key@,
                nonce,
                p,
            ) ==> opens_to(opened, p),
{
    if encrypted.len() < NONCE_LEN {
        return None;
    }
    let mut nonce: [u8; 12] = [0u8; 12];
    let mut i: usize = 0;
    while i < NONCE_LEN
        invariant
            i <= NONCE_LEN,
            encrypted@.len() >= NONCE_LEN,
            forall|j: int| 0 <= j < i ==> nonce@[j] == encrypted@[j],
        decreases NONCE_LEN - i,
    {
        nonce[i] = encrypted[i];
        i = i + 1;
    }
    let mut rest: Vec<u8> = Vec::new();
    let mut k: usize = NONCE_LEN;
    while k < encrypted.len()
        invariant
            NONCE_LEN <= k <= encrypted@.len(),
            rest@ == encrypted@.subrange(NONCE_LEN as int, k as int),
        decreases encrypted@.len() - k,
    {
        rest.push(encrypted[k]);
        k = k + 1;
        assert(rest@ =~= encrypted@.subrange(NONCE_LEN as int, k as int));
    }
    proof {
        assert(nonce@ =~= encrypted@.take(NONCE_LEN as int));
        assert(rest@ =~= encrypted@.skip(NONCE_LEN as int));
        assert forall|n: Seq<u8>, p: Seq<u8>|
            n.len() == NONCE_LEN && encrypted@ == #[trigger] sealed_message(key@, n, p) implies rest@
                == spec_chacha_seal(key@, nonce@, p) by {
            assert(encrypted@.take(NONCE_LEN as int) =~= n);
            assert(encrypted@.skip(NONCE_LEN as int) =~= spec_chacha_seal(key@, n, p));
        }
    }
    chacha_open(key, &nonce, rest.as_slice())
}

/// `ed25519_dalek::SigningKey::generate` with the operating system's
/// generator: a fresh random signing key. Nothing is promised of it.
#[verifier::external_body]
pub fn generate_ed25519_keypair() -> ed25519_dalek::SigningKey {
    ed25519_dalek::SigningKey::generate(&mut rand::rngs::OsRng)
}

/// `x25519_dalek::EphemeralSecret::random_from_rng`, then its public key and
/// `diffie_hellman` with `their_public`: a fresh public key and the shared
/// secret's bytes. Nothing is promised of them: the secret is random.
#[verifier::external_body]
pub fn generate_shared_secret(their_public: &x25519_dalek::PublicKey) -> (x25519_dalek::PublicKey, [u8; 32]) {
    let my_secret = x25519_dalek::EphemeralSecret::random_from_rng(rand::rngs::OsRng);
    let my_public = x25519_dalek::PublicKey::from(&my_secret);
    (my_public, *my_secret.diffie_hellman(their_public).as_bytes())
}

} // verus!
