use taostorage::bls::BlsSignature;
use taostorage::encrypt::{decrypt, encrypt, encrypt_with_nonce};
use taostorage::homomorphic::{HomomorphicEngine, MockHomomorphicEngine};
use taostorage::zk_proof::{generate_challenge, prove, verify};
use sha2::{Digest, Sha256};

#[test]
fn test_encrypt_decrypt_roundtrip() {
    let key = [0x42u8; 32];
    let plaintext = "zhi zhe bu yan — the server knows nothing".as_bytes();
    let encrypted = encrypt(plaintext, &key);
    let decrypted = decrypt(&encrypted, &key).expect("decrypt should succeed");
    assert_eq!(decrypted, plaintext);
}

#[test]
fn test_encrypt_produces_different_ciphertexts() {
    let key = [0x42u8; 32];
    let plaintext = b"same plaintext";
    let c1 = encrypt(plaintext, &key);
    let c2 = encrypt(plaintext, &key);
    assert_ne!(c1, c2);
}

#[test]
fn test_tampered_ciphertext_fails() {
    let key = [0x42u8; 32];
    let mut encrypted = encrypt(b"secret", &key);
    encrypted[0] ^= 0xff;
    assert!(decrypt(&encrypted, &key).is_none());
}

#[test]
fn sealed_message_layout() {
    let key = [7u8; 32];
    let nonce = [9u8; 12];
    let sealed = encrypt_with_nonce(b"hello", &key, &nonce);
    assert_eq!(sealed.len(), 12 + 5 + 16);
    assert_eq!(&sealed[..12], &nonce);
    assert_ne!(&sealed[12..17], b"hello");
    assert_eq!(decrypt(&sealed, &key).unwrap(), b"hello".to_vec());
}

#[test]
fn decrypt_rejects_short_or_wrong_key() {
    assert!(decrypt(&[0u8; 11], &[0u8; 32]).is_none());
    let sealed = encrypt(b"data", &[1u8; 32]);
    assert!(decrypt(&sealed, &[2u8; 32]).is_none());
}

#[test]
fn test_mock_homomorphic_add() {
    let engine = MockHomomorphicEngine;
    let a = engine.encrypt_int(42);
    let b = engine.encrypt_int(58);
    let sum = engine.add(&a, &b);
    assert_eq!(engine.decrypt_int(&sum), 100);
}

#[test]
fn test_mock_homomorphic_mul() {
    let engine = MockHomomorphicEngine;
    let a = engine.encrypt_int(7);
    let b = engine.encrypt_int(6);
    let prod = engine.multiply(&a, &b);
    assert_eq!(engine.decrypt_int(&prod), 42);
}

#[test]
fn mock_ciphertext_layout_and_roundtrip() {
    let engine = MockHomomorphicEngine;
    let ct = engine.encrypt_int(-2);
    assert_eq!(ct, vec![0xFE, 0xFE, 0xFF, 0xFF, 0xFF, 0xFF, 0xFF, 0xFF, 0xFF]);
    assert_eq!(engine.decrypt_int(&ct), -2);
    assert_eq!(engine.decrypt_int(&engine.encrypt_int(i64::MIN)), i64::MIN);
    assert_eq!(engine.decrypt_int(&[]), 0);
    assert_eq!(engine.decrypt_int(&[0x00, 1, 2]), 0);
    assert_eq!(engine.decrypt_int(&[0xFE, 5]), 5);
}

#[test]
fn mock_arithmetic_wraps() {
    let engine = MockHomomorphicEngine;
    let sum = engine.add(&engine.encrypt_int(i64::MAX), &engine.encrypt_int(1));
    assert_eq!(engine.decrypt_int(&sum), i64::MIN);
}

#[test]
fn test_storage_proof() {
    let data = b"tao storage immutable data block";
    let challenge = generate_challenge();
    let proof = prove(data, &challenge);

    let expected_hash: [u8; 32] = Sha256::digest(data).into();
    assert!(verify(&proof, &expected_hash));
}

#[test]
fn test_wrong_hash_fails() {
    let data = b"real data";
    let challenge = generate_challenge();
    let proof = prove(data, &challenge);

    let wrong_hash: [u8; 32] = Sha256::digest(b"fake data").into();
    assert!(!verify(&proof, &wrong_hash));
}

#[test]
fn proof_response_hashes_data_and_challenge() {
    let proof = prove(b"xyz", &[1u8; 32]);
    let mut hasher = Sha256::new();
    hasher.update(b"xyz");
    hasher.update(&[1u8; 32]);
    let expected: [u8; 32] = hasher.finalize().into();
    assert_eq!(proof.response, expected);
    assert_eq!(proof.challenge, [1u8; 32]);
}

#[test]
fn bls_placeholder_is_zero() {
    let s = BlsSignature::placeholder();
    assert!(s.0.iter().all(|b| *b == 0));
}
