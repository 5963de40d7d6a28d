use sha2::{Digest, Sha256};
use taostorage::dht::TaoDht;
use taostorage::obfuscation::ObfuscatedFrame;
use taostorage::protocol::PROTOCOL_NAME;

#[test]
fn test_name_key_is_deterministic() {
    let k1 = TaoDht::name_key("道德经");
    let k2 = TaoDht::name_key("道德经");
    assert_eq!(k1, k2);
}

#[test]
fn test_name_key_differs() {
    assert_ne!(TaoDht::name_key("道"), TaoDht::name_key("德"));
}

#[test]
fn name_key_bytes_hash_prefixed_name() {
    let expected: [u8; 32] = Sha256::digest("tao:name:道".as_bytes()).into();
    assert_eq!(TaoDht::name_key_bytes("道"), expected);
    assert_eq!(TaoDht::name_key("道").to_vec(), expected.to_vec());
    assert_eq!(TaoDht::content_key(&[5u8; 32]).to_vec(), vec![5u8; 32]);
}

#[test]
fn test_cache_hit() {
    let mut dht = TaoDht::new();
    let hash = [0x42u8; 32];
    dht.cache_name("test", &hash);
    assert_eq!(dht.resolve_cached("test"), Some(&hash));
}

#[test]
fn cache_replaces_and_misses() {
    let mut dht = TaoDht::default();
    dht.cache_name("a", &[1u8; 32]);
    dht.cache_name("b", &[2u8; 32]);
    dht.cache_name("a", &[3u8; 32]);
    assert_eq!(dht.resolve_cached("a"), Some(&[3u8; 32]));
    assert_eq!(dht.resolve_cached("b"), Some(&[2u8; 32]));
    assert_eq!(dht.resolve_cached("c"), None);
}

#[test]
fn test_wrap_unwrap_roundtrip() {
    let raw = b"tao store request payload";
    let wrapped = ObfuscatedFrame::wrap(raw);
    let unwrapped = ObfuscatedFrame::unwrap(&wrapped).expect("unwrap should succeed");
    assert_eq!(unwrapped, raw);
}

#[test]
fn test_wrap_produces_different_outputs() {
    let raw = b"same data";
    let f1 = ObfuscatedFrame::wrap(raw);
    let f2 = ObfuscatedFrame::wrap(raw);
    assert_ne!(f1, f2);
}

#[test]
fn frame_layout_and_short_frames() {
    let frame = ObfuscatedFrame::wrap_with(b"abc", 2, &[9, 9]);
    assert_eq!(frame, vec![2, 3, 0, b'c', b'b', b'a', 9, 9]);
    assert_eq!(ObfuscatedFrame::unwrap(&frame).unwrap(), b"abc".to_vec());
    assert!(ObfuscatedFrame::unwrap(&[1, 2]).is_none());
    assert!(ObfuscatedFrame::unwrap(&[1, 5, 0, 1, 2]).is_none());
    assert_eq!(PROTOCOL_NAME, "/tao/storage/1.0.0");
}
