use taostorage::contract::CommunityContract;
use taostorage::encrypt::{generate_ed25519_keypair, generate_shared_secret};
use taostorage::erasure::ErasureEncoder;
use taostorage::error::TaoError;
use taostorage::group::{decode_fetched, ErasureGroup};
use taostorage::metadata::NameIndex;
use taostorage::paths::expand_home;
use taostorage::unit::{DataUnit, Yang};

fn yang(name: &str, tags: &[&str], heat: u8) -> Yang {
    Yang {
        name: name.to_string(),
        created_at: 0,
        last_accessed: 0,
        access_count: 0,
        heat,
        tags: tags.iter().map(|t| t.to_string()).collect(),
    }
}

#[test]
fn name_index_lookups() {
    let mut idx = NameIndex::new();
    idx.insert(yang("a", &["x"], 1));
    idx.insert(yang("b", &["x", "y"], 9));
    idx.insert(yang("a", &["y"], 5));
    assert_eq!(idx.find_by_name("a").unwrap().tags, vec!["x".to_string()]);
    assert!(idx.find_by_name("zzz").is_none());
    let with_y: Vec<&str> = idx.find_by_tag("y").iter().map(|y| y.name.as_str()).collect();
    assert_eq!(with_y, vec!["b", "a"]);
    let hot: Vec<u8> = idx.hottest(2).iter().map(|y| y.heat).collect();
    assert_eq!(hot, vec![9, 5]);
}

#[test]
fn group_placement_map_records_nodes() {
    let unit = DataUnit::new_at(b"payload for placement".to_vec(), "p".into(), [0u8; 32], 1);
    let mut group = ErasureGroup::from_unit(&unit, 4, 2).unwrap();
    assert!(group.placement_map().is_empty());
    group.place_shard(0, "node-a");
    group.place_shard(3, "node-b");
    group.place_shard(0, "node-c");
    let map = group.placement_map();
    assert_eq!(map.len(), 2);
    assert_eq!(map.get(&0).map(|s| s.as_str()), Some("node-c"));
    assert_eq!(map.get(&3).map(|s| s.as_str()), Some("node-b"));
}

#[test]
fn contract_audit_by_clock() {
    let mut c = CommunityContract::new([7u8; 32], vec![[1u8; 32]], 1, 0);
    assert!(c.needs_audit());
    c.audit_passed();
    assert!(c.needs_audit());
    let before = c.last_audit;
    c.audit_passed();
    assert!(c.last_audit >= before);
    c.deactivate();
    assert!(!c.needs_audit());
    let later = CommunityContract::new([7u8; 32], vec![[1u8; 32]], 1, 3600);
    assert!(!later.needs_audit());
}

#[test]
fn key_generation_gives_working_keys() {
    let signing = generate_ed25519_keypair();
    assert_eq!(signing.verifying_key().to_bytes().len(), 32);
    let theirs = x25519_dalek::PublicKey::from([9u8; 32]);
    let (mine, shared) = generate_shared_secret(&theirs);
    let (mine2, shared2) = generate_shared_secret(&theirs);
    assert_ne!(mine.as_bytes(), mine2.as_bytes());
    assert_ne!(shared, shared2);
}

#[test]
fn fetched_shards_decode_once_enough_arrive() {
    let payload = b"shards fetched from peers".to_vec();
    let unit = DataUnit::new_at(payload.clone(), "f".into(), [0u8; 32], 1);
    let shards = ErasureEncoder::new(6, 2).encode(&payload).unwrap();
    let collected: Vec<(usize, Vec<u8>)> = shards.iter().take(5).map(|s| (s.index, s.data.clone())).collect();
    assert!(decode_fetched(unit.yin.content_hash, &collected).is_none());
    let collected: Vec<(usize, Vec<u8>)> = shards.iter().skip(1).take(6).map(|s| (s.index, s.data.clone())).collect();
    match decode_fetched(unit.yin.content_hash, &collected) {
        Some(Ok(v)) => assert_eq!(v, payload),
        other => panic!("unexpected {:?}", other),
    }
    // Under another content hash no length fits.
    match decode_fetched([7u8; 32], &collected) {
        Some(Err(TaoError::HashMismatch { .. })) => {}
        other => panic!("unexpected {:?}", other),
    }
    // Six entries that fill fewer than six slots are too few for the codec.
    let mut sparse = collected.clone();
    sparse[0].0 = 99;
    sparse[1].0 = 99;
    match decode_fetched(unit.yin.content_hash, &sparse) {
        Some(Err(TaoError::InsufficientFragments { have: 4, need: 6 })) => {}
        other => panic!("unexpected {:?}", other),
    }
}

#[test]
fn fetched_shards_keep_trailing_zero_bytes() {
    let payload = vec![1u8, 2, 3, 0, 0];
    let unit = DataUnit::new_at(payload.clone(), "z".into(), [0u8; 32], 1);
    let shards = ErasureEncoder::new(6, 2).encode(&payload).unwrap();
    let collected: Vec<(usize, Vec<u8>)> = shards.iter().skip(2).map(|s| (s.index, s.data.clone())).collect();
    match decode_fetched(unit.yin.content_hash, &collected) {
        Some(Ok(v)) => assert_eq!(v, payload),
        other => panic!("unexpected {:?}", other),
    }
}

#[test]
fn home_paths_expand() {
    assert_eq!(expand_home("~", "/home/a"), "/home/a");
    assert_eq!(expand_home("~/.taostorage", "/home/a"), "/home/a/.taostorage");
    assert_eq!(expand_home("~x/y", "/home/a"), "~x/y");
    assert_eq!(expand_home("/abs", "/home/a"), "/abs");
    assert_eq!(expand_home("", "/home/a"), "");
}
