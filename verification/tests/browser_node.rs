use sha2::{Digest, Sha256};
use taostorage::browser::{generate_node_id, sha256_hex, verify_content, DataUnit, Hexagram, TaoBrowserNode};

#[test]
fn browser_unit_is_content_addressed() {
    let u = DataUnit::new_at(b"hello".to_vec(), "greeting".into(), 9);
    assert_eq!(u.yin.content_hash, hex::encode(Sha256::digest(b"hello")));
    assert!(u.verify());
    assert_eq!(u.id(), bs58::encode(Sha256::digest(b"hello")).into_string());
    assert_eq!(u.qi.hexagram, Hexagram::Zhun);
    let mut bad = u.clone();
    bad.yin.payload = b"other".to_vec();
    assert!(!bad.verify());
    bad.yin.content_hash = "not hex".into();
    assert_eq!(bad.id(), "");
}

#[test]
fn browser_node_put_get_list() {
    let mut node = TaoBrowserNode::new();
    assert_eq!(node.get_node_id(), "tao-browser-0000");
    let id = node.put_at("k1".into(), "value one".into(), vec!["b".into(), "a".into()], 5);
    assert_eq!(id, bs58::encode(Sha256::digest(b"value one")).into_string());
    node.put("k2".into(), "Second VALUE".into(), vec!["a".into()]);
    assert_eq!(node.get("k1").unwrap().yang.created_at, 5);
    assert_eq!(node.get("missing").unwrap_err(), "Key 'missing' 未找到");
    let list = node.list();
    assert_eq!(list.len(), 2);
    assert_eq!(list[0].key, "k1");
    assert_eq!(list[0].hexagram, "Zhun");
    assert_eq!(list[0].id, id);
}

#[test]
fn browser_node_search_and_stats() {
    let mut node = TaoBrowserNode::new();
    node.put_at("Alpha".into(), "first".into(), vec![], 1);
    node.put_at("beta".into(), "Contains ALPHA".into(), vec![], 2);
    node.put_at("gamma".into(), "x".into(), vec!["Alpha-tag".into(), "z".into()], 3);
    node.put_at("delta".into(), "y".into(), vec!["c".into()], 4);
    let found = node.search("alpha");
    let keys: Vec<&str> = found.iter().map(|e| e.key.as_str()).collect();
    assert_eq!(keys, vec!["Alpha", "beta", "gamma"]);
    assert_eq!(found[1].value, "Contains ALPHA");
    assert_eq!(node.search("").len(), 4);
    // tags joined by spaces: "alpha-tag z" contains "tag z"
    assert_eq!(node.search("TAG Z").len(), 1);
    let stats = node.stats();
    assert_eq!(stats.objects, 4);
    assert_eq!(stats.peers, 0);
    assert!(!stats.connected);
    assert_eq!(stats.tags, vec!["Alpha-tag".to_string(), "c".to_string(), "z".to_string()]);
    node.mark_connected();
    assert!(node.stats().connected);
}

#[test]
fn browser_node_import() {
    let mut node = TaoBrowserNode::new();
    node.put_at("a".into(), "1".into(), vec!["t".into()], 1);
    let units = vec![DataUnit::new_at(b"2".to_vec(), "b".into(), 2), DataUnit::new_at(b"3".to_vec(), "c".into(), 3)];
    assert_eq!(node.import_units(units), 2);
    assert_eq!(node.list().len(), 3);
    assert_eq!(node.get_all_tags(), vec!["t".to_string()]);
}

#[test]
fn browser_helpers() {
    assert_eq!(sha256_hex("abc"), hex::encode(Sha256::digest(b"abc")));
    assert!(verify_content("abc", &sha256_hex("abc")));
    assert!(!verify_content("abd", &sha256_hex("abc")));
    let id = generate_node_id();
    assert_eq!(id.len(), 12);
    assert!(id.starts_with("tao-"));
    assert!(id[4..].chars().all(|c| c.is_ascii_hexdigit() && !c.is_ascii_uppercase()));
}
