use sha2::Digest;
use taostorage::backup::{backup_items, collect_stats, count_names, import_unit, tags_all, tags_any, BackupItem};
use taostorage::mcp::{
    delete_reply, method_not_found_message, rpc_method, stats_reply, tool_delete_targets, tool_get, tool_of,
    tool_put_unit, tool_search, RpcMethod, Tool,
};
use taostorage::tag_keys::{cloud_counts, forward_key, forward_prefix, key_hash, reverse_key};
use taostorage::unit::DataUnit;

fn unit(value: &str, name: &str, tags: &[&str]) -> DataUnit {
    let mut u = DataUnit::new_at(value.as_bytes().to_vec(), name.into(), [0u8; 32], 5);
    u.yang.tags = tags.iter().map(|t| t.to_string()).collect();
    u
}

fn strings(v: &[&str]) -> Vec<String> {
    v.iter().map(|s| s.to_string()).collect()
}

#[test]
fn names_are_counted_in_first_appearance_order() {
    let counts = count_names(&strings(&["b", "a", "b", "c", "b", "a"]));
    assert_eq!(counts, vec![("b".to_string(), 3), ("a".to_string(), 2), ("c".to_string(), 1)]);
}

#[test]
fn stats_over_units() {
    let units = vec![unit("1", "x", &["t1", "t2"]), unit("2", "y", &[]), unit("3", "x", &["t1"])];
    let cloud = vec![("t1".to_string(), 2), ("t2".to_string(), 1)];
    let stats = collect_stats(&units, &cloud, 1);
    assert_eq!(stats.total_items, 3);
    assert_eq!(stats.unique_keys, 2);
    assert_eq!(stats.total_tags, 3);
    assert_eq!(stats.top_keys, vec![("x".to_string(), 2)]);
    assert_eq!(stats.top_tags, vec![("t1".to_string(), 2)]);
}

#[test]
fn backup_lists_items_and_tags() {
    let units = vec![unit("one", "a", &["p", "q"]), unit("two", "b", &["r"])];
    let b = backup_items(&units);
    assert_eq!(b.items.len(), 2);
    assert_eq!(b.items[0].id, hex::encode(units[0].yin.content_hash));
    assert_eq!(b.items[1].value, "two");
    assert_eq!(b.tags.len(), 3);
    assert_eq!(b.tags[2].tag, "r");
    assert_eq!(b.tags[2].item_id, hex::encode(units[1].yin.content_hash));
}

#[test]
fn import_uses_id_or_value_hash() {
    let item = BackupItem {
        id: hex::encode([9u8; 32]),
        key: "k".into(),
        value: "v".into(),
        tags: strings(&["t"]),
        created_at: 1,
        updated_at: 2,
    };
    let u = import_unit(&item, 100);
    assert_eq!(u.yin.content_hash, [9u8; 32]);
    assert_eq!(u.yang.created_at, 1);
    assert_eq!(u.yang.last_accessed, 2);
    assert_eq!(u.yang.tags, strings(&["t"]));
    let bad = BackupItem { id: "not-hex".into(), ..item };
    let expected: [u8; 32] = sha2::Sha256::digest(b"v").into();
    assert_eq!(import_unit(&bad, 100).yin.content_hash, expected);
}

#[test]
fn tag_queries_and_or() {
    let sets = vec![strings(&["h1", "h2", "h3"]), strings(&["h3", "h1"]), strings(&["h1", "h3", "h4"])];
    assert_eq!(tags_all(&sets), strings(&["h1", "h3"]));
    assert_eq!(tags_any(&sets), strings(&["h1", "h2", "h3", "h4"]));
    assert!(tags_all(&vec![]).is_empty());
}

#[test]
fn tool_server_dispatch() {
    assert_eq!(rpc_method("initialize"), RpcMethod::Initialize);
    assert_eq!(rpc_method("tools/call"), RpcMethod::ToolsCall);
    assert_eq!(rpc_method("bogus"), RpcMethod::Unknown);
    assert_eq!(tool_of("tao_delete"), Tool::Delete);
    assert_eq!(tool_of("nope"), Tool::Unknown);
    assert_eq!(method_not_found_message("x"), "Method not found: x");
}

#[test]
fn tool_server_get_search_delete() {
    let units = vec![unit("First Value", "alpha", &["Red"]), unit("second", "beta", &[]), unit("third", "alpha", &[])];
    assert_eq!(tool_get(&units, "alpha"), "First Value");
    assert_eq!(tool_get(&units, "gamma"), "❌ 'gamma' 未找到");
    assert_eq!(tool_get(&units, ""), "❌ key 不能为空");
    assert_eq!(tool_search(&units, "RED"), "🔍 找到 1 条:\nalpha");
    assert_eq!(tool_search(&units, "ALPHA"), "🔍 找到 2 条:\nalpha\nalpha");
    assert_eq!(tool_search(&units, "zzz"), "📭 未找到匹配 'zzz'");
    assert_eq!(tool_search(&units, ""), "❌ 搜索词不能为空");
    let targets = tool_delete_targets(&units, "alpha").unwrap();
    assert_eq!(targets, vec![units[0].yin.content_hash, units[2].yin.content_hash]);
    assert!(tool_delete_targets(&units, "").is_err());
    assert_eq!(delete_reply(2, "alpha"), "✅ 已删除 2 条 'alpha'");
    assert_eq!(stats_reply(1234), "📊 总条数: 1234");
}

#[test]
fn tool_server_put_validation() {
    assert_eq!(tool_put_unit("", "v").unwrap_err(), "❌ key 和 value 不能为空");
    let u = tool_put_unit("k", "v").unwrap();
    assert_eq!(u.yin.payload, b"v".to_vec());
    assert_eq!(u.yang.name, "k");
}

#[test]
fn test_tag_add_and_query() {
    let hash = [0x01u8; 32];
    let hash_hex = hex::encode(hash);
    let tags = vec!["哲学".to_string(), "道德经".to_string()];
    let mut keys: Vec<String> = Vec::new();
    for tag in &tags {
        keys.push(forward_key(tag, &hash_hex));
        keys.push(reverse_key(&hash_hex, tag));
    }
    let prefix = forward_prefix("哲学");
    let found: Vec<String> = keys.iter().filter(|k| k.starts_with(&prefix)).map(|k| key_hash(k)).collect();
    assert_eq!(found, vec![hex::encode(hash)]);
}

#[test]
fn test_tag_cloud() {
    let h1 = hex::encode([0x01u8; 32]);
    let h2 = hex::encode([0x02u8; 32]);
    let mut keys = vec![forward_key("哲学", &h1), forward_key("道家", &h1), forward_key("哲学", &h2)];
    keys.sort();
    let cloud = cloud_counts(&keys);
    assert_eq!(cloud[0].0, "哲学");
    assert_eq!(cloud[0].1, 2);
}

#[test]
fn test_export_import_roundtrip() {
    let mut unit = DataUnit::new(b"test data".to_vec(), "test".into(), [0u8; 32]);
    unit.yang.tags = vec!["demo".to_string()];
    let backup = backup_items(&vec![unit.clone()]);
    assert_eq!(backup.items[0].value, "test data");
    assert_eq!(backup.tags.len(), 1);
    let restored = import_unit(&backup.items[0], 7);
    assert_eq!(restored.yin.content_hash, unit.yin.content_hash);
    assert_eq!(restored.yin.payload, b"test data".to_vec());
    assert_eq!(restored.yang.name, "test");
    assert_eq!(restored.yang.tags, vec!["demo".to_string()]);
    assert_eq!(restored.yang.created_at, unit.yang.created_at);
}
