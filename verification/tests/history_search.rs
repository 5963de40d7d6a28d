use taostorage::api::{default_limit, to_resp};
use taostorage::history::VersionStore;
use taostorage::search::{fuzzy_search, text_contains};
use taostorage::unit::DataUnit;

#[test]
fn versions_number_up_and_cap_at_hundred() {
    let mut store = VersionStore::new();
    let tags = vec!["t".to_string()];
    for i in 0..105u64 {
        store.add_version_at("k", &format!("v{}", i), &tags, "put", i);
    }
    let history = store.get_history("k");
    assert_eq!(history.len(), 100);
    assert_eq!(history[0].value, "v5");
    assert_eq!(history[99].value, "v104");
    assert_eq!(history[99].version, 105);
    assert_eq!(history[0].version, 6);
    assert!(store.get_history("other").is_empty());
}

#[test]
fn versions_stay_unique_past_the_cap() {
    let mut store = VersionStore::new();
    for i in 0..103u64 {
        store.add_version_at("k", &format!("v{}", i), &[], "put", i);
    }
    let history = store.get_history("k");
    for w in history.windows(2) {
        assert!(w[0].version < w[1].version);
    }
    assert_eq!(store.get_version("k", 103).unwrap().value, "v102");
    assert_eq!(store.get_version("k", 101).unwrap().value, "v100");
    assert!(store.get_version("k", 3).is_none());
}

#[test]
fn get_version_finds_first_match() {
    let mut store = VersionStore::default();
    store.add_version_at("k", "a", &[], "put", 1);
    store.add_version_at("k", "b", &[], "update", 2);
    store.add_version_at("j", "c", &[], "put", 3);
    assert_eq!(store.get_version("k", 2).unwrap().value, "b");
    assert_eq!(store.get_version("k", 2).unwrap().operation, "update");
    assert!(store.get_version("k", 3).is_none());
    assert_eq!(store.get_version("j", 1).unwrap().timestamp, 3);
}

#[test]
fn test_fuzzy_search() {
    let unit = DataUnit::new("道可道，非常道".to_string().into_bytes(), "tao".into(), [0u8; 32]);
    let units = vec![unit];
    let hits = fuzzy_search(&units, "常道", 10).unwrap();
    assert!(!hits.is_empty());
    assert_eq!(hits[0].key, "tao");
}

#[test]
fn search_reports_matching_field_and_limit() {
    let mut a = DataUnit::new_at(b"first value".to_vec(), "Alpha".into(), [0u8; 32], 1);
    a.yang.tags = vec!["x".into()];
    let mut b = DataUnit::new_at(b"second".to_vec(), "beta".into(), [0u8; 32], 2);
    b.yang.tags = vec!["ALPHABET".into()];
    let c = DataUnit::new_at(b"alpha inside".to_vec(), "gamma".into(), [0u8; 32], 3);
    let units = vec![a, b, c];
    let hits = fuzzy_search(&units, "ALPHA", 10).unwrap();
    let fields: Vec<&str> = hits.iter().map(|h| h.match_field.as_str()).collect();
    assert_eq!(fields, vec!["key", "tag", "value"]);
    assert_eq!(hits[0].content_hash, hex::encode(units[0].yin.content_hash));
    let limited = fuzzy_search(&units, "alpha", 2).unwrap();
    assert_eq!(limited.len(), 2);
    assert!(fuzzy_search(&units, "zzz", 10).unwrap().is_empty());
}

#[test]
fn search_snippet_cuts_long_values() {
    let long = "a".repeat(100);
    let units = vec![DataUnit::new_at(long.into_bytes(), "long".into(), [0u8; 32], 0)];
    let hits = fuzzy_search(&units, "long", 5).unwrap();
    assert_eq!(hits[0].value_snippet, format!("{}...", "a".repeat(80)));
    let mut cut = "a".repeat(79);
    cut.push('道');
    let units = vec![DataUnit::new_at(cut.into_bytes(), "cut".into(), [0u8; 32], 0)];
    assert!(fuzzy_search(&units, "cut", 5).is_none());
}

#[test]
fn substring_test() {
    assert!(text_contains("道可道", "可"));
    assert!(text_contains("abc", ""));
    assert!(!text_contains("ab", "abc"));
}

#[test]
fn response_view_of_unit() {
    let unit = DataUnit::new_at(b"value".to_vec(), "key".into(), [0u8; 32], 9);
    let id = unit.id();
    let r = to_resp(unit);
    assert_eq!(r.id, id);
    assert_eq!(r.value, "value");
    assert_eq!(r.hexagram, "Zhun");
    assert_eq!(r.created_at, 9);
    assert_eq!(default_limit(), 20);
}

#[test]
fn search_with_a_limit_of_zero_reports_nothing() {
    let unit = DataUnit::new_at(b"alpha".to_vec(), "alpha".into(), [0u8; 32], 1);
    let units = vec![unit];
    assert!(fuzzy_search(&units, "alpha", 0).unwrap().is_empty());
    assert_eq!(fuzzy_search(&units, "alpha", 1).unwrap().len(), 1);
}
