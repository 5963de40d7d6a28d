use sha2::Digest;
use taostorage::erasure::{ErasureEncoder, Shard};
use taostorage::error::TaoError;
use taostorage::group::ErasureGroup;
use taostorage::qi::{decide, QiAction};
use taostorage::rules::{
    execute_qi, ACTION_EMERGENCY_REBUILD, ACTION_NOOP, ACTION_REPLICATE, ACTION_STABILIZED, HEXAGRAM_BO, HEXAGRAM_TAI,
    HEXAGRAM_ZHUN,
};
use taostorage::unit::{DataUnit, Hexagram, Qi};
use taostorage::wasm_runtime::WasmQiRuntime;

#[test]
fn test_encode_decode_no_loss() {
    let data = "万物负阴而抱阳，冲气以为和。道生一，一生二，二生三，三生万物。".as_bytes();
    let encoder = ErasureEncoder::new(6, 2);
    let shards = encoder.encode(data).expect("encode");
    assert_eq!(shards.len(), 8);

    let pairs: Vec<(Option<Shard>, bool)> = shards.into_iter().map(|s| (Some(s), true)).collect();
    let recovered = encoder.decode(&pairs).expect("decode");
    assert_eq!(recovered, data);
}

#[test]
fn test_decode_with_parity_loss() {
    let data = "二生三——数据片与校验片共生共存".as_bytes();
    let encoder = ErasureEncoder::new(6, 2);
    let shards = encoder.encode(data).expect("encode");

    let pairs: Vec<(Option<Shard>, bool)> = shards.iter().enumerate().map(|(i, s)| (Some(s.clone()), i < 6)).collect();

    let recovered = encoder.decode(&pairs).expect("decode with parity loss");
    assert_eq!(recovered, data);
}

#[test]
fn test_decode_with_data_loss() {
    let data = "阴中有阳，阳中有阴——数据与校验不可分割".as_bytes();
    let encoder = ErasureEncoder::new(6, 2);
    let shards = encoder.encode(data).expect("encode");

    let pairs: Vec<(Option<Shard>, bool)> = (0..8).map(|i| (Some(shards[i].clone()), i >= 2)).collect();

    let recovered = encoder.decode(&pairs).expect("decode with data loss");
    assert_eq!(recovered, data);
}

#[test]
fn test_insufficient_shards() {
    let data = "不足以恢复".as_bytes();
    let encoder = ErasureEncoder::new(6, 2);
    let shards = encoder.encode(data).expect("encode");

    let pairs: Vec<(Option<Shard>, bool)> = (0..8).map(|i| (Some(shards[i].clone()), i < 4)).collect();

    assert!(encoder.decode(&pairs).is_err());
}

#[test]
fn encode_rejects_empty_data() {
    let encoder = ErasureEncoder::new(6, 2);
    assert!(matches!(encoder.encode(&[]), Err(TaoError::QiState(_))));
}

#[test]
fn decode_reports_insufficient_fragments() {
    let encoder = ErasureEncoder::new(4, 2);
    let shards = encoder.encode(b"abcdefgh").expect("encode");
    let pairs: Vec<(Option<Shard>, bool)> = (0..6).map(|i| (Some(shards[i].clone()), i < 3)).collect();
    match encoder.decode(&pairs) {
        Err(TaoError::InsufficientFragments { have, need }) => {
            assert_eq!(have, 3);
            assert_eq!(need, 4);
        }
        other => panic!("unexpected: {:?}", other),
    }
}

#[test]
fn decode_detects_corrupted_shard_as_hash_mismatch() {
    let encoder = ErasureEncoder::new(2, 1);
    let mut shards = encoder.encode(b"hello world!").expect("encode");
    shards[0].data[0] ^= 0xff;
    let pairs: Vec<(Option<Shard>, bool)> = shards.into_iter().map(|s| (Some(s), true)).collect();
    assert!(matches!(encoder.decode(&pairs), Err(TaoError::HashMismatch { .. })));
}

#[test]
fn encode_pads_and_sizes_shards() {
    let encoder = ErasureEncoder::new(3, 2);
    let shards = encoder.encode(b"1234567").expect("encode");
    assert_eq!(shards.len(), 5);
    for (i, s) in shards.iter().enumerate() {
        assert_eq!(s.index, i);
        assert_eq!(s.data.len(), 3);
        assert_eq!(s.original_len, 7);
    }
    assert_eq!(shards[0].data, b"123".to_vec());
    assert_eq!(shards[2].data, vec![b'7', 0, 0]);
}

#[test]
fn test_group_create_and_reconstruct() {
    let owner = [0u8; 32];
    let unit = DataUnit::new("分布式纠删码组测试数据".as_bytes().to_vec(), "test".into(), owner);
    let group = ErasureGroup::from_unit(&unit, 6, 2).expect("create group");

    assert_eq!(group.total_shards(), 8);
    assert_eq!(group.data_shards(), 6);
    assert_eq!(group.parity_shards(), 2);

    let recovered = group.reconstruct(&[0, 1, 2, 3, 4, 5, 6, 7]).expect("reconstruct");
    assert_eq!(recovered, unit.yin.payload);
}

#[test]
fn test_group_lossy_reconstruct() {
    let owner = [0u8; 32];
    let unit = DataUnit::new("容错重建——丢失两片仍可恢复".as_bytes().to_vec(), "fault".into(), owner);
    let group = ErasureGroup::from_unit(&unit, 6, 2).expect("create group");

    let recovered = group.reconstruct(&[0, 1, 2, 3, 4, 5]).expect("reconstruct 6/8");
    assert_eq!(recovered, unit.yin.payload);
}

#[test]
fn test_shard_placement() {
    let owner = [0u8; 32];
    let unit = DataUnit::new("分片放置".as_bytes().to_vec(), "place".into(), owner);
    let mut group = ErasureGroup::from_unit(&unit, 6, 2).expect("create group");

    group.place_shard(0, "node-a");
    group.place_shard(6, "node-c");

    assert_eq!(group.shard_node(0), Some("node-a"));
    assert_eq!(group.shard_node(6), Some("node-c"));
    assert_eq!(group.shard_node(99), None);
}

#[test]
fn group_reconstruct_with_too_few_indices_fails() {
    let unit = DataUnit::new(b"only a few shards left".to_vec(), "few".into(), [0u8; 32]);
    let group = ErasureGroup::from_unit(&unit, 6, 2).expect("create group");
    assert!(matches!(group.reconstruct(&[0, 1, 7]), Err(TaoError::InsufficientFragments { have: 3, need: 6 })));
}

#[test]
fn group_distributed_steps_fetch_missing_shards() {
    let unit = DataUnit::new(b"distributed reconstruction data".to_vec(), "dist".into(), [0u8; 32]);
    let group = ErasureGroup::from_unit(&unit, 4, 2).expect("create group");
    let mut data = group.distributed_start(&[0, 1]);
    let mut from = 0;
    while let Some(i) = group.distributed_next(&data, from) {
        let fetched = group.get_shard(i).map(|s| s.data.clone());
        ErasureGroup::distributed_record(&mut data, i, fetched);
        from = i + 1;
    }
    assert_eq!(group.distributed_finish(&data).unwrap(), b"distributed reconstruction data".to_vec());
    let too_few = group.distributed_start(&[0]);
    assert!(matches!(group.distributed_finish(&too_few), Err(TaoError::InsufficientFragments { have: 1, need: 4 })));
}

#[test]
fn group_distributed_finish_from_all_local_shards() {
    let unit = DataUnit::new(b"abc".to_vec(), "x".into(), [0u8; 32]);
    let group = ErasureGroup::from_unit(&unit, 6, 2).unwrap();
    let data = group.distributed_start(&[0, 1, 2, 3, 4, 5, 6, 7]);
    assert_eq!(group.distributed_finish(&data).unwrap(), b"abc".to_vec());
    let parity_heavy = group.distributed_start(&[2, 3, 4, 5, 6, 7]);
    assert_eq!(group.distributed_finish(&parity_heavy).unwrap(), b"abc".to_vec());
}

#[test]
fn group_distributed_finish_refuses_short_shards() {
    let unit = DataUnit::new(vec![7u8; 60], "x".into(), [0u8; 32]);
    let group = ErasureGroup::from_unit(&unit, 6, 2).unwrap();
    let short: Vec<Option<Vec<u8>>> = (0..8).map(|i| if i < 6 { Some(vec![1u8]) } else { None }).collect();
    assert!(matches!(group.distributed_finish(&short), Err(TaoError::QiState(m)) if m == "shard size mismatch"));
}

#[test]
fn group_distributed_finish_reports_a_stale_hash() {
    let mut unit = DataUnit::new(b"abc".to_vec(), "x".into(), [0u8; 32]);
    unit.yin.content_hash = [9u8; 32];
    let group = ErasureGroup::from_unit(&unit, 6, 2).unwrap();
    let data = group.distributed_start(&[0, 1, 2, 3, 4, 5]);
    assert!(matches!(group.distributed_finish(&data), Err(TaoError::HashMismatch { .. })));
}

fn test_qi(replicas: u8, target: u8, hex: Hexagram) -> Qi {
    Qi {
        hexagram: hex,
        replica_count: replicas,
        target_replicas: target,
        ec_data_shards: 6,
        ec_parity_shards: 2,
        last_health_check: 0,
        owner: [0u8; 32],
    }
}

#[test]
fn test_bo_triggers_rebuild() {
    let qi = test_qi(1, 3, Hexagram::Bo);
    assert_eq!(decide(&qi), QiAction::EmergencyRebuild);
}

#[test]
fn test_insufficient_replicas() {
    let qi = test_qi(1, 3, Hexagram::Zhun);
    assert_eq!(decide(&qi), QiAction::Replicate);
}

#[test]
fn test_zhun_stabilizes() {
    let qi = test_qi(3, 3, Hexagram::Zhun);
    assert_eq!(decide(&qi), QiAction::Stabilized);
}

#[test]
fn decide_keeps_other_states() {
    assert_eq!(decide(&test_qi(3, 3, Hexagram::Tai)), QiAction::Noop);
    assert_eq!(decide(&test_qi(5, 3, Hexagram::Pi)), QiAction::Noop);
    assert_eq!(decide(&test_qi(3, 3, Hexagram::Jiji)), QiAction::Noop);
    assert_eq!(decide(&test_qi(3, 3, Hexagram::Kun)), QiAction::Noop);
    assert_eq!(decide(&test_qi(5, 3, Hexagram::Bo)), QiAction::EmergencyRebuild);
}

#[test]
fn rule_module_agrees_with_decide() {
    assert_eq!(execute_qi(HEXAGRAM_BO, 1, 3), ACTION_EMERGENCY_REBUILD);
    assert_eq!(execute_qi(HEXAGRAM_ZHUN, 1, 3), ACTION_REPLICATE);
    assert_eq!(execute_qi(HEXAGRAM_ZHUN, 3, 3), ACTION_STABILIZED);
    assert_eq!(execute_qi(HEXAGRAM_TAI, 3, 3), ACTION_NOOP);
}

#[test]
fn test_new_unit_zhun_hexagram() {
    let owner = [0u8; 32];
    let unit = DataUnit::new(b"hello tao".to_vec(), "test".into(), owner);
    assert_eq!(unit.qi.hexagram, Hexagram::Zhun);
    assert_eq!(unit.qi.replica_count, 1);
    assert!(unit.verify());
}

#[test]
fn test_verify_integrity() {
    let owner = [0u8; 32];
    let mut unit = DataUnit::new(b"immutable".to_vec(), "x".into(), owner);
    assert!(unit.verify());
    unit.yin.payload = b"corrupted".to_vec();
    assert!(!unit.verify());
}

#[test]
fn test_touch_updates_heat() {
    let owner = [0u8; 32];
    let mut unit = DataUnit::new(b"data".to_vec(), "hot".into(), owner);
    assert_eq!(unit.yang.heat, 0);
    for _ in 0..5 {
        unit.touch();
    }
    assert!(unit.yang.heat > 0);
    assert_eq!(unit.yang.access_count, 5);
}

#[test]
fn test_id_is_content_addressed() {
    let owner = [0u8; 32];
    let a = DataUnit::new(b"same".to_vec(), "a".into(), owner);
    let b = DataUnit::new(b"same".to_vec(), "b".into(), owner);
    assert_eq!(a.id(), b.id());
}

#[test]
fn unit_hash_and_id_are_exact() {
    let unit = DataUnit::new_at(b"hello tao".to_vec(), "t".into(), [7u8; 32], 1000);
    let expected: [u8; 32] = sha2::Sha256::digest(b"hello tao").into();
    assert_eq!(unit.yin.content_hash, expected);
    assert_eq!(unit.id(), bs58::encode(expected).into_string());
    assert_eq!(unit.yang.created_at, 1000);
    assert_eq!(unit.qi.target_replicas, 3);
    assert_eq!(unit.qi.ec_data_shards, 6);
    assert_eq!(unit.qi.ec_parity_shards, 2);
}

#[test]
fn touch_at_decays_heat_with_age() {
    let mut unit = DataUnit::new_at(b"x".to_vec(), "t".into(), [0u8; 32], 0);
    for _ in 0..10 {
        unit.touch_at(0);
    }
    assert_eq!(unit.yang.heat, 10);
    unit.touch_at(3 * 3600);
    assert_eq!(unit.yang.access_count, 11);
    assert_eq!(unit.yang.heat, 8);
    assert_eq!(unit.yang.last_accessed, 3 * 3600);
}

fn minimal_wasm_qi() -> Vec<u8> {
    let mut wasm = Vec::new();
    wasm.extend_from_slice(&[0x00, 0x61, 0x73, 0x6d]);
    wasm.extend_from_slice(&[0x01, 0x00, 0x00, 0x00]);
    wasm.push(0x01);
    wasm.push(0x08);
    wasm.push(0x01);
    wasm.push(0x60);
    wasm.push(0x03);
    wasm.push(0x7f);
    wasm.push(0x7f);
    wasm.push(0x7f);
    wasm.push(0x01);
    wasm.push(0x7f);
    wasm.push(0x03);
    wasm.push(0x02);
    wasm.push(0x01);
    wasm.push(0x00);
    let name = b"execute_qi";
    wasm.push(0x07);
    wasm.push(0x0e);
    wasm.push(0x01);
    wasm.push(0x0a);
    wasm.extend_from_slice(name);
    wasm.push(0x00);
    wasm.push(0x00);
    wasm.push(0x0a);
    wasm.push(0x11);
    wasm.push(0x01);
    wasm.push(0x0f);
    wasm.push(0x00);
    wasm.extend_from_slice(&[0x20, 0x01, 0x20, 0x02, 0x48, 0x04, 0x7f, 0x41, 0x01, 0x05, 0x41, 0x00, 0x0b, 0x0b]);
    wasm
}

#[test]
fn test_wasm_qi_replicate_when_insufficient() {
    let wasm = minimal_wasm_qi();
    let mut rt = WasmQiRuntime::new(&wasm).expect("valid wasm");
    let result = rt.execute_qi(0, 1, 3).expect("exec");
    assert_eq!(result, 1);
}

#[test]
fn test_wasm_qi_noop_when_sufficient() {
    let wasm = minimal_wasm_qi();
    let mut rt = WasmQiRuntime::new(&wasm).expect("valid wasm");
    let result = rt.execute_qi(0, 3, 3).expect("exec");
    assert_eq!(result, 0);
}

#[test]
fn test_reload() {
    let wasm = minimal_wasm_qi();
    let mut rt = WasmQiRuntime::new(&wasm).expect("valid wasm");
    assert!(rt.reload(&wasm).is_ok());
}

#[test]
fn wasm_runtime_refuses_invalid_modules() {
    assert_eq!(WasmQiRuntime::new(&[1, 2, 3]).err(), Some("invalid WASM module".to_string()));
    let mut rt = WasmQiRuntime::new(&minimal_wasm_qi()).expect("valid wasm");
    assert_eq!(rt.reload(&[0u8; 4]), Err("invalid WASM module for reload".to_string()));
    assert_eq!(rt.execute_qi(0, 1, 3), Ok(1));
}

fn looping_wasm_qi() -> Vec<u8> {
    let mut wasm = Vec::new();
    wasm.extend_from_slice(&[0x00, 0x61, 0x73, 0x6d, 0x01, 0x00, 0x00, 0x00]);
    wasm.extend_from_slice(&[0x01, 0x08, 0x01, 0x60, 0x03, 0x7f, 0x7f, 0x7f, 0x01, 0x7f]);
    wasm.extend_from_slice(&[0x03, 0x02, 0x01, 0x00]);
    wasm.extend_from_slice(&[0x07, 0x0e, 0x01, 0x0a]);
    wasm.extend_from_slice(b"execute_qi");
    wasm.extend_from_slice(&[0x00, 0x00]);
    wasm.extend_from_slice(&[0x0a, 0x0a, 0x01, 0x08, 0x00, 0x03, 0x40, 0x0c, 0x00, 0x0b, 0x00, 0x0b]);
    wasm
}

#[test]
fn wasm_rules_that_never_return_run_out_of_fuel() {
    let mut rt = WasmQiRuntime::new(&looping_wasm_qi()).expect("valid wasm");
    assert!(rt.execute_qi(0, 1, 3).is_err());
    assert!(rt.reload(&minimal_wasm_qi()).is_ok());
    assert_eq!(rt.execute_qi(0, 1, 3), Ok(1));
}
