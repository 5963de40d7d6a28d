use sha2::{Digest, Sha256};
use taostorage::balance::QiConsensus;
use taostorage::contract::{AuditChallenge, AuditResponse, CommunityContract};
use taostorage::reputation::ReputationTable;
use taostorage::storage_challenge::{generate_proof, StorageChallenge};

#[test]
fn test_contract_creation() {
    let hash = [0x42u8; 32];
    let guardians = vec![[0x01u8; 32], [0x02u8; 32], [0x03u8; 32]];
    let contract = CommunityContract::new(hash, guardians, 2, 3600);

    assert!(contract.active);
    assert_eq!(contract.threshold, 2);
    assert!(!contract.is_fulfilled());
}

#[test]
fn test_sign_and_fulfill() {
    let hash = [0xabu8; 32];
    let g1 = [0x01u8; 32];
    let g2 = [0x02u8; 32];
    let mut contract = CommunityContract::new(hash, vec![g1, g2], 2, 3600);

    assert!(!contract.is_fulfilled());
    contract.sign(&g1, vec![1, 2, 3]);
    assert!(!contract.is_fulfilled());
    contract.sign(&g2, vec![4, 5, 6]);
    assert!(contract.is_fulfilled());
}

#[test]
fn test_audit_challenge() {
    let contract_id = [0x11u8; 32];
    let challenge = AuditChallenge::new(contract_id);
    assert!(!challenge.is_expired());
    assert!(challenge.deadline > challenge.issued_at);
}

#[test]
fn test_audit_response() {
    let data = b"immutable archive content";
    let contract_id = [0x22u8; 32];
    let challenge = AuditChallenge::new(contract_id);
    let guardian = [0x01u8; 32];

    let response = AuditResponse::generate(data, &challenge, &guardian);

    let mut hasher = Sha256::new();
    hasher.update(data);
    hasher.update(&challenge.challenge);
    hasher.update(&guardian);
    let expected: [u8; 32] = hasher.finalize().into();
    assert_eq!(response.proof, expected);
}

#[test]
fn contract_id_hashes_content_and_guardians() {
    let hash = [0x42u8; 32];
    let guardians = vec![[0x01u8; 32], [0x02u8; 32]];
    let contract = CommunityContract::new_at(hash, guardians.clone(), 1, 60, 500);
    let mut hasher = Sha256::new();
    hasher.update(&hash);
    for g in &guardians {
        hasher.update(g);
    }
    let expected: [u8; 32] = hasher.finalize().into();
    assert_eq!(contract.id, expected);
    assert_eq!(contract.created_at, 500);
    assert_eq!(contract.last_audit, 500);
}

#[test]
fn signing_twice_or_by_stranger_does_not_count_twice() {
    let g1 = [0x01u8; 32];
    let stranger = [0x09u8; 32];
    let mut contract = CommunityContract::new_at([0u8; 32], vec![g1, [0x02u8; 32]], 2, 60, 0);
    contract.sign(&g1, vec![1]);
    contract.sign(&g1, vec![2]);
    contract.sign(&stranger, vec![3]);
    assert_eq!(contract.active_guardian_count(), 1);
    assert!(!contract.is_fulfilled());
    assert_eq!(contract.signatures[0].1, vec![2]);
}

#[test]
fn audit_schedule_follows_interval() {
    let mut contract = CommunityContract::new_at([0u8; 32], vec![[1u8; 32]], 1, 100, 1000);
    assert!(!contract.needs_audit_at(1099));
    assert!(contract.needs_audit_at(1100));
    contract.audit_passed_at(1100);
    assert!(!contract.needs_audit_at(1150));
    contract.deactivate();
    assert!(!contract.needs_audit_at(5000));
}

#[test]
fn audit_challenge_expiry_at_times() {
    let c = AuditChallenge::new_at([0u8; 32], [1u8; 32], 10);
    assert_eq!(c.deadline, 3610);
    assert!(!c.is_expired_at(3610));
    assert!(c.is_expired_at(3611));
}

#[test]
fn test_challenge_response_cycle() {
    let data = b"immutable archive data";
    let content_hash: [u8; 32] = Sha256::digest(data).into();

    let challenge = StorageChallenge::new(content_hash);
    let response = generate_proof(data, &challenge);

    assert!(challenge.verify(&response));
}

#[test]
fn storage_proof_is_hash_of_data_and_nonce() {
    let challenge = StorageChallenge::new_at([3u8; 32], [4u8; 32], 0);
    let response = generate_proof(b"abc", &challenge);
    let mut hasher = Sha256::new();
    hasher.update(b"abc");
    hasher.update(&[4u8; 32]);
    let expected: [u8; 32] = hasher.finalize().into();
    assert_eq!(response.proof, expected);
    let other = StorageChallenge::new_at([3u8; 32], [5u8; 32], 0);
    assert!(!other.verify(&response));
}

#[test]
fn test_reward_and_score() {
    let mut rt = ReputationTable::new();
    rt.reward("node-a");
    rt.reward("node-a");
    assert_eq!(rt.score("node-a"), 2);
    assert!(rt.is_trusted("node-a"));
}

#[test]
fn test_penalize() {
    let mut rt = ReputationTable::new();
    rt.penalize("bad-node");
    rt.penalize("bad-node");
    assert_eq!(rt.score("bad-node"), -4);
    assert!(!rt.is_trusted("bad-node"));
}

#[test]
fn reputation_scores_stay_within_bounds() {
    let mut rt = ReputationTable::new();
    for _ in 0..150 {
        rt.reward("up");
        rt.penalize("down");
    }
    assert_eq!(rt.score("up"), 100);
    assert_eq!(rt.score("down"), -100);
    assert_eq!(rt.score("unknown"), 0);
    assert!(rt.is_trusted("unknown"));
    assert_eq!(rt.all_entries().len(), 2);
}

#[test]
fn reputation_touch_records_time() {
    let mut rt = ReputationTable::new();
    rt.touch_at("n", 42);
    let entries = rt.all_entries();
    assert_eq!(entries[0].last_seen, 42);
    assert_eq!(entries[0].score, 0);
}

#[test]
fn consensus_holds_its_table() {
    let mut c = QiConsensus::new(5);
    c.reputation_mut().reward("alpha");
    assert_eq!(c.reputation().score("alpha"), 1);
    assert_eq!(c.turbulence(), 5);
}
