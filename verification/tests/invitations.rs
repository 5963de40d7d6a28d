use sha2::Digest;
use taostorage::invite::{Badge, InviteSystem, Rank};
use taostorage::invite_records::{rank_name, use_invite_code, CodeUse, InviteDb, InviteRecord, ReputationDb};
use taostorage::rewards;

#[test]
fn test_generate_and_use_code() {
    let mut system = InviteSystem::new();
    let invite = system.generate_code("node-1");
    assert_eq!(invite.code.len(), 8);
    assert!(invite.active);

    let result = system.use_code(&invite.code, "node-2");
    assert!(result.is_ok());
    assert_eq!(result.unwrap(), "node-1");

    let rep1 = system.get_reputation("node-1").unwrap();
    assert_eq!(rep1.score, 10);
    assert_eq!(rep1.rank, Rank::Shi);

    let rep2 = system.get_reputation("node-2").unwrap();
    assert_eq!(rep2.score, 5);
    assert_eq!(rep2.rank, Rank::Fan);
}

#[test]
fn ten_joined_invitees_earn_the_preacher_badge() {
    let mut system = InviteSystem::new();
    let invite = system.generate_code("x");
    for i in 1..=10 {
        let joined = system.use_code(&invite.code, &format!("n_{}", i));
        assert_eq!(joined.unwrap(), "x");
        let rep = system.get_reputation("x").unwrap();
        assert_eq!(rep.invites_sent, i as u64);
        if i < 10 {
            assert!(rep.badges.is_empty());
        }
    }
    let rep = system.get_reputation("x").unwrap();
    assert_eq!(rep.invites_sent, 10);
    assert_eq!(rep.badges, vec![Badge::Preacher]);
    assert_eq!(rep.score, 10 * 10 + 50);
    assert_eq!(rep.rank, Rank::Dao);
    let last = rep.history.last().unwrap();
    assert_eq!(last.event_type, "badge_earned");
    assert_eq!(last.description, "获得徽章: Preacher");
    assert_eq!(system.get_reputation("n_10").unwrap().score, 5);
    assert_eq!(system.get_code_info(&invite.code).unwrap().use_count, 10);
}

#[test]
fn test_rank_progression() {
    assert_eq!(Rank::from_score(0), Rank::Fan);
    assert_eq!(Rank::from_score(5), Rank::Fan);
    assert_eq!(Rank::from_score(10), Rank::Shi);
    assert_eq!(Rank::from_score(50), Rank::Dao);
    assert_eq!(Rank::from_score(200), Rank::Xuan);
    assert_eq!(Rank::from_score(1000), Rank::Sheng);
}

#[test]
fn test_badges() {
    let mut system = InviteSystem::new();
    let node = "node-1";

    system.add_reputation(node, 0, "init");
    assert!(system.get_reputation(node).unwrap().badges.is_empty());

    for i in 0..10 {
        system.add_reputation(node, rewards::INVITE_BONUS, &format!("invite {}", i));
        system.record_invite(node);
    }
    system.check_badges(node);

    let rep = system.get_reputation(node).unwrap();
    assert!(rep.badges.contains(&Badge::Preacher));
    assert!(rep.score >= 100);
}

#[test]
fn test_leaderboard() {
    let mut system = InviteSystem::new();
    system.add_reputation("alice", 100, "good");
    system.add_reputation("bob", 50, "ok");
    system.add_reputation("charlie", 200, "great");

    let board = system.leaderboard(2);
    assert_eq!(board.len(), 2);
    assert_eq!(board[0].0, "charlie");
    assert_eq!(board[1].0, "alice");
}

#[test]
fn generated_code_is_upper_hex_of_seed_hash() {
    let mut system = InviteSystem::new();
    let invite = system.generate_code_with("node-1", 1000, 7);
    let digest = sha2::Sha256::digest(b"node-1:1000:7");
    assert_eq!(invite.code, hex::encode(&digest[..4]).to_uppercase());
    assert_eq!(invite.expires_at, 1000 + 7 * 24 * 3600);
    let rep = system.get_reputation("node-1").unwrap();
    assert_eq!(rep.history.len(), 1);
    assert_eq!(rep.history[0].event_type, "invite_generated");
    assert_eq!(rep.score, 0);
}

#[test]
fn use_code_refusals() {
    let mut system = InviteSystem::new();
    assert_eq!(system.use_code_at("NOPE", "n", 0), Err("邀请码无效".to_string()));
    let invite = system.generate_code_with("a", 0, 1);
    assert_eq!(system.use_code_at(&invite.code, "b", 604801), Err("邀请码已过期".to_string()));
    assert!(!system.get_code_info(&invite.code).unwrap().active);
    assert_eq!(system.use_code_at(&invite.code, "b", 0), Err("邀请码已失效".to_string()));
    let limited = system.generate_code_with("c", 0, 2);
    system.codes.iter_mut().find(|c| c.code == limited.code).unwrap().max_uses = 1;
    assert!(system.use_code_at(&limited.code, "d", 5).is_ok());
    assert_eq!(system.use_code_at(&limited.code, "e", 5), Err("邀请码已达使用上限".to_string()));
    assert_eq!(system.get_code_info(&limited.code).unwrap().use_count, 1);
}

#[test]
fn rank_always_follows_score() {
    let mut system = InviteSystem::new();
    system.add_reputation("x", 49, "a");
    assert_eq!(system.get_reputation("x").unwrap().rank, Rank::Shi);
    system.add_event("x", "bonus", 1, "b");
    assert_eq!(system.get_reputation("x").unwrap().rank, Rank::Dao);
    system.add_event("x", "nothing", -5, "c");
    assert_eq!(system.get_reputation("x").unwrap().score, 50);
    assert_eq!(system.get_reputation("x").unwrap().history.len(), 3);
}

#[test]
fn badges_are_awarded_once_with_bonus() {
    let mut system = InviteSystem::new();
    for _ in 0..100 {
        system.record_invite("n");
    }
    system.check_badges_at("n", 9);
    let rep = system.get_reputation("n").unwrap();
    assert_eq!(rep.badges, vec![Badge::Preacher, Badge::Master]);
    assert_eq!(rep.score, 100);
    assert_eq!(rep.history[1].description, "获得徽章: Master");
    system.check_badges_at("n", 10);
    assert_eq!(system.get_reputation("n").unwrap().score, 100);
    assert_eq!(Rank::Xuan.title(), "玄 (玄妙境)");
}

#[test]
fn cli_rank_names() {
    assert_eq!(rank_name(0), "凡");
    assert_eq!(rank_name(10), "士");
    assert_eq!(rank_name(50), "道");
    assert_eq!(rank_name(200), "玄");
    assert_eq!(rank_name(1000), "圣");
}

#[test]
fn cli_use_code_credits_both_nodes() {
    let mut invites = InviteDb::new();
    let mut reps = ReputationDb::new();
    invites.insert(InviteRecord {
        code: "ABCD1234".into(),
        inviter: "alice".into(),
        created_at: 0,
        expires_at: 100,
        uses: 0,
        max_uses: 0,
        active: true,
    });
    match use_invite_code(&mut invites, &mut reps, "ABCD1234", "bob", 50, "50", "t50") {
        CodeUse::Accepted(inviter) => assert_eq!(inviter, "alice"),
        other => panic!("unexpected {:?}", other),
    }
    assert_eq!(invites.entries[0].1.uses, 1);
    let alice = &reps.entries.iter().find(|(k, _)| k == "alice").unwrap().1;
    assert_eq!(alice.score, 10);
    assert_eq!(alice.invites, 1);
    assert_eq!(alice.events[0].description, "邀请节点 bob");
    let bob = &reps.entries.iter().find(|(k, _)| k == "bob").unwrap().1;
    assert_eq!(bob.score, 5);
    assert_eq!(bob.events[0].description, "通过邀请码 ABCD1234 加入");
    assert!(matches!(use_invite_code(&mut invites, &mut reps, "NONE", "x", 50, "50", "t50"), CodeUse::Unknown));
    assert!(matches!(use_invite_code(&mut invites, &mut reps, "ABCD1234", "x", 101, "101", "t101"), CodeUse::Expired));
    assert!(matches!(use_invite_code(&mut invites, &mut reps, "ABCD1234", "x", 50, "50", "t50"), CodeUse::Inactive));
}

#[test]
fn cli_badge_check_prefers_master() {
    let mut invites = InviteDb::new();
    let mut reps = ReputationDb::new();
    for i in 0..10u32 {
        let code = format!("C{}", i);
        invites.insert(InviteRecord {
            code: code.clone(),
            inviter: "alice".into(),
            created_at: 0,
            expires_at: 100,
            uses: 0,
            max_uses: 0,
            active: true,
        });
        use_invite_code(&mut invites, &mut reps, &code, &format!("n{}", i), 1, "1", "t1");
    }
    let alice = &reps.entries.iter().find(|(k, _)| k == "alice").unwrap().1;
    assert_eq!(alice.invites, 10);
    assert_eq!(alice.badges, vec!["传道者".to_string()]);
    assert_eq!(alice.score, 100 + 50);
    let badge_event = alice.events.last().unwrap();
    assert_eq!(badge_event.event, "badge");
    assert_eq!(badge_event.timestamp, "t1");
    assert_eq!(badge_event.description, "获得徽章: 传道者 (邀请10人)");
}

#[test]
fn cli_self_invite_credits_both_bonuses_in_order() {
    let mut invites = InviteDb::new();
    let mut reps = ReputationDb::new();
    invites.insert(InviteRecord {
        code: "SELF".into(),
        inviter: "alice".into(),
        created_at: 0,
        expires_at: 100,
        uses: 0,
        max_uses: 0,
        active: true,
    });
    match use_invite_code(&mut invites, &mut reps, "SELF", "alice", 1, "1", "t1") {
        CodeUse::Accepted(inviter) => assert_eq!(inviter, "alice"),
        other => panic!("unexpected {:?}", other),
    }
    let alice = &reps.entries.iter().find(|(k, _)| k == "alice").unwrap().1;
    assert_eq!(alice.score, 15);
    assert_eq!(alice.invites, 1);
    assert_eq!(alice.events.len(), 2);
    assert_eq!(alice.events[0].event, "invite");
    assert_eq!(alice.events[1].event, "joined");
    assert!(alice.badges.is_empty());
}

#[test]
fn leaderboard_leaves_out_only_lower_or_equal_scores() {
    let mut system = InviteSystem::new();
    system.add_reputation("a", 5, "x");
    system.add_reputation("b", 50, "x");
    system.add_reputation("c", 50, "x");
    system.add_reputation("d", 7, "x");
    let board = system.leaderboard(2);
    let names: Vec<&str> = board.iter().map(|e| e.0).collect();
    assert_eq!(names, vec!["b", "c"]);
    let all = system.leaderboard(10);
    let names: Vec<&str> = all.iter().map(|e| e.0).collect();
    assert_eq!(names, vec!["b", "c", "d", "a"]);
    assert!(system.leaderboard(0).is_empty());
}
