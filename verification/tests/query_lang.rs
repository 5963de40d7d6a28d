use taostorage::tag_keys::{cloud_counts, forward_key, forward_prefix, key_hash, key_tag, reverse_key, reverse_prefix, text_less};
use taostorage::clock::{age_text, timestamp_str};
use taostorage::history::{line_diff, lines_of};
use taostorage::invite::invite_code;
use taostorage::invite_records::{issue_invite_record, new_invite_record, InviteDb, InviteRecord, ReputationDb, ReputationRecord};
use taostorage::query::{evaluate_form, field_conditions, field_eq_matches, trim_quotes, is_float_literal, parse_query, parse_query_upper, parse_simple, tag_matches, trim_text, unit_matches_tag, Condition};
use taostorage::unit::DataUnit;

fn tag_of(c: &Condition) -> &str {
    match c {
        Condition::TagMatch(t) => t.as_str(),
        _ => panic!("not a tag condition: {:?}", c),
    }
}

#[test]
fn simple_terms() {
    assert_eq!(tag_of(&parse_simple("tag:critical")), "critical");
    match parse_simple("age>18") {
        Condition::FieldGt(f, v) => {
            assert_eq!(f, "age");
            assert_eq!(v, "18");
        }
        other => panic!("{:?}", other),
    }
    match parse_simple("score < -2.5e3") {
        Condition::FieldLt(f, v) => {
            assert_eq!(f, "score");
            assert_eq!(v, "-2.5e3");
        }
        other => panic!("{:?}", other),
    }
    match parse_simple("time>2026-01") {
        Condition::TimeAfter(t) => assert_eq!(t, "2026-01"),
        other => panic!("{:?}", other),
    }
    match parse_simple("created<2025") {
        Condition::TimeBefore(t) => assert_eq!(t, "2025"),
        other => panic!("{:?}", other),
    }
    match parse_simple("name = tao") {
        Condition::FieldEq(f, v) => {
            assert_eq!(f, "name");
            assert_eq!(v, "tao");
        }
        other => panic!("{:?}", other),
    }
    // not a number after '>', no '<' and no '=': the whole term is a tag
    assert_eq!(tag_of(&parse_simple("age>abc")), "age>abc");
    assert_eq!(tag_of(&parse_simple("hello")), "hello");
}

#[test]
fn comparison_falls_through_to_equals() {
    match parse_simple("a>b=c") {
        Condition::FieldEq(f, v) => {
            assert_eq!(f, "a>b");
            assert_eq!(v, "c");
        }
        other => panic!("{:?}", other),
    }
}

#[test]
fn float_literals() {
    for s in ["18", "-1", "+2.", ".5", "1e5", "1E-3", "inf", "-Infinity", "NaN", "0.25e+10"] {
        assert!(is_float_literal(s), "{}", s);
        assert!(s.parse::<f64>().is_ok(), "{}", s);
    }
    for s in ["", ".", "e5", "1e", "1e+", "--1", " 1", "abc", "1.2.3", "infin", "0x10"] {
        assert!(!is_float_literal(s), "{}", s);
        assert!(s.parse::<f64>().is_err(), "{}", s);
    }
}

#[test]
fn joined_queries() {
    match parse_query("tag:audit AND severity:high").unwrap() {
        Condition::And(l, r) => {
            assert_eq!(tag_of(&l), "audit");
            assert_eq!(tag_of(&r), "severity:high");
        }
        other => panic!("{:?}", other),
    }
    match parse_query("time>2026-01-01 and tag:critical").unwrap() {
        Condition::And(l, r) => {
            assert!(matches!(*l, Condition::TimeAfter(ref t) if t == "2026-01-01"));
            assert_eq!(tag_of(&r), "critical");
        }
        other => panic!("{:?}", other),
    }
    match parse_query("a or b").unwrap() {
        Condition::Or(l, r) => {
            assert_eq!(tag_of(&l), "a");
            assert_eq!(tag_of(&r), "b");
        }
        other => panic!("{:?}", other),
    }
    assert_eq!(tag_of(&parse_query("  plain  ").unwrap()), "plain");
}

#[test]
fn split_point_from_upper_case_form() {
    // "ıı" is four bytes but its upper-case form "II" is two, so the cut
    // lands two bytes in: after the first "ı".
    match parse_query("ıı and b").unwrap() {
        Condition::And(l, r) => {
            assert_eq!(tag_of(&l), "ı");
            assert_eq!(tag_of(&r), "d b");
        }
        other => panic!("{:?}", other),
    }
    // Three bytes in falls inside the second "ı".
    assert!(parse_query("ııı and b").is_none());
    // The same query cut by an explicit upper-case form.
    match parse_query_upper("x AND y", "X AND Y").unwrap() {
        Condition::And(l, r) => {
            assert_eq!(tag_of(&l), "x");
            assert_eq!(tag_of(&r), "y");
        }
        other => panic!("{:?}", other),
    }
}

#[test]
fn trimming_unicode_space() {
    assert_eq!(trim_text("\u{3000} a b \t\n"), "a b");
    assert_eq!(trim_text("   "), "");
    assert_eq!(trim_text("x"), "x");
}

#[test]
fn tag_condition_matches() {
    let tags = vec!["red".to_string()];
    assert!(tag_matches("red", "k", "v", &tags));
    assert!(tag_matches("e", "key", "v", &tags));
    assert!(tag_matches("alu", "k", "value", &tags));
    assert!(!tag_matches("re", "k", "v", &tags));
    let mut u = DataUnit::new_at(b"{\"age\": 20}".to_vec(), "person".into(), [0u8; 32], 1);
    u.yang.tags = vec!["audit".into()];
    assert!(unit_matches_tag(&u, "audit"));
    assert!(unit_matches_tag(&u, "age"));
    assert!(!unit_matches_tag(&u, "missing"));
}

#[test]
fn lines_follow_std() {
    for text in ["", "a", "a\n", "a\r\nb", "a\rb\n\nc", "\n\n", "x\r"] {
        let ours = lines_of(text);
        let std_lines: Vec<String> = text.lines().map(|l| l.to_string()).collect();
        assert_eq!(ours, std_lines, "{:?}", text);
    }
}

#[test]
fn line_diff_reports_changed_lines() {
    let d = line_diff("a\nb\nc", "a\nB\nc\nd");
    assert_eq!(d, vec![(2, "b".to_string(), "B".to_string()), (4, String::new(), "d".to_string())]);
    assert!(line_diff("same\n", "same").is_empty());
}

#[test]
fn cli_invite_records() {
    let r = new_invite_record("node-a", 1000, 42);
    assert_eq!(r.code, invite_code("node-a", 1000, 42));
    assert_eq!(r.code.len(), 8);
    assert!(r.code.chars().all(|c| c.is_ascii_digit() || ('A'..='F').contains(&c)));
    assert_eq!(r.expires_at, 1000 + 7 * 24 * 3600);
    assert!(r.active);
    assert_eq!(r.uses, 0);
    let fresh = issue_invite_record("node-b");
    assert_eq!(fresh.inviter, "node-b");
    assert_eq!(fresh.expires_at, fresh.created_at + 7 * 24 * 3600);
    let mut db = InviteDb::new();
    db.insert(r.clone());
    db.insert(InviteRecord { uses: 3, ..r.clone() });
    assert_eq!(db.entries.len(), 1);
    assert_eq!(db.entries[0].1.uses, 3);
}

#[test]
fn cli_leaderboard_orders_by_score() {
    let mut db = ReputationDb::new();
    for (id, score) in [("a", 5u64), ("b", 50), ("c", 5), ("d", 200)] {
        db.entries.push((id.to_string(), ReputationRecord { score, ..ReputationRecord::default() }));
    }
    let board = db.leaderboard(3);
    let ids: Vec<&str> = board.iter().map(|(id, _)| *id).collect();
    assert_eq!(ids, vec!["d", "b", "a"]);
    assert_eq!(db.leaderboard(10).len(), 4);
}

#[test]
fn ages_read_in_largest_unit() {
    assert_eq!(age_text(100, 100), "0s ago");
    assert_eq!(age_text(159, 100), "59s ago");
    assert_eq!(age_text(160, 100), "1m ago");
    assert_eq!(age_text(100 + 3599, 100), "59m ago");
    assert_eq!(age_text(100 + 7200, 100), "2h ago");
    assert_eq!(age_text(100 + 86400 * 3 + 5, 100), "3d ago");
    assert_eq!(age_text(5, 100), "0s ago");
    assert!(timestamp_str(0).ends_with("d ago"));
}

#[test]
fn tag_index_keys() {
    assert_eq!(forward_key("red", "ab12"), "ti:red:ab12");
    assert_eq!(reverse_key("ab12", "red"), "ri:ab12:red");
    assert_eq!(forward_prefix("red"), "ti:red:");
    assert_eq!(reverse_prefix("ab12"), "ri:ab12:");
    assert_eq!(key_hash("ti:red:ab12"), "ab12");
    assert_eq!(key_hash("nocolon"), "nocolon");
    assert_eq!(key_tag("ti:red:ab12").as_deref(), Some("red"));
    assert_eq!(key_tag("ti:red").as_deref(), Some("red"));
    assert_eq!(key_tag("ti:a:b:c").as_deref(), Some("a"));
    assert_eq!(key_tag("plain"), None);
}

#[test]
fn tag_cloud_counts_most_used_first() {
    let keys: Vec<String> = ["ti:b:1", "ti:a:2", "ti:c:3", "ti:b:4", "ti:a!:5", "ti:a:6", "ti:z:7", "ti:z:8"]
        .iter()
        .map(|s| s.to_string())
        .collect();
    let cloud = cloud_counts(&keys);
    let expected: Vec<(String, usize)> =
        [("a", 2), ("b", 2), ("z", 2), ("a!", 1), ("c", 1)].iter().map(|(t, n)| (t.to_string(), *n)).collect();
    assert_eq!(cloud, expected);
    assert!(text_less("a", "a!"));
    assert!(text_less("a!", "b"));
    assert!(!text_less("b", "b"));
    assert!(text_less("", "x"));
}

#[test]
fn evaluate_form_combines_tags_times_and_field_answers() {
    let mut unit = DataUnit::new(b"{\"score\": 9}".to_vec(), "doc".into(), [0u8; 32]);
    unit.yang.tags = vec!["a".to_string()];

    let both = parse_query("tag:a AND score>5").unwrap();
    assert_eq!(field_conditions(&both).len(), 1);
    assert!(matches!(field_conditions(&both)[0], Condition::FieldGt(_, _)));
    assert!(evaluate_form(&both, &unit, &[true]));
    assert!(!evaluate_form(&both, &unit, &[false]));

    let either = parse_query("tag:zzz OR score<5").unwrap();
    assert!(evaluate_form(&either, &unit, &[true]));
    assert!(!evaluate_form(&either, &unit, &[false]));

    let timed = parse_query("time>2026-01-01 and tag:a").unwrap();
    assert!(field_conditions(&timed).is_empty());
    assert!(evaluate_form(&timed, &unit, &[]));
    let missing_tag = parse_query("time>2026-01-01 and tag:b").unwrap();
    assert!(!evaluate_form(&missing_tag, &unit, &[]));

    let words = parse_query("doc").unwrap();
    assert!(evaluate_form(&words, &unit, &[]));
}

#[test]
fn evaluate_form_decides_field_equality_on_the_json_value() {
    let unit = DataUnit::new(b"{\"name\": \"x\", \"score\": 9}".to_vec(), "doc".into(), [0u8; 32]);
    let by_text = parse_query("name=x").unwrap();
    assert!(field_conditions(&by_text).is_empty());
    assert!(evaluate_form(&by_text, &unit, &[]));
    assert!(!evaluate_form(&parse_query("name=y").unwrap(), &unit, &[]));
    assert!(evaluate_form(&parse_query("score=9").unwrap(), &unit, &[]));
    assert!(!evaluate_form(&parse_query("missing=9").unwrap(), &unit, &[]));
    let plain = DataUnit::new(b"not json".to_vec(), "doc".into(), [0u8; 32]);
    assert!(!evaluate_form(&parse_query("name=x").unwrap(), &plain, &[]));
}

#[test]
fn quotes_are_trimmed_from_both_ends() {
    assert_eq!(trim_quotes("\"\"a\"b\"\""), "a\"b");
    assert_eq!(trim_quotes("\"\"\""), "");
    assert_eq!(trim_quotes("plain"), "plain");
    assert!(field_eq_matches("{\"k\": \"v\"}", "k", "v"));
    assert!(field_eq_matches("{\"k\": true}", "k", "true"));
    assert!(!field_eq_matches("[1, 2]", "k", "1"));
}
