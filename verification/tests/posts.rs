use thronglets::identity::NodeIdentity;
use thronglets::posts::{
    is_signal_capability, source_key, summarize_signal_traces, SignalPost, SignalPostKind, SIGNAL_CAPABILITY_PREFIX,
};

fn post(kind: SignalPostKind, context: &str, message: &str, timestamp: u64, source: &str, similarity: u32) -> SignalPost {
    SignalPost {
        kind,
        context: context.to_string(),
        message: message.to_string(),
        timestamp,
        source: source.to_string(),
        similarity,
    }
}

#[test]
fn summarize_signal_posts_groups_by_kind_and_message() {
    let identity = NodeIdentity::generate();
    let pk = identity.public_key_bytes();
    let a = post(
        SignalPostKind::Avoid,
        "fix flaky ci workflow",
        "skip the generated lockfile",
        10,
        &source_key(&pk, Some("session-a")),
        100,
    );
    let b = post(
        SignalPostKind::Avoid,
        "repair flaky ci pipeline",
        "skip the generated lockfile",
        12,
        &source_key(&pk, Some("session-b")),
        62,
    );
    let results = summarize_signal_traces(&[a, b], 10);
    assert_eq!(results.len(), 1);
    assert_eq!(results[0].kind, "avoid");
    assert_eq!(results[0].message, "skip the generated lockfile");
    assert_eq!(results[0].total_posts, 2);
    assert_eq!(results[0].source_count, 2);
    assert_eq!(results[0].context_similarity, 100);
    assert_eq!(results[0].latest_timestamp, 12);
    assert_eq!(
        results[0].contexts,
        vec!["fix flaky ci workflow".to_string(), "repair flaky ci pipeline".to_string()]
    );
}

#[test]
fn kinds_round_trip_through_names_and_capabilities() {
    for kind in [SignalPostKind::Recommend, SignalPostKind::Avoid, SignalPostKind::Watch, SignalPostKind::Info] {
        assert_eq!(SignalPostKind::parse(kind.as_str()), Some(kind));
        let cap = kind.capability();
        assert!(cap.starts_with(SIGNAL_CAPABILITY_PREFIX));
        assert!(is_signal_capability(&cap));
        assert_eq!(SignalPostKind::from_capability(&cap), Some(kind));
    }
    assert_eq!(SignalPostKind::Watch.capability(), "urn:thronglets:signal:watch");
    assert_eq!(SignalPostKind::parse("Recommend"), None);
    assert_eq!(SignalPostKind::parse(""), None);
    assert_eq!(SignalPostKind::from_capability("urn:thronglets:signal:"), None);
    assert_eq!(SignalPostKind::from_capability("urn:thronglets:signal:infos"), None);
    assert_eq!(SignalPostKind::from_capability("tool:read"), None);
    assert!(!is_signal_capability("urn:thronglets:signa"));
    assert!(is_signal_capability("urn:thronglets:signal:anything"));
}

#[test]
fn source_keys() {
    let pk = [0xabu8; 32];
    let hex = "ab".repeat(32);
    assert_eq!(source_key(&pk, None), hex);
    assert_eq!(source_key(&pk, Some("s1")), format!("{hex}:s1"));
}

#[test]
fn summaries_are_ranked_and_limited() {
    let posts = vec![
        post(SignalPostKind::Info, "", "low", 5, "x", 10),
        post(SignalPostKind::Recommend, "c", "high", 1, "x", 90),
        post(SignalPostKind::Watch, "c", "tie-more-sources", 1, "x", 50),
        post(SignalPostKind::Watch, "c", "tie-more-sources", 2, "y", 40),
        post(SignalPostKind::Watch, "c", "tie-one-source", 3, "x", 50),
        post(SignalPostKind::Watch, "c", "tie-one-source", 4, "x", 20),
    ];
    let all = summarize_signal_traces(&posts, 10);
    let order: Vec<&str> = all.iter().map(|r| r.message.as_str()).collect();
    assert_eq!(order, vec!["high", "tie-more-sources", "tie-one-source", "low"]);
    assert_eq!(all[1].source_count, 2);
    assert_eq!(all[2].source_count, 1);
    assert_eq!(all[2].total_posts, 2);
    assert_eq!(all[2].latest_timestamp, 4);
    assert!(all[3].contexts.is_empty());
    let top = summarize_signal_traces(&posts, 2);
    assert_eq!(top.len(), 2);
    assert_eq!(top[0].message, "high");
    assert_eq!(top[1].message, "tie-more-sources");
    assert!(summarize_signal_traces(&posts, 0).is_empty());
    assert!(summarize_signal_traces(&[], 5).is_empty());
}

#[test]
fn same_message_of_different_kinds_stays_apart() {
    let posts = vec![
        post(SignalPostKind::Avoid, "a", "m", 1, "x", 30),
        post(SignalPostKind::Recommend, "a", "m", 1, "x", 30),
    ];
    let all = summarize_signal_traces(&posts, 10);
    assert_eq!(all.len(), 2);
    // Equal ranks go by kind name: "avoid" before "recommend".
    assert_eq!(all[0].kind, "avoid");
    assert_eq!(all[1].kind, "recommend");
}

#[test]
fn at_most_three_contexts_listed_in_order() {
    let posts: Vec<SignalPost> = ["d", "b", "a", "c", "b", ""]
        .iter()
        .map(|c| post(SignalPostKind::Info, c, "m", 1, "x", 0))
        .collect();
    let all = summarize_signal_traces(&posts, 10);
    assert_eq!(all.len(), 1);
    assert_eq!(all[0].total_posts, 6);
    assert_eq!(all[0].contexts, vec!["a".to_string(), "b".to_string(), "c".to_string()]);
}
