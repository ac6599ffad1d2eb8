use thronglets::learning::{
    compact_context, compression_debt, learning_session_key, learning_status, view_from_traces, LearningTrace,
    SpaceFeedbackSummary,
};
use thronglets::trace::{MethodCompliance, Outcome};

fn trace(
    capability: &str,
    context: &str,
    session: &str,
    outcome: Outcome,
    compliance: Option<MethodCompliance>,
    trial_key: Option<&str>,
    artifacts: &[&str],
    verification: Option<&str>,
) -> LearningTrace {
    let mut hash = [0u8; 16];
    for (i, b) in context.bytes().enumerate() {
        hash[i % 16] ^= b;
    }
    LearningTrace {
        id: [0u8; 32],
        capability: capability.to_string(),
        context_hash: hash,
        context_text: Some(context.to_string()),
        session_id: Some(session.to_string()),
        device_identity: None,
        outcome,
        method_compliance: compliance,
        trial_key: trial_key.map(|s| s.to_string()),
        artifact_refs: artifacts.iter().map(|s| s.to_string()).collect(),
        verification: verification.map(|s| s.to_string()),
    }
}

fn no_feedback() -> SpaceFeedbackSummary {
    SpaceFeedbackSummary { positive_24h: 0, negative_24h: 0 }
}

#[test]
fn space_snapshot_is_quiet_when_no_recent_activity_exists() {
    let view = view_from_traces(&[], &no_feedback(), 5);
    assert_eq!(view.status, "quiet");
    assert_eq!(view.stable_paths.len(), 0);
    assert_eq!(view.compression_debt.level, "low");
}

#[test]
fn space_learning_surfaces_regression_candidates_from_failed_artifact_traces() {
    let traces: Vec<LearningTrace> = ["s1", "s2"]
        .iter()
        .map(|s| {
            trace(
                "tool:Edit",
                "repair flaky login replay",
                s,
                Outcome::Failed,
                Some(MethodCompliance::Unknown),
                Some("login-repair"),
                &["/tmp/login-replay.mp4"],
                Some("replay"),
            )
        })
        .collect();
    let view = view_from_traces(&traces, &no_feedback(), 5);
    assert_eq!(view.status, "converging");
    assert_eq!(view.regression_candidates[0].trial_key.as_deref(), Some("login-repair"));
    assert_eq!(view.regression_candidates[0].failed_sessions, 2);
    assert_eq!(view.regression_candidates[0].verification.as_deref(), Some("replay"));
    assert_eq!(view.regression_candidates[0].artifact_refs, vec!["/tmp/login-replay.mp4".to_string()]);
}

#[test]
fn space_learning_noncompliant_success_does_not_become_stable_path() {
    let traces: Vec<LearningTrace> = ["s1", "s2", "s3"]
        .iter()
        .map(|s| {
            trace(
                "tool:Edit",
                "duplicate dashboard implementation",
                s,
                Outcome::Succeeded,
                Some(MethodCompliance::Noncompliant),
                None,
                &[],
                None,
            )
        })
        .collect();
    let view = view_from_traces(&traces, &no_feedback(), 5);
    assert_eq!(view.stable_paths.len(), 0);
    assert_eq!(view.failure_residue[0].method_conflict_sessions, 3);
}

#[test]
fn space_learning_compliant_success_becomes_stable_path() {
    let traces: Vec<LearningTrace> = ["s1", "s2", "s3"]
        .iter()
        .map(|s| {
            trace(
                "tool:Read",
                "read Cargo.toml before build fix",
                s,
                Outcome::Succeeded,
                Some(MethodCompliance::Compliant),
                None,
                &[],
                None,
            )
        })
        .collect();
    let view = view_from_traces(&traces, &no_feedback(), 5);
    assert_eq!(view.status, "compressed");
    assert_eq!(view.stable_paths[0].compliant_success_sessions, 3);
    assert_eq!(view.stable_paths[0].context, "read Cargo.toml before build fix");
}

#[test]
fn space_learning_compression_debt_rises_on_conflict_without_regression_artifacts() {
    let mut traces: Vec<LearningTrace> = Vec::new();
    for s in ["f1", "f2"] {
        traces.push(trace("tool:Edit", "patch login flow without regression", s, Outcome::Failed, None, None, &[], None));
    }
    for s in ["s1", "s2"] {
        traces.push(trace(
            "tool:Edit",
            "patch login flow without regression",
            s,
            Outcome::Succeeded,
            Some(MethodCompliance::Noncompliant),
            None,
            &[],
            None,
        ));
    }
    let view = view_from_traces(&traces, &no_feedback(), 5);
    assert_eq!(view.status, "blocked");
    assert_eq!(view.compression_debt.level, "high");
    assert!(view.compression_debt.score_hundredths >= 70);
    assert_eq!(view.compression_debt.score_hundredths, 85);
}

#[test]
fn repeated_sessions_count_once() {
    let traces: Vec<LearningTrace> = ["s1", "s1", "s1", "s2"]
        .iter()
        .map(|s| trace("tool:Read", "ctx", s, Outcome::Succeeded, Some(MethodCompliance::Compliant), None, &[], None))
        .collect();
    let view = view_from_traces(&traces, &no_feedback(), 5);
    assert_eq!(view.stable_paths.len(), 0);
    assert_eq!(view.status, "accumulating");
}

#[test]
fn lists_respect_the_limit_and_rank_by_sessions() {
    let mut traces: Vec<LearningTrace> = Vec::new();
    for (cap, n) in [("tool:A", 3), ("tool:B", 5), ("tool:C", 4)] {
        for i in 0..n {
            traces.push(trace(cap, "same", &format!("s{i}"), Outcome::Succeeded, Some(MethodCompliance::Compliant), None, &[], None));
        }
    }
    let view = view_from_traces(&traces, &no_feedback(), 2);
    assert_eq!(view.stable_paths.len(), 2);
    assert_eq!(view.stable_paths[0].capability, "tool:B");
    assert_eq!(view.stable_paths[1].capability, "tool:C");
    let at_least_one = view_from_traces(&traces, &no_feedback(), 0);
    assert_eq!(at_least_one.stable_paths.len(), 1);
}

#[test]
fn debt_score_and_reasons() {
    let fb = SpaceFeedbackSummary { positive_24h: 0, negative_24h: 2 };
    let d = compression_debt(1, 1, 1, 9, &fb);
    assert_eq!(d.score_hundredths, 100);
    assert_eq!(d.level, "high");
    assert_eq!(
        d.reasons,
        vec![
            "1 method-conflict group(s)".to_string(),
            "1 repeated failure group(s) without artifact-backed regression evidence".to_string(),
            "1 context group(s) have both success and failure residue".to_string(),
            "2 negative local follow event(s) in 24h".to_string(),
            "patch-heavy residue is accumulating without regression artifacts".to_string(),
        ]
    );
    let none = compression_debt(0, 0, 0, 20, &no_feedback());
    assert_eq!(none.score_hundredths, 0);
    assert_eq!(none.level, "low");
    assert!(none.reasons.is_empty());
    let medium = compression_debt(0, 0, 1, 0, &SpaceFeedbackSummary { positive_24h: 0, negative_24h: 1 });
    assert_eq!(medium.score_hundredths, 35);
    assert_eq!(medium.level, "medium");
}

#[test]
fn status_rules() {
    let fb = no_feedback();
    assert_eq!(learning_status(0, 0, 0, 0, 0, &fb), "quiet");
    assert_eq!(learning_status(3, 0, 1, 0, 70, &fb), "blocked");
    assert_eq!(learning_status(3, 1, 0, 0, 34, &fb), "compressed");
    assert_eq!(learning_status(3, 1, 0, 0, 35, &fb), "converging");
    assert_eq!(learning_status(3, 0, 0, 0, 0, &fb), "accumulating");
    let positive = SpaceFeedbackSummary { positive_24h: 1, negative_24h: 0 };
    assert_eq!(learning_status(0, 0, 0, 0, 0, &positive), "converging");
}

#[test]
fn contexts_are_compacted() {
    assert_eq!(compact_context(Some("  hello  "), "cap"), "hello");
    assert_eq!(compact_context(Some("   "), "cap"), "cap");
    assert_eq!(compact_context(None, "cap"), "cap");
    let long = "x".repeat(141);
    let compacted = compact_context(Some(&long), "cap");
    assert_eq!(compacted, format!("{}...", "x".repeat(137)));
    let exact = "y".repeat(140);
    assert_eq!(compact_context(Some(&exact), "cap"), exact);
}

#[test]
fn session_key_falls_back_to_device_then_id() {
    let mut t = trace("tool:Read", "ctx", "sess", Outcome::Succeeded, None, None, &[], None);
    assert_eq!(learning_session_key(&t), "sess");
    t.session_id = None;
    t.device_identity = Some("device-1".to_string());
    assert_eq!(learning_session_key(&t), "device-1");
    t.device_identity = None;
    t.id = [0xab; 32];
    assert_eq!(learning_session_key(&t), "abababababababab");
}

#[test]
fn repeating_every_trace_changes_no_list() {
    let mut traces: Vec<LearningTrace> = Vec::new();
    for s in ["f1", "f2"] {
        traces.push(trace("tool:Edit", "login", s, Outcome::Failed, None, Some("t"), &["/a.mp4"], Some("replay")));
    }
    for s in ["s1", "s2", "s3"] {
        traces.push(trace("tool:Read", "docs", s, Outcome::Succeeded, Some(MethodCompliance::Compliant), None, &[], None));
    }
    let once = view_from_traces(&traces, &no_feedback(), 5);
    let copy = |t: &LearningTrace| LearningTrace {
        id: t.id,
        capability: t.capability.clone(),
        context_hash: t.context_hash,
        context_text: t.context_text.clone(),
        session_id: t.session_id.clone(),
        device_identity: t.device_identity.clone(),
        outcome: t.outcome,
        method_compliance: t.method_compliance,
        trial_key: t.trial_key.clone(),
        artifact_refs: t.artifact_refs.clone(),
        verification: t.verification.clone(),
    };
    let mut doubled: Vec<LearningTrace> = traces.iter().map(copy).collect();
    doubled.extend(traces.iter().map(copy));
    let twice = view_from_traces(&doubled, &no_feedback(), 5);
    assert_eq!(once.stable_paths.len(), twice.stable_paths.len());
    assert_eq!(twice.stable_paths[0].compliant_success_sessions, 3);
    assert_eq!(once.failure_residue.len(), twice.failure_residue.len());
    assert_eq!(twice.regression_candidates[0].failed_sessions, 2);
    assert_eq!(twice.regression_candidates[0].artifact_refs, once.regression_candidates[0].artifact_refs);
}
