use thronglets::workspace::{extract_error, extract_file_path, WorkspaceState, MAX_RECENT_ERRORS, MAX_RECENT_FILES, MAX_SESSIONS};

#[test]
fn repeated_touch_within_window_updates_entry() {
    let mut w = WorkspaceState::new();
    w.record_file_at("a.rs".into(), "edit", "first".into(), "ok", 1_000);
    w.record_file_at("a.rs".into(), "edit", "second".into(), "failed", 2_500);
    assert_eq!(w.recent_files.len(), 1);
    assert_eq!(w.recent_files[0].context, "second");
    assert_eq!(w.recent_files[0].outcome, "failed");
    assert_eq!(w.recent_files[0].timestamp_ms, 2_500);
    assert_eq!(w.updated_ms, 1_000);
    w.record_file_at("a.rs".into(), "edit", "third".into(), "ok", 4_500);
    assert_eq!(w.recent_files.len(), 2);
    w.record_file_at("a.rs".into(), "read", "fourth".into(), "ok", 4_600);
    assert_eq!(w.recent_files.len(), 3);
    assert_eq!(w.recent_files[0].action, "read");
}

#[test]
fn histories_are_bounded() {
    let mut w = WorkspaceState::default();
    for i in 0..30i64 {
        w.record_file_at(format!("f{i}.rs"), "edit", "c".into(), "ok", i * 10_000);
        w.record_error_at("Bash", "c".into(), format!("error {i}"), i * 10_000);
        w.track_session_at(&format!("s{i}"), "Bash", false, i * 10_000);
    }
    assert_eq!(w.recent_files.len(), MAX_RECENT_FILES);
    assert_eq!(w.recent_errors.len(), MAX_RECENT_ERRORS);
    assert_eq!(w.sessions.len(), MAX_SESSIONS);
    assert_eq!(w.recent_files[0].path, "f29.rs");
    assert_eq!(w.recent_errors[0].error_snippet, "error 29");
    assert_eq!(w.sessions[0].session_id, "s29");
}

#[test]
fn sessions_count_calls_and_capabilities() {
    let mut w = WorkspaceState::new();
    w.track_session_at("s", "Read", false, 10);
    w.track_session_at("s", "Edit", true, 20);
    w.track_session_at("s", "Read", false, 30);
    for cap in ["A", "B", "C", "D", "E"] {
        w.track_session_at("s", cap, false, 40);
    }
    let s = &w.sessions[0];
    assert_eq!(w.sessions.len(), 1);
    assert_eq!(s.tool_count, 8);
    assert_eq!(s.error_count, 1);
    assert_eq!(s.started_ms, 10);
    assert_eq!(s.last_seen_ms, 40);
    assert_eq!(s.top_capabilities, vec!["Read", "Edit", "A"]);
}

#[test]
fn context_hints_render_history_errors_and_previous_session() {
    let mut w = WorkspaceState::new();
    w.record_file_at("src/main.rs".into(), "edit", "fix bug".into(), "ok", 1_000_000);
    w.record_error_at("Bash", "cargo build".into(), "error: x".into(), 1_000_500);
    w.track_session_at("s1", "Edit", false, 1_000_000);
    let hints = w.context_hints_at("Bash", Some("src/main.rs"), 1_600_000).unwrap();
    assert_eq!(
        hints,
        "  file history for src/main.rs:\n    10m ago: edit \u{2014} fix bug [ok]\n  recent Bash errors:\n    9m ago: error: x\n  previous session (0h ago): 1 tool calls, 0 errors, used: Edit"
    );
    assert_eq!(w.context_hints_at("Read", None, 1_010_000), None);
    assert_eq!(w.context_hints_at("Bash", None, 1_000_000 + 24 * 3_600_000 + 1), None);
    assert_eq!(WorkspaceState::new().context_hints_at("Bash", None, 5), None);
}

#[test]
fn relative_ages() {
    assert_eq!(WorkspaceState::age_str(59_999, 0), "59s ago");
    assert_eq!(WorkspaceState::age_str(60_000, 0), "1m ago");
    assert_eq!(WorkspaceState::age_str(3_600_000, 0), "1h ago");
    assert_eq!(WorkspaceState::age_str(90_000_000, 0), "1d ago");
    assert_eq!(WorkspaceState::age_str(0, 5_000), "-5s ago");
}

#[test]
fn file_paths_by_tool() {
    assert_eq!(extract_file_path("Read", Some("a.rs"), Some("dir")), Some("a.rs".to_string()));
    assert_eq!(extract_file_path("Edit", None, Some("dir")), None);
    assert_eq!(extract_file_path("Grep", Some("a.rs"), Some("dir")), Some("dir".to_string()));
    assert_eq!(extract_file_path("Glob", None, Some("src")), Some("src".to_string()));
    assert_eq!(extract_file_path("Bash", Some("a.rs"), Some("dir")), None);
}

#[test]
fn errors_from_responses() {
    assert_eq!(extract_error(Some("boom"), None), Some("boom".to_string()));
    assert_eq!(extract_error(None, Some("build failed")), Some("build failed".to_string()));
    assert_eq!(extract_error(None, Some("all good")), None);
    assert_eq!(extract_error(None, None), None);
    let long = "e".repeat(400);
    assert_eq!(extract_error(Some(&long), None), Some("e".repeat(300)));
}

#[test]
fn workspace_file_lives_in_data_dir() {
    assert_eq!(WorkspaceState::path("/home/u/.thronglets"), "/home/u/.thronglets/workspace.json");
}
