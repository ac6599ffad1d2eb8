use thronglets::network_state::{age, NetworkSnapshot, RECENT_BOOTSTRAP_WINDOW_MS};

#[test]
fn status_defaults_to_offline_without_snapshot() {
    let status = NetworkSnapshot::default().to_status();
    assert_eq!(status.activity, "offline");
    assert_eq!(status.transport_mode, "offline");
    assert_eq!(status.vps_dependency_level, "offline");
    assert_eq!(status.peer_count, 0);
}

#[test]
fn bootstrap_only_status_is_detected() {
    let snapshot = NetworkSnapshot::begin(1);
    let status = snapshot.to_status();
    assert_eq!(status.activity, "bootstrapping");
    assert_eq!(status.vps_dependency_level, "bootstrap-only");
    assert!(status.bootstrap_contacted_recently);
}

#[test]
fn peer_native_status_is_detected_without_bootstrap() {
    let mut snapshot = NetworkSnapshot::begin(0);
    snapshot.mark_peer_connected(2);
    let status = snapshot.to_status();
    assert_eq!(status.activity, "connected");
    assert_eq!(status.transport_mode, "direct");
    assert_eq!(status.vps_dependency_level, "peer-native");
}

#[test]
fn bootstrap_contact_expires_after_window() {
    let snapshot = NetworkSnapshot::begin_at(2, 1_000);
    let fresh = snapshot.to_status_at(1_000 + RECENT_BOOTSTRAP_WINDOW_MS);
    assert!(fresh.bootstrap_contacted_recently);
    assert_eq!(fresh.activity, "bootstrapping");
    let stale = snapshot.to_status_at(1_001 + RECENT_BOOTSTRAP_WINDOW_MS);
    assert!(!stale.bootstrap_contacted_recently);
    assert_eq!(stale.activity, "offline");
    assert_eq!(stale.last_bootstrap_contact_age_ms, Some(1 + RECENT_BOOTSTRAP_WINDOW_MS));
}

#[test]
fn dependency_level_follows_peer_count() {
    let mut snapshot = NetworkSnapshot::begin_at(1, 0);
    snapshot.mark_peer_connected_at(1, 10);
    assert_eq!(snapshot.to_status_at(20).vps_dependency_level, "high");
    snapshot.mark_peer_connected_at(2, 30);
    assert_eq!(snapshot.to_status_at(40).vps_dependency_level, "medium");
    snapshot.mark_peer_connected_at(3, 50);
    let status = snapshot.to_status_at(60);
    assert_eq!(status.vps_dependency_level, "low");
    assert_eq!(status.last_peer_connected_age_ms, Some(10));
}

#[test]
fn disconnect_and_trace_updates() {
    let mut snapshot = NetworkSnapshot::begin_at(0, 0);
    snapshot.mark_peer_connected_at(2, 100);
    snapshot.mark_peer_disconnected_at(0, 200);
    assert_eq!(snapshot.peer_count, 0);
    assert_eq!(snapshot.updated_at_ms, 200);
    assert_eq!(snapshot.last_peer_connected_at_ms, Some(100));
    snapshot.mark_trace_received_at(300);
    assert_eq!(snapshot.last_trace_received_at_ms, Some(300));
    let status = snapshot.to_status_at(350);
    assert_eq!(status.activity, "offline");
    assert_eq!(status.last_trace_received_age_ms, Some(50));
}

#[test]
fn age_saturates() {
    assert_eq!(age(10, Some(4)), Some(6));
    assert_eq!(age(10, None), None);
    assert_eq!(age(i64::MAX, Some(-5)), Some(i64::MAX));
    assert_eq!(age(i64::MIN, Some(5)), Some(i64::MIN));
}

#[test]
fn status_file_lives_in_data_dir() {
    assert_eq!(NetworkSnapshot::status_path("data"), "data/network-status.v1.json");
    assert_eq!(NetworkSnapshot::status_path("data/"), "data/network-status.v1.json");
    assert_eq!(NetworkSnapshot::status_path(""), "network-status.v1.json");
}

#[test]
fn status_json_surfaces_network_snapshot() {
    let mut snapshot = NetworkSnapshot::begin(2);
    snapshot.mark_peer_connected(3);
    snapshot.mark_trace_received();
    let status = snapshot.to_status();
    assert_eq!(status.activity, "connected");
    assert_eq!(status.transport_mode, "direct");
    assert_eq!(status.vps_dependency_level, "low");
    assert_eq!(status.peer_count, 3);
    assert_eq!(status.bootstrap_targets, 2);
}
