use std::cell::RefCell;
use serde_json::Value;
use thronglets::setup_support::{
    claude_settings_update, codex_config_update, codex_server_args, ensure_codex_agents_block,
    openclaw_config_update, restart_openclaw_gateway, should_configure_codex, should_configure_openclaw, ConfigError,
    CODEX_AGENTS_BLOCK, CODEX_AGENTS_END, CODEX_AGENTS_START, OPENCLAW_PLUGIN_ID,
};

#[test]
fn install_codex_replaces_existing_managed_block() {
    let before = format!("Intro\n\n{CODEX_AGENTS_START}\nold block\n{CODEX_AGENTS_END}\n");
    let updated = ensure_codex_agents_block(&before);
    assert!(updated.is_some());
    let agents = updated.unwrap();
    assert!(!agents.contains("old block"));
    assert_eq!(agents.matches(CODEX_AGENTS_START).count(), 1);
    assert_eq!(agents, format!("Intro\n\n{CODEX_AGENTS_BLOCK}\n"));
}

#[test]
fn rerun_replaces_the_block_up_to_its_end_marker() {
    // The replaced range ends with the end marker, so the newline that
    // followed it stays after the fresh block.
    let current = format!("Intro\n\n{CODEX_AGENTS_BLOCK}\n");
    assert_eq!(ensure_codex_agents_block(&current), Some(format!("Intro\n\n{CODEX_AGENTS_BLOCK}\n\n")));
    let only = format!("{CODEX_AGENTS_BLOCK}");
    assert_eq!(ensure_codex_agents_block(&only), Some(format!("{CODEX_AGENTS_BLOCK}\n")));
}

#[test]
fn managed_block_is_appended_after_existing_notes() {
    let updated = ensure_codex_agents_block("# Notes\nkeep me\n\n  \n").unwrap();
    assert_eq!(updated, format!("# Notes\nkeep me\n\n{CODEX_AGENTS_BLOCK}\n"));
    let blank = ensure_codex_agents_block(" \n\t").unwrap();
    assert_eq!(blank, format!("{CODEX_AGENTS_BLOCK}\n"));
    // A lone start marker is no block: the block is appended.
    let lone = format!("{CODEX_AGENTS_START}\n");
    let appended = ensure_codex_agents_block(&lone).unwrap();
    assert_eq!(appended, format!("{CODEX_AGENTS_START}\n\n{CODEX_AGENTS_BLOCK}\n"));
}

#[test]
fn configuration_targets() {
    assert!(!should_configure_openclaw(false, false, false));
    assert!(should_configure_openclaw(false, true, false));
    assert!(should_configure_openclaw(false, false, true));
    assert!(!should_configure_codex(false, false));
    assert!(should_configure_codex(false, true));
}

#[test]
fn gateway_falls_back_from_restart_to_start() {
    let calls = RefCell::new(Vec::new());
    let ok = restart_openclaw_gateway(|sub: &'static str| {
        calls.borrow_mut().push(sub);
        sub == "start"
    });
    assert!(ok);
    assert_eq!(*calls.borrow(), vec!["restart", "start"]);
    let first = RefCell::new(Vec::new());
    assert!(restart_openclaw_gateway(|sub: &'static str| {
        first.borrow_mut().push(sub);
        true
    }));
    assert_eq!(*first.borrow(), vec!["restart"]);
    assert!(!restart_openclaw_gateway(|_sub: &'static str| false));
}

#[test]
fn install_openclaw_writes_plugin_assets_and_config() {
    assert!(should_configure_openclaw(true, false, false));
    let plugin_dir = "/data/thronglets-ai";
    let content = openclaw_config_update(None, plugin_dir, "/tmp/thronglets", "/data", "0.3.0");
    let config: Value = serde_json::from_str(&content).unwrap();
    assert_eq!(config["plugins"]["entries"][OPENCLAW_PLUGIN_ID]["enabled"], Value::Bool(true));
    assert_eq!(
        config["plugins"]["entries"][OPENCLAW_PLUGIN_ID]["config"]["binaryPath"],
        Value::String("/tmp/thronglets".into())
    );
    assert!(config["plugins"]["load"]["paths"].as_array().unwrap().iter().any(|value| value.as_str() == Some(plugin_dir)));
    assert_eq!(config["plugins"]["installs"][OPENCLAW_PLUGIN_ID]["resolvedSpec"], Value::String("thronglets-ai@0.3.0".into()));
}

#[test]
fn install_openclaw_deduplicates_existing_entries() {
    let plugin_dir = "/data/thronglets-ai";
    let current = format!(
        r#"{{"plugins": {{"allow": ["{OPENCLAW_PLUGIN_ID}"], "load": {{"paths": ["{plugin_dir}"]}}, "entries": {{"{OPENCLAW_PLUGIN_ID}": {{"enabled": true}}}}}}, "other": 7}}"#
    );
    let content = openclaw_config_update(Some(&current), plugin_dir, "/tmp/thronglets", "/data", "0.3.0");
    let config: Value = serde_json::from_str(&content).unwrap();
    assert_eq!(config["plugins"]["allow"].as_array().unwrap().len(), 1);
    assert_eq!(config["plugins"]["load"]["paths"].as_array().unwrap().len(), 1);
    assert_eq!(config["other"], Value::from(7));
}

#[test]
fn install_codex_writes_mcp_server_and_agents_memory() {
    assert!(should_configure_codex(true, false));
    let update = codex_config_update(None, "/tmp/thronglets", "/data").unwrap();
    assert!(update.created_server);
    let config: toml::Table = toml::from_str(&update.content).unwrap();
    let server = config["mcp_servers"]["thronglets"].as_table().unwrap();
    assert_eq!(server["command"].as_str(), Some("/tmp/thronglets"));
    assert_eq!(
        server["args"].as_array().unwrap(),
        &vec![
            toml::Value::String("--data-dir".into()),
            toml::Value::String("/data".into()),
            toml::Value::String("mcp".into()),
        ]
    );
    assert_eq!(codex_server_args("/data"), vec!["--data-dir".to_string(), "/data".to_string(), "mcp".to_string()]);
    let agents = ensure_codex_agents_block("").unwrap();
    assert!(agents.contains(CODEX_AGENTS_START));
    assert!(agents.contains("substrate_query"));
    assert!(agents.contains("trace_record"));
}

#[test]
fn codex_keeps_other_settings_and_refuses_non_tables() {
    let current = "model = \"o3\"\n[mcp_servers.other]\ncommand = \"x\"\n[mcp_servers.thronglets]\nenv = { A = \"1\" }\n";
    let update = codex_config_update(Some(current), "/bin/t", "/d").unwrap();
    assert!(!update.created_server);
    let config: toml::Table = toml::from_str(&update.content).unwrap();
    assert_eq!(config["model"].as_str(), Some("o3"));
    assert_eq!(config["mcp_servers"]["other"]["command"].as_str(), Some("x"));
    assert_eq!(config["mcp_servers"]["thronglets"]["env"]["A"].as_str(), Some("1"));
    assert_eq!(config["mcp_servers"]["thronglets"]["command"].as_str(), Some("/bin/t"));
    assert!(matches!(codex_config_update(Some("mcp_servers = 3"), "/bin/t", "/d"), Err(ConfigError::NotAnObject)));
    assert!(codex_config_update(Some("not toml ["), "/bin/t", "/d").unwrap().created_server);
}

#[test]
fn hooks_are_added_once() {
    let first = claude_settings_update(None, "/usr/bin/thronglets", "Edit|Write").unwrap();
    assert!(first.added_post_hook && first.added_pre_hook);
    let settings: Value = serde_json::from_str(&first.content).unwrap();
    assert_eq!(settings["hooks"]["PostToolUse"][0]["hooks"][0]["command"], Value::String("/usr/bin/thronglets hook".into()));
    assert_eq!(settings["hooks"]["PreToolUse"][0]["matcher"], Value::String("Edit|Write".into()));
    assert_eq!(settings["hooks"]["PreToolUse"][0]["hooks"][0]["command"], Value::String("/usr/bin/thronglets prehook".into()));
    let again = claude_settings_update(Some(&first.content), "/usr/bin/thronglets", "Edit|Write").unwrap();
    assert!(!again.added_post_hook && !again.added_pre_hook);
    let same: Value = serde_json::from_str(&again.content).unwrap();
    assert_eq!(same, settings);
}

#[test]
fn hooks_join_existing_lists_and_keep_other_settings() {
    let current = r#"{"theme": "dark", "hooks": {"PostToolUse": [{"matcher": "Bash", "hooks": [{"type": "command", "command": "other"}]}], "Stop": []}}"#;
    let update = claude_settings_update(Some(current), "/b", "").unwrap();
    assert!(update.added_post_hook && update.added_pre_hook);
    let settings: Value = serde_json::from_str(&update.content).unwrap();
    assert_eq!(settings["theme"], Value::String("dark".into()));
    assert_eq!(settings["hooks"]["Stop"], Value::Array(vec![]));
    assert_eq!(settings["hooks"]["PostToolUse"].as_array().unwrap().len(), 2);
    assert!(claude_settings_update(Some("[1, 2]"), "/b", "").is_err());
    assert!(claude_settings_update(Some(r#"{"hooks": "x"}"#), "/b", "").is_err());
    assert!(claude_settings_update(Some("not json"), "/b", "").unwrap().added_post_hook);
    assert!(claude_settings_update(Some("null"), "/b", "").is_ok());
}

#[test]
fn written_documents_name_each_member_once() {
    let current = r#"{"hooks": {"PreToolUse": [], "Stop": []}, "theme": "dark"}"#;
    let update = claude_settings_update(Some(current), "/b/thronglets", "Edit").unwrap();
    assert_eq!(update.content.matches("\"hooks\": {").count(), 1);
    assert_eq!(update.content.matches("\"PreToolUse\"").count(), 1);
    assert_eq!(update.content.matches("\"PostToolUse\"").count(), 1);
    let config = openclaw_config_update(Some(r#"{"plugins": {"allow": ["x"]}}"#), "/p", "/b", "/d", "1.0");
    assert_eq!(config.matches("\"plugins\"").count(), 1);
    assert_eq!(config.matches("\"allow\"").count(), 1);
    let codex = codex_config_update(Some("[mcp_servers.thronglets]\ncommand = \"old\"\n"), "/b", "/d").unwrap();
    assert_eq!(codex.content.matches("command =").count(), 1);
    assert!(!codex.created_server);
}

#[test]
fn configuring_again_changes_nothing() {
    let first = codex_config_update(Some("model = \"o3\"\n"), "/b/thronglets", "/d").unwrap();
    assert!(first.created_server);
    let again = codex_config_update(Some(&first.content), "/b/thronglets", "/d").unwrap();
    assert!(!again.created_server);
    assert_eq!(again.content, first.content);
    let config = openclaw_config_update(None, "/p", "/b", "/d", "1.0");
    let config_again = openclaw_config_update(Some(&config), "/p", "/b", "/d", "1.0");
    let a: Value = serde_json::from_str(&config).unwrap();
    let b: Value = serde_json::from_str(&config_again).unwrap();
    assert_eq!(a, b);
}
