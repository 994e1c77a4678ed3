use herdr_tab_naming::config::{config_dir, config_path, load, Config};
use herdr_tab_naming::path::PathParts;
use herdr_tab_naming::state::{
    decide, is_default_label, is_watcher_cmdline, labels_path, log_path, parse_pid, pid_path,
    state_dir, stop_path, Decision, Labels, State,
};

#[test]
fn defaults_match_documented_smart_default() {
    let cfg = Config::default();
    assert_eq!(cfg.template, "{repo} {ticket}");
    assert_eq!(cfg.poll_ms, 1000);
    assert!(!cfg.overwrite_manual);
}

#[test]
fn first_run_adopts_everything() {
    assert_eq!(decide("BACK-565", None, true, false), Decision::Ours);
}

#[test]
fn manual_labels_are_respected() {
    assert_eq!(
        decide("my-tab", Some("llama-rs"), false, false),
        Decision::Manual
    );
    assert_eq!(decide("my-tab", None, false, false), Decision::Manual);
}

#[test]
fn owned_labels_stay_ours() {
    assert_eq!(
        decide("llama-rs", Some("llama-rs"), false, false),
        Decision::Ours
    );
}

#[test]
fn numeric_default_labels_are_adopted() {
    assert_eq!(decide("3", None, false, false), Decision::Ours);
}

#[test]
fn overwrite_manual_forces_adoption() {
    assert_eq!(
        decide("my-tab", Some("llama-rs"), false, true),
        Decision::Ours
    );
}

#[test]
fn detect_manual_then_owned_transition() {
    let dir = "/tmp/whatever";
    assert!(is_default_label("12"));
    assert!(!is_default_label("12a"));
    assert_eq!(
        decide("BACK-565", Some("BACK-565"), false, false),
        Decision::Ours
    );
    let _ = dir;
}

// -- more cases -------------------------------------------------------------

#[test]
fn empty_label_is_not_default() {
    assert!(!is_default_label(""));
    assert_eq!(decide("", None, false, false), Decision::Manual);
    assert!(!is_default_label("٣"));
}

#[test]
fn labels_read_back_what_was_written() {
    let mut labels = Labels::new();
    assert!(labels.is_empty());
    labels.insert("w1:t1".to_string(), "llama-rs".to_string());
    labels.insert("w1:t2".to_string(), "beta".to_string());
    labels.insert("w1:t1".to_string(), "llama-rs BACK-565".to_string());
    assert_eq!(labels.len(), 2);
    assert_eq!(
        labels.get("w1:t1").map(String::as_str),
        Some("llama-rs BACK-565")
    );
    assert_eq!(labels.get("w1:t2").map(String::as_str), Some("beta"));
    assert_eq!(labels.get("w1:t3"), None);
    let mut entries = labels.entries();
    entries.sort();
    assert_eq!(
        entries,
        vec![
            ("w1:t1".to_string(), "llama-rs BACK-565".to_string()),
            ("w1:t2".to_string(), "beta".to_string())
        ]
    );
    let state = State { labels: labels.clone() };
    assert_eq!(state.labels.len(), 2);
}

#[test]
fn state_files_live_in_the_state_dir() {
    let dir = PathParts::parse("/home/u/.local/state/herdr-tab-naming");
    assert_eq!(
        labels_path(&dir).display(),
        "/home/u/.local/state/herdr-tab-naming/labels.json"
    );
    assert_eq!(
        pid_path(&dir).display(),
        "/home/u/.local/state/herdr-tab-naming/watcher.pid"
    );
    assert_eq!(
        log_path(&dir).display(),
        "/home/u/.local/state/herdr-tab-naming/watcher.log"
    );
    assert_eq!(
        stop_path(&dir).display(),
        "/home/u/.local/state/herdr-tab-naming/stop"
    );
    let rel = PathParts::parse(".herdr-tab-naming");
    assert_eq!(labels_path(&rel).display(), ".herdr-tab-naming/labels.json");
    let cfg_dir = PathParts::parse("/home/u/.config/herdr-tab-naming/");
    assert_eq!(
        config_path(&cfg_dir).display(),
        "/home/u/.config/herdr-tab-naming/config.json"
    );
}

#[test]
fn load_falls_back_and_raises_the_interval() {
    let cfg = load(None);
    assert_eq!(cfg, Config::default());
    let mut fast = Config::default();
    fast.poll_ms = 10;
    fast.max_length = 20;
    let cfg = load(Some(fast));
    assert_eq!(cfg.poll_ms, 200);
    assert_eq!(cfg.max_length, 20);
    let mut slow = Config::default();
    slow.poll_ms = 5000;
    assert_eq!(load(Some(slow)).poll_ms, 5000);
}

#[test]
fn pid_file_text_is_read_like_u32_from_str() {
    assert_eq!(parse_pid("1234\n"), Some(1234));
    assert_eq!(parse_pid("  +42 "), Some(42));
    assert_eq!(parse_pid("007"), Some(7));
    assert_eq!(parse_pid("4294967295"), Some(u32::MAX));
    assert_eq!(parse_pid("4294967296"), None);
    assert_eq!(parse_pid("99999999999"), None);
    assert_eq!(parse_pid(""), None);
    assert_eq!(parse_pid("  "), None);
    assert_eq!(parse_pid("+"), None);
    assert_eq!(parse_pid("-5"), None);
    assert_eq!(parse_pid("12a"), None);
    for text in ["1234\n", "  +42 ", "007", "4294967296", "", "+", "-5", "12a"] {
        assert_eq!(parse_pid(text), text.trim().parse::<u32>().ok());
    }
}

#[test]
fn watcher_command_lines() {
    assert!(is_watcher_cmdline("/usr/bin/herdr-tab-naming\0watch\0"));
    assert!(!is_watcher_cmdline("/usr/bin/herdr-tab-naming\0status\0"));
    assert!(!is_watcher_cmdline("vim\0watch\0"));
    assert!(!is_watcher_cmdline(""));
}

#[test]
fn plugin_directories_fall_back_to_home_then_cwd() {
    let plugin = PathParts::parse("/run/plugin");
    let home = PathParts::parse("/home/q");
    assert_eq!(config_dir(Some(plugin.clone_path()), Some(&home)).display(), "/run/plugin");
    assert_eq!(config_dir(None, Some(&home)).display(), "/home/q/.config/herdr-tab-naming");
    assert_eq!(config_dir(None, None).display(), ".herdr-tab-naming");
    assert_eq!(state_dir(Some(plugin.clone_path()), Some(&home)).display(), "/run/plugin");
    assert_eq!(state_dir(None, Some(&home)).display(), "/home/q/.local/state/herdr-tab-naming");
    assert_eq!(state_dir(None, None).display(), ".herdr-tab-naming");
}
