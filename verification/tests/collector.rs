use ozhlathi::auth::{authenticate, constant_time_eq};
use ozhlathi::config_mgr::{split_host_port, ConfigManager};
use ozhlathi::data::{Config, MachineStatus, MemoryStatus};
use ozhlathi::notify::{dec_str, format_usage, notification_for, notifications, status_color};
use ozhlathi::store::StatusStore;

fn memory(total: u64, available: u64, total_swap: u64, free_swap: u64) -> MemoryStatus {
    MemoryStatus {
        total_memory: total,
        free_memory: available,
        available_memory: available,
        total_swap,
        free_swap,
    }
}

fn status(name: &str, timestamp: Option<i64>, m: MemoryStatus) -> MachineStatus {
    MachineStatus { timestamp, name: name.to_string(), memory: m }
}

#[test]
fn color_boundary_green_at_600() {
    assert_eq!(status_color(Some(1000), 1600), "green");
    assert_eq!(status_color(Some(1000), 1000), "green");
    assert_eq!(status_color(Some(1000), 400), "green");
}

#[test]
fn color_red_past_600() {
    assert_eq!(status_color(Some(1000), 1601), "red");
    assert_eq!(status_color(Some(1000), 399), "red");
    assert_eq!(status_color(Some(i64::MIN), i64::MAX), "red");
}

#[test]
fn color_future_timestamp_fresh_within_window() {
    assert_eq!(status_color(Some(2000), 1500), "green");
    assert_eq!(status_color(Some(2000), 1399), "red");
}

#[test]
fn color_missing_timestamp_is_red() {
    assert_eq!(status_color(None, 0), "red");
}

#[test]
fn dec_str_renders_decimals() {
    assert_eq!(dec_str(0), "0");
    assert_eq!(dec_str(7), "7");
    assert_eq!(dec_str(10), "10");
    assert_eq!(dec_str(12345), "12345");
    assert_eq!(dec_str(u64::MAX as u128), "18446744073709551615");
}

#[test]
fn format_usage_truncating_megabytes_and_percent() {
    assert_eq!(format_usage(8_000_000_000, 16_000_000_000), "8000 MB / 16000 MB (50%)");
    assert_eq!(format_usage(1_999_999, 3_000_000), "1 MB / 3 MB (66%)");
}

#[test]
fn format_usage_zero_total_reports_zero_percent() {
    assert_eq!(format_usage(0, 0), "0 MB / 0 MB (0%)");
    assert_eq!(format_usage(5_000_000, 0), "5 MB / 0 MB (0%)");
}

#[test]
fn notification_example_fresh_node() {
    let st = status("node1", Some(1_000_030 - 30), memory(16_000_000_000, 8_000_000_000, 0, 0));
    let n = notification_for(&st, 1_000_030);
    assert_eq!(n.title, "node1 status");
    assert_eq!(n.color, "green");
    assert_eq!(n.content, "mem: 8000 MB / 16000 MB (50%)\nswap: 0 MB / 0 MB (0%)");
}

#[test]
fn no_reports_give_empty_notification_list() {
    let store = StatusStore::new();
    let (list, _now) = notifications(&store);
    assert!(list.is_empty());
    let none = ozhlathi::notify::derive(&Vec::new(), 12345);
    assert!(none.is_empty());
}

#[test]
fn upsert_keeps_one_entry_per_name_with_latest_snapshot() {
    let mut store = StatusStore::new();
    store.upsert(status("a", None, memory(1, 1, 0, 0)), 100);
    store.upsert(status("b", None, memory(2, 2, 0, 0)), 101);
    store.upsert(status("a", Some(999), memory(3, 3, 0, 0)), 102);
    let all = store.list_all();
    assert_eq!(all.len(), 2);
    let a = all.iter().find(|s| s.name == "a").unwrap();
    let b = all.iter().find(|s| s.name == "b").unwrap();
    assert_eq!(a.timestamp, Some(102));
    assert_eq!(a.memory.total_memory, 3);
    assert_eq!(b.timestamp, Some(101));
    assert_eq!(b.memory.total_memory, 2);
}

#[test]
fn upsert_ignores_submitted_timestamp() {
    let mut store = StatusStore::new();
    store.upsert(status("a", Some(77777), memory(1, 1, 0, 0)), 5);
    let all = store.list_all();
    assert_eq!(all[0].timestamp, Some(5));
}

#[test]
fn upsert_now_stamps_a_timestamp() {
    let mut store = StatusStore::new();
    let t = store.upsert_now(status("a", None, memory(1, 1, 0, 0)));
    let all = store.list_all();
    assert_eq!(all[0].timestamp, Some(t));
}

#[test]
fn interleaved_upserts_lose_no_update() {
    let mut store = StatusStore::new();
    store.upsert(status("a", None, memory(1, 1, 0, 0)), 1);
    store.upsert(status("b", None, memory(2, 2, 0, 0)), 2);
    store.upsert(status("b", None, memory(4, 4, 0, 0)), 3);
    store.upsert(status("a", None, memory(5, 5, 0, 0)), 4);
    let all = store.list_all();
    assert_eq!(all.len(), 2);
    assert_eq!(all.iter().find(|s| s.name == "a").unwrap().memory.total_memory, 5);
    assert_eq!(all.iter().find(|s| s.name == "b").unwrap().memory.total_memory, 4);
}

fn config(url: &str, logins: &[&str], password: &str) -> Config {
    Config {
        url: url.to_string(),
        twitch_logins: logins.iter().map(|l| l.to_string()).collect(),
        password: password.to_string(),
    }
}

#[test]
fn empty_password_allows_anything() {
    let c = config("127.0.0.1:8000", &[], "");
    assert!(authenticate(None, &c));
    assert!(authenticate(Some("whatever"), &c));
    assert!(authenticate(Some(""), &c));
}

#[test]
fn nonempty_password_requires_exact_header() {
    let c = config("127.0.0.1:8000", &[], "secret");
    assert!(authenticate(Some("secret"), &c));
    assert!(!authenticate(Some("wrong"), &c));
    assert!(!authenticate(Some("secret "), &c));
    assert!(!authenticate(None, &c));
}

#[test]
fn constant_time_eq_matches_equality() {
    assert!(constant_time_eq("", ""));
    assert!(constant_time_eq("abc", "abc"));
    assert!(!constant_time_eq("abc", "abd"));
    assert!(!constant_time_eq("abc", "ab"));
    assert!(constant_time_eq("naïve ✓", "naïve ✓"));
    assert!(!constant_time_eq("naïve ✓", "naive ✓"));
}

#[test]
fn config_manager_set_then_get() {
    let mut mgr = ConfigManager::new(config("0.0.0.0:80", &[], ""));
    let c = config("127.0.0.1:9000", &["alpha", "beta"], "pw");
    let persisted = mgr.set_config(c);
    let got = mgr.get_config();
    assert_eq!(got.url, "127.0.0.1:9000");
    assert_eq!(got.twitch_logins, vec!["alpha".to_string(), "beta".to_string()]);
    assert_eq!(got.password, "pw");
    assert!(persisted.contains("twitchLogins"));
}

#[test]
fn split_host_port_accepts_canonical_addresses() {
    assert_eq!(split_host_port("127.0.0.1:8000"), Some(("127.0.0.1".to_string(), 8000)));
    assert_eq!(split_host_port("0.0.0.0:0"), Some(("0.0.0.0".to_string(), 0)));
    assert_eq!(split_host_port("localhost:65535"), Some(("localhost".to_string(), 65535)));
}

#[test]
fn split_host_port_accepts_leading_zero_ports() {
    assert_eq!(split_host_port("host:08000"), Some(("host".to_string(), 8000)));
    assert_eq!(split_host_port("host:00"), Some(("host".to_string(), 0)));
}

#[test]
fn split_host_port_rejects_bad_addresses() {
    assert_eq!(split_host_port("nocolon"), None);
    assert_eq!(split_host_port("host:"), None);
    assert_eq!(split_host_port("host:65536"), None);
    assert_eq!(split_host_port("host:80x"), None);
    assert_eq!(split_host_port("host: 80"), None);
}

#[test]
fn build_report_scales_and_falls_back() {
    let r = ozhlathi::report::build_report("m".to_string(), 16, 4, 8, 2, 1);
    assert_eq!(r.name, "m");
    assert_eq!(r.timestamp, None);
    assert_eq!(r.memory.total_memory, 16 * 1024);
    assert_eq!(r.memory.free_memory, 4 * 1024);
    assert_eq!(r.memory.available_memory, 8 * 1024);
    assert_eq!(r.memory.total_swap, 2 * 1024);
    assert_eq!(r.memory.free_swap, 1024);
    let fallback = ozhlathi::report::build_report("m".to_string(), 16, 4, 0, 0, 0);
    assert_eq!(fallback.memory.available_memory, 4 * 1024);
    let saturated = ozhlathi::report::build_report("m".to_string(), u64::MAX, 0, 1, 0, 0);
    assert_eq!(saturated.memory.total_memory, u64::MAX);
}
