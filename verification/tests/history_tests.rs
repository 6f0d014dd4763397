use mcp_manager::history::count_newlines;
use mcp_manager::history::history_filepath;
use mcp_manager::history::lock_retry_step;
use mcp_manager::history::lookup;
use mcp_manager::history::needs_permission_fix;
use mcp_manager::history::should_persist;
use mcp_manager::history::trimmed_history;
use mcp_manager::history::HistoryEntry;
use mcp_manager::history::HistoryPersistence;
use mcp_manager::history::LockOutcome;
use mcp_manager::history::LockStep;
use mcp_manager::history::MAX_RETRIES;

fn entry(session_id: &str, ts: u64, text: &str) -> HistoryEntry {
    HistoryEntry { session_id: session_id.to_string(), ts, text: text.to_string() }
}

fn line_bytes(e: &HistoryEntry) -> Vec<u8> {
    let mut b = e.to_line().into_bytes();
    b.push(b'\n');
    b
}

#[test]
fn render_has_expected_shape() {
    let e = entry("abc", 42, "hi");
    assert_eq!(e.to_line(), "{\"session_id\":\"abc\",\"ts\":42,\"text\":\"hi\"}");
}

#[test]
fn render_escapes_specials() {
    let e = entry("s", 0, "a\"b\\c\nd\te\u{1}f");
    assert_eq!(
        e.to_line(),
        "{\"session_id\":\"s\",\"ts\":0,\"text\":\"a\\\"b\\\\c\\nd\\te\\u0001f\"}"
    );
}

#[test]
fn parse_render_round_trip() {
    let e = entry(
        "f47ac10b-58cc-4372-a567-0e02b2c3d479",
        18446744073709551615,
        "text with \"quotes\", back\\slashes,\nnewlines, tabs\t, \u{3} controls and snow☃",
    );
    let back = HistoryEntry::from_line(&e.to_line()).unwrap();
    assert_eq!(back.session_id, e.session_id);
    assert_eq!(back.ts, e.ts);
    assert_eq!(back.text, e.text);
}

#[test]
fn rendered_line_is_valid_json() {
    let e = entry("sid-1", 1700000000, "hello\nworld \"x\" \\ ✓");
    let v: serde_json::Value = serde_json::from_str(&e.to_line()).unwrap();
    assert_eq!(v["session_id"].as_str().unwrap(), "sid-1");
    assert_eq!(v["ts"].as_u64().unwrap(), 1700000000);
    assert_eq!(v["text"].as_str().unwrap(), "hello\nworld \"x\" \\ ✓");
}

#[test]
fn parse_rejects_malformed_lines() {
    assert!(HistoryEntry::from_line("").is_none());
    assert!(HistoryEntry::from_line("{}").is_none());
    assert!(HistoryEntry::from_line("{\"session_id\":\"a\",\"ts\":1,\"text\":\"x\"").is_none());
    assert!(HistoryEntry::from_line("{\"session_id\":\"a\",\"ts\":,\"text\":\"x\"}").is_none());
    assert!(
        HistoryEntry::from_line("{\"session_id\":\"a\",\"ts\":18446744073709551616,\"text\":\"x\"}")
            .is_none()
    );
    assert!(HistoryEntry::from_line("{\"session_id\":\"a\",\"ts\":1,\"text\":\"x\"} ").is_none());
}

#[test]
fn trims_history_to_limit() {
    let id = "f47ac10b-58cc-4372-a567-0e02b2c3d479";
    let mut data: Vec<u8> = Vec::new();
    for text in ["first", "second", "third"] {
        let line = line_bytes(&entry(id, 1700000000, text));
        data = trimmed_history(&data, &line, 100);
    }
    assert!(data.len() <= 100);
    let text = String::from_utf8(data).unwrap();
    let lines: Vec<HistoryEntry> =
        text.lines().map(|l| HistoryEntry::from_line(l).unwrap()).collect();
    assert_eq!(1, lines.len());
    assert_eq!("third", lines[0].text);
}

#[test]
fn append_without_reaching_limit_keeps_everything() {
    let id = "sid";
    let mut data: Vec<u8> = Vec::new();
    for text in ["first", "second"] {
        let line = line_bytes(&entry(id, 7, text));
        data = trimmed_history(&data, &line, 10_000);
    }
    let text = String::from_utf8(data).unwrap();
    let lines: Vec<HistoryEntry> =
        text.lines().map(|l| HistoryEntry::from_line(l).unwrap()).collect();
    assert_eq!(2, lines.len());
    assert_eq!("first", lines[0].text);
    assert_eq!("second", lines[1].text);
}

#[test]
fn trim_without_newline_keeps_newest_bytes() {
    let existing: Vec<u8> = Vec::new();
    let line: Vec<u8> = vec![b'x'; 50];
    let trimmed = trimmed_history(&existing, &line, 10);
    assert_eq!(trimmed, vec![b'x'; 10]);
}

#[test]
fn filters_sensitive_text() {
    let patterns = Some(vec!["secret".to_string()]);
    assert!(!should_persist(&HistoryPersistence::SaveAll, "this is secret", &patterns));
    assert!(should_persist(&HistoryPersistence::SaveAll, "ok", &patterns));
}

#[test]
fn persistence_off_never_writes() {
    assert!(!should_persist(&HistoryPersistence::SaveNone, "anything", &None));
    assert!(should_persist(&HistoryPersistence::SaveAll, "anything", &None));
}

#[test]
fn sensitive_pattern_is_a_real_regex() {
    let patterns = Some(vec!["sec.et".to_string()]);
    assert!(!should_persist(&HistoryPersistence::SaveAll, "a secret here", &patterns));
    assert!(!should_persist(&HistoryPersistence::SaveAll, "sec et", &patterns));
    assert!(should_persist(&HistoryPersistence::SaveAll, "harmless", &patterns));
}

#[test]
fn invalid_sensitive_pattern_is_skipped() {
    let patterns = Some(vec!["(".to_string(), "key".to_string()]);
    assert!(should_persist(&HistoryPersistence::SaveAll, "no match", &patterns));
    assert!(!should_persist(&HistoryPersistence::SaveAll, "the key", &patterns));
}

#[test]
fn count_newlines_counts_entries() {
    assert_eq!(count_newlines(&Vec::new()), 0);
    assert_eq!(count_newlines(&b"one\ntwo\n".to_vec()), 2);
    assert_eq!(count_newlines(&b"unterminated".to_vec()), 0);
}

#[test]
fn lookup_checks_identity_and_offset() {
    let lines = vec![
        entry("a", 1, "first").to_line(),
        entry("a", 2, "second").to_line(),
    ];
    let found = lookup(7, 7, 1, &lines).unwrap();
    assert_eq!(found.text, "second");
    assert_eq!(found.ts, 2);
    assert!(lookup(7, 8, 0, &lines).is_none());
    assert!(lookup(7, 7, 2, &lines).is_none());
}

#[test]
fn lookup_rejects_unparseable_line() {
    let lines = vec!["not a record".to_string()];
    assert!(lookup(1, 1, 0, &lines).is_none());
}

#[test]
fn lock_retry_policy() {
    assert!(matches!(lock_retry_step(0, &LockOutcome::Acquired), LockStep::Done));
    assert!(matches!(lock_retry_step(0, &LockOutcome::Busy), LockStep::RetryAfterDelay));
    assert!(matches!(
        lock_retry_step(MAX_RETRIES - 2, &LockOutcome::Busy),
        LockStep::RetryAfterDelay
    ));
    assert!(matches!(lock_retry_step(MAX_RETRIES - 1, &LockOutcome::Busy), LockStep::GiveUp));
    assert!(matches!(lock_retry_step(3, &LockOutcome::Failed), LockStep::Fail));
}

#[test]
fn permission_fix_only_when_not_owner_only() {
    assert!(!needs_permission_fix(0o600));
    assert!(needs_permission_fix(0o644));
    assert!(needs_permission_fix(0o100600 & 0o777 | 0o044));
    assert!(!needs_permission_fix(0o100600));
}

#[test]
fn history_filepath_appends_filename() {
    assert_eq!(history_filepath("/home/user/.codex"), "/home/user/.codex/history.jsonl");
}
