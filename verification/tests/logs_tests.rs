use nomansmanager::json::{JsonNumber, JsonValue};
use nomansmanager::logs::{max_lines_from, plan_append, sanitize_at, sanitize_entry, split_lines, LogWrite};
/// A log file held in memory: its text.
struct MemLog {
    text: String,
}

fn entry_line(i: usize) -> String {
    serde_json::to_string(&serde_json::Value::Object({
        let mut m = serde_json::Map::new();
        m.insert("ts".into(), serde_json::Value::String(format!("t{i}")));
        m.insert("level".into(), serde_json::Value::String("info".into()));
        m.insert("source".into(), serde_json::Value::String("test".into()));
        m.insert("msg".into(), serde_json::Value::String(format!("message {i}")));
        m
    }))
    .unwrap()
}

fn append(log: &mut MemLog, max: usize, line: &str) {
    match plan_append(&log.text, line, max) {
        LogWrite::Rewrite(t) => log.text = t,
        LogWrite::Append(t) => log.text.push_str(&t),
    }
}

fn read_msgs(log: &MemLog) -> Vec<String> {
    split_lines(&log.text)
        .iter()
        .filter_map(|l| serde_json::from_str::<serde_json::Value>(l).ok())
        .filter_map(|v| v.get("msg").and_then(|m| m.as_str()).map(|s| s.to_string()))
        .collect()
}

#[test]
fn rotation_keeps_newest_lines() {
    let mut p = MemLog { text: String::new() };
    for i in 0..10 {
        append(&mut p, 4, &entry_line(i));
    }
    let got = read_msgs(&p);
    assert_eq!(got.len(), 4);
    assert_eq!(got[0], "message 6");
    assert_eq!(got[3], "message 9");
}

#[test]
fn sanitize_truncates_and_normalizes() {
    let e = sanitize_entry("bogus", "a-very-long-source-name-that-gets-cut-off-here", &"x".repeat(5000));
    assert_eq!(e.level, "info");
    assert!(e.source.len() <= 32);
    assert_eq!(e.msg.chars().count(), 2000);
    let e2 = sanitize_entry("error", "s", "boom");
    assert_eq!(e2.level, "error");
}

#[test]
fn corrupt_lines_are_skipped() {
    let p = MemLog { text: "not json\n{\"ts\":\"t\",\"level\":\"info\",\"source\":\"s\",\"msg\":\"ok\"}\n{{{bad\n".to_string() };
    let got = read_msgs(&p);
    assert_eq!(got.len(), 1);
    assert_eq!(got[0], "ok");
}

#[test]
fn sanitize_keeps_warn_and_cuts_by_chars() {
    let e = sanitize_at("warn", "ééééééééééééééééééééééééééééééééééé", "short", "T".to_string());
    assert_eq!(e.level, "warn");
    assert_eq!(e.ts, "T");
    assert_eq!(e.source.chars().count(), 32);
    assert_eq!(e.msg, "short");
    let e = sanitize_at("WARN", "s", "m", "T".to_string());
    assert_eq!(e.level, "info");
}

#[test]
fn sanitize_entry_stamps_time() {
    let e = sanitize_entry("info", "s", "m");
    assert!(!e.ts.is_empty());
    assert!(chrono::DateTime::parse_from_rfc3339(&e.ts).is_ok());
}

#[test]
fn lines_match_str_lines() {
    for t in ["", "a", "a\n", "a\nb", "a\r\nb\r\n", "\n", "a\n\nb", "x\r", "\r\n", "a\rb\n"] {
        let ours = split_lines(t);
        let std_lines: Vec<String> = t.lines().map(|s| s.to_string()).collect();
        assert_eq!(ours, std_lines, "text {:?}", t);
    }
}

#[test]
fn append_without_overflow_appends_one_line() {
    match plan_append("a\nb\n", "c", 3) {
        LogWrite::Append(t) => assert_eq!(t, "c\n"),
        other => panic!("unexpected {:?}", other),
    }
}

#[test]
fn append_with_overflow_rewrites_newest() {
    match plan_append("a\nb\nc\n", "d", 2) {
        LogWrite::Rewrite(t) => assert_eq!(t, "c\nd\n"),
        other => panic!("unexpected {:?}", other),
    }
    match plan_append("", "x", 0) {
        LogWrite::Rewrite(t) => assert_eq!(t, ""),
        other => panic!("unexpected {:?}", other),
    }
}

#[test]
fn law_append_keeps_newest_on_values() {
    let mut text = String::new();
    for i in 0..7 {
        let line = format!("line {i}");
        match plan_append(&text, &line, 3) {
            LogWrite::Rewrite(t) => text = t,
            LogWrite::Append(t) => text.push_str(&t),
        }
        let got = split_lines(&text);
        let lo = if i + 1 > 3 { i + 1 - 3 } else { 0 };
        let want: Vec<String> = (lo..=i).map(|k| format!("line {k}")).collect();
        assert_eq!(got, want);
    }
}

fn settings(n: Option<JsonValue>) -> JsonValue {
    match n {
        Some(v) => JsonValue::Object(vec![("logs_max_lines".to_string(), v)]),
        None => JsonValue::Object(vec![]),
    }
}

#[test]
fn max_lines_clamps() {
    assert_eq!(max_lines_from(&settings(None)), 2000);
    assert_eq!(max_lines_from(&settings(Some(JsonValue::Number(JsonNumber::PosInt(5))))), 100);
    assert_eq!(max_lines_from(&settings(Some(JsonValue::Number(JsonNumber::PosInt(500))))), 500);
    assert_eq!(max_lines_from(&settings(Some(JsonValue::Number(JsonNumber::PosInt(10_000_000))))), 100_000);
    assert_eq!(max_lines_from(&settings(Some(JsonValue::Number(JsonNumber::NegInt(-5))))), 2000);
    assert_eq!(max_lines_from(&settings(Some(JsonValue::Str("300".into())))), 2000);
    assert_eq!(max_lines_from(&JsonValue::Null), 2000);
}

#[test]
fn crlf_log_keeps_newest_lines() {
    match plan_append("a\r\nb\r\n", "c", 2) {
        LogWrite::Rewrite(t) => assert_eq!(split_lines(&t), vec!["b".to_string(), "c".to_string()]),
        other => panic!("{:?}", other),
    }
    match plan_append("a\r\nb\r\n", "c", 5) {
        LogWrite::Append(t) => {
            let after = format!("a\r\nb\r\n{}", t);
            assert_eq!(split_lines(&after), vec!["a".to_string(), "b".to_string(), "c".to_string()]);
        }
        other => panic!("{:?}", other),
    }
}
