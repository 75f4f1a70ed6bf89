use engine::parser::json::{
    end_of_json_string, extract_number_field, extract_string_field, level_from_str, parse, parse_line,
};
use engine::types::{LogEntry, LogFile, LogLevel};

// ---- extract_string_field ----

#[test]
fn extracts_simple_field() {
    let line = r#"{"timestamp":"2024-01-15T14:23:05Z","level":"error"}"#;
    assert_eq!(
        extract_string_field(line, "timestamp"),
        Some("2024-01-15T14:23:05Z")
    );
}

#[test]
fn extracts_second_field() {
    let line = r#"{"timestamp":"2024-01-15T14:23:05Z","level":"error"}"#;
    assert_eq!(extract_string_field(line, "level"), Some("error"));
}

#[test]
fn rejects_key_inside_value() {
    // "level" appears inside the "message" value — must not match as a key
    let line = r#"{"message":"the level was high","level":"warn"}"#;
    assert_eq!(extract_string_field(line, "level"), Some("warn"));
}

#[test]
fn handles_escaped_quote_in_value() {
    let line = r#"{"msg":"say \"hello\"","level":"info"}"#;
    assert_eq!(extract_string_field(line, "msg"), Some(r#"say \"hello\""#));
    assert_eq!(extract_string_field(line, "level"), Some("info"));
}

#[test]
fn returns_none_for_absent_key() {
    let line = r#"{"message":"hi"}"#;
    assert_eq!(extract_string_field(line, "level"), None);
}

#[test]
fn extracts_at_timestamp_alias() {
    let line = r#"{"@timestamp":"2024-01-15T14:23:05.000Z","severity":"WARN"}"#;
    assert_eq!(
        extract_string_field(line, "@timestamp"),
        Some("2024-01-15T14:23:05.000Z")
    );
}

// ---- level_from_str ----

#[test]
fn level_error_keywords() {
    for s in &["error", "ERROR", "Error", "fatal", "CRITICAL", "crit"] {
        assert_eq!(level_from_str(s), LogLevel::Error, "input: {s}");
    }
}

#[test]
fn level_warn_keywords() {
    for s in &["warn", "WARN", "warning", "WARNING"] {
        assert_eq!(level_from_str(s), LogLevel::Warn, "input: {s}");
    }
}

#[test]
fn level_info_keywords() {
    for s in &["info", "INFO", "information"] {
        assert_eq!(level_from_str(s), LogLevel::Info, "input: {s}");
    }
}

#[test]
fn level_debug_keywords() {
    assert_eq!(level_from_str("debug"), LogLevel::Debug);
    assert_eq!(level_from_str("DEBUG"), LogLevel::Debug);
}

#[test]
fn level_trace_keywords() {
    assert_eq!(level_from_str("trace"),   LogLevel::Trace);
    assert_eq!(level_from_str("verbose"), LogLevel::Trace);
}

#[test]
fn level_numeric_bunyan() {
    assert_eq!(level_from_str("60"), LogLevel::Error);
    assert_eq!(level_from_str("50"), LogLevel::Warn);
    assert_eq!(level_from_str("40"), LogLevel::Info);
    assert_eq!(level_from_str("30"), LogLevel::Debug);
    assert_eq!(level_from_str("20"), LogLevel::Trace);
    assert_eq!(level_from_str("10"), LogLevel::Trace);
}

#[test]
fn level_unknown_fallback() {
    assert_eq!(level_from_str("notice"), LogLevel::Unknown);
    assert_eq!(level_from_str(""),       LogLevel::Unknown);
}

// ---- parse (integration) ----

fn make_entry(raw: &str, level: Option<LogLevel>) -> LogEntry {
    LogEntry {
        line_number: 1,
        raw: raw.to_owned(),
        timestamp: None,
        level,
    }
}

fn make_log(entries: Vec<LogEntry>) -> LogFile {
    LogFile {
        path: String::from("/fake/app.json"),
        entries,
        format: None,
    }
}

#[test]
fn parse_standard_fields() {
    let raw = r#"{"timestamp":"2024-01-15T14:23:05Z","level":"error","message":"oops"}"#;
    let mut lf = make_log(vec![make_entry(raw, Some(LogLevel::Unknown))]);
    parse(&mut lf);
    assert_eq!(lf.entries[0].timestamp.as_deref(), Some("2024-01-15T14:23:05Z"));
    assert_eq!(lf.entries[0].level, Some(LogLevel::Error));
}

#[test]
fn parse_alias_time_and_severity() {
    let raw = r#"{"time":"2024-06-01T00:00:00Z","severity":"WARN","msg":"low disk"}"#;
    let mut lf = make_log(vec![make_entry(raw, Some(LogLevel::Unknown))]);
    parse(&mut lf);
    assert_eq!(lf.entries[0].timestamp.as_deref(), Some("2024-06-01T00:00:00Z"));
    assert_eq!(lf.entries[0].level, Some(LogLevel::Warn));
}

#[test]
fn parse_alias_ts_and_lvl() {
    let raw = r#"{"ts":"2024-06-01T12:00:00Z","lvl":"debug"}"#;
    let mut lf = make_log(vec![make_entry(raw, Some(LogLevel::Unknown))]);
    parse(&mut lf);
    assert_eq!(lf.entries[0].timestamp.as_deref(), Some("2024-06-01T12:00:00Z"));
    assert_eq!(lf.entries[0].level, Some(LogLevel::Debug));
}

#[test]
fn parse_at_timestamp_alias() {
    let raw = r#"{"@timestamp":"2024-06-01T08:00:00.000Z","level":"info"}"#;
    let mut lf = make_log(vec![make_entry(raw, Some(LogLevel::Unknown))]);
    parse(&mut lf);
    assert_eq!(lf.entries[0].timestamp.as_deref(), Some("2024-06-01T08:00:00.000Z"));
    assert_eq!(lf.entries[0].level, Some(LogLevel::Info));
}

#[test]
fn parse_bunyan_numeric_level() {
    let raw = r#"{"time":"2024-01-01T00:00:00Z","level":50,"msg":"test"}"#;
    let mut lf = make_log(vec![make_entry(raw, Some(LogLevel::Unknown))]);
    parse(&mut lf);
    assert_eq!(lf.entries[0].timestamp.as_deref(), Some("2024-01-01T00:00:00Z"));
    assert_eq!(lf.entries[0].level, Some(LogLevel::Warn));
}

#[test]
fn parse_does_not_override_definite_level() {
    let raw = r#"{"timestamp":"2024-01-15T14:23:05Z","level":"error"}"#;
    let mut lf = make_log(vec![make_entry(raw, Some(LogLevel::Info))]);
    parse(&mut lf);
    // Info is definite — should not be overwritten by Error from JSON
    assert_eq!(lf.entries[0].level, Some(LogLevel::Info));
}

#[test]
fn parse_skips_non_object_lines() {
    let entries = vec![
        make_entry("[",          None),  // array bracket
        make_entry("",           None),  // blank
        make_entry("   ",        None),  // whitespace only
    ];
    let mut lf = make_log(entries);
    parse(&mut lf);
    for e in &lf.entries {
        assert!(e.timestamp.is_none());
    }
}

#[test]
fn parse_key_inside_value_does_not_pollute() {
    // "message" value contains the word "level" — must not affect level extraction
    let raw = r#"{"message":"level was exceeded","level":"warn"}"#;
    let mut lf = make_log(vec![make_entry(raw, Some(LogLevel::Unknown))]);
    parse(&mut lf);
    assert_eq!(lf.entries[0].level, Some(LogLevel::Warn));
}

#[test]
fn parse_multiple_ndjson_lines() {
    let lines = vec![
        make_entry(
            r#"{"timestamp":"2024-01-01T00:00:00Z","level":"info","msg":"start"}"#,
            Some(LogLevel::Unknown),
        ),
        make_entry(
            r#"{"timestamp":"2024-01-01T00:00:01Z","level":"error","msg":"crash"}"#,
            Some(LogLevel::Unknown),
        ),
    ];
    let mut lf = make_log(lines);
    parse(&mut lf);

    assert_eq!(lf.entries[0].level, Some(LogLevel::Info));
    assert_eq!(lf.entries[1].level, Some(LogLevel::Error));
    assert_eq!(
        lf.entries[1].timestamp.as_deref(),
        Some("2024-01-01T00:00:01Z")
    );
}

// ---- more scanning ----

#[test]
fn strings_end_at_an_unescaped_quote() {
    assert_eq!(end_of_json_string(br#""abc" rest"#, 0), Some(5));
    assert_eq!(end_of_json_string(br#"x"a\"b""#, 1), Some(7));
    assert_eq!(end_of_json_string(br#""a\\" rest"#, 0), Some(5));
    assert_eq!(end_of_json_string(br#""open"#, 0), None);
    assert_eq!(end_of_json_string(br#""open\"#, 0), None);
    assert_eq!(end_of_json_string(br#""open\""#, 0), None);
}

#[test]
fn blanks_are_allowed_around_keys_and_values() {
    let line = "{ \t\"level\" \t: \t\"warn\" , \"n\" : 7}";
    assert_eq!(extract_string_field(line, "level"), Some("warn"));
    assert_eq!(extract_number_field(line, "n"), Some(7));
}

#[test]
fn quoted_key_names_in_values_are_passed_over() {
    let line = r#"{"a":"level","b":["x","level"],"level":"info"}"#;
    assert_eq!(extract_string_field(line, "a"), Some("level"));
    assert_eq!(extract_string_field(line, "level"), Some("info"));
}

#[test]
fn values_of_the_wrong_kind_are_not_found() {
    let line = r#"{"level":50,"ts":"x","open":"abc"#;
    assert_eq!(extract_string_field(line, "level"), None);
    assert_eq!(extract_number_field(line, "ts"), None);
    assert_eq!(extract_string_field(line, "open"), None);
    assert_eq!(extract_string_field(r#"{"key""#, "key"), None);
    assert_eq!(extract_string_field(r#"{"key": "#, "key"), None);
    assert_eq!(extract_number_field(r#"{"n":-5}"#, "n"), None);
    assert_eq!(extract_number_field(r#"{"n":99999999999999999999}"#, "n"), None);
    assert_eq!(extract_number_field(r#"{"n":18446744073709551615}"#, "n"), Some(u64::MAX));
    assert_eq!(extract_number_field(r#"{"n":12.5}"#, "n"), None);
    assert_eq!(extract_number_field(r#"{"n":5e3}"#, "n"), None);
    assert_eq!(extract_number_field(r#"{"n":12"#, "n"), Some(12));
    assert_eq!(extract_number_field(r#"{"n":12 }"#, "n"), Some(12));
    assert_eq!(extract_number_field(r#"{"n":12,"m":3}"#, "n"), Some(12));
    assert_eq!(extract_number_field(r#"[{"n":12]"#, "n"), Some(12));
}

#[test]
fn values_may_hold_any_text() {
    let line = r#"{"msg":"grün \é ✓","level":"info"}"#;
    assert_eq!(extract_string_field(line, "msg"), Some(r"grün \é ✓"));
}

#[test]
fn numeric_levels_have_bounds() {
    assert_eq!(level_from_str(" 59 "), LogLevel::Warn);
    assert_eq!(level_from_str("49"), LogLevel::Info);
    assert_eq!(level_from_str("39"), LogLevel::Debug);
    assert_eq!(level_from_str("0"), LogLevel::Trace);
    assert_eq!(level_from_str("4294967295"), LogLevel::Error);
    assert_eq!(level_from_str("4294967296"), LogLevel::Unknown);
}

#[test]
fn big_bare_numbers_are_no_level() {
    let mut lf = make_log(vec![make_entry(r#"{"level":4294967296}"#, None)]);
    parse(&mut lf);
    assert_eq!(lf.entries[0].level, Some(LogLevel::Unknown));
}

#[test]
fn json_record_points_to_the_timestamp() {
    let line = r#"  {"time":"12:00","level":"error"}  "#;
    let r = parse_line(line);
    assert_eq!(r.level, LogLevel::Error);
    let (start, len) = (r.ts_start as usize, r.ts_len as usize);
    assert_eq!(&line[start..start + len], "12:00");
    let mut lf = make_log(vec![make_entry(line, None)]);
    parse(&mut lf);
    assert_eq!(lf.entries[0].timestamp.as_deref(), Some("12:00"));
    let r = parse_line("[1, 2]");
    assert_eq!((r.level, r.ts_start, r.ts_len), (LogLevel::Unknown, 0, 0));
}

#[test]
fn json_parsing_twice_changes_nothing() {
    let raw = r#"{"ts":"1","level":"strange"}"#;
    let mut lf = make_log(vec![make_entry(raw, None)]);
    parse(&mut lf);
    assert_eq!(lf.entries[0].level, Some(LogLevel::Unknown));
    parse(&mut lf);
    assert_eq!(lf.entries[0].level, Some(LogLevel::Unknown));
    assert_eq!(lf.entries[0].timestamp.as_deref(), Some("1"));
}

#[test]
fn json_timestamp_that_is_there_stays() {
    let mut lf = make_log(vec![make_entry(r#"{"ts":"new"}"#, None)]);
    lf.entries[0].timestamp = Some(String::from("old"));
    parse(&mut lf);
    assert_eq!(lf.entries[0].timestamp.as_deref(), Some("old"));
}

#[test]
fn elements_of_arrays_are_no_keys() {
    let line = r#"{"tags":["a","level"],"msg":"hi"}"#;
    assert_eq!(extract_string_field(line, "level"), None);
    assert_eq!(extract_number_field(r#"{"tags":["a","level"],"n":5}"#, "level"), None);
    let mut lf = make_log(vec![make_entry(line, None)]);
    parse(&mut lf);
    assert_eq!(lf.entries[0].level, None);
}

#[test]
fn fractions_are_no_level() {
    let mut lf = make_log(vec![make_entry(r#"{"level":50.5}"#, None)]);
    parse(&mut lf);
    assert_eq!(lf.entries[0].level, None);
    assert_eq!(parse_line(r#"{"level":50.5}"#).level, LogLevel::Unknown);
    assert_eq!(parse_line(r#"{"level":50}"#).level, LogLevel::Warn);
}
