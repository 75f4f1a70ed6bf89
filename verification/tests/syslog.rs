use engine::parser::syslog::{
    detect_level_in, extract_message, parse, parse_line, try_parse_timestamp,
};
use engine::types::{LogEntry, LogFile, LogLevel};

// ---- try_parse_timestamp ----

#[test]
fn timestamp_two_digit_day() {
    assert_eq!(
        try_parse_timestamp("Jan 15 14:23:05 host proc[1]: msg"),
        Some("Jan 15 14:23:05")
    );
}

#[test]
fn timestamp_space_padded_day() {
    assert_eq!(
        try_parse_timestamp("Jan  5 14:23:05 host proc[1]: msg"),
        Some("Jan  5 14:23:05")
    );
}

#[test]
fn timestamp_all_months() {
    for month in [
        "Jan", "Feb", "Mar", "Apr", "May", "Jun", "Jul", "Aug", "Sep", "Oct", "Nov", "Dec",
    ] {
        let line = format!("{month} 01 00:00:00 h p: m");
        assert!(
            try_parse_timestamp(&line).is_some(),
            "month {month} should parse"
        );
    }
}

#[test]
fn timestamp_rejects_bad_month() {
    assert_eq!(try_parse_timestamp("Xyz 15 14:23:05 host p: msg"), None);
}

#[test]
fn timestamp_rejects_bad_time_separator() {
    assert_eq!(try_parse_timestamp("Jan 15 14-23-05 host p: msg"), None);
}

#[test]
fn syslog_timestamp_rejects_too_short() {
    assert_eq!(try_parse_timestamp("Jan 5"), None);
}

// ---- extract_message ----

#[test]
fn message_extraction_basic() {
    let raw = "Jan 15 14:23:05 myhost myproc[42]: something went wrong";
    let ts = try_parse_timestamp(raw).unwrap();
    assert_eq!(
        extract_message(raw, ts),
        Some("something went wrong")
    );
}

#[test]
fn message_extraction_no_colon_space() {
    let raw = "Jan 15 14:23:05 myhost myproc no-colon-space";
    let ts = try_parse_timestamp(raw).unwrap();
    assert_eq!(extract_message(raw, ts), None);
}

// ---- detect_level_in ----

#[test]
fn level_error_wins() {
    assert_eq!(detect_level_in("ERROR in info handler"), LogLevel::Error);
}

#[test]
fn level_warn() {
    assert_eq!(detect_level_in("disk warning threshold"), LogLevel::Warn);
}

#[test]
fn level_unknown() {
    assert_eq!(detect_level_in("nothing special here"), LogLevel::Unknown);
}

// ---- parse (integration) ----

fn make_entry(raw: &str, level: Option<LogLevel>) -> LogEntry {
    LogEntry {
        line_number: 1,
        raw: raw.to_owned(),
        timestamp: None,
        level,
    }
}

fn make_log(entries: Vec<LogEntry>) -> LogFile {
    LogFile { path: String::from("/fake/syslog"), entries, format: None }
}

#[test]
fn parse_sets_timestamp() {
    let raw = "Jan 15 14:23:05 host sshd[123]: session opened for user root";
    let mut lf = make_log(vec![make_entry(raw, Some(LogLevel::Unknown))]);
    parse(&mut lf);
    assert_eq!(lf.entries[0].timestamp.as_deref(), Some("Jan 15 14:23:05"));
}

#[test]
fn parse_refines_unknown_level() {
    let raw = "Jan 15 14:23:05 host sshd[123]: error reading config";
    let mut lf = make_log(vec![make_entry(raw, Some(LogLevel::Unknown))]);
    parse(&mut lf);
    assert_eq!(lf.entries[0].level, Some(LogLevel::Error));
}

#[test]
fn parse_does_not_override_known_level() {
    // Level is already Info — parser must not downgrade it even if the
    // message contains a higher-priority keyword, because the caller set it
    // deliberately.
    let raw = "Jan 15 14:23:05 host sshd[123]: error reading config";
    let mut lf = make_log(vec![make_entry(raw, Some(LogLevel::Info))]);
    parse(&mut lf);
    assert_eq!(lf.entries[0].level, Some(LogLevel::Info));
}

#[test]
fn parse_skips_non_syslog_line() {
    let raw = "This is not a syslog line at all";
    let mut lf = make_log(vec![make_entry(raw, None)]);
    parse(&mut lf);
    assert!(lf.entries[0].timestamp.is_none());
}

#[test]
fn parse_level_from_message_not_hostname() {
    // Hostname contains "error" — loader would have set Error from the full
    // line, but the parser should use only the message portion.
    // We simulate the loader having set Unknown (as if it somehow didn't
    // fire) to verify the message-scoped detection returns Warn.
    let raw = "Jan 15 14:23:05 error-host myproc[1]: disk space warning";
    let mut lf = make_log(vec![make_entry(raw, Some(LogLevel::Unknown))]);
    parse(&mut lf);
    assert_eq!(lf.entries[0].level, Some(LogLevel::Warn));
}

// ---- records and edges ----

#[test]
fn syslog_timestamp_may_end_the_line() {
    assert_eq!(try_parse_timestamp("Jan 15 14:23:05"), Some("Jan 15 14:23:05"));
    assert_eq!(try_parse_timestamp("Jan  5 14:23:05"), Some("Jan  5 14:23:05"));
    assert_eq!(try_parse_timestamp("Jan 15 14:23:056"), None);
    assert_eq!(try_parse_timestamp("Jan 5 14:23:05 x"), None);
    assert_eq!(try_parse_timestamp("ÄÖ 15 14:23:05 x"), None);
}

#[test]
fn message_starts_after_the_first_colon_and_space() {
    let raw = "Jan 15 14:23:05 host a:b c:   one: two";
    let ts = try_parse_timestamp(raw).unwrap();
    assert_eq!(extract_message(raw, ts), Some("one: two"));
    let raw = "Jan 15 14:23:05 host p: ";
    assert_eq!(extract_message(raw, "Jan 15 14:23:05"), Some(""));
}

#[test]
fn syslog_record_takes_the_level_of_the_message() {
    let r = parse_line(" Jan 15 14:23:05 error-host p[1]: disk warning");
    assert_eq!((r.level, r.ts_start, r.ts_len), (LogLevel::Warn, 1, 15));
    // A message without a level leaves that of the line.
    let r = parse_line("Jan 15 14:23:05 error-host p[1]: all well");
    assert_eq!(r.level, LogLevel::Error);
    let r = parse_line("plain info");
    assert_eq!((r.level, r.ts_start, r.ts_len), (LogLevel::Info, 0, 0));
}

#[test]
fn level_rests_on_the_message_alone() {
    let mut lf = make_log(vec![
        make_entry("Jan 15 14:23:05 error-host p: info", None),
        make_entry("Feb  1 00:00:00 other q[2]: info", Some(LogLevel::Unknown)),
    ]);
    parse(&mut lf);
    assert_eq!(lf.entries[0].level, Some(LogLevel::Info));
    assert_eq!(lf.entries[1].level, Some(LogLevel::Info));
}

#[test]
fn syslog_timestamp_that_is_there_stays() {
    let mut lf = make_log(vec![make_entry("Jan 15 14:23:05 host p: x", None)]);
    lf.entries[0].timestamp = Some(String::from("old"));
    parse(&mut lf);
    assert_eq!(lf.entries[0].timestamp.as_deref(), Some("old"));
    assert_eq!(lf.entries[0].level, Some(LogLevel::Unknown));
}
