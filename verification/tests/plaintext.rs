use engine::parser::plaintext::{
    extract_timestamp, parse, parse_line, try_parse_iso_space, try_parse_iso_t, try_parse_syslog, try_parse_time_only,
};
use engine::types::{LogEntry, LogFile, LogLevel};

// --- try_parse_iso_t ---

#[test]
fn iso_t_basic() {
    assert_eq!(
        try_parse_iso_t("2024-01-15T14:23:05Z rest"),
        Some("2024-01-15T14:23:05Z")
    );
}

#[test]
fn iso_t_millis() {
    assert_eq!(
        try_parse_iso_t("2024-01-15T14:23:05.123Z message"),
        Some("2024-01-15T14:23:05.123Z")
    );
}

#[test]
fn iso_t_offset() {
    assert_eq!(
        try_parse_iso_t("2024-01-15T14:23:05+05:30 msg"),
        Some("2024-01-15T14:23:05+05:30")
    );
}

#[test]
fn iso_t_no_suffix() {
    assert_eq!(
        try_parse_iso_t("2024-01-15T14:23:05 msg"),
        Some("2024-01-15T14:23:05")
    );
}

#[test]
fn iso_t_rejects_space_sep() {
    assert_eq!(try_parse_iso_t("2024-01-15 14:23:05"), None);
}

// --- try_parse_iso_space ---

#[test]
fn iso_space_basic() {
    assert_eq!(
        try_parse_iso_space("2024-01-15 14:23:05 msg"),
        Some("2024-01-15 14:23:05")
    );
}

#[test]
fn iso_space_millis() {
    assert_eq!(
        try_parse_iso_space("2024-01-15 14:23:05.456 msg"),
        Some("2024-01-15 14:23:05.456")
    );
}

#[test]
fn iso_space_rejects_t_sep() {
    assert_eq!(try_parse_iso_space("2024-01-15T14:23:05"), None);
}

// --- try_parse_syslog ---

#[test]
fn syslog_two_digit_day() {
    assert_eq!(
        try_parse_syslog("Jan 15 14:23:05 host proc: msg"),
        Some("Jan 15 14:23:05")
    );
}

#[test]
fn syslog_space_padded_day() {
    assert_eq!(
        try_parse_syslog("Jan  5 14:23:05 host proc: msg"),
        Some("Jan  5 14:23:05")
    );
}

#[test]
fn syslog_rejects_unknown_month() {
    assert_eq!(try_parse_syslog("Xyz 15 14:23:05"), None);
}

// --- try_parse_time_only ---

#[test]
fn time_only_basic() {
    assert_eq!(
        try_parse_time_only("14:23:05 msg"),
        Some("14:23:05")
    );
}

#[test]
fn time_only_millis() {
    assert_eq!(
        try_parse_time_only("14:23:05.999 msg"),
        Some("14:23:05.999")
    );
}

#[test]
fn time_only_rejects_non_digit() {
    assert_eq!(try_parse_time_only("xx:23:05"), None);
}

// --- priority ordering via extract_timestamp ---

#[test]
fn priority_iso_t_over_time_only() {
    // "14:23:05" appears inside an ISO-T string; iso_t should win
    let ts = extract_timestamp("2024-01-15T14:23:05Z msg");
    assert_eq!(ts, Some("2024-01-15T14:23:05Z"));
}

#[test]
fn no_timestamp_returns_none() {
    assert_eq!(extract_timestamp("no timestamp here at all"), None);
}

#[test]
fn leading_whitespace_is_trimmed() {
    assert_eq!(
        extract_timestamp("  14:23:05 msg"),
        Some("14:23:05")
    );
}

// --- edges ---

#[test]
fn a_point_without_digits_is_no_fraction() {
    assert_eq!(try_parse_iso_t("2024-01-15T14:23:05."), Some("2024-01-15T14:23:05"));
    assert_eq!(try_parse_iso_space("2024-01-15 14:23:05. x"), Some("2024-01-15 14:23:05"));
    assert_eq!(try_parse_time_only("14:23:05."), Some("14:23:05"));
}

#[test]
fn half_a_time_zone_is_none() {
    assert_eq!(try_parse_iso_t("2024-01-15T14:23:05+0530"), Some("2024-01-15T14:23:05"));
    assert_eq!(
        try_parse_iso_t("2024-01-15T14:23:05.5-01:00]"),
        Some("2024-01-15T14:23:05.5-01:00")
    );
}

#[test]
fn timestamps_end_with_the_token() {
    assert_eq!(try_parse_iso_t("2024-01-15T14:23:05Zulu"), None);
    assert_eq!(try_parse_iso_space("2024-01-15 14:23:055"), None);
    assert_eq!(try_parse_time_only("14:23:05pm"), None);
    assert_eq!(try_parse_time_only("14:23:05é"), Some("14:23:05"));
    assert_eq!(try_parse_syslog("Jan 15 14:23:05x"), None);
}

#[test]
fn text_that_is_not_ascii_is_no_timestamp() {
    assert_eq!(extract_timestamp("日本語のログメッセージです"), None);
    assert_eq!(extract_timestamp("202é-01-15 14:23:05"), None);
    assert_eq!(extract_timestamp(""), None);
}

#[test]
fn plain_record_points_to_the_timestamp() {
    let line = "\u{3000} 2024-01-15 14:23:05 a warning";
    let r = parse_line(line);
    assert_eq!(r.level, LogLevel::Warn);
    let (start, len) = (r.ts_start as usize, r.ts_len as usize);
    assert_eq!(Some(&line[start..start + len]), extract_timestamp(line));
    let r = parse_line("nothing");
    assert_eq!((r.level, r.ts_start, r.ts_len), (LogLevel::Unknown, 0, 0));
}

#[test]
fn record_fields_keep_the_low_bits() {
    let mut line = " ".repeat(0x10003);
    line.push_str("14:23:05.");
    line.push_str(&"9".repeat(300));
    let r = parse_line(&line);
    assert_eq!((r.ts_start, r.ts_len), (3, ((9 + 300) % 256) as u8));
}

#[test]
fn plain_timestamps_are_filled_in_once() {
    let entry = LogEntry {
        line_number: 1,
        raw: String::from("14:23:05 x"),
        timestamp: None,
        level: Some(LogLevel::Info),
    };
    let mut lf = LogFile {
        path: String::from("/fake/plain"),
        entries: vec![entry],
        format: None,
    };
    parse(&mut lf);
    assert_eq!(lf.entries[0].timestamp.as_deref(), Some("14:23:05"));
    assert_eq!(lf.entries[0].level, Some(LogLevel::Info));
    lf.entries[0].timestamp = Some(String::from("old"));
    parse(&mut lf);
    assert_eq!(lf.entries[0].timestamp.as_deref(), Some("old"));
}

#[test]
fn syslog_day_is_digits() {
    assert_eq!(try_parse_syslog("Jan  x5 14:23:05 host"), None);
    assert_eq!(try_parse_syslog("Jan  : 14:23:05 host"), None);
    assert_eq!(try_parse_syslog("Jan x5 14:23:05 host"), None);
    assert_eq!(extract_timestamp("Jan  x5 14:23:05 host"), None);
    assert_eq!(try_parse_syslog("Jan 05 14:23:05 host"), Some("Jan 05 14:23:05"));
}
