use engine::parser::logcat::{
    map_level, parse, parse_level_from_fields, parse_line, try_parse_timestamp,
};
use engine::types::{LogEntry, LogFile, LogLevel};

// ---- try_parse_timestamp ----

#[test]
fn timestamp_basic() {
    assert_eq!(
        try_parse_timestamp("05-28 14:23:05.123 1234 5678 I MyTag: message"),
        Some("05-28 14:23:05.123")
    );
}

#[test]
fn timestamp_at_string_end() {
    assert_eq!(
        try_parse_timestamp("05-28 14:23:05.123"),
        Some("05-28 14:23:05.123")
    );
}

#[test]
fn timestamp_rejects_wrong_separator() {
    // '/' instead of '-'
    assert_eq!(try_parse_timestamp("05/28 14:23:05.123 rest"), None);
}

#[test]
fn timestamp_rejects_syslog_shape() {
    // Syslog "Jan 15 14:23:05" must not be accepted
    assert_eq!(try_parse_timestamp("Jan 15 14:23:05 host p: msg"), None);
}

#[test]
fn logcat_timestamp_rejects_too_short() {
    assert_eq!(try_parse_timestamp("05-28 14:23"), None);
}

#[test]
fn timestamp_rejects_non_digit_in_millis() {
    assert_eq!(try_parse_timestamp("05-28 14:23:05.1X3 rest"), None);
}

// ---- map_level ----

#[test]
fn level_mapping() {
    assert_eq!(map_level(b'V'), Some(LogLevel::Trace));
    assert_eq!(map_level(b'D'), Some(LogLevel::Debug));
    assert_eq!(map_level(b'I'), Some(LogLevel::Info));
    assert_eq!(map_level(b'W'), Some(LogLevel::Warn));
    assert_eq!(map_level(b'E'), Some(LogLevel::Error));
    assert_eq!(map_level(b'F'), Some(LogLevel::Error));
    assert_eq!(map_level(b'X'), None);
}

// ---- parse_level_from_fields ----

#[test]
fn level_from_fields_info() {
    //  PID  TID LEVEL
    assert_eq!(
        parse_level_from_fields("  1234  5678 I MyTag: msg"),
        Some(LogLevel::Info)
    );
}

#[test]
fn level_from_fields_error() {
    assert_eq!(
        parse_level_from_fields("  1234  5678 E Crash: oops"),
        Some(LogLevel::Error)
    );
}

#[test]
fn level_from_fields_fatal_maps_to_error() {
    assert_eq!(
        parse_level_from_fields("  1234  5678 F FATAL: abort"),
        Some(LogLevel::Error)
    );
}

#[test]
fn level_from_fields_unknown_char() {
    assert_eq!(
        parse_level_from_fields("  1234  5678 X UnknownTag: msg"),
        None
    );
}

// ---- parse (integration) ----

fn make_entry(raw: &str, level: Option<LogLevel>) -> LogEntry {
    LogEntry {
        line_number: 1,
        raw: raw.to_owned(),
        timestamp: None,
        level,
    }
}

fn make_log(entries: Vec<LogEntry>) -> LogFile {
    LogFile { path: String::from("/fake/logcat.log"), entries, format: None }
}

#[test]
fn parse_sets_timestamp_and_level() {
    let raw = "05-28 14:23:05.123  1234  5678 W MyTag: low memory";
    let mut lf = make_log(vec![make_entry(raw, Some(LogLevel::Unknown))]);
    parse(&mut lf);
    assert_eq!(lf.entries[0].timestamp.as_deref(), Some("05-28 14:23:05.123"));
    assert_eq!(lf.entries[0].level, Some(LogLevel::Warn));
}

#[test]
fn parse_overrides_loader_level() {
    // Loader may have set Info; logcat level field says Error — Error wins.
    let raw = "05-28 14:23:05.123  1234  5678 E SomeTag: crash";
    let mut lf = make_log(vec![make_entry(raw, Some(LogLevel::Info))]);
    parse(&mut lf);
    assert_eq!(lf.entries[0].level, Some(LogLevel::Error));
}

#[test]
fn parse_verbose_maps_to_trace() {
    let raw = "05-28 14:23:05.456  1111  2222 V VerboseTag: lots of output";
    let mut lf = make_log(vec![make_entry(raw, None)]);
    parse(&mut lf);
    assert_eq!(lf.entries[0].level, Some(LogLevel::Trace));
}

#[test]
fn parse_skips_banner_line() {
    let raw = "--------- beginning of /dev/log/main";
    let mut lf = make_log(vec![make_entry(raw, None)]);
    parse(&mut lf);
    assert!(lf.entries[0].timestamp.is_none());
    assert!(lf.entries[0].level.is_none());
}

#[test]
fn parse_skips_non_logcat_line() {
    let raw = "not a logcat line";
    let mut lf = make_log(vec![make_entry(raw, None)]);
    parse(&mut lf);
    assert!(lf.entries[0].timestamp.is_none());
}

#[test]
fn parse_mixed_entries() {
    let banner  = "--------- beginning of /dev/log/main";
    let info    = "05-28 10:00:00.000   100   200 I Tag: started";
    let err_ln  = "05-28 10:00:01.500   100   200 E Tag: failed";
    let mut lf = make_log(vec![
        make_entry(banner, None),
        make_entry(info,   Some(LogLevel::Unknown)),
        make_entry(err_ln, Some(LogLevel::Unknown)),
    ]);
    parse(&mut lf);

    // banner untouched
    assert!(lf.entries[0].timestamp.is_none());

    // info line
    assert_eq!(lf.entries[1].timestamp.as_deref(), Some("05-28 10:00:00.000"));
    assert_eq!(lf.entries[1].level, Some(LogLevel::Info));

    // error line
    assert_eq!(lf.entries[2].timestamp.as_deref(), Some("05-28 10:00:01.500"));
    assert_eq!(lf.entries[2].level, Some(LogLevel::Error));
}

// ---- records and edges ----

#[test]
fn logcat_timestamp_must_be_followed_by_white_space() {
    assert_eq!(try_parse_timestamp("05-28 14:23:05.1234"), None);
    assert_eq!(try_parse_timestamp("05-28 14:23:05.123x"), None);
    assert_eq!(
        try_parse_timestamp("05-28 14:23:05.123\tx"),
        Some("05-28 14:23:05.123")
    );
    assert_eq!(try_parse_timestamp("ü5-28 14:23:05.123"), None);
}

#[test]
fn logcat_record_points_to_the_timestamp() {
    let r = parse_line("  05-28 14:23:05.123  1  2 W Tag: error");
    assert_eq!((r.level, r.ts_start, r.ts_len), (LogLevel::Warn, 2, 18));
    let r = parse_line("05-28 14:23:05.123  1  2 X Tag: error");
    assert_eq!((r.level, r.ts_start, r.ts_len), (LogLevel::Unknown, 0, 18));
    let r = parse_line("--------- beginning of main");
    assert_eq!((r.level, r.ts_start, r.ts_len), (LogLevel::Unknown, 0, 0));
}

#[test]
fn level_field_wins_over_everything() {
    for before in [None, Some(LogLevel::Error), Some(LogLevel::Unknown)] {
        let mut lf = make_log(vec![make_entry("05-28 14:23:05.123 1 2 D T: error", before)]);
        parse(&mut lf);
        assert_eq!(lf.entries[0].level, Some(LogLevel::Debug));
    }
    // No level letter: the level stays.
    let mut lf = make_log(vec![make_entry("05-28 14:23:05.123 1 2 DD T: x", Some(LogLevel::Info))]);
    parse(&mut lf);
    assert_eq!(lf.entries[0].level, Some(LogLevel::Info));
}

#[test]
fn logcat_parsing_twice_changes_nothing() {
    let mut lf = make_log(vec![make_entry("05-28 14:23:05.123 1 2 E T: x", None)]);
    parse(&mut lf);
    parse(&mut lf);
    assert_eq!(lf.entries[0].timestamp.as_deref(), Some("05-28 14:23:05.123"));
    assert_eq!(lf.entries[0].level, Some(LogLevel::Error));
    assert_eq!(lf.entries[0].raw, "05-28 14:23:05.123 1 2 E T: x");
}

#[test]
fn levels_may_be_missing() {
    assert_eq!(parse_level_from_fields(""), None);
    assert_eq!(parse_level_from_fields("1 2"), None);
    assert_eq!(parse_level_from_fields("1 2 I"), Some(LogLevel::Info));
}
