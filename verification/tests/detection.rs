use engine::parser::{detect_format, detect_format_index, format_for, parse_file_as, parse_line_as, LogFormat};
use engine::types::{LogEntry, LogFile, LogLevel};
use engine::{index_file, load_file, parse_file, parse_index};

fn log(path: &str, lines: &[&str]) -> LogFile {
    let entries = lines
        .iter()
        .enumerate()
        .map(|(i, l)| LogEntry {
            line_number: i + 1,
            raw: l.to_string(),
            timestamp: None,
            level: None,
        })
        .collect();
    LogFile {
        path: String::from(path),
        entries,
        format: None,
    }
}

#[test]
fn parse_index_logcat() {
    let content = "--------- beginning of main\n05-28 14:23:05.123 1234 5678 I Tag: info msg\n05-28 14:23:06.456 1234 5678 E Tag: err msg\n";
    let index = index_file("/tmp/x.log", content.as_bytes());
    let parsed = parse_index(index);

    assert_eq!(parsed.format, "Logcat");
    assert_eq!(parsed.records.len(), 3);

    // Line 0: banner
    assert_eq!(parsed.level_of(0), LogLevel::Unknown);
    assert_eq!(parsed.timestamp_of(0), None);

    // Line 1: Info
    assert_eq!(parsed.level_of(1), LogLevel::Info);
    assert_eq!(parsed.timestamp_of(1), Some("05-28 14:23:05.123"));

    // Line 2: Error
    assert_eq!(parsed.level_of(2), LogLevel::Error);
    assert_eq!(parsed.timestamp_of(2), Some("05-28 14:23:06.456"));
}

#[test]
fn parse_index_syslog() {
    let content = "Jan 15 14:23:05 host p: msg";
    let index = index_file("/tmp/x.txt", content.as_bytes());
    let parsed = parse_index(index);

    assert_eq!(parsed.format, "Syslog");
}

#[test]
fn json_extensions_win_over_content() {
    for ext in ["json", "jsonl", "ndjson", "JSON", "NdJson"] {
        let f = log(&format!("/logs/app.{ext}"), &["Jan 15 14:23:05 host p: msg"]);
        assert_eq!(detect_format(&f), LogFormat::Json, "extension {ext}");
    }
}

#[test]
fn other_extensions_leave_it_to_the_content() {
    for path in ["/logs/app.log", "/logs/app.txt", "/logs/app.out", "/logs/app", "/logs/.json"] {
        let f = log(path, &["Jan 15 14:23:05 host p: msg"]);
        assert_eq!(detect_format(&f), LogFormat::Syslog, "path {path}");
        let f = log(path, &["  05-28 14:23:05.123 1 2 I T: m"]);
        assert_eq!(detect_format(&f), LogFormat::Logcat, "path {path}");
        let f = log(path, &["--------- beginning of system"]);
        assert_eq!(detect_format(&f), LogFormat::Logcat, "path {path}");
        let f = log(path, &[" {\"a\":1}"]);
        assert_eq!(detect_format(&f), LogFormat::Json, "path {path}");
        let f = log(path, &["["]);
        assert_eq!(detect_format(&f), LogFormat::Json, "path {path}");
        let f = log(path, &["January report"]);
        assert_eq!(detect_format(&f), LogFormat::PlainText, "path {path}");
        assert_eq!(detect_format(&log(path, &[])), LogFormat::PlainText);
    }
}

#[test]
fn extension_belongs_to_the_file_name() {
    let f = log("/logs.json/app", &["plain"]);
    assert_eq!(detect_format(&f), LogFormat::PlainText);
    let f = log("app.tar.json", &["plain"]);
    assert_eq!(detect_format(&f), LogFormat::Json);
    let f = log("/logs/app.json/..", &["plain"]);
    assert_eq!(detect_format(&f), LogFormat::PlainText);
    let f = log("/logs/app.", &["plain"]);
    assert_eq!(detect_format(&f), LogFormat::PlainText);
}

#[test]
fn empty_lines_are_passed_over() {
    let f = log("/logs/app.log", &["", "", "Jan 15 14:23:05 host p: msg"]);
    assert_eq!(detect_format(&f), LogFormat::Syslog);
    let index = index_file("/logs/app.log", b"\n\r\nJan 15 14:23:05 host p: msg\n");
    assert_eq!(detect_format_index(&index), LogFormat::Syslog);
}

#[test]
fn format_for_takes_extension_and_line() {
    assert_eq!(format_for(Some("JSONL"), None), LogFormat::Json);
    assert_eq!(format_for(Some("log"), None), LogFormat::PlainText);
    assert_eq!(format_for(None, Some("{")), LogFormat::Json);
    assert_eq!(format_for(None, Some("Jan  5 14:23:05")), LogFormat::Syslog);
    assert_eq!(format_for(None, None), LogFormat::PlainText);
}

#[test]
fn parse_file_names_the_format_and_fills_in() {
    let mut f = load_file("/logs/sys.log", b"Jan 15 14:23:05 host p: disk error\n").unwrap();
    parse_file(&mut f);
    assert_eq!(f.format.as_deref(), Some("Syslog"));
    assert_eq!(f.entries[0].timestamp.as_deref(), Some("Jan 15 14:23:05"));
    assert_eq!(f.entries[0].level, Some(LogLevel::Error));

    let mut f = load_file("/logs/a.log", b"2024-01-15 14:23:05 hello\n").unwrap();
    parse_file(&mut f);
    assert_eq!(f.format.as_deref(), Some("Plain text"));
    assert_eq!(f.entries[0].timestamp.as_deref(), Some("2024-01-15 14:23:05"));
    assert_eq!(f.entries[0].level, Some(LogLevel::Unknown));

    let mut f = load_file("/logs/a.json", b"{\"ts\":\"now\",\"lvl\":\"warn\"}\n").unwrap();
    parse_file(&mut f);
    assert_eq!(f.format.as_deref(), Some("JSON"));
    assert_eq!(f.entries[0].timestamp.as_deref(), Some("now"));
    assert_eq!(f.entries[0].level, Some(LogLevel::Warn));

    let mut f = load_file("/logs/a", b"05-28 14:23:05.123 1 2 W T: error\n").unwrap();
    parse_file(&mut f);
    assert_eq!(f.format.as_deref(), Some("Logcat"));
    assert_eq!(f.entries[0].level, Some(LogLevel::Warn));
}

#[test]
fn parsing_twice_changes_nothing() {
    let mut f = load_file(
        "/logs/sys.log",
        b"Jan 15 14:23:05 host p: disk error\nno timestamp\nJan 15 14:23:06 h p: ok\n",
    )
    .unwrap();
    parse_file(&mut f);
    let once = f.clone();
    parse_file(&mut f);
    assert_eq!(f.format, once.format);
    for (a, b) in f.entries.iter().zip(once.entries.iter()) {
        assert_eq!(a.timestamp, b.timestamp);
        assert_eq!(a.level, b.level);
        assert_eq!(a.raw, b.raw);
        assert_eq!(a.line_number, b.line_number);
    }
}

#[test]
fn records_and_entries_agree_on_timestamps() {
    let data: &[u8] = b"Jan 15 14:23:05 host p: one\n  Jan  5 14:23:05 host p: two\nnone\n";
    let parsed = parse_index(index_file("/logs/s.log", data));
    let mut file = load_file("/logs/s.log", data).unwrap();
    parse_file(&mut file);
    assert_eq!(Some(parsed.format.as_str()), file.format.as_deref());
    for i in 0..parsed.records.len() {
        assert_eq!(parsed.timestamp_of(i), file.entries[i].timestamp.as_deref());
    }
}

#[test]
fn parse_index_keeps_order_over_many_lines() {
    let mut text = String::new();
    for i in 0..20_000 {
        text.push_str(if i % 3 == 0 { "ERROR x\n" } else { "INFO y\n" });
    }
    let parsed = parse_index(index_file("/logs/many", text.as_bytes()));
    assert_eq!(parsed.records.len(), 20_000);
    for i in 0..20_000 {
        let expected = if i % 3 == 0 { LogLevel::Error } else { LogLevel::Info };
        assert_eq!(parsed.level_of(i), expected);
    }
    assert_eq!(parsed.lines.format.as_deref(), Some("Plain text"));
}

#[test]
fn a_format_can_be_forced() {
    let mut f = log("/logs/x.log", &["14:23:05 hello"]);
    parse_file_as(&mut f, LogFormat::Logcat);
    assert_eq!(f.format.as_deref(), Some("Logcat"));
    assert!(f.entries[0].timestamp.is_none());
    let r = parse_line_as(LogFormat::PlainText, "  14:23:05 warn");
    assert_eq!((r.ts_start, r.ts_len), (2, 8));
    assert_eq!(r.level, LogLevel::Warn);
}

#[test]
fn format_names() {
    assert_eq!(LogFormat::PlainText.name(), "Plain text");
    assert_eq!(LogFormat::Logcat.name(), "Logcat");
    assert_eq!(LogFormat::Syslog.name(), "Syslog");
    assert_eq!(LogFormat::Json.name(), "JSON");
}

#[test]
fn colons_and_backslashes_do_not_hide_the_extension() {
    for path in [
        "app:1.json",
        "/logs/2024-01-15T14:23:05.json",
        "C:\\logs\\app.json",
        "C:app.json",
        "C:/logs/app.JSONL",
        "a\\b.c\\d.ndjson",
        "1:30.json",
        "\\\\server\\share\\logs\\app.json",
        "//server/share/app.json",
    ] {
        let f = log(path, &["Jan 15 14:23:05 host p: msg"]);
        assert_eq!(detect_format(&f), LogFormat::Json, "path {path}");
        let index = index_file(path, b"plain\n");
        assert_eq!(detect_format_index(&index), LogFormat::Json, "path {path}");
    }
    for path in ["app:json", "C:\\logs\\app", "C:\\logs\\app.log", "json", "//x/y"] {
        let f = log(path, &["plain"]);
        assert_eq!(detect_format(&f), LogFormat::PlainText, "path {path}");
    }
}

#[test]
fn trailing_separators_and_dots_do_not_hide_the_extension() {
    for path in ["/logs/app.json/", "/logs/app.json/.", "app.json//./"] {
        assert_eq!(detect_format(&log(path, &["plain"])), LogFormat::Json, "path {path}");
    }
    for path in ["", ".", "..", "/", "./", "/logs/.json/"] {
        assert_eq!(detect_format(&log(path, &["plain"])), LogFormat::PlainText, "path {path}");
    }
}

#[test]
fn index_and_file_get_the_same_format() {
    for (path, data) in [
        ("/logs/a:b.json", "plain\n"),
        ("/logs/a", "\nJan 15 14:23:05 host p: msg\n"),
        ("C:\\logs\\a.log", "05-28 14:23:05.123 1 2 I T: m\n"),
        ("/logs/a.txt", "hello\n"),
        ("/logs/a", ""),
    ] {
        let parsed = parse_index(index_file(path, data.as_bytes()));
        let mut f = load_file(path, data.as_bytes()).unwrap();
        parse_file(&mut f);
        assert_eq!(f.format.as_deref(), Some(parsed.format.as_str()), "path {path}");
        assert_eq!(parsed.lines.format.as_deref(), Some(parsed.format.as_str()));
    }
}
