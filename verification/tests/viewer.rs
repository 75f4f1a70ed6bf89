use engine::open::{level_counts, open_log};
use engine::search::SearchStep;
use engine::types::{LineRecord, LogLevel, ParsedIndex};
use engine::viewer::{window_title, LogViewerApp, SearchEvent};
use engine::{index_file, parse_index};

fn parsed(text: &'static str) -> ParsedIndex<'static> {
    parse_index(index_file("/logs/app.log", text.as_bytes()))
}

fn loaded(text: &'static str) -> LogViewerApp<'static> {
    let mut app = LogViewerApp::default();
    app.begin_load(String::from("/logs/app.log"));
    let p = parsed(text);
    let counts = level_counts(&p.records);
    app.finish_load(Ok((p, counts, text.len() as u64)));
    app
}

fn filter(app: &mut LogViewerApp<'static>) {
    let mut search = app.start_due_search(u128::MAX).expect("a search is due");
    let file = app.parsed.clone().unwrap();
    loop {
        match search.step(&file) {
            SearchStep::Continue => {}
            SearchStep::Send(rows) => {
                app.take_search_event(SearchEvent::Rows(rows));
            }
            SearchStep::Finish(rest) => {
                if let Some(rows) = rest {
                    app.take_search_event(SearchEvent::Rows(rows));
                }
                app.take_search_event(SearchEvent::Closed);
                return;
            }
        }
    }
}

#[test]
fn starts_empty_and_dark() {
    let app = LogViewerApp::default();
    assert!(app.parsed.is_none());
    assert!(app.dark_mode);
    assert!(app.recent_files.is_empty());
    assert_eq!(app.filtered_count, 0);
    assert_eq!(app.level_counts, [0; 6]);
    assert!(!app.needs_filter_update);
}

#[test]
fn loading_a_file() {
    let mut app = LogViewerApp::default();
    app.last_error = Some(String::from("old"));
    app.begin_load(String::from("/logs/app.log"));
    assert_eq!(app.loading.as_deref(), Some("/logs/app.log"));
    assert!(app.last_error.is_none());
    app.note_progress(10, 100);
    assert_eq!(app.load_progress, Some((10, 100)));
    let p = parsed("ERROR a\nINFO b\nERROR c\n");
    let counts = level_counts(&p.records);
    app.finish_load(Ok((p, counts, 23)));
    assert!(app.loading.is_none());
    assert_eq!(app.level_counts, [2, 0, 1, 0, 0, 0]);
    assert_eq!(app.file_size_bytes, 23);
    assert!(app.needs_filter_update);
    app.refresh_counts();
    assert_eq!(app.search_counts, (3, 2, 0, 1, 0));
}

#[test]
fn counts_add_up_to_the_records() {
    let levels = [
        LogLevel::Error,
        LogLevel::Warn,
        LogLevel::Info,
        LogLevel::Debug,
        LogLevel::Trace,
        LogLevel::Unknown,
        LogLevel::Warn,
    ];
    let records: Vec<LineRecord> = levels
        .iter()
        .map(|l| LineRecord { level: *l, ts_start: 0, ts_len: 0 })
        .collect();
    let counts = level_counts(&records);
    assert_eq!(counts, [1, 2, 1, 1, 1, 1]);
    assert_eq!(counts.iter().sum::<usize>(), records.len());
}

#[test]
fn opening_scans_and_then_uses_the_cache() {
    let data: &'static [u8] = b"Jan 15 14:23:05 h p: error\nJan 15 14:23:06 h p: ok\n";
    let size = data.len() as u64;
    let first = open_log("/logs/s", data, None, size, 7, |_, _| {});
    assert_eq!(first.parsed.format, "Syslog");
    assert_eq!(first.counts, [1, 0, 0, 0, 0, 1]);
    let bytes = first.cache.expect("a scan hands back a cache file");

    let second = open_log("/logs/s", data, Some(&bytes), size, 7, |_, _| {
        panic!("a cache hit does not scan")
    });
    assert!(second.cache.is_none());
    assert_eq!(second.parsed.format, "Syslog");
    assert_eq!(second.parsed.lines.offsets, first.parsed.lines.offsets);
    assert_eq!(second.counts, first.counts);
    assert_eq!(second.parsed.timestamp_of(1), Some("Jan 15 14:23:06"));

    // Another age, or damaged bytes, mean a scan.
    assert!(open_log("/logs/s", data, Some(&bytes), size, 8, |_, _| {}).cache.is_some());
    assert!(open_log("/logs/s", data, Some(b"junk"), size, 7, |_, _| {}).cache.is_some());
    // So do lines beyond the file.
    let short: &'static [u8] = b"Jan";
    assert!(open_log("/logs/s", short, Some(&bytes), size, 7, |_, _| {}).cache.is_some());
}

#[test]
fn search_waits_for_its_time() {
    let mut app = loaded("ERROR a\nINFO b\n");
    assert!(app.start_due_search(150_000_000).is_none());
    assert!(app.needs_filter_update);
    let search = app.start_due_search(150_000_001).unwrap();
    assert_eq!(search.query, "");
    assert!(app.searching);
    assert!(!app.needs_filter_update);
    assert!(app.start_due_search(u128::MAX).is_none());
    app.needs_filter_update = true;
    assert!(app.start_due_search(u128::MAX).is_none(), "one search at a time");
    assert!(!app.take_search_event(SearchEvent::Pending));
    assert!(app.searching);
    assert!(!app.take_search_event(SearchEvent::Closed));
    assert!(!app.searching);
    assert!(app.search_complete);
    assert!(app.start_due_search(u128::MAX).is_some());
}

#[test]
fn nothing_to_search_without_a_file() {
    let mut app: LogViewerApp<'static> = LogViewerApp::default();
    app.needs_filter_update = true;
    assert!(app.start_due_search(u128::MAX).is_none());
    assert!(!app.needs_filter_update);
    assert!(!app.searching);
}

#[test]
fn new_search_starts_with_no_rows() {
    let mut app = loaded("ERROR a\nINFO b\nERROR c\n");
    filter(&mut app);
    assert_eq!(app.filtered_count, 3);
    app.level_filter = Some(LogLevel::Error);
    app.search = String::from("C");
    assert!(app.note_filter_change());
    let search = app.start_due_search(u128::MAX).unwrap();
    assert_eq!(app.filtered_count, 0);
    assert!(app.filtered_bitmap.is_empty());
    assert_eq!(search.query, "c");
    assert_eq!(search.level, Some(LogLevel::Error));
}

#[test]
fn filter_changes_are_noticed_once() {
    let mut app = loaded("ERROR a\n");
    filter(&mut app);
    app.match_cursor = Some(0);
    assert!(!app.note_filter_change());
    assert_eq!(app.match_cursor, Some(0));
    app.search = String::from("x");
    assert!(app.note_filter_change());
    assert!(app.needs_filter_update);
    assert_eq!(app.match_cursor, None);
    assert_eq!(app.last_search, "x");
    assert!(!app.note_filter_change());
    app.level_filter = Some(LogLevel::Warn);
    assert!(app.note_filter_change());
    app.level_filter = Some(LogLevel::Info);
    assert!(app.note_filter_change());
    app.level_filter = None;
    assert!(app.note_filter_change());
    assert!(!app.note_filter_change());
}

#[test]
fn escape_clears_the_filter() {
    let mut app = loaded("ERROR a\n");
    app.search = String::from("x");
    app.level_filter = Some(LogLevel::Warn);
    app.clear_search();
    assert_eq!(app.search, "");
    assert_eq!(app.level_filter, Some(LogLevel::Warn));
    app.search = String::from("x");
    app.clear_filter();
    assert_eq!(app.search, "");
    assert_eq!(app.level_filter, None);
}

#[test]
fn matches_are_walked_around_the_ends() {
    let mut app = loaded("ERROR a\nINFO b\nERROR c\nERROR d\n");
    app.level_filter = Some(LogLevel::Error);
    filter(&mut app);
    assert_eq!(app.filtered_count, 3);
    assert_eq!(app.match_position(), (1, 3));
    app.step_match(true, false);
    assert_eq!((app.match_cursor, app.scroll_to_line), (Some(1), Some(3)));
    app.step_match(true, false);
    assert_eq!((app.match_cursor, app.scroll_to_line), (Some(2), Some(4)));
    app.step_match(true, false);
    assert_eq!((app.match_cursor, app.scroll_to_line), (Some(0), Some(1)));
    app.step_match(false, true);
    assert_eq!((app.match_cursor, app.scroll_to_line), (Some(2), Some(4)));
    assert_eq!(app.match_position(), (3, 3));
    app.step_match(false, true);
    assert_eq!(app.match_cursor, Some(1));
    // Both at once is forward, neither is nothing.
    app.step_match(true, true);
    assert_eq!(app.match_cursor, Some(2));
    app.step_match(false, false);
    assert_eq!(app.match_cursor, Some(2));
}

#[test]
fn no_matches_no_walk() {
    let mut app = loaded("ERROR a\n");
    app.step_match(true, false);
    assert_eq!(app.match_cursor, None);
    assert_eq!(app.scroll_to_line, None);
    assert_eq!(app.match_position(), (0, 0));
    assert!(app.can_step_back());
    app.match_cursor = Some(7);
    assert!(!app.can_step_back());
}

#[test]
fn jumps_are_clamped() {
    let mut app = loaded("a\nb\nc\n");
    for (input, line) in [("2", 2), (" 3 ", 3), ("0", 1), ("99", 3), ("+1", 1)] {
        app.jump_input = String::from(input);
        app.jump();
        assert_eq!(app.scroll_to_line, Some(line), "input {input}");
        assert_eq!(app.jump_input, "");
    }
    app.scroll_to_line = None;
    for input in ["", "x", "-1", "2.5", "99999999999999999999999"] {
        app.jump_input = String::from(input);
        app.jump();
        assert_eq!(app.scroll_to_line, None, "input {input}");
        assert_eq!(app.jump_input, "");
    }
}

#[test]
fn filtered_lines_are_exported_in_order() {
    let mut app = loaded("ERROR a\r\nINFO b\nERROR c");
    app.level_filter = Some(LogLevel::Error);
    filter(&mut app);
    assert!(app.rows_fit());
    assert_eq!(app.filtered_lines(), vec!["ERROR a", "ERROR c"]);
    // Rows of the file before do not fit a shorter one.
    app.begin_load(String::from("/logs/short"));
    app.finish_load(Ok((parsed("x\n"), [0; 6], 2)));
    assert!(!app.rows_fit());
}

#[test]
fn titles() {
    assert_eq!(window_title(None, None), "Log Viewer");
    assert_eq!(window_title(None, Some("app.log")), "Log Viewer — app.log");
    assert_eq!(
        window_title(Some("big.log"), Some("app.log")),
        "Log Viewer — Loading big.log…"
    );
}

#[test]
fn status_shows_format_and_lines() {
    let mut app = loaded("a\nb\n");
    assert_eq!(
        app.status(),
        Some((String::from("Plain text"), String::from("2")))
    );
    let mut p = parsed("a\n");
    p.format = String::new();
    app.begin_load(String::from("/x"));
    app.finish_load(Ok((p, [0; 6], 2)));
    assert_eq!(app.status().unwrap().0, "Unknown");
    assert!(LogViewerApp::default().status().is_none());
}

#[test]
fn theme_and_errors() {
    let mut app = LogViewerApp::default();
    app.toggle_theme();
    assert!(!app.dark_mode);
    app.toggle_theme();
    assert!(app.dark_mode);
    app.last_error = Some(String::from("oops"));
    app.dismiss_error();
    assert!(app.last_error.is_none());
}

#[test]
fn steps_without_matches_do_nothing_wherever_the_walk_stands() {
    let mut app = loaded("ERROR a\n");
    for at in [7, usize::MAX] {
        app.match_cursor = Some(at);
        app.step_match(true, false);
        app.step_match(false, true);
        assert_eq!(app.match_cursor, Some(at));
        assert_eq!(app.scroll_to_line, None);
    }
}

#[test]
fn a_scan_reports_and_a_cache_hit_names_its_format() {
    let data: &'static [u8] = b"plain\n";
    let seen = std::cell::RefCell::new(Vec::new());
    let first = open_log("/logs/p", data, None, 6, 1, |s, t| seen.borrow_mut().push((s, t)));
    assert_eq!(*seen.borrow(), vec![(0, 6), (6, 6)]);
    let bytes = first.cache.unwrap();
    let again = open_log("/logs/p", data, Some(&bytes), 6, 1, |_, _| {});
    assert_eq!(again.parsed.lines.format.as_deref(), Some("Plain text"));
}
