use engine::recent::{config_lines, config_text, put_first, KEPT};
use engine::types::{AppError, ParsedIndex};
use engine::viewer::LogViewerApp;
use engine::{index_file, parse_index};

fn strings(items: &[&str]) -> Vec<String> {
    items.iter().map(|s| s.to_string()).collect()
}

fn empty_index() -> ParsedIndex<'static> {
    parse_index(index_file("/logs/app.log", b""))
}

fn open(app: &mut LogViewerApp<'static>, path: &str) {
    app.begin_load(String::from(path));
    app.finish_load(Ok((empty_index(), [0; 6], 0)));
}

#[test]
fn opened_files_come_first() {
    let mut app = LogViewerApp::default();
    for p in ["/a", "/b", "/c"] {
        open(&mut app, p);
    }
    assert_eq!(app.recent_files, strings(&["/c", "/b", "/a"]));
    open(&mut app, "/a");
    assert_eq!(app.recent_files, strings(&["/a", "/c", "/b"]));
}

#[test]
fn only_five_files_are_kept() {
    let mut app = LogViewerApp::default();
    for p in ["/a", "/b", "/c", "/d", "/e", "/f", "/g"] {
        open(&mut app, p);
    }
    assert_eq!(KEPT, 5);
    assert_eq!(app.recent_files, strings(&["/g", "/f", "/e", "/d", "/c"]));
}

#[test]
fn paths_are_compared_by_components() {
    let mut app = LogViewerApp::default();
    open(&mut app, "/logs/app.log");
    open(&mut app, "/other");
    open(&mut app, "/logs//./app.log");
    assert_eq!(app.recent_files, strings(&["/logs//./app.log", "/other"]));
}

#[test]
fn failed_loads_are_not_remembered() {
    let mut app = LogViewerApp::default();
    app.begin_load(String::from("/missing"));
    app.finish_load(Err(AppError::Io(String::from("gone"))));
    assert!(app.recent_files.is_empty());
    assert_eq!(app.last_error.as_deref(), Some("I/O error: gone"));
}

#[test]
fn put_first_takes_out_what_is_marked() {
    let files = strings(&["/a", "/b", "/c"]);
    let r = put_first(&files, &vec![false, true, false], String::from("/n"));
    assert_eq!(r, strings(&["/n", "/a", "/c"]));
    let r = put_first(&Vec::new(), &Vec::new(), String::from("/n"));
    assert_eq!(r, strings(&["/n"]));
}

#[test]
fn list_is_kept_one_path_per_line() {
    let files = strings(&["/a/b.log", "/ü.log", "relative"]);
    let text = config_text(&files);
    assert_eq!(text, "/a/b.log\n/ü.log\nrelative");
    assert_eq!(config_lines(&text), files);
    assert_eq!(config_text(&Vec::new()), "");
    assert!(config_lines("").is_empty());
}

#[test]
fn lines_of_the_list_are_like_str_lines() {
    for text in ["a\r\nb\n", "a\n\nb", "\n", "a\r", "a\rb\n\r\n", "ä\nö\r\n"] {
        let expected: Vec<String> = text.lines().map(String::from).collect();
        assert_eq!(config_lines(text), expected, "text {text:?}");
    }
}

#[test]
fn missing_files_are_not_restored() {
    let mut app = LogViewerApp::default();
    let lines = config_lines("/a\n/b\n/c");
    app.restore_recent(&lines, &vec![false, true, false]);
    assert_eq!(app.recent_files, strings(&["/a", "/c"]));
}

#[test]
fn different_paths_stay_in_the_list() {
    let mut app = LogViewerApp::default();
    for p in ["C:\\logs\\a.log", "C:\\logs\\b.log", "/logs/12:30.log", "logs/12:30.log", "./x", "x"] {
        open(&mut app, p);
    }
    assert_eq!(
        app.recent_files,
        strings(&["x", "./x", "logs/12:30.log", "/logs/12:30.log", "C:\\logs\\b.log"])
    );
    open(&mut app, "/logs/./12:30.log");
    assert_eq!(app.recent_files[0], "/logs/./12:30.log");
    assert!(!app.recent_files.contains(&String::from("/logs/12:30.log")));
    open(&mut app, "x/");
    assert!(!app.recent_files.contains(&String::from("x")));
    assert!(app.recent_files.contains(&String::from("./x")));
}
