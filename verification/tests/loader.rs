use engine::loader::{detect_level, report, CHUNK};
use engine::types::{AppError, LineIndex, LogLevel};
use engine::{index_file, index_file_with_progress, load_file};
use std::cell::RefCell;

#[test]
fn index_line_count_lf() {
    let content = b"alpha\nbeta\ngamma\n";
    let idx = index_file("/tmp/log", content);
    assert_eq!(idx.len(), 3, "expected 3 lines for 3-line LF file");
}

#[test]
fn index_first_line_content() {
    let content = b"first line\nsecond line\nthird line\n";
    let idx = index_file("/tmp/log", content);
    assert_eq!(idx.line_str(0), "first line");
}

#[test]
fn index_last_line_no_trailing_newline() {
    // Last line has no terminating newline — common for non-Unix files.
    let content = b"line one\nline two\nline three";
    let idx = index_file("/tmp/log", content);
    let last = idx.len() - 1;
    assert_eq!(idx.line_str(last), "line three");
}

#[test]
fn index_crlf_stripped() {
    let content = b"foo\r\nbar\r\nbaz\r\n";
    let idx = index_file("/tmp/log", content);
    assert_eq!(idx.len(), 3);
    assert_eq!(idx.line_str(0), "foo");
    assert_eq!(idx.line_str(1), "bar");
    assert_eq!(idx.line_str(2), "baz");
}

#[test]
fn index_empty_file() {
    let content = b"";
    let idx = index_file("/tmp/log", content);
    assert!(idx.is_empty(), "empty file must yield zero offsets");
}

#[test]
fn index_single_line_no_newline() {
    let content = b"only line";
    let idx = index_file("/tmp/log", content);
    assert_eq!(idx.len(), 1);
    assert_eq!(idx.line_str(0), "only line");
}

#[test]
fn index_all_lines_match_split() {
    // Cross-check every line against Rust's built-in lines() iterator.
    let content = b"apple\nbanana\ncherry\ndate\nelder\n";
    let idx = index_file("/tmp/log", content);
    let expected: Vec<&str> = std::str::from_utf8(content).unwrap().lines().collect();
    assert_eq!(idx.len(), expected.len());
    for (i, exp) in expected.iter().enumerate() {
        assert_eq!(idx.line_str(i), *exp, "mismatch at line {i}");
    }
}

#[test]
fn index_keeps_path_and_offsets() {
    let idx = index_file("/var/log/app.log", b"a\n\nbc\n");
    assert_eq!(idx.path, "/var/log/app.log");
    assert_eq!(idx.offsets, vec![0, 2, 3]);
    assert!(idx.format.is_none());
    assert!(idx.is_well_formed());
    assert_eq!(idx.line_bytes(1), b"");
    assert_eq!(idx.line_bytes(2), b"bc");
}

#[test]
fn index_strips_bare_carriage_return() {
    let idx = index_file("/tmp/log", b"one\ntwo\r");
    assert_eq!(idx.line_str(1), "two");
}

#[test]
fn index_shows_invalid_utf8_as_empty() {
    let idx = index_file("/tmp/log", b"ok\n\xff\xfe\nfine\n");
    assert_eq!(idx.line_str(0), "ok");
    assert_eq!(idx.line_str(1), "");
    assert_eq!(idx.line_bytes(1), b"\xff\xfe");
    assert_eq!(idx.line_str(2), "fine");
}

#[test]
fn index_out_of_range_offsets_are_not_well_formed() {
    let idx = LineIndex {
        path: String::from("/tmp/log"),
        data: b"abc",
        offsets: vec![0, 9],
        format: None,
    };
    assert!(!idx.is_well_formed());
    let idx = LineIndex {
        path: String::from("/tmp/log"),
        data: b"abcdef",
        offsets: vec![4, 2],
        format: None,
    };
    assert!(!idx.is_well_formed());
}

#[test]
fn progress_is_reported_per_chunk() {
    let mut data = vec![b'x'; 2 * CHUNK + 10];
    data[CHUNK] = b'\n';
    let seen = RefCell::new(Vec::new());
    let idx = index_file_with_progress("/tmp/log", &data, |scanned, total| {
        seen.borrow_mut().push((scanned, total));
    });
    assert_eq!(idx.offsets, vec![0, CHUNK as u64 + 1]);
    let total = data.len() as u64;
    assert_eq!(
        *seen.borrow(),
        vec![
            (0, total),
            (CHUNK as u64, total),
            (2 * CHUNK as u64, total),
            (total, total)
        ]
    );
}

#[test]
fn progress_is_silent_for_empty_file() {
    let seen = RefCell::new(0);
    let idx = index_file_with_progress("/tmp/log", b"", |_, _| {
        *seen.borrow_mut() += 1;
    });
    assert!(idx.is_empty());
    assert_eq!(*seen.borrow(), 0);
}

#[test]
fn lines_put_together_are_the_file() {
    let data: &[u8] = b"one\r\ntwo\n\nthree";
    let idx = index_file("/tmp/log", data);
    let mut whole = Vec::new();
    for i in 0..idx.len() {
        let start = idx.offsets[i] as usize;
        let end = if i + 1 < idx.len() {
            idx.offsets[i + 1] as usize
        } else {
            data.len()
        };
        whole.extend_from_slice(&data[start..end]);
    }
    assert_eq!(whole, data);
}

#[test]
fn load_numbers_lines_and_detects_levels() {
    let f = load_file("/var/log/app.log", b"INFO start\r\nplain\nan ERROR\n").unwrap();
    assert_eq!(f.path, "/var/log/app.log");
    assert!(f.format.is_none());
    assert_eq!(f.entries.len(), 3);
    assert_eq!(f.entries[0].line_number, 1);
    assert_eq!(f.entries[0].raw, "INFO start");
    assert_eq!(f.entries[0].level, Some(LogLevel::Info));
    assert!(f.entries[0].timestamp.is_none());
    assert_eq!(f.entries[1].level, Some(LogLevel::Unknown));
    assert_eq!(f.entries[2].line_number, 3);
    assert_eq!(f.entries[2].level, Some(LogLevel::Error));
}

#[test]
fn load_keeps_bare_carriage_return() {
    let f = load_file("/tmp/log", b"one\ntwo\r").unwrap();
    assert_eq!(f.entries[1].raw, "two\r");
}

#[test]
fn load_refuses_invalid_utf8() {
    match load_file("/tmp/log", b"ok\n\xff\n") {
        Err(AppError::Io(m)) => assert_eq!(m, "stream did not contain valid UTF-8"),
        _ => panic!("expected an I/O error"),
    }
}

#[test]
fn detect_level_prefers_the_most_severe() {
    assert_eq!(detect_level("ERROR in info handler"), Some(LogLevel::Error));
    assert_eq!(detect_level("Warning: debug trace"), Some(LogLevel::Warn));
    assert_eq!(detect_level("InFo"), Some(LogLevel::Info));
    assert_eq!(detect_level("debugging"), Some(LogLevel::Debug));
    assert_eq!(detect_level("stack trace"), Some(LogLevel::Trace));
    assert_eq!(detect_level("nothing"), Some(LogLevel::Unknown));
}

#[test]
fn error_messages_name_their_cause() {
    assert_eq!(
        AppError::Io(String::from("no such file")).message(),
        "I/O error: no such file"
    );
    assert_eq!(
        AppError::InvalidPath(String::from("/x")).message(),
        "Invalid path: /x"
    );
    assert_eq!(AppError::Other(String::from("boom")).message(), "boom");
}

#[test]
fn levels_have_slots() {
    let slots: Vec<usize> = [
        LogLevel::Error,
        LogLevel::Warn,
        LogLevel::Info,
        LogLevel::Debug,
        LogLevel::Trace,
        LogLevel::Unknown,
    ]
    .iter()
    .map(|l| usize::from(*l))
    .collect();
    assert_eq!(slots, vec![0, 1, 2, 3, 4, 5]);
}

#[test]
fn reports_of_a_length() {
    let all = |len: usize| {
        let mut v = Vec::new();
        let mut k = 0;
        while let Some(r) = report(len, k) {
            v.push(r);
            k += 1;
        }
        v
    };
    let c = CHUNK as u64;
    assert_eq!(all(0), vec![]);
    assert_eq!(all(1), vec![(0, 1), (1, 1)]);
    assert_eq!(all(CHUNK), vec![(0, c), (c, c)]);
    assert_eq!(all(CHUNK + 1), vec![(0, c + 1), (c, c + 1), (c + 1, c + 1)]);
    assert_eq!(report(5, 2), None);
}
