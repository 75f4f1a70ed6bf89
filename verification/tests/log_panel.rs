use engine::log_panel::{
    button_counts, filtered_rows, highlight_spans, level_color, text_heading, toggle_level, Rgb,
};
use engine::types::{LogEntry, LogFile, LogLevel};

fn log(lines: &[(&str, Option<LogLevel>)]) -> LogFile {
    LogFile {
        path: String::from("/logs/app.log"),
        entries: lines
            .iter()
            .enumerate()
            .map(|(i, (raw, level))| LogEntry {
                line_number: i + 1,
                raw: raw.to_string(),
                timestamp: None,
                level: *level,
            })
            .collect(),
        format: None,
    }
}

fn spans(text: &str, needle: &str) -> Vec<(usize, usize, bool)> {
    highlight_spans(text, needle)
        .iter()
        .map(|s| (s.start, s.end, s.marked))
        .collect()
}

#[test]
fn colors_of_levels() {
    let default = Rgb { r: 1, g: 2, b: 3 };
    assert_eq!(level_color(Some(LogLevel::Error), default), Rgb { r: 255, g: 100, b: 100 });
    assert_eq!(level_color(Some(LogLevel::Warn), default), Rgb { r: 255, g: 200, b: 80 });
    assert_eq!(level_color(Some(LogLevel::Debug), default), Rgb { r: 120, g: 120, b: 120 });
    assert_eq!(level_color(Some(LogLevel::Trace), default), Rgb { r: 120, g: 120, b: 120 });
    assert_eq!(level_color(Some(LogLevel::Info), default), default);
    assert_eq!(level_color(Some(LogLevel::Unknown), default), default);
    assert_eq!(level_color(None, default), default);
}

#[test]
fn every_match_is_marked() {
    assert_eq!(spans("an Error, another ERROR", "error"), vec![
        (0, 3, false),
        (3, 8, true),
        (8, 18, false),
        (18, 23, true),
    ]);
    assert_eq!(spans("aaaa", "aa"), vec![(0, 2, true), (2, 4, true)]);
    assert_eq!(spans("abc", "x"), vec![(0, 3, false)]);
    assert_eq!(spans("abc", ""), vec![(0, 3, false)]);
    assert_eq!(spans("", "x"), vec![]);
    assert_eq!(spans("ABC", "aBc"), vec![(0, 3, true)]);
}

#[test]
fn spans_tile_the_text_and_hold_the_needle() {
    let text = "warn: Warning WARN, no war";
    let mut whole = String::new();
    for s in highlight_spans(text, "WARN") {
        let part = &text[s.start..s.end];
        if s.marked {
            assert_eq!(part.to_lowercase(), "warn");
        } else {
            assert!(!part.to_lowercase().contains("warn"));
        }
        whole.push_str(part);
    }
    assert_eq!(whole, text);
}

#[test]
fn matches_are_marked_where_they_stand_in_the_text() {
    // The lower case of this letter is longer than the letter.
    let text = "İx";
    assert_eq!(text.len(), 3);
    assert_eq!(text.to_lowercase().len(), 4);
    assert_eq!(spans(text, "x"), vec![(0, 2, false), (2, 3, true)]);
    // Half a letter marks the letter, and only once.
    assert_eq!(spans("aİb", "i"), vec![(0, 1, false), (1, 3, true), (3, 4, false)]);
    assert_eq!(spans("İ", "\u{307}"), vec![(0, 2, true)]);
    // The lower case of this one is shorter.
    let text = "ẞẞx";
    assert_eq!((text.len(), text.to_lowercase().len()), (7, 5));
    assert_eq!(spans(text, "X"), vec![(0, 6, false), (6, 7, true)]);
    // A sigma at the end of a word.
    assert_eq!(spans("ΟΔΟΣ x", "οδος"), vec![(0, 8, true), (8, 10, false)]);
}

#[test]
fn spans_make_up_any_text() {
    for text in ["", "İİ x İ", "ẞaẞ", "日本語", "ΣΣ Σ", "plain"] {
        for needle in ["", "i", "x", "ß", "本", "σ", "ς", "\u{307}"] {
            let whole: String = highlight_spans(text, needle)
                .iter()
                .map(|s| &text[s.start..s.end])
                .collect();
            assert_eq!(whole, text, "needle {needle:?}");
        }
    }
}

#[test]
fn rows_are_filtered_whatever_the_case() {
    let f = log(&[
        ("Hello World", Some(LogLevel::Info)),
        ("hello", Some(LogLevel::Error)),
        ("other", Some(LogLevel::Error)),
        ("HELLO", None),
    ]);
    assert_eq!(filtered_rows(&f, "hELLo", None), vec![0, 1, 3]);
    assert_eq!(filtered_rows(&f, "hello", Some(LogLevel::Error)), vec![1]);
    assert_eq!(filtered_rows(&f, "", Some(LogLevel::Error)), vec![1, 2]);
    assert_eq!(filtered_rows(&f, "", None), vec![0, 1, 2, 3]);
    assert!(filtered_rows(&f, "", Some(LogLevel::Trace)).is_empty());
    assert_eq!(filtered_rows(&log(&[("ÄÖ", None)]), "äö", None), vec![0]);
}

#[test]
fn buttons_count_levels() {
    let f = log(&[
        ("a", Some(LogLevel::Error)),
        ("b", Some(LogLevel::Warn)),
        ("c", Some(LogLevel::Error)),
        ("d", Some(LogLevel::Trace)),
        ("e", Some(LogLevel::Debug)),
        ("f", None),
        ("g", Some(LogLevel::Info)),
    ]);
    assert_eq!(button_counts(&f), (7, 2, 1, 1, 1));
}

#[test]
fn buttons_switch_on_and_off() {
    let mut filter = None;
    toggle_level(&mut filter, Some(LogLevel::Error));
    assert_eq!(filter, Some(LogLevel::Error));
    toggle_level(&mut filter, Some(LogLevel::Warn));
    assert_eq!(filter, Some(LogLevel::Warn));
    toggle_level(&mut filter, Some(LogLevel::Warn));
    assert_eq!(filter, None);
    toggle_level(&mut filter, None);
    assert_eq!(filter, None);
    filter = Some(LogLevel::Info);
    toggle_level(&mut filter, None);
    assert_eq!(filter, None);
}

#[test]
fn heading_counts_matches() {
    assert_eq!(text_heading("", 5), "Text");
    assert_eq!(text_heading("x", 0), "Text  (0 matches)");
    assert_eq!(text_heading("x", 1), "Text  (1 match)");
    assert_eq!(text_heading("x", 12), "Text  (12 matches)");
}
