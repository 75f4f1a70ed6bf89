use engine::search::{matches_row, RowSearch, SearchStep, BATCH};
use engine::types::{LogLevel, ParsedIndex};
use engine::viewer::{LogViewerApp, SearchEvent};
use engine::log_panel::filtered_rows;
use engine::{index_file, load_file, parse_index};

fn parsed(text: &str) -> ParsedIndex<'_> {
    parse_index(index_file("/logs/app.log", text.as_bytes()))
}

fn run(parsed: &ParsedIndex, query: &str, level: Option<LogLevel>) -> Vec<Vec<u32>> {
    let mut search = RowSearch::new(query, level);
    let mut batches = Vec::new();
    loop {
        match search.step(parsed) {
            SearchStep::Continue => {}
            SearchStep::Send(rows) => batches.push(rows),
            SearchStep::Finish(rest) => {
                if let Some(rows) = rest {
                    batches.push(rows);
                }
                return batches;
            }
        }
    }
}

#[test]
fn rows_match_by_text_and_level() {
    let p = parsed("INFO alpha\nERROR beta alpha\nERROR gamma\n");
    assert_eq!(run(&p, "", None), vec![vec![0, 1, 2]]);
    assert_eq!(run(&p, "alpha", None), vec![vec![0, 1]]);
    assert_eq!(run(&p, "alpha", Some(LogLevel::Error)), vec![vec![1]]);
    assert_eq!(run(&p, "", Some(LogLevel::Error)), vec![vec![1, 2]]);
    assert!(run(&p, "delta", None).is_empty());
    assert!(run(&p, "", Some(LogLevel::Trace)).is_empty());
}

#[test]
fn search_ignores_case() {
    let p = parsed("hello World\nHELLO world\nERROR x\nother\n");
    assert_eq!(run(&p, "HELLO", None), vec![vec![0, 1]]);
    assert_eq!(run(&p, "hello", None), vec![vec![0, 1]]);
    assert_eq!(run(&p, "World", None), vec![vec![0, 1]]);
    assert_eq!(run(&p, "error", None), vec![vec![2]]);
    assert_eq!(run(&p, "ERROR", None), vec![vec![2]]);
    assert_eq!(RowSearch::new("ÄB", None).query, "äb");
    let p = parsed("ÄÖ grün\näö GRÜN\nao\n");
    assert_eq!(run(&p, "Äö GRÜ", None), vec![vec![0, 1]]);
}

#[test]
fn lines_that_are_no_text_are_searched_by_their_bytes() {
    let data: &[u8] = b"\xff ERROR \xc4\nok\n";
    let p = parse_index(index_file("/logs/app.log", data));
    assert_eq!(run(&p, "Error", None), vec![vec![0]]);
    assert!(matches_row(&p, b"\xff error \xc4", None, 0));
    assert!(!matches_row(&p, b"\xff error \xe4", None, 0));
}

#[test]
fn search_and_table_filter_agree() {
    let text = "INFO Hello\nERROR hELLO\nERROR x\nΟΔΟΣ\n";
    let p = parsed(text);
    let mut f = load_file("/logs/app.log", text.as_bytes()).unwrap();
    for (i, e) in f.entries.iter_mut().enumerate() {
        e.level = Some(p.level_of(i));
    }
    for query in ["", "hello", "HELLO", "x", "οδος", "none"] {
        for level in [None, Some(LogLevel::Error), Some(LogLevel::Info)] {
            let found: Vec<usize> = run(&p, query, level)
                .into_iter()
                .flatten()
                .map(|i| i as usize)
                .collect();
            assert_eq!(found, filtered_rows(&f, query, level), "query {query:?}");
        }
    }
}

#[test]
fn long_lines_are_searched_to_the_end() {
    let mut text = "x".repeat(5000);
    text.push_str("needle\nneedl\n");
    let p = parsed(&text);
    assert!(matches_row(&p, b"needle", None, 0));
    assert!(!matches_row(&p, b"needle", None, 1));
    assert!(matches_row(&p, b"", None, 1));
}

#[test]
fn rows_come_in_batches() {
    let text = "INFO x\n".repeat(2 * BATCH + 3);
    let p = parsed(&text);
    let batches = run(&p, "", None);
    let sizes: Vec<usize> = batches.iter().map(|b| b.len()).collect();
    assert_eq!(sizes, vec![BATCH, BATCH, 3]);
    let all: Vec<u32> = batches.into_iter().flatten().collect();
    let expected: Vec<u32> = (0..(2 * BATCH + 3) as u32).collect();
    assert_eq!(all, expected);
}

#[test]
fn full_last_batch_leaves_no_rest() {
    let text = "INFO x\n".repeat(BATCH);
    let p = parsed(&text);
    let mut search = RowSearch::new("", None);
    for _ in 0..BATCH - 1 {
        assert!(matches!(search.step(&p), SearchStep::Continue));
    }
    assert!(matches!(search.step(&p), SearchStep::Send(_)));
    assert!(matches!(search.step(&p), SearchStep::Finish(None)));
}

#[test]
fn found_rows_are_collected() {
    let text = "INFO x\nERROR y\n".repeat(3 * BATCH);
    let p = parsed(&text);
    let mut app = LogViewerApp::default();
    for batch in run(&p, "", Some(LogLevel::Error)) {
        assert!(app.take_search_event(SearchEvent::Rows(batch)));
    }
    assert_eq!(app.filtered_count, 3 * BATCH as u64);
    assert_eq!(app.filtered_bitmap.len(), 3 * BATCH as u64);
    let rows: Vec<u32> = app.filtered_bitmap.iter().collect();
    let expected: Vec<u32> = (0..3 * BATCH as u32).map(|i| 2 * i + 1).collect();
    assert_eq!(rows, expected);
}

#[test]
fn bitmap_dense_100m_under_50mb() {
    let n: u32 = 100_000_000;
    let limit_bytes: usize = 50 * 1024 * 1024; // 50 MB

    let bitmap: roaring::RoaringBitmap = (0..n).collect();
    assert_eq!(bitmap.len(), n as u64, "all entries must be present");

    // Serialise to measure compressed size.
    let mut buf: Vec<u8> = Vec::new();
    bitmap
        .serialize_into(&mut buf)
        .expect("serialization must succeed");

    assert!(
        buf.len() < limit_bytes,
        "serialized size {} bytes exceeds {} byte limit",
        buf.len(),
        limit_bytes,
    );
}
