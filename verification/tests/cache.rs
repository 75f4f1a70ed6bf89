use engine::cache::{
    cache_file_name, level_from_u8, level_to_u8, read_u64_le, save, try_load, write_u64_le,
};
use engine::types::{LineIndex, LineRecord, LogLevel, ParsedIndex};
use engine::{index_file, parse_index};

fn make_parsed<'a>(content: &'a [u8], format: &str) -> ParsedIndex<'a> {
    let parsed = parse_index(index_file("/tmp/source.log", content));
    ParsedIndex {
        format: format.to_owned(),
        ..parsed
    }
}

#[test]
fn roundtrip_save_and_load() {
    let content = b"2024-01-01 ERROR something bad\n2024-01-01 INFO all good\n";
    let parsed = make_parsed(content, "Plain text");
    let size = content.len() as u64;

    let bytes = save(&parsed, size, 1_700_000_000);

    let loaded = try_load("/tmp/source.log", content, &bytes, size, 1_700_000_000)
        .expect("cache should be present after save");

    assert_eq!(loaded.format, parsed.format);
    assert_eq!(loaded.lines.len(), parsed.lines.len());
    assert_eq!(loaded.lines.offsets, parsed.lines.offsets);

    for i in 0..parsed.records.len() {
        assert_eq!(
            loaded.records[i].level, parsed.records[i].level,
            "level mismatch at record {i}"
        );
        assert_eq!(
            loaded.records[i].ts_start, parsed.records[i].ts_start,
            "ts_start mismatch at record {i}"
        );
        assert_eq!(
            loaded.records[i].ts_len, parsed.records[i].ts_len,
            "ts_len mismatch at record {i}"
        );
    }
}

#[test]
fn stale_on_file_change() {
    let parsed = make_parsed(b"INFO hello\n", "Plain text");
    let bytes = save(&parsed, 11, 1_700_000_000);

    // Modify the file — size changes → cache must be stale.
    let changed = b"INFO hello\nERROR new line\n";
    assert!(
        try_load("/tmp/source.log", changed, &bytes, changed.len() as u64, 1_700_000_000).is_none(),
        "cache must be None after source file modification"
    );
}

#[test]
fn level_roundtrip_all_variants() {
    for lvl in [
        LogLevel::Error,
        LogLevel::Warn,
        LogLevel::Info,
        LogLevel::Debug,
        LogLevel::Trace,
        LogLevel::Unknown,
    ] {
        assert_eq!(level_from_u8(level_to_u8(lvl)), lvl);
    }
}

#[test]
fn no_cache_returns_none() {
    // A path that was never saved — try_load must return None gracefully.
    let result = try_load("/nonexistent/definitely/not/a/real/file.log", b"", b"", 0, 0);
    assert!(result.is_none());
}

#[test]
fn unknown_level_bytes_are_unknown() {
    assert_eq!(level_from_u8(5), LogLevel::Unknown);
    assert_eq!(level_from_u8(200), LogLevel::Unknown);
}

#[test]
fn stale_on_modification_time() {
    let parsed = make_parsed(b"INFO hello\n", "Plain text");
    let bytes = save(&parsed, 11, 5);
    assert!(try_load("/tmp/source.log", b"INFO hello\n", &bytes, 11, 5).is_some());
    assert!(try_load("/tmp/source.log", b"INFO hello\n", &bytes, 11, 6).is_none());
}

#[test]
fn layout_is_as_documented() {
    let lines = LineIndex {
        path: String::from("/tmp/source.log"),
        data: b"abc",
        offsets: vec![0, 258],
        format: None,
    };
    let parsed = ParsedIndex {
        lines,
        records: vec![
            LineRecord { level: LogLevel::Warn, ts_start: 0x0102, ts_len: 7 },
            LineRecord { level: LogLevel::Unknown, ts_start: 0, ts_len: 0 },
        ],
        format: String::from("JSON"),
    };
    let bytes = save(&parsed, 3, 256);
    let mut expected: Vec<u8> = b"LOGVIDX1".to_vec();
    expected.extend_from_slice(&3u64.to_le_bytes());
    expected.extend_from_slice(&256u64.to_le_bytes());
    expected.extend_from_slice(&2u64.to_le_bytes());
    expected.extend_from_slice(&0u64.to_le_bytes());
    expected.extend_from_slice(&258u64.to_le_bytes());
    expected.extend_from_slice(&[1, 2, 1, 7, 5, 0, 0, 0]);
    expected.push(4);
    expected.extend_from_slice(b"JSON");
    assert_eq!(bytes, expected);
}

#[test]
fn long_format_name_is_cut_off() {
    let parsed = make_parsed(b"x\n", &"f".repeat(300));
    let bytes = save(&parsed, 2, 0);
    let loaded = try_load("/tmp/source.log", b"x\n", &bytes, 2, 0).unwrap();
    assert_eq!(loaded.format, "f".repeat(255));
}

#[test]
fn damaged_caches_are_refused() {
    let content: &[u8] = b"INFO a\nINFO b\n";
    let parsed = make_parsed(content, "Plain text");
    let good = save(&parsed, 14, 9);
    assert!(try_load("/tmp/source.log", content, &good, 14, 9).is_some());

    // Cut off at every length.
    for n in 0..good.len() {
        assert!(try_load("/tmp/source.log", content, &good[..n], 14, 9).is_none(), "length {n}");
    }
    // Wrong magic.
    let mut bad = good.clone();
    bad[7] = b'2';
    assert!(try_load("/tmp/source.log", content, &bad, 14, 9).is_none());
    // A line count far beyond the file.
    let mut bad = good.clone();
    for b in &mut bad[24..32] {
        *b = 0xff;
    }
    assert!(try_load("/tmp/source.log", content, &bad, 14, 9).is_none());
    // A format name that is not UTF-8.
    let mut bad = good.clone();
    let last = bad.len() - 1;
    bad[last] = 0xff;
    assert!(try_load("/tmp/source.log", content, &bad, 14, 9).is_none());
}

#[test]
fn little_endian_numbers() {
    let mut w = vec![9u8];
    write_u64_le(&mut w, 0x0102_0304_0506_0708);
    assert_eq!(w, vec![9, 8, 7, 6, 5, 4, 3, 2, 1]);
    assert_eq!(read_u64_le(&w, 1), 0x0102_0304_0506_0708);
    let mut w = Vec::new();
    write_u64_le(&mut w, u64::MAX);
    assert_eq!(read_u64_le(&w, 0), u64::MAX);
}

#[test]
fn cache_file_names_are_hexadecimal() {
    assert_eq!(cache_file_name(0), "0000000000000000.idx");
    assert_eq!(cache_file_name(0x0123_4567_89ab_cdef), "0123456789abcdef.idx");
    assert_eq!(cache_file_name(u64::MAX), "ffffffffffffffff.idx");
}
