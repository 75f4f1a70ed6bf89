//! From the bytes of a file to its lines.
use vstd::prelude::*;
use vstd::string::*;
use vstd::utf8::*;

use crate::chars::{self, lowercase};
use crate::text::{contains, occurs};
use crate::types::{AppError, EntryView, FileView, LineIndex, LogEntry, LogFile, LogLevel};

verus! {

// ---------------------------------------------------------------------------
// Level keywords
// ---------------------------------------------------------------------------

/// `word` stands somewhere in `text`.
pub open spec fn mentions(text: Seq<char>, word: &str) -> bool {
    occurs(encode_utf8(text), word.spec_bytes())
}

/// The level of a lower-case text: the most severe level it mentions.
pub open spec fn keyword_level(lower: Seq<char>) -> LogLevel {
    if mentions(lower, "error") {
        LogLevel::Error
    } else if mentions(lower, "warn") {
        LogLevel::Warn
    } else if mentions(lower, "info") {
        LogLevel::Info
    } else if mentions(lower, "debug") {
        LogLevel::Debug
    } else if mentions(lower, "trace") {
        LogLevel::Trace
    } else {
        LogLevel::Unknown
    }
}

/// The level of a text, whatever its case.
pub open spec fn level_in(text: Seq<char>) -> LogLevel {
    keyword_level(lowercase(text))
}

/// The most severe level that `text` mentions, ignoring case.
pub fn scan_level(text: &str) -> (r: LogLevel)
    ensures
        r == level_in(text@),
        is_ascii_chars(text@) ==> r == keyword_level(chars::ascii_lowercase(text@)),
{
    // A single lower-case copy serves every keyword.
    let lower = text.to_lowercase();
    let b = lower.as_str().as_bytes();
    if contains(b, "error".as_bytes()) {
        LogLevel::Error
    } else if contains(b, "warn".as_bytes()) {
        LogLevel::Warn
    } else if contains(b, "info".as_bytes()) {
        LogLevel::Info
    } else if contains(b, "debug".as_bytes()) {
        LogLevel::Debug
    } else if contains(b, "trace".as_bytes()) {
        LogLevel::Trace
    } else {
        LogLevel::Unknown
    }
}

/// Detect the severity level of a log line by scanning for level keywords.
///
/// Checks are ordered highest-to-lowest so that the dominant keyword wins
/// on lines that happen to contain multiple level words (e.g. "ERROR in info
/// handler"). Returns `Some(LogLevel::Unknown)` when no keyword is recognised
/// so that callers can tell "not yet checked" (`None`) from "checked, no
/// match" (`Unknown`).
pub fn detect_level(line: &str) -> (r: Option<LogLevel>)
    ensures
        r == Some(level_in(line@)),
        is_ascii_chars(line@) ==> r == Some(keyword_level(chars::ascii_lowercase(line@))),
{
    Some(scan_level(line))
}

// ---------------------------------------------------------------------------
// Line starts
// ---------------------------------------------------------------------------

/// A line starts at `p`: at the first byte, or right after a line feed that is
/// not the last byte.
pub open spec fn is_line_start(data: Seq<u8>, p: int) -> bool {
    0 <= p < data.len() && (p == 0 || data[p - 1] == 10)
}

/// The line starts below `n`, in ascending order.
pub open spec fn line_starts_below(data: Seq<u8>, n: nat) -> Seq<int>
    decreases n,
{
    if n == 0 {
        seq![]
    } else if is_line_start(data, n - 1) {
        line_starts_below(data, (n - 1) as nat).push(n - 1)
    } else {
        line_starts_below(data, (n - 1) as nat)
    }
}

/// The positions at which the lines of `data` start, in ascending order.
pub open spec fn line_starts(data: Seq<u8>) -> Seq<int> {
    line_starts_below(data, data.len())
}

/// Where the line with index `i` ends, its line feed included.
pub open spec fn line_end(data: Seq<u8>, i: int) -> int {
    if i + 1 < line_starts(data).len() {
        line_starts(data)[i + 1]
    } else {
        data.len() as int
    }
}

/// The bytes of the line with index `i`, its line feed included.
pub open spec fn raw_line(data: Seq<u8>, i: int) -> Seq<u8> {
    data.subrange(line_starts(data)[i], line_end(data, i))
}

proof fn line_starts_below_sorted(data: Seq<u8>, n: nat)
    ensures
        forall|i: int|
            0 <= i < line_starts_below(data, n).len() ==> 0 <= #[trigger] line_starts_below(
                data,
                n,
            )[i] < n,
        forall|i: int, j: int|
            0 <= i < j < line_starts_below(data, n).len() ==> #[trigger] line_starts_below(
                data,
                n,
            )[i] < #[trigger] line_starts_below(data, n)[j],
        forall|p: int|
            #![trigger line_starts_below(data, n).contains(p)]
            line_starts_below(data, n).contains(p) <==> p < n && is_line_start(data, p),
    decreases n,
{
    if n > 0 {
        let m = (n - 1) as nat;
        let before = line_starts_below(data, m);
        let now = line_starts_below(data, n);
        line_starts_below_sorted(data, m);
        if is_line_start(data, n - 1) {
            assert(now[before.len() as int] == n - 1);
            assert forall|p: int|
                now.contains(p) <==> p < n && is_line_start(data, p) by {
                if now.contains(p) {
                    let k = now.index_of(p);
                    if k < before.len() {
                        assert(before[k] == p);
                        assert(before.contains(p));
                    }
                }
                if p < n && is_line_start(data, p) {
                    if p < m {
                        assert(before.contains(p));
                        let k = before.index_of(p);
                        assert(now[k] == p);
                    } else {
                        assert(now[before.len() as int] == p);
                    }
                }
            }
        }
    }
}

/// The line starts are ascending, lie inside the file, and are exactly the
/// positions that `is_line_start` admits.
pub proof fn line_starts_are_exact(data: Seq<u8>)
    ensures
        forall|i: int|
            0 <= i < line_starts(data).len() ==> 0 <= #[trigger] line_starts(data)[i] < data.len(),
        forall|i: int, j: int|
            0 <= i < j < line_starts(data).len() ==> #[trigger] line_starts(data)[i]
                < #[trigger] line_starts(data)[j],
        forall|p: int|
            #![trigger line_starts(data).contains(p)]
            line_starts(data).contains(p) <==> is_line_start(data, p),
{
    line_starts_below_sorted(data, data.len());
}

// ---------------------------------------------------------------------------
// Indexing
// ---------------------------------------------------------------------------

/// Number of bytes scanned between two progress reports.
pub const CHUNK: usize = 65536;

/// Offsets as positions.
pub open spec fn positions(offsets: Seq<u64>) -> Seq<int> {
    offsets.map_values(|o: u64| o as int)
}

/// How many reports indexing a file of `len` bytes makes: one before every
/// chunk and one at the end, and none for an empty file.
pub open spec fn report_count(len: nat) -> nat {
    if len == 0 {
        0
    } else {
        (len + CHUNK as nat - 1) as nat / CHUNK as nat + 1
    }
}

/// The reports that indexing a file of `len` bytes makes, in order: the bytes
/// scanned before every chunk, and at the end all of them, each with the size
/// of the file.
pub open spec fn reports(len: nat) -> Seq<(nat, nat)> {
    Seq::new(
        report_count(len),
        |k: int| (if k * CHUNK < len {
            (k * CHUNK) as nat
        } else {
            len
        }, len),
    )
}

/// The report with index `k`, while there are so many.
pub fn report(len: usize, k: usize) -> (r: Option<(u64, u64)>)
    ensures
        match r {
            Some((scanned, total)) => k < reports(len as nat).len() && reports(len as nat)[k as int]
                == (scanned as nat, total as nat),
            None => k >= reports(len as nat).len(),
        },
{
    if len == 0 {
        return None;
    }
    let chunks: usize = (len - 1) / CHUNK + 1;
    proof {
        assert((len + CHUNK - 1) as nat / CHUNK as nat == chunks) by (nonlinear_arith)
            requires
                len > 0,
                CHUNK == 65536,
                chunks == (len - 1) as nat / CHUNK as nat + 1,
        ;
    }
    if k < chunks {
        Some(((k * CHUNK) as u64, len as u64))
    } else if k == chunks {
        Some((len as u64, len as u64))
    } else {
        None
    }
}

/// The line starts known once the first `pos` bytes were scanned: that of the
/// line behind a line feed at the end of them is known too.
spec fn starts_behind(data: Seq<u8>, pos: int) -> Seq<int> {
    line_starts_below(data, if pos < data.len() {
        (pos + 1) as nat
    } else {
        data.len()
    })
}

/// `progress` was called, and returned, with every report for a file of `len`
/// bytes.
pub open spec fn all_reported<F: Fn(u64, u64)>(progress: F, len: nat) -> bool {
    forall|j: int|
        0 <= j < reports(len).len() ==> progress.ensures(
            ((#[trigger] reports(len)[j]).0 as u64, reports(len)[j].1 as u64),
            (),
        )
}

/// `index` is the index of the file `path` with contents `data`.
pub open spec fn indexes(index: LineIndex, path: Seq<char>, data: Seq<u8>) -> bool {
    &&& index.path@ == path
    &&& index.data@ == data
    &&& positions(index.offsets@) == line_starts(data)
    &&& index.format is None
}

/// Build a [`LineIndex`] of byte offsets over the contents `data` of `path`.
///
/// This function never copies line content; it stores only one `u64` per line.
pub fn index_file<'a>(path: &str, data: &'a [u8]) -> (r: LineIndex<'a>)
    ensures
        indexes(r, path@, data@),
        r.wf(),
{
    let silent = |scanned: u64, total: u64| {  };
    index_file_with_progress(path, data, silent)
}

/// [`index_file`], reporting the number of bytes scanned and the total: every
/// [`report`] for the length of the file, in order and once each.
///
/// The contract states that every report is made and, as `progress` need admit
/// no other arguments, that nothing else is. The order of the calls, and that
/// none is made twice, cannot be stated of an `Fn`: they can be read off the
/// loop, which makes the report with index 0, 1, 2 and so on.
pub fn index_file_with_progress<'a, F: Fn(u64, u64)>(
    path: &str,
    data: &'a [u8],
    progress: F,
) -> (r: LineIndex<'a>)
    requires
        forall|scanned: u64, total: u64|
            reports(data@.len()).contains((scanned as nat, total as nat))
                ==> #[trigger] progress.requires((scanned, total)),
    ensures
        indexes(r, path@, data@),
        r.wf(),
        all_reported(progress, data@.len()),
{
    let mut offsets: Vec<u64> = Vec::new();
    let len: usize = data.len();
    // Line 0 always starts at byte 0.
    if len > 0 {
        offsets.push(0);
    }
    assert(positions(offsets@) =~= starts_behind(data@, 0)) by {
        reveal_with_fuel(line_starts_below, 2);
    }
    let mut k: usize = 0;
    let mut pos: usize = 0;
    loop
        invariant
            len == data@.len(),
            pos <= len,
            k <= reports(len as nat).len(),
            k < reports(len as nat).len() ==> pos == reports(len as nat)[k as int].0,
            k == reports(len as nat).len() ==> pos == len,
            positions(offsets@) == starts_behind(data@, pos as int),
            forall|scanned: u64, total: u64|
                reports(data@.len()).contains((scanned as nat, total as nat))
                    ==> #[trigger] progress.requires((scanned, total)),
            forall|j: int|
                0 <= j < k ==> progress.ensures(
                    (
                        (#[trigger] reports(len as nat)[j]).0 as u64,
                        reports(len as nat)[j].1 as u64,
                    ),
                    (),
                ),
        ensures
            pos == len,
            k == reports(len as nat).len(),
        decreases reports(len as nat).len() - k,
    {
        match report(len, k) {
            Some((scanned, total)) => {
                assert(reports(len as nat).contains(reports(len as nat)[k as int]));
                progress(scanned, total);
            },
            None => {
                break ;
            },
        }
        let end: usize = if len - pos > CHUNK {
            pos + CHUNK
        } else {
            len
        };
        let mut i: usize = pos;
        while i < end
            invariant
                pos <= i <= end <= len == data@.len(),
                positions(offsets@) == starts_behind(data@, i as int),
            decreases end - i,
        {
            // A line feed at the very end starts no further line.
            if data[i] == 10 && i + 1 < len {
                let ghost before = offsets@;
                offsets.push((i + 1) as u64);
                assert(positions(offsets@) =~= positions(before).push(i + 1));
            }
            i = i + 1;
        }
        pos = end;
        k = k + 1;
    }
    let r = LineIndex { path: path.to_owned(), data, offsets, format: None };
    proof {
        if len == 0 {
            assert(positions(r.offsets@) =~= line_starts(data@));
        }
        index_is_well_formed(r, data@);
    }
    r
}

/// Offsets that are the line starts make a well-formed index.
pub proof fn index_is_well_formed(index: LineIndex, data: Seq<u8>)
    requires
        index.data@ == data,
        positions(index.offsets@) == line_starts(data),
    ensures
        index.wf(),
{
    line_starts_are_exact(data);
    let p = positions(index.offsets@);
    assert forall|i: int| 0 <= i < index.offsets@.len() implies #[trigger] index.has_line(i) by {
        assert(p[i] == index.offsets@[i]);
        if i + 1 < index.offsets@.len() {
            assert(p[i + 1] == index.offsets@[i + 1]);
        }
    }
}

// ---------------------------------------------------------------------------
// Whole files in memory
// ---------------------------------------------------------------------------

/// `raw` without the line feed it closes with, and without a carriage return
/// before that line feed.
pub open spec fn strip_line_feed(raw: Seq<u8>) -> Seq<u8> {
    let n = raw.len() as int;
    if n >= 2 && raw[n - 2] == 13 && raw[n - 1] == 10 {
        raw.take(n - 2)
    } else if n >= 1 && raw[n - 1] == 10 {
        raw.take(n - 1)
    } else {
        raw
    }
}

/// The bytes of the line with index `i` as [`load_file`] keeps them.
pub open spec fn loaded_line(data: Seq<u8>, i: int) -> Seq<u8> {
    strip_line_feed(raw_line(data, i))
}

/// The entry for the line with index `i`.
pub open spec fn loaded_entry(data: Seq<u8>, i: int) -> EntryView {
    let raw = decode_utf8(loaded_line(data, i));
    EntryView {
        line_number: (i + 1) as nat,
        raw,
        timestamp: None,
        level: Some(level_in(raw)),
    }
}

/// Every line is valid UTF-8.
pub open spec fn loadable(data: Seq<u8>) -> bool {
    forall|i: int|
        0 <= i < line_starts(data).len() ==> valid_utf8(#[trigger] loaded_line(data, i))
}

/// The file `path` with contents `data`, one entry per line.
pub open spec fn loaded(path: Seq<char>, data: Seq<u8>) -> FileView {
    FileView {
        path,
        entries: Seq::new(line_starts(data).len(), |i: int| loaded_entry(data, i)),
        format: None,
    }
}

/// Turn the contents `data` of `path` into a [`LogFile`].
///
/// - Lines are 1-indexed.
/// - Every line is stored verbatim in `raw`; no format detection.
/// - `timestamp` is left as `None`; a later pass can fill it in.
/// - `level` is populated by [`detect_level`] on every line.
/// - Returns [`AppError::Io`] when a line is not valid UTF-8.
///
/// For large files prefer [`index_file`], which avoids cloning every line
/// into a `String`.
pub fn load_file(path: &str, data: &[u8]) -> (r: Result<LogFile, AppError>)
    ensures
        match r {
            Ok(f) => loadable(data@) && f@ == loaded(path@, data@),
            Err(e) => !loadable(data@) && match e {
                AppError::Io(m) => m@ == "stream did not contain valid UTF-8"@,
                _ => false,
            },
        },
{
    let index = index_file(path, data);
    let n: usize = index.offsets.len();
    let mut entries: Vec<LogEntry> = Vec::new();
    let mut i: usize = 0;
    while i < n
        invariant
            i <= n == index.offsets@.len(),
            indexes(index, path@, data@),
            index.wf(),
            entries@.len() == i,
            forall|k: int| 0 <= k < i ==> valid_utf8(#[trigger] loaded_line(data@, k)),
            forall|k: int| 0 <= k < i ==> (#[trigger] entries@[k])@ == loaded_entry(data@, k),
        decreases n - i,
    {
        assert(index.has_line(i as int));
        let total: usize = data.len();
        let start: usize = index.offsets[i] as usize;
        let end: usize = if i + 1 < n {
            index.offsets[i + 1] as usize
        } else {
            total
        };
        let raw = &data[start..end];
        proof {
            let p = positions(index.offsets@);
            assert(p[i as int] == start);
            if i + 1 < n {
                assert(p[i + 1] == end);
            }
            assert(raw@ == raw_line(data@, i as int));
        }
        let m: usize = raw.len();
        let line = if m >= 2 && raw[m - 2] == 13 && raw[m - 1] == 10 {
            &raw[0..m - 2]
        } else if m >= 1 && raw[m - 1] == 10 {
            &raw[0..m - 1]
        } else {
            raw
        };
        assert(line@ == loaded_line(data@, i as int));
        match core::str::from_utf8(line) {
            Ok(text) => {
                proof {
                    chars::decode_of_bytes(text@, line@);
                }
                entries.push(
                    LogEntry {
                        line_number: i + 1,
                        raw: text.to_owned(),
                        timestamp: None,
                        level: detect_level(text),
                    },
                );
            },
            Err(_) => {
                return Err(AppError::Io("stream did not contain valid UTF-8".to_owned()));
            },
        }
        i = i + 1;
    }
    let r = LogFile { path: path.to_owned(), entries, format: None };
    proof {
        assert(positions(index.offsets@).len() == n);
        assert(r@.entries =~= loaded(path@, data@).entries);
    }
    Ok(r)
}

// ---------------------------------------------------------------------------
// Laws of indexing
// ---------------------------------------------------------------------------

/// The first `n` lines of `data`, line feeds included, one after the other.
pub open spec fn joined_lines(data: Seq<u8>, n: nat) -> Seq<u8>
    decreases n,
{
    if n == 0 {
        seq![]
    } else {
        joined_lines(data, (n - 1) as nat) + raw_line(data, n - 1)
    }
}

proof fn first_line_starts_at_zero(data: Seq<u8>)
    ensures
        line_starts(data).len() == 0 <==> data.len() == 0,
        data.len() > 0 ==> line_starts(data)[0] == 0,
{
    line_starts_are_exact(data);
    if data.len() > 0 {
        assert(is_line_start(data, 0));
        assert(line_starts(data).contains(0));
        let k = line_starts(data).index_of(0);
        if k > 0 {
            assert(line_starts(data)[0] < line_starts(data)[k]);
        }
    }
}

proof fn joined_lines_reach(data: Seq<u8>, n: nat)
    requires
        0 < n <= line_starts(data).len(),
    ensures
        joined_lines(data, n) == data.take(line_end(data, n - 1)),
    decreases n,
{
    line_starts_are_exact(data);
    first_line_starts_at_zero(data);
    if n == 1 {
        assert(joined_lines(data, 0) =~= Seq::<u8>::empty());
        assert(joined_lines(data, 1) =~= data.take(line_end(data, 0)));
    } else {
        joined_lines_reach(data, (n - 1) as nat);
        assert(line_starts(data)[n - 2] < line_starts(data)[n - 1]);
        assert(joined_lines(data, n) =~= data.take(line_end(data, n - 1)));
    }
}

/// Indexing loses nothing: the lines, put together again, are the file.
pub proof fn lines_make_up_the_file(data: Seq<u8>)
    ensures
        joined_lines(data, line_starts(data).len()) == data,
{
    first_line_starts_at_zero(data);
    if data.len() > 0 {
        joined_lines_reach(data, line_starts(data).len());
        assert(data.take(data.len() as int) =~= data);
    } else {
        assert(joined_lines(data, 0) =~= data);
    }
}

/// No line is empty of bytes, every line but the last ends with a line feed,
/// and no line holds a line feed before its last byte.
pub proof fn lines_end_at_line_feeds(data: Seq<u8>, i: int)
    requires
        0 <= i < line_starts(data).len(),
    ensures
        raw_line(data, i).len() > 0,
        i + 1 < line_starts(data).len() ==> raw_line(data, i).last() == 10,
        forall|k: int|
            0 <= k < raw_line(data, i).len() - 1 ==> #[trigger] raw_line(data, i)[k] != 10,
{
    line_starts_are_exact(data);
    let starts = line_starts(data);
    let s = starts[i];
    let e = line_end(data, i);
    if i + 1 < starts.len() {
        assert(starts[i] < starts[i + 1]);
        assert(starts.contains(starts[i + 1]));
    }
    assert forall|k: int| 0 <= k < raw_line(data, i).len() - 1 implies #[trigger] raw_line(
        data,
        i,
    )[k] != 10 by {
        if data[s + k] == 10 {
            let p = s + k + 1;
            assert(is_line_start(data, p));
            assert(starts.contains(p));
            let j = starts.index_of(p);
            if j < i {
                assert(starts[j] < starts[i]);
            } else if j > i + 1 {
                assert(starts[i + 1] < starts[j]);
            }
        }
    }
}

/// The reports of a file that is not empty are `(k * 65536, len)` for every `k`
/// for which that lies inside the file, and then `(len, len)`; an empty file
/// has none.
pub proof fn reports_are_exact(len: nat, k: int)
    requires
        0 <= k,
    ensures
        len == 0 ==> reports(len).len() == 0,
        len > 0 ==> reports(len).len() > 0 && reports(len).last() == (len, len),
        k + 1 < reports(len).len() <==> k * 65536 < len,
        k * 65536 < len ==> reports(len)[k] == ((k * 65536) as nat, len),
{
    if len > 0 {
        let chunks = (len + CHUNK as nat - 1) as nat / CHUNK as nat;
        assert(k < chunks <==> k * CHUNK < len) by (nonlinear_arith)
            requires
                0 <= k,
                len > 0,
                CHUNK == 65536,
                chunks == (len + CHUNK as nat - 1) as nat / CHUNK as nat,
        ;
        assert(chunks * CHUNK >= len) by (nonlinear_arith)
            requires
                len > 0,
                CHUNK == 65536,
                chunks == (len + CHUNK as nat - 1) as nat / CHUNK as nat,
        ;
    }
}

/// How many of the first `n` bytes are line feeds.
pub open spec fn line_feeds(data: Seq<u8>, n: nat) -> nat
    decreases n,
{
    if n == 0 {
        0
    } else {
        line_feeds(data, (n - 1) as nat) + if data[n - 1] == 10 {
            1nat
        } else {
            0
        }
    }
}

/// A file that is not empty has one line more than it has line feeds before
/// its last byte: a line feed at the end of the file opens no further line.
pub proof fn line_count(data: Seq<u8>)
    ensures
        line_starts(data).len() == if data.len() == 0 {
            0
        } else {
            1 + line_feeds(data, (data.len() - 1) as nat)
        },
{
    if data.len() > 0 {
        line_count_below(data, data.len());
    }
}

proof fn line_count_below(data: Seq<u8>, n: nat)
    requires
        0 < n <= data.len(),
    ensures
        line_starts_below(data, n).len() == 1 + line_feeds(data, (n - 1) as nat),
    decreases n,
{
    if n == 1 {
        reveal_with_fuel(line_starts_below, 2);
    } else {
        line_count_below(data, (n - 1) as nat);
    }
}

/// Both ways of loading a file see the same lines, unless the file ends with
/// a bare carriage return: the index strips that one too.
pub proof fn index_agrees_with_load(index: LineIndex, path: Seq<char>, data: Seq<u8>, i: int)
    requires
        indexes(index, path, data),
        loadable(data),
        data.len() > 0 ==> data.last() != 13,
        0 <= i < line_starts(data).len(),
    ensures
        index.offsets@.len() == loaded(path, data).entries.len(),
        index.line(i) == loaded_line(data, i),
        index.line_text(i) == loaded(path, data).entries[i].raw,
{
    line_starts_are_exact(data);
    lines_end_at_line_feeds(data, i);
    let p = positions(index.offsets@);
    assert(p.len() == index.offsets@.len());
    assert(p[i] == index.start(i));
    if i + 1 < p.len() {
        assert(p[i + 1] == index.end(i));
    }
    assert(raw_line(data, i) == data.subrange(index.start(i), index.end(i)));
    let raw = raw_line(data, i);
    if i + 1 == line_starts(data).len() {
        assert(raw.last() == data.last());
    }
    assert(valid_utf8(loaded_line(data, i)));
}

// ---------------------------------------------------------------------------
// Laws of levels and lines
// ---------------------------------------------------------------------------

/// The most severe word wins: wherever a level word stands in a lower-case
/// text, the level is that word's or a more severe one, whatever else the text
/// says; and a level other than `Unknown` is only ever given for its word.
pub proof fn most_severe_word_wins(lower: Seq<char>, at: int)
    ensures
        ({
            let b = encode_utf8(lower);
            let level = keyword_level(lower);
            &&& 0 <= at <= b.len() - 5 && b.subrange(at, at + 5) == "error".spec_bytes()
                ==> level == LogLevel::Error
            &&& 0 <= at <= b.len() - 4 && b.subrange(at, at + 4) == "warn".spec_bytes() ==> level
                == LogLevel::Error || level == LogLevel::Warn
            &&& 0 <= at <= b.len() - 4 && b.subrange(at, at + 4) == "info".spec_bytes() ==> level
                == LogLevel::Error || level == LogLevel::Warn || level == LogLevel::Info
            &&& 0 <= at <= b.len() - 5 && b.subrange(at, at + 5) == "debug".spec_bytes() ==> level
                != LogLevel::Trace && level != LogLevel::Unknown
            &&& 0 <= at <= b.len() - 5 && b.subrange(at, at + 5) == "trace".spec_bytes() ==> level
                != LogLevel::Unknown
        }),
        ({
            let b = encode_utf8(lower);
            match keyword_level(lower) {
                LogLevel::Error => exists|q: int|
                    0 <= q <= b.len() - 5 && #[trigger] b.subrange(q, q + 5)
                        == "error".spec_bytes(),
                LogLevel::Warn => exists|q: int|
                    0 <= q <= b.len() - 4 && #[trigger] b.subrange(q, q + 4)
                        == "warn".spec_bytes(),
                LogLevel::Info => exists|q: int|
                    0 <= q <= b.len() - 4 && #[trigger] b.subrange(q, q + 4)
                        == "info".spec_bytes(),
                LogLevel::Debug => exists|q: int|
                    0 <= q <= b.len() - 5 && #[trigger] b.subrange(q, q + 5)
                        == "debug".spec_bytes(),
                LogLevel::Trace => exists|q: int|
                    0 <= q <= b.len() - 5 && #[trigger] b.subrange(q, q + 5)
                        == "trace".spec_bytes(),
                LogLevel::Unknown => true,
            }
        }),
{
    reveal_strlit("error");
    reveal_strlit("warn");
    reveal_strlit("info");
    reveal_strlit("debug");
    reveal_strlit("trace");
    chars::ascii_literal("error");
    chars::ascii_literal("warn");
    chars::ascii_literal("info");
    chars::ascii_literal("debug");
    chars::ascii_literal("trace");
    word_is_mentioned(lower, "error", at);
    word_is_mentioned(lower, "warn", at);
    word_is_mentioned(lower, "info", at);
    word_is_mentioned(lower, "debug", at);
    word_is_mentioned(lower, "trace", at);
}

/// A text mentions a word exactly where the word stands somewhere in it.
pub proof fn word_is_mentioned(lower: Seq<char>, word: &str, at: int)
    ensures
        ({
            let b = encode_utf8(lower);
            let n = word.spec_bytes().len() as int;
            &&& 0 <= at <= b.len() - n && b.subrange(at, at + n) == word.spec_bytes() ==> mentions(
                lower,
                word,
            )
            &&& mentions(lower, word) ==> exists|q: int|
                0 <= q <= b.len() - n && #[trigger] b.subrange(q, q + n) == word.spec_bytes()
        }),
{
    let b = encode_utf8(lower);
    let n = word.spec_bytes().len() as int;
    if 0 <= at <= b.len() - n && b.subrange(at, at + n) == word.spec_bytes() {
        assert(crate::text::occurs_at(b, word.spec_bytes(), at));
    }
    if mentions(lower, word) {
        let q = choose|q: int| crate::text::occurs_at(b, word.spec_bytes(), q);
        assert(b.subrange(q, q + n) == word.spec_bytes());
    }
}

/// The level of a text is that of its lower case, so texts that differ in case
/// alone have the same level.
pub proof fn level_rests_on_lower_case(a: Seq<char>, b: Seq<char>)
    requires
        lowercase(a) == lowercase(b),
    ensures
        level_in(a) == level_in(b),
        level_in(a) == keyword_level(lowercase(a)),
{
}

/// An entry that was loaded holds its line: numbered from one, with the text
/// of the line, no timestamp yet, and the level of its text.
pub proof fn loaded_entries_hold_their_lines(path: Seq<char>, data: Seq<u8>, i: int)
    requires
        loadable(data),
        0 <= i < line_starts(data).len(),
    ensures
        loaded(path, data).path == path,
        loaded(path, data).format is None,
        loaded(path, data).entries.len() == line_starts(data).len(),
        loaded(path, data).entries[i].line_number == i + 1,
        encode_utf8(loaded(path, data).entries[i].raw) == loaded_line(data, i),
        loaded(path, data).entries[i].timestamp is None,
        loaded(path, data).entries[i].level == Some(
            level_in(loaded(path, data).entries[i].raw),
        ),
{
    assert(valid_utf8(loaded_line(data, i)));
    decode_utf8_encode_utf8(loaded_line(data, i));
}

/// A loaded line is its bytes up to the line feed, and a carriage return just
/// before that does not count either. Nothing else is left out.
pub proof fn only_line_feeds_are_left_out(body: Seq<u8>)
    ensures
        strip_line_feed(body + seq![13u8, 10u8]) == body,
        body.len() == 0 || body.last() != 13 ==> strip_line_feed(body + seq![10u8]) == body,
        body.len() == 0 || body.last() != 10 ==> strip_line_feed(body) == body,
{
    let crlf = body + seq![13u8, 10u8];
    assert(crlf.take(crlf.len() - 2) =~= body);
    let lf = body + seq![10u8];
    assert(lf.take(lf.len() - 1) =~= body);
}

/// A loaded line and its line end make up the line in the file.
pub proof fn loaded_lines_are_in_the_file(data: Seq<u8>, i: int)
    requires
        0 <= i < line_starts(data).len(),
    ensures
        ({
            let raw = raw_line(data, i);
            let line = loaded_line(data, i);
            ||| raw == line + seq![13u8, 10u8]
            ||| raw == line + seq![10u8] && (line.len() == 0 || line.last() != 13)
            ||| raw == line && i + 1 == line_starts(data).len() && raw.last() != 10
        }),
{
    lines_end_at_line_feeds(data, i);
    let raw = raw_line(data, i);
    let line = loaded_line(data, i);
    let n = raw.len() as int;
    if n >= 2 && raw[n - 2] == 13 && raw[n - 1] == 10 {
        assert(raw =~= line + seq![13u8, 10u8]);
    } else if raw[n - 1] == 10 {
        assert(raw =~= line + seq![10u8]);
    }
}

/// An index of a file holds where its lines start, each once and in order: at
/// its first byte and behind every line feed that is not its last byte, and
/// nowhere else.
pub proof fn index_holds_every_line_start(
    index: LineIndex,
    path: Seq<char>,
    data: Seq<u8>,
    p: int,
    i: int,
    j: int,
)
    requires
        indexes(index, path, data),
    ensures
        index.path@ == path,
        index.data@ == data,
        index.format is None,
        0 <= i < j < index.offsets@.len() ==> index.offsets@[i] < index.offsets@[j],
        0 <= i < index.offsets@.len() ==> index.offsets@[i] < data.len() && (index.offsets@[i] == 0
            || data[index.offsets@[i] - 1] == 10),
        0 <= p < data.len() && (p == 0 || data[p - 1] == 10) ==> exists|k: int|
            0 <= k < index.offsets@.len() && #[trigger] index.offsets@[k] == p,
{
    line_starts_are_exact(data);
    let at = positions(index.offsets@);
    if 0 <= i < index.offsets@.len() {
        assert(at[i] == index.offsets@[i]);
        assert(at.contains(at[i]));
        if i < j < index.offsets@.len() {
            assert(at[j] == index.offsets@[j]);
        }
    }
    if 0 <= p < data.len() && (p == 0 || data[p - 1] == 10) {
        assert(is_line_start(data, p));
        assert(at.contains(p));
        let k = at.index_of(p);
        assert(index.offsets@[k] == p);
    }
}

/// A file is loaded exactly where every one of its lines is text, whatever the
/// text says.
pub proof fn files_of_text_are_loaded(data: Seq<u8>, i: int)
    ensures
        (forall|k: int|
            0 <= k < line_starts(data).len() ==> valid_utf8(#[trigger] loaded_line(data, k)))
            ==> loadable(data),
        0 <= i < line_starts(data).len() && !valid_utf8(loaded_line(data, i)) ==> !loadable(data),
        data.len() == 0 ==> loadable(data),
{
    first_line_starts_at_zero(data);
}

/// Whoever follows the progress of indexing hears of every chunk: of the bytes
/// scanned before it, and at the end of the whole file.
pub proof fn every_chunk_is_reported<F: Fn(u64, u64)>(progress: F, len: nat, k: int)
    requires
        all_reported(progress, len),
        0 <= k,
        k * 65536 < len <= u64::MAX,
    ensures
        progress.ensures(((k * 65536) as u64, len as u64), ()),
        progress.ensures((len as u64, len as u64), ()),
{
    reports_are_exact(len, k);
    let n = reports(len).len() as int;
    assert(reports(len)[k] == ((k * 65536) as nat, len));
    assert(reports(len)[n - 1] == (len, len));
}

} // verus!
