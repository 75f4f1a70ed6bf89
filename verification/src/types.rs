//! The data the engine works on.
use vstd::prelude::*;
use vstd::string::*;
use vstd::utf8::*;

use crate::chars;

verus! {

/// Severity level detected from a log line.
#[derive(Debug, Clone, Copy, PartialEq, Eq, Structural)]
pub enum LogLevel {
    Error,
    Warn,
    Info,
    Debug,
    Trace,
    /// Line was inspected but no recognisable level keyword was found.
    Unknown,
}

impl LogLevel {
    /// Position of the level in tables with one slot per level.
    pub open spec fn slot(self) -> nat {
        match self {
            LogLevel::Error => 0,
            LogLevel::Warn => 1,
            LogLevel::Info => 2,
            LogLevel::Debug => 3,
            LogLevel::Trace => 4,
            LogLevel::Unknown => 5,
        }
    }
}

impl From<LogLevel> for usize {
    fn from(lvl: LogLevel) -> (r: Self) {
        match lvl {
            LogLevel::Error => 0,
            LogLevel::Warn => 1,
            LogLevel::Info => 2,
            LogLevel::Debug => 3,
            LogLevel::Trace => 4,
            LogLevel::Unknown => 5,
        }
    }
}

impl vstd::std_specs::convert::FromSpecImpl<LogLevel> for usize {
    open spec fn obeys_from_spec() -> bool {
        true
    }

    open spec fn from_spec(lvl: LogLevel) -> Self {
        lvl.slot() as usize
    }
}

/// A single line read from a log file.
#[derive(Debug, Clone)]
pub struct LogEntry {
    /// 1-based line number within the source file.
    pub line_number: usize,
    /// The raw, unmodified text of the line.
    pub raw: String,
    /// Timestamp found in the line, if any.
    pub timestamp: Option<String>,
    /// Severity level, if the line was inspected for one.
    pub level: Option<LogLevel>,
}

/// A log file held in memory, one entry per line.
#[derive(Debug, Clone)]
pub struct LogFile {
    /// Path to the source file on disk.
    pub path: String,
    /// All entries in order, one per line.
    pub entries: Vec<LogEntry>,
    /// Human-readable name of the detected log format, e.g. `"Plain text"`,
    /// `"Syslog"`, `"Logcat"`, `"JSON"`; `None` before parsing.
    pub format: Option<String>,
}

/// The text in an optional string.
pub open spec fn text_of(s: Option<String>) -> Option<Seq<char>> {
    match s {
        Some(t) => Some(t@),
        None => None,
    }
}

/// Mathematical value of a [`LogEntry`].
pub struct EntryView {
    pub line_number: nat,
    pub raw: Seq<char>,
    pub timestamp: Option<Seq<char>>,
    pub level: Option<LogLevel>,
}

impl View for LogEntry {
    type V = EntryView;

    open spec fn view(&self) -> EntryView {
        EntryView {
            line_number: self.line_number as nat,
            raw: self.raw@,
            timestamp: text_of(self.timestamp),
            level: self.level,
        }
    }
}

/// Mathematical value of a [`LogFile`].
pub struct FileView {
    pub path: Seq<char>,
    pub entries: Seq<EntryView>,
    pub format: Option<Seq<char>>,
}

impl View for LogFile {
    type V = FileView;

    open spec fn view(&self) -> FileView {
        FileView {
            path: self.path@,
            entries: self.entries@.map_values(|e: LogEntry| e@),
            format: text_of(self.format),
        }
    }
}

/// All errors the engine can surface to the user.
#[derive(Debug)]
pub enum AppError {
    /// The file could not be opened or read; carries the system's message.
    Io(String),
    /// The supplied path is not valid UTF-8.
    InvalidPath(String),
    /// Any other unexpected failure (carries a human-readable message).
    Other(String),
}

impl AppError {
    /// The text shown to the user.
    pub open spec fn shown(self) -> Seq<char> {
        match self {
            AppError::Io(e) => "I/O error: "@ + e@,
            AppError::InvalidPath(p) => "Invalid path: "@ + p@,
            AppError::Other(msg) => msg@,
        }
    }

    /// The text shown to the user.
    pub fn message(&self) -> (r: String)
        ensures
            r@ == self.shown(),
    {
        match self {
            AppError::Io(e) => {
                let mut r = "I/O error: ".to_owned();
                r.append(e.as_str());
                r
            },
            AppError::InvalidPath(p) => {
                let mut r = "Invalid path: ".to_owned();
                r.append(p.as_str());
                r
            },
            AppError::Other(msg) => msg.clone(),
        }
    }
}

// ---------------------------------------------------------------------------
// LineIndex: zero-copy large-file support
// ---------------------------------------------------------------------------

/// `raw` without the line end it closes with: CRLF, LF or a bare CR.
pub open spec fn strip_line_end(raw: Seq<u8>) -> Seq<u8> {
    let n = raw.len() as int;
    if n >= 2 && raw[n - 2] == 13 && raw[n - 1] == 10 {
        raw.take(n - 2)
    } else if n >= 1 && (raw[n - 1] == 10 || raw[n - 1] == 13) {
        raw.take(n - 1)
    } else {
        raw
    }
}

/// The text that `bytes` encode, or no text where they are not UTF-8.
pub open spec fn text_or_empty(bytes: Seq<u8>) -> Seq<char> {
    if valid_utf8(bytes) {
        decode_utf8(bytes)
    } else {
        seq![]
    }
}

/// An offset-indexed view of the bytes of a log file.
///
/// Instead of cloning every line into a `String`, `LineIndex` stores only the
/// byte offset of each line start and borrows the contents, which may be a
/// memory map of the whole file.
pub struct LineIndex<'a> {
    /// Path to the source file.
    pub path: String,
    /// Contents of the whole file.
    pub data: &'a [u8],
    /// Byte offset of the first byte of each line. Line `i` ends where line
    /// `i + 1` starts; the last one ends with the file.
    pub offsets: Vec<u64>,
    /// Human-readable name of the detected format; `None` before parsing.
    pub format: Option<String>,
}

impl<'a> LineIndex<'a> {
    /// Where line `i` starts.
    pub open spec fn start(&self, i: int) -> int {
        self.offsets@[i] as int
    }

    /// Where line `i` ends, its line end included.
    pub open spec fn end(&self, i: int) -> int {
        if i + 1 < self.offsets@.len() {
            self.offsets@[i + 1] as int
        } else {
            self.data@.len() as int
        }
    }

    /// Line `i` exists and lies inside the file.
    pub open spec fn has_line(&self, i: int) -> bool {
        0 <= i < self.offsets@.len() && self.start(i) <= self.end(i) <= self.data@.len()
    }

    /// Every line lies inside the file.
    pub open spec fn wf(&self) -> bool {
        forall|i: int| 0 <= i < self.offsets@.len() ==> #[trigger] self.has_line(i)
    }

    /// The bytes of line `i` without its line end.
    pub open spec fn line(&self, i: int) -> Seq<u8> {
        strip_line_end(self.data@.subrange(self.start(i), self.end(i)))
    }

    /// The text of line `i`.
    pub open spec fn line_text(&self, i: int) -> Seq<char> {
        text_or_empty(self.line(i))
    }

    /// The raw bytes of line `i`, with any trailing line end stripped.
    ///
    /// This is a zero-copy borrow of the contents: no allocation.
    pub fn line_bytes(&self, i: usize) -> (r: &'a [u8])
        requires
            self.has_line(i as int),
        ensures
            r@ == self.line(i as int),
    {
        let total: usize = self.data.len();
        let start: usize = self.offsets[i] as usize;
        let end: usize = if i < self.offsets.len() - 1 {
            self.offsets[i + 1] as usize
        } else {
            total
        };
        let raw = &self.data[start..end];
        let n: usize = raw.len();
        if n >= 2 && raw[n - 2] == 13 && raw[n - 1] == 10 {
            &raw[0..n - 2]
        } else if n >= 1 && (raw[n - 1] == 10 || raw[n - 1] == 13) {
            &raw[0..n - 1]
        } else {
            raw
        }
    }

    /// Line `i` as text; empty for a line whose bytes are not valid UTF-8.
    pub fn line_str(&self, i: usize) -> (r: &'a str)
        requires
            self.has_line(i as int),
        ensures
            r@ == self.line_text(i as int),
    {
        match core::str::from_utf8(self.line_bytes(i)) {
            Ok(s) => {
                proof {
                    chars::decode_of_bytes(s@, self.line(i as int));
                }
                s
            },
            Err(_) => {
                proof {
                    reveal_strlit("");
                    assert(""@ =~= Seq::<char>::empty());
                }
                ""
            },
        }
    }

    /// Total number of indexed lines.
    pub fn len(&self) -> (r: usize)
        ensures
            r == self.offsets@.len(),
    {
        self.offsets.len()
    }

    /// `true` when the file contained no lines (empty file).
    pub fn is_empty(&self) -> (r: bool)
        ensures
            r == (self.offsets@.len() == 0),
    {
        self.offsets.is_empty()
    }

    /// Whether every line lies inside the file. Holds of every index built
    /// from the file itself; offsets read back from elsewhere need the test.
    pub fn is_well_formed(&self) -> (r: bool)
        ensures
            r == self.wf(),
    {
        let n: usize = self.offsets.len();
        let mut i: usize = 0;
        while i < n
            invariant
                i <= n == self.offsets@.len(),
                forall|k: int| 0 <= k < i ==> #[trigger] self.has_line(k),
            decreases n - i,
        {
            let end: u64 = if i + 1 < n {
                self.offsets[i + 1]
            } else {
                self.data.len() as u64
            };
            if self.offsets[i] > end || end > self.data.len() as u64 {
                assert(!self.has_line(i as int));
                return false;
            }
            i = i + 1;
        }
        true
    }
}

// ---------------------------------------------------------------------------
// Streaming parser types
// ---------------------------------------------------------------------------

/// Compact parsed metadata for one line. Stored in a flat Vec for O(1) access.
#[derive(Debug, Clone, Copy, PartialEq, Eq, Structural)]
pub struct LineRecord {
    pub level: LogLevel,
    /// Byte offset within the line where the timestamp starts, and its length.
    /// Both are 0 when no timestamp was found.
    pub ts_start: u16,
    pub ts_len: u8,
}

/// An index together with one record per line.
pub struct ParsedIndex<'a> {
    pub lines: LineIndex<'a>,
    /// Parallel to `lines.offsets`.
    pub records: Vec<LineRecord>,
    pub format: String,
}

/// The part of `line` that `record` points to as its timestamp.
pub open spec fn recorded_timestamp(line: Seq<char>, record: LineRecord) -> Option<Seq<char>> {
    let bytes = encode_utf8(line);
    let start = record.ts_start as int;
    let end = start + record.ts_len;
    if record.ts_len != 0 && is_char_boundary(bytes, start) && is_char_boundary(bytes, end) {
        Some(decode_utf8(bytes.subrange(start, end)))
    } else {
        None
    }
}

/// The record of a line with the given level whose timestamp takes `len`
/// bytes from byte `start` on. The fields keep the low 16 and 8 bits.
pub open spec fn record_at(level: LogLevel, start: nat, len: nat) -> LineRecord {
    LineRecord { level, ts_start: (start % 0x10000) as u16, ts_len: (len % 0x100) as u8 }
}

/// The record of a line with the given level and no timestamp.
pub open spec fn record_without_timestamp(level: LogLevel) -> LineRecord {
    LineRecord { level, ts_start: 0, ts_len: 0 }
}

/// The record of a line with the given level and timestamp.
pub(crate) fn make_record(level: LogLevel, start: usize, len: usize) -> (r: LineRecord)
    ensures
        r == record_at(level, start as nat, len as nat),
{
    LineRecord { level, ts_start: (start % 0x10000) as u16, ts_len: (len % 0x100) as u8 }
}

/// A record finds the timestamp again: where its fields hold position and
/// length in full and both ends are character boundaries, it points to the
/// bytes it was made for.
pub proof fn record_finds_timestamp(line: Seq<char>, level: LogLevel, start: nat, len: nat)
    requires
        start <= 0xffff,
        0 < len <= 0xff,
        is_char_boundary(encode_utf8(line), start as int),
        is_char_boundary(encode_utf8(line), (start + len) as int),
    ensures
        recorded_timestamp(line, record_at(level, start, len)) == Some(
            decode_utf8(encode_utf8(line).subrange(start as int, (start + len) as int)),
        ),
{
}

impl<'a> ParsedIndex<'a> {
    /// Every line lies inside the file and has a record.
    pub open spec fn wf(&self) -> bool {
        self.lines.wf() && self.records@.len() == self.lines.offsets@.len()
    }

    /// The timestamp of line `i`, as its record gives it.
    pub fn timestamp_of(&self, i: usize) -> (r: Option<&'a str>)
        requires
            i < self.records@.len(),
            self.lines.has_line(i as int),
        ensures
            match r {
                Some(t) => recorded_timestamp(
                    self.lines.line_text(i as int),
                    self.records@[i as int],
                ) == Some(t@),
                None => recorded_timestamp(
                    self.lines.line_text(i as int),
                    self.records@[i as int],
                ) is None,
            },
    {
        let record = self.records[i];
        if record.ts_len == 0 {
            return None;
        }
        let line = self.lines.line_str(i);
        let start: usize = record.ts_start as usize;
        let end: usize = start + record.ts_len as usize;
        if line.is_char_boundary(start) && line.is_char_boundary(end) {
            let t = chars::slice(line, start, end);
            proof {
                chars::decode_of_bytes(
                    t@,
                    line.spec_bytes().subrange(start as int, end as int),
                );
            }
            Some(t)
        } else {
            None
        }
    }

    /// The level of line `i`.
    pub fn level_of(&self, i: usize) -> (r: LogLevel)
        requires
            i < self.records@.len(),
        ensures
            r == self.records@[i as int].level,
    {
        self.records[i].level
    }
}

// ---------------------------------------------------------------------------
// Laws
// ---------------------------------------------------------------------------

/// Only the line end is taken off a line: a line feed with or without a
/// carriage return before it, or a carriage return alone. Nothing else is.
pub proof fn only_line_ends_are_left_out(body: Seq<u8>)
    ensures
        strip_line_end(body + seq![13u8, 10u8]) == body,
        body.len() == 0 || body.last() != 13 ==> strip_line_end(body + seq![10u8]) == body,
        strip_line_end(body + seq![13u8]) == body,
        body.len() == 0 || body.last() != 10 && body.last() != 13 ==> strip_line_end(body) == body,
{
    let crlf = body + seq![13u8, 10u8];
    assert(crlf.take(crlf.len() - 2) =~= body);
    let lf = body + seq![10u8];
    assert(lf.take(lf.len() - 1) =~= body);
    let cr = body + seq![13u8];
    assert(cr.take(cr.len() - 1) =~= body);
}

/// The text of a line has the bytes of the line, where they are text; else it
/// is empty.
pub proof fn line_text_has_the_bytes(bytes: Seq<u8>)
    ensures
        valid_utf8(bytes) ==> encode_utf8(text_or_empty(bytes)) == bytes,
        !valid_utf8(bytes) ==> text_or_empty(bytes).len() == 0,
{
    if valid_utf8(bytes) {
        decode_utf8_encode_utf8(bytes);
    }
}

/// A line is the stretch from its offset to the next one, or to the end of
/// the file, less its line end.
pub proof fn lines_are_stretches(index: &LineIndex, i: int)
    requires
        index.has_line(i),
    ensures
        ({
            let from = index.offsets@[i] as int;
            let to = if i == index.offsets@.len() - 1 {
                index.data@.len() as int
            } else {
                index.offsets@[i + 1] as int
            };
            let raw = index.data@.subrange(from, to);
            let line = index.line(i);
            &&& 0 <= from <= to <= index.data@.len()
            &&& {
                ||| raw == line + seq![13u8, 10u8]
                ||| raw == line + seq![10u8] && (line.len() == 0 || line.last() != 13)
                ||| raw == line + seq![13u8]
                ||| raw == line && (raw.len() == 0 || raw.last() != 10 && raw.last() != 13)
            }
            &&& valid_utf8(line) ==> encode_utf8(index.line_text(i)) == line
            &&& !valid_utf8(line) ==> index.line_text(i).len() == 0
        }),
{
    let raw = index.data@.subrange(index.start(i), index.end(i));
    let line = index.line(i);
    let n = raw.len() as int;
    line_text_has_the_bytes(line);
    if n >= 2 && raw[n - 2] == 13 && raw[n - 1] == 10 {
        assert(raw =~= line + seq![13u8, 10u8]);
    } else if n >= 1 && raw[n - 1] == 10 {
        assert(raw =~= line + seq![10u8]);
    } else if n >= 1 && raw[n - 1] == 13 {
        assert(raw =~= line + seq![13u8]);
    }
}

/// A record without a length has no timestamp, and one whose timestamp would
/// end behind the line has none either.
pub proof fn records_may_have_no_timestamp(line: Seq<char>, record: LineRecord)
    ensures
        record.ts_len == 0 ==> recorded_timestamp(line, record) is None,
        record.ts_start + record.ts_len > encode_utf8(line).len() ==> recorded_timestamp(
            line,
            record,
        ) is None,
{
    let bytes = encode_utf8(line);
    let end = record.ts_start + record.ts_len;
    encode_utf8_valid_utf8(line);
    if is_char_boundary(bytes, end) {
        chars::prefix_is_valid(bytes, end);
    }
}

/// An error is shown with its own message behind what went wrong.
pub proof fn errors_show_their_message(message: String)
    ensures
        AppError::Io(message).shown().take(11) == "I/O error: "@,
        AppError::Io(message).shown().skip(11) == message@,
        AppError::InvalidPath(message).shown().take(14) == "Invalid path: "@,
        AppError::InvalidPath(message).shown().skip(14) == message@,
        AppError::Other(message).shown() == message@,
{
    reveal_strlit("I/O error: ");
    reveal_strlit("Invalid path: ");
    assert(AppError::Io(message).shown().take(11) =~= "I/O error: "@);
    assert(AppError::Io(message).shown().skip(11) =~= message@);
    assert(AppError::InvalidPath(message).shown().take(14) =~= "Invalid path: "@);
    assert(AppError::InvalidPath(message).shown().skip(14) =~= message@);
}

/// A record keeps its level, and of position and length what sixteen and eight
/// bits can hold.
pub proof fn records_keep_the_low_bits(level: LogLevel, start: nat, len: nat)
    ensures
        record_at(level, start, len).level == level,
        start < 0x1_0000 ==> record_at(level, start, len).ts_start == start,
        len < 0x100 ==> record_at(level, start, len).ts_len == len,
        record_at(level, start + 0x1_0000, len) == record_at(level, start, len),
        record_at(level, start, len + 0x100) == record_at(level, start, len),
        record_without_timestamp(level).level == level,
        record_without_timestamp(level).ts_start == 0,
        record_without_timestamp(level).ts_len == 0,
{
}

} // verus!
