//! Log-format detection and dispatch.
//!
//! The format of a log is sniffed from the path extension and the first
//! non-empty line of its content; the work is then left to the sub-module for
//! that format. [`parse_file`] fills in a log held in memory, [`parse_index`]
//! makes one compact record per line of an index.
pub mod json;
pub mod logcat;
pub mod plaintext;
pub mod syslog;

use rayon::iter::{IntoParallelIterator, ParallelIterator};
use vstd::prelude::*;
use vstd::string::*;
use vstd::utf8::*;

use crate::chars::{self, ascii_lowercase, lowercase, same_text, trimmed_start};
use crate::loader;
use crate::paths::{
    has_sure_extension, may_have_extension, path_extension, settled, sure_extension,
    sure_extensions_are_settled,
};
use crate::types::{EntryView, FileView, LineIndex, LineRecord, LogFile, ParsedIndex};

verus! {

// ---------------------------------------------------------------------------
// Formats
// ---------------------------------------------------------------------------

/// Formats the engine knows about.
#[derive(Debug, Clone, Copy, PartialEq, Eq, Structural)]
pub enum LogFormat {
    PlainText,
    /// Android logcat output (`tag  PID  TID  level  msg`).
    Logcat,
    /// BSD/Linux syslog (`MMM DD HH:MM:SS host proc[pid]: msg`).
    Syslog,
    /// Newline-delimited JSON or a JSON array of log objects.
    Json,
}

impl LogFormat {
    /// Human-readable name of the format.
    pub open spec fn shown(self) -> Seq<char> {
        match self {
            LogFormat::PlainText => "Plain text"@,
            LogFormat::Logcat => "Logcat"@,
            LogFormat::Syslog => "Syslog"@,
            LogFormat::Json => "JSON"@,
        }
    }

    /// Human-readable name of the format.
    pub fn name(self) -> (r: &'static str)
        ensures
            r@ == self.shown(),
    {
        match self {
            LogFormat::PlainText => "Plain text",
            LogFormat::Logcat => "Logcat",
            LogFormat::Syslog => "Syslog",
            LogFormat::Json => "JSON",
        }
    }
}

// ---------------------------------------------------------------------------
// Detection
// ---------------------------------------------------------------------------

/// An extension, in lower case, that settles the format as JSON.
pub open spec fn names_json(lower: Seq<char>) -> bool {
    lower == "json"@ || lower == "jsonl"@ || lower == "ndjson"@
}

/// The format that a line looks like.
pub open spec fn sniffed(line: Seq<char>) -> LogFormat {
    let b = encode_utf8(trimmed_start(line));
    if logcat::is_banner(b) || logcat::timestamp_len(b) is Some {
        LogFormat::Logcat
    } else if syslog::timestamp_len(b) is Some {
        LogFormat::Syslog
    } else if b.len() > 0 && (b[0] == '{' as u8 || b[0] == '[' as u8) {
        LogFormat::Json
    } else {
        LogFormat::PlainText
    }
}

/// The first of `lines` that is not empty.
pub open spec fn first_text(lines: Seq<Seq<char>>) -> Option<Seq<char>>
    decreases lines.len(),
{
    if lines.len() == 0 {
        None
    } else if lines[0].len() > 0 {
        Some(lines[0])
    } else {
        first_text(lines.drop_first())
    }
}

/// The format of a log with the lower-case extension `lower` and the first
/// non-empty line `first`: the extension has priority over the content.
pub open spec fn format_with(lower: Option<Seq<char>>, first: Option<Seq<char>>) -> LogFormat {
    if lower is Some && names_json(lower->0) {
        LogFormat::Json
    } else {
        match first {
            Some(line) => sniffed(line),
            None => LogFormat::PlainText,
        }
    }
}

/// `fmt` is the format of a log with extension `ext` and first non-empty line
/// `first`. The extension counts in lower case.
pub open spec fn is_format_for(
    ext: Option<Seq<char>>,
    first: Option<Seq<char>>,
    fmt: LogFormat,
) -> bool {
    match ext {
        Some(e) => {
            &&& fmt == format_with(Some(lowercase(e)), first)
            &&& is_ascii_chars(e) ==> fmt == format_with(Some(ascii_lowercase(e)), first)
        },
        None => fmt == format_with(None, first),
    }
}

/// `fmt` is the format of a log at `path` with first non-empty line `first`.
pub open spec fn detected(path: Seq<char>, first: Option<Seq<char>>, fmt: LogFormat) -> bool {
    exists|ext: Option<Seq<char>>|
        #[trigger] may_have_extension(path, ext) && is_format_for(ext, first, fmt)
}

/// The format of a log from its extension and its first non-empty line.
///
/// The extension has priority; sniffing is the fallback for files without a
/// recognised extension (or no extension at all).
pub fn format_for(ext: Option<&str>, first: Option<&str>) -> (r: LogFormat)
    ensures
        is_format_for(
            match ext {
                Some(e) => Some(e@),
                None => None,
            },
            match first {
                Some(l) => Some(l@),
                None => None,
            },
            r,
        ),
{
    if let Some(e) = ext {
        let lower = e.to_lowercase();
        let l = lower.as_str();
        if same_text(l, "json") || same_text(l, "jsonl") || same_text(l, "ndjson") {
            return LogFormat::Json;
        }
    }
    match first {
        Some(raw) => {
            let line = chars::trim_start(raw);
            // The full timestamp shape counts, so that unrelated MM-DD
            // patterns are not taken for logcat. A banner is as good a sign.
            if logcat::starts_banner(line) || logcat::try_parse_timestamp(line).is_some() {
                return LogFormat::Logcat;
            }
            // Again the full shape, not just the month: an ordinary sentence
            // may start with a month name.
            if syslog::try_parse_timestamp(line).is_some() {
                return LogFormat::Syslog;
            }
            let b = line.as_bytes();
            if b.len() > 0 && (b[0] == '{' as u8 || b[0] == '[' as u8) {
                return LogFormat::Json;
            }
            LogFormat::PlainText
        },
        None => LogFormat::PlainText,
    }
}

/// The lines of a log held in memory.
pub open spec fn raw_lines(f: FileView) -> Seq<Seq<char>> {
    f.entries.map_values(|e: EntryView| e.raw)
}

/// The lines of an index.
pub open spec fn index_lines(index: &LineIndex) -> Seq<Seq<char>> {
    Seq::new(index.offsets@.len(), |i: int| index.line_text(i))
}

proof fn first_text_skips(lines: Seq<Seq<char>>, i: int)
    requires
        0 <= i <= lines.len(),
        forall|k: int| 0 <= k < i ==> (#[trigger] lines[k]).len() == 0,
    ensures
        first_text(lines) == first_text(lines.skip(i)),
    decreases i,
{
    if i == 0 {
        assert(lines.skip(0) =~= lines);
    } else {
        assert forall|k: int| 0 <= k < i - 1 implies (#[trigger] lines.drop_first()[k]).len()
            == 0 by {
            assert(lines[k + 1].len() == 0);
        }
        first_text_skips(lines.drop_first(), i - 1);
        assert(lines[0].len() == 0);
        assert(lines.drop_first().skip(i - 1) =~= lines.skip(i));
    }
}

/// Detect the log format from the file extension and/or the first non-empty
/// line.
///
/// Extension has priority; content sniffing is the fallback for files
/// without a recognised extension (or no extension at all).
pub fn detect_format(log_file: &LogFile) -> (r: LogFormat)
    ensures
        detected(log_file@.path, first_text(raw_lines(log_file@)), r),
{
    let ext = path_extension(log_file.path.as_str());
    let n: usize = log_file.entries.len();
    let ghost lines = raw_lines(log_file@);
    let mut i: usize = 0;
    while i < n && log_file.entries[i].raw.as_str().is_empty()
        invariant
            i <= n == log_file.entries@.len() == lines.len(),
            lines == raw_lines(log_file@),
            forall|k: int| 0 <= k < i ==> (#[trigger] lines[k]).len() == 0,
        decreases n - i,
    {
        i = i + 1;
    }
    proof {
        first_text_skips(lines, i as int);
        if i < n {
            assert(lines.skip(i as int)[0] == log_file.entries@[i as int].raw@);
        }
    }
    if i < n {
        format_for(ext, Some(log_file.entries[i].raw.as_str()))
    } else {
        format_for(ext, None)
    }
}

/// [`detect_format`] for an index.
pub fn detect_format_index(index: &LineIndex) -> (r: LogFormat)
    requires
        index.wf(),
    ensures
        detected(index.path@, first_text(index_lines(index)), r),
{
    let ext = path_extension(index.path.as_str());
    let n: usize = index.len();
    let ghost lines = index_lines(index);
    let mut i: usize = 0;
    while i < n
        invariant
            i <= n == index.offsets@.len() == lines.len(),
            lines == index_lines(index),
            index.wf(),
            may_have_extension(
                index.path@,
                match ext {
                    Some(e) => Some(e@),
                    None => None,
                },
            ),
            forall|k: int| 0 <= k < i ==> (#[trigger] lines[k]).len() == 0,
        decreases n - i,
    {
        assert(index.has_line(i as int));
        let line = index.line_str(i);
        if !line.is_empty() {
            proof {
                first_text_skips(lines, i as int);
                assert(lines.skip(i as int)[0] == line@);
            }
            return format_for(ext, Some(line));
        }
        i = i + 1;
    }
    proof {
        first_text_skips(lines, n as int);
    }
    format_for(ext, None)
}

// ---------------------------------------------------------------------------
// Whole files in memory
// ---------------------------------------------------------------------------

/// What parsing as `fmt` makes of a file; the name of the format is noted.
pub open spec fn parsed_as(fmt: LogFormat, f: FileView) -> FileView {
    let named = FileView { format: Some(fmt.shown()), ..f };
    match fmt {
        LogFormat::PlainText => plaintext::parsed(named),
        LogFormat::Logcat => logcat::parsed(named),
        LogFormat::Syslog => syslog::parsed(named),
        LogFormat::Json => json::parsed(named),
    }
}

/// Parse `log_file` as `fmt`.
pub fn parse_file_as(log_file: &mut LogFile, fmt: LogFormat)
    ensures
        final(log_file)@ == parsed_as(fmt, old(log_file)@),
{
    log_file.format = Some(fmt.name().to_owned());
    match fmt {
        LogFormat::PlainText => plaintext::parse(log_file),
        LogFormat::Logcat => logcat::parse(log_file),
        LogFormat::Syslog => syslog::parse(log_file),
        LogFormat::Json => json::parse(log_file),
    }
}

/// `g` is what parsing `f`, whose path has the extension `ext`, makes of it.
pub open spec fn parses_to(f: FileView, ext: Option<Seq<char>>, g: FileView) -> bool {
    exists|fmt: LogFormat|
        is_format_for(ext, first_text(raw_lines(f)), fmt) && g == #[trigger] parsed_as(fmt, f)
}

/// Parse `log_file` in place, filling in timestamps and any other fields the
/// loader left empty.
///
/// # Format detection
/// The format is detected automatically; callers do not need to specify it.
/// Detection order:
/// 1. File extension (`.json`, `.jsonl`, `.ndjson`)
/// 2. Content sniff (logcat header, syslog timestamp, JSON brace)
/// 3. Falls back to plain-text when nothing else matches.
///
/// After detection the human-readable format name is stored in
/// [`LogFile::format`] so that it can be displayed without running the
/// detection again.
pub fn parse_file(log_file: &mut LogFile)
    ensures
        exists|ext: Option<Seq<char>>|
            may_have_extension(old(log_file)@.path, ext) && #[trigger] parses_to(
                old(log_file)@,
                ext,
                final(log_file)@,
            ),
{
    let fmt = detect_format(log_file);
    let ghost before = log_file@;
    parse_file_as(log_file, fmt);
    proof {
        let ext = choose|ext: Option<Seq<char>>|
            #[trigger] may_have_extension(before.path, ext) && is_format_for(
                ext,
                first_text(raw_lines(before)),
                fmt,
            );
        assert(log_file@ == parsed_as(fmt, before));
        assert(parses_to(before, ext, log_file@));
    }
}

// ---------------------------------------------------------------------------
// Indexes
// ---------------------------------------------------------------------------

/// The record of a line in a log of format `fmt`.
pub open spec fn record_as(fmt: LogFormat, line: Seq<char>) -> LineRecord {
    match fmt {
        LogFormat::PlainText => plaintext::line_record(line),
        LogFormat::Logcat => logcat::line_record(line),
        LogFormat::Syslog => syslog::line_record(line),
        LogFormat::Json => json::line_record(line),
    }
}

/// The record of one line in a log of format `fmt`.
pub fn parse_line_as(fmt: LogFormat, line: &str) -> (r: LineRecord)
    ensures
        r == record_as(fmt, line@),
{
    match fmt {
        LogFormat::PlainText => plaintext::parse_line(line),
        LogFormat::Logcat => logcat::parse_line(line),
        LogFormat::Syslog => syslog::parse_line(line),
        LogFormat::Json => json::parse_line(line),
    }
}

/// `rayon`'s parallel iterator over a range of indexes, its `map` and its
/// `collect` into a vector. Claimed is that `f` is called with every index
/// below `n` and with nothing else, and that the results come out in the
/// order of the indexes, however the calls were spread over threads.
#[verifier::external_body]
fn parallel_map<T: Send, F: Fn(usize) -> T + Sync + Send>(n: usize, f: F) -> (r: Vec<T>)
    requires
        forall|i: usize| i < n ==> #[trigger] f.requires((i,)),
    ensures
        r@.len() == n,
        forall|i: int| 0 <= i < n ==> f.ensures((i as usize,), #[trigger] r@[i]),
{
    (0..n).into_par_iter().map(f).collect()
}

/// `parsed` is `index` with the records of its lines in format `fmt`.
pub open spec fn is_index_parsed_as(fmt: LogFormat, index: LineIndex, parsed: ParsedIndex) -> bool {
    &&& parsed.lines.path@ == index.path@
    &&& parsed.lines.data@ == index.data@
    &&& parsed.lines.offsets@ == index.offsets@
    &&& parsed.lines.format is Some
    &&& parsed.lines.format->0@ == fmt.shown()
    &&& parsed.format@ == fmt.shown()
    &&& parsed.records@.len() == index.offsets@.len()
    &&& forall|i: int|
        0 <= i < index.offsets@.len() ==> #[trigger] parsed.records@[i] == record_as(
            fmt,
            index.line_text(i),
        )
}

/// `parsed` is what parsing `index`, whose path has the extension `ext`, makes
/// of it.
pub open spec fn index_parses_to(
    index: LineIndex,
    ext: Option<Seq<char>>,
    parsed: ParsedIndex,
) -> bool {
    exists|fmt: LogFormat|
        is_format_for(ext, first_text(index_lines(&index)), fmt) && #[trigger] is_index_parsed_as(
            fmt,
            index,
            parsed,
        )
}

/// Make one record per line of `index`, in parallel.
pub fn parse_index<'a>(index: LineIndex<'a>) -> (r: ParsedIndex<'a>)
    requires
        index.wf(),
    ensures
        r.wf(),
        exists|ext: Option<Seq<char>>|
            may_have_extension(index.path@, ext) && #[trigger] index_parses_to(index, ext, r),
{
    let fmt = detect_format_index(&index);
    let n: usize = index.len();
    let lines = &index;
    let line_parser = |i: usize| -> (record: LineRecord)
        requires
            lines.has_line(i as int),
        ensures
            record == record_as(fmt, lines.line_text(i as int)),
        { parse_line_as(fmt, lines.line_str(i)) };
    assert forall|i: usize| i < n implies #[trigger] line_parser.requires((i,)) by {
        assert(index.has_line(i as int));
    }
    let records = parallel_map(n, line_parser);
    let r = ParsedIndex {
        lines: LineIndex {
            path: index.path,
            data: index.data,
            offsets: index.offsets,
            format: Some(fmt.name().to_owned()),
        },
        records,
        format: fmt.name().to_owned(),
    };
    proof {
        assert forall|i: int| 0 <= i < r.lines.offsets@.len() implies #[trigger] r.lines.has_line(
            i,
        ) by {
            assert(index.has_line(i));
        }
        assert(is_index_parsed_as(fmt, index, r));
        let ext = choose|ext: Option<Seq<char>>|
            #[trigger] may_have_extension(index.path@, ext) && is_format_for(
                ext,
                first_text(index_lines(&index)),
                fmt,
            );
        assert(index_parses_to(index, ext, r));
    }
    r
}

// ---------------------------------------------------------------------------
// Laws
// ---------------------------------------------------------------------------

/// Path and content of a log settle its format, wherever the path has one
/// extension on every platform.
pub proof fn detection_is_unique(
    path: Seq<char>,
    first: Option<Seq<char>>,
    a: LogFormat,
    b: LogFormat,
)
    requires
        settled(path),
        detected(path, first, a),
        detected(path, first, b),
    ensures
        a == b,
{
}

/// A JSON extension, in whatever case, wins over any content.
pub proof fn json_extension_wins(path: Seq<char>, first: Option<Seq<char>>, fmt: LogFormat)
    requires
        has_sure_extension(path),
        is_ascii_chars(sure_extension(path)),
        names_json(ascii_lowercase(sure_extension(path))),
        detected(path, first, fmt),
    ensures
        fmt == LogFormat::Json,
{
    sure_extensions_are_settled(path);
}

/// With another extension the first non-empty line decides, and a log without
/// such a line is plain text.
pub proof fn content_decides_otherwise(
    path: Seq<char>,
    first: Option<Seq<char>>,
    fmt: LogFormat,
)
    requires
        has_sure_extension(path),
        is_ascii_chars(sure_extension(path)),
        !names_json(ascii_lowercase(sure_extension(path))),
        detected(path, first, fmt),
    ensures
        fmt == format_with(None, first),
{
    sure_extensions_are_settled(path);
}

/// So it does where the path has no dot, and thus no extension.
pub proof fn content_decides_without_extension(
    path: Seq<char>,
    first: Option<Seq<char>>,
    fmt: LogFormat,
)
    requires
        crate::paths::last_position(path, '.') < 0,
        detected(path, first, fmt),
    ensures
        fmt == format_with(None, first),
{
    crate::paths::dotless_paths_have_none(path);
}

/// Parsing never touches the path, the number of lines, their numbers or
/// their text.
pub proof fn parsing_keeps_lines(fmt: LogFormat, f: FileView)
    ensures
        parsed_as(fmt, f).path == f.path,
        parsed_as(fmt, f).entries.len() == f.entries.len(),
        raw_lines(parsed_as(fmt, f)) == raw_lines(f),
        forall|i: int|
            0 <= i < f.entries.len() ==> (#[trigger] parsed_as(fmt, f).entries[i]).line_number
                == f.entries[i].line_number,
{
    assert(raw_lines(parsed_as(fmt, f)) =~= raw_lines(f));
}

/// Parsing a file again changes nothing: the extension of its path has not
/// changed, so the same format is found, and that format has nothing to add.
pub proof fn parsing_again_changes_nothing(
    f: FileView,
    ext: Option<Seq<char>>,
    g: FileView,
    h: FileView,
)
    requires
        parses_to(f, ext, g),
        parses_to(g, ext, h),
    ensures
        h == g,
{
    let fmt = choose|fmt: LogFormat|
        is_format_for(ext, first_text(raw_lines(f)), fmt) && g == #[trigger] parsed_as(fmt, f);
    parsing_keeps_lines(fmt, f);
    let named = FileView { format: Some(fmt.shown()), ..f };
    plaintext::parse_is_idempotent(named);
    logcat::parse_is_idempotent(named);
    syslog::parse_is_idempotent(named);
    json::parse_is_idempotent(named);
    assert(parsed_as(fmt, g) == g);
}

/// Two calls of [`parse_file`] do what one does: what the second may make of
/// what the first made is that same file. Any path will do, as long as both
/// calls see the extension that the platform gives it; where every platform
/// gives it the same, they must.
pub proof fn parse_file_is_idempotent(
    f: FileView,
    first: Option<Seq<char>>,
    g: FileView,
    second: Option<Seq<char>>,
    h: FileView,
)
    requires
        first == second || settled(f.path),
        may_have_extension(f.path, first),
        parses_to(f, first, g),
        may_have_extension(g.path, second),
        parses_to(g, second, h),
    ensures
        h == g,
        g.path == f.path,
        raw_lines(g) == raw_lines(f),
        forall|i: int|
            0 <= i < f.entries.len() ==> (#[trigger] g.entries[i]).line_number
                == f.entries[i].line_number,
        exists|fmt: LogFormat| g.format == Some(#[trigger] fmt.shown()),
{
    let fmt = choose|fmt: LogFormat|
        is_format_for(first, first_text(raw_lines(f)), fmt) && g == #[trigger] parsed_as(fmt, f);
    parsing_keeps_lines(fmt, f);
    assert(g.format == Some(fmt.shown()));
    parsing_again_changes_nothing(f, first, g, h);
}

/// Index and file get the same format: for the same path and lines,
/// [`parse_index`] names the format that [`parse_file`] names.
pub proof fn index_and_file_get_the_same_format(
    index: LineIndex,
    parsed: ParsedIndex,
    f: FileView,
    g: FileView,
    ext: Option<Seq<char>>,
)
    requires
        index_lines(&index) == raw_lines(f),
        index_parses_to(index, ext, parsed),
        parses_to(f, ext, g),
    ensures
        g.format == Some(parsed.format@),
        parsed.lines.format is Some,
        parsed.lines.format->0@ == parsed.format@,
{
}

/// [`index_and_file_get_the_same_format`], where each call looks at the path
/// by itself. Any path will do, as long as both see the extension that the
/// platform gives it; where every platform gives it the same, they must.
pub proof fn parse_index_agrees_with_parse_file(
    index: LineIndex,
    of_index: Option<Seq<char>>,
    parsed: ParsedIndex,
    f: FileView,
    of_file: Option<Seq<char>>,
    g: FileView,
)
    requires
        of_index == of_file || settled(f.path),
        index.path@ == f.path,
        index_lines(&index) == raw_lines(f),
        may_have_extension(index.path@, of_index),
        index_parses_to(index, of_index, parsed),
        may_have_extension(f.path, of_file),
        parses_to(f, of_file, g),
    ensures
        g.format == Some(parsed.format@),
{
    index_and_file_get_the_same_format(index, parsed, f, g, of_file);
}

/// The record of `line` has room for where its timestamp stands and how long
/// it is.
pub open spec fn record_has_room(fmt: LogFormat, line: Seq<char>) -> bool {
    match fmt {
        LogFormat::PlainText => {
            &&& chars::indent(line) <= 0xffff
            &&& plaintext::timestamp_len(encode_utf8(trimmed_start(line))) matches Some(n) ==> n
                <= 0xff
        },
        LogFormat::Json => {
            json::timestamp_range(encode_utf8(chars::trimmed(line))) matches Some((start, end))
                ==> {
                &&& chars::indent(line) + start <= 0xffff
                &&& 0 < end - start <= 0xff
            }
        },
        _ => chars::indent(line) <= 0xffff,
    }
}

/// Both ways of parsing agree on timestamps: the record of a line points to
/// the timestamp that an entry with that text, and without one so far, gets.
pub proof fn records_agree_with_entries(fmt: LogFormat, f: FileView, i: int)
    requires
        0 <= i < f.entries.len(),
        f.entries[i].timestamp is None,
        record_has_room(fmt, f.entries[i].raw),
    ensures
        crate::types::recorded_timestamp(f.entries[i].raw, record_as(fmt, f.entries[i].raw))
            == parsed_as(fmt, f).entries[i].timestamp,
{
    let line = f.entries[i].raw;
    match fmt {
        LogFormat::PlainText => plaintext::record_agrees_with_entry(line),
        LogFormat::Logcat => logcat::record_agrees_with_entry(line),
        LogFormat::Syslog => syslog::record_agrees_with_entry(line),
        LogFormat::Json => json::record_agrees_with_entry(line),
    }
}

/// Both ways of loading a file see the same lines, and so detect the same
/// format, unless the file ends with a bare carriage return.
pub proof fn detection_agrees(index: LineIndex, path: Seq<char>, data: Seq<u8>)
    requires
        loader::indexes(index, path, data),
        loader::loadable(data),
        data.len() > 0 ==> data.last() != 13,
    ensures
        index_lines(&index) == raw_lines(loader::loaded(path, data)),
        forall|fmt: LogFormat|
            detected(index.path@, first_text(index_lines(&index)), fmt) <==> #[trigger] detected(
                path,
                first_text(raw_lines(loader::loaded(path, data))),
                fmt,
            ),
{
    let n = loader::line_starts(data).len();
    assert(loader::positions(index.offsets@).len() == n);
    assert forall|i: int| 0 <= i < n implies index_lines(&index)[i] == raw_lines(
        loader::loaded(path, data),
    )[i] by {
        loader::index_agrees_with_load(index, path, data, i);
    }
    assert(index_lines(&index) =~= raw_lines(loader::loaded(path, data)));
}

/// A JSON extension settles the format, in whatever case, and any other leaves
/// it to the content.
pub proof fn json_extensions_settle_the_format(
    ext: Seq<char>,
    first: Option<Seq<char>>,
    fmt: LogFormat,
)
    requires
        is_format_for(Some(ext), first, fmt),
    ensures
        lowercase(ext) == "json"@ || lowercase(ext) == "jsonl"@ || lowercase(ext) == "ndjson"@
            ==> fmt == LogFormat::Json,
        lowercase(ext) != "json"@ && lowercase(ext) != "jsonl"@ && lowercase(ext) != "ndjson"@
            ==> is_format_for(None, first, fmt),
        is_ascii_chars(ext) && (ascii_lowercase(ext) == "json"@ || ascii_lowercase(ext) == "jsonl"@
            || ascii_lowercase(ext) == "ndjson"@) ==> fmt == LogFormat::Json,
        is_ascii_chars(ext) && ascii_lowercase(ext) != "json"@ && ascii_lowercase(ext) != "jsonl"@
            && ascii_lowercase(ext) != "ndjson"@ ==> is_format_for(None, first, fmt),
{
}

/// The content settles the format by how its first line begins, behind white
/// space: a brace or a bracket means JSON, a logcat banner or timestamp means
/// logcat, a syslog timestamp means syslog, and anything else, or no line at
/// all, plain text.
pub proof fn content_settles_the_format(line: Seq<char>, fmt: LogFormat)
    requires
        is_format_for(None, Some(line), fmt),
    ensures
        ({
            let start = trimmed_start(line);
            let b = encode_utf8(start);
            let is_json = start.len() > 0 && (start[0] == '{' || start[0] == '[');
            let is_banner = b.len() >= 19 && b.subrange(0, 19)
                == "--------- beginning".spec_bytes();
            let is_logcat = is_banner || logcat::timestamp_len(b) is Some;
            let is_syslog = syslog::timestamp_len(b) is Some;
            &&& is_json <==> fmt == LogFormat::Json
            &&& is_logcat <==> fmt == LogFormat::Logcat
            &&& is_syslog <==> fmt == LogFormat::Syslog
            &&& !is_json && !is_logcat && !is_syslog <==> fmt == LogFormat::PlainText
        }),
        forall|other: LogFormat| #[trigger]
            is_format_for(None, None, other) <==> other == LogFormat::PlainText,
{
    let start = trimmed_start(line);
    let b = encode_utf8(start);
    reveal_strlit("--------- beginning");
    chars::ascii_literal("--------- beginning");
    let banner = "--------- beginning".spec_bytes();
    assert(banner[0] == "--------- beginning"@[0] as u8);
    if logcat::is_banner(b) {
        assert(b.subrange(0, 0int + banner.len())[0] == b[0]);
    }
    logcat::stamps_are_timestamps(b);
    syslog::stamps_are_timestamps(b);
    if syslog::timestamp_len(b) is Some {
        logcat::month_starts_with_letter(b);
    }
    if logcat::timestamp_len(b) is Some {
        assert(48 <= b[0] <= 57);
    }
    if start.len() > 0 {
        chars::first_byte_of_text(start);
        if start[0] <= '\u{7f}' {
            chars::bytes_are_characters(start[0], '{');
            chars::bytes_are_characters(start[0], '[');
        }
    } else {
        assert(b =~= Seq::<u8>::empty());
    }
}

/// The line that counts is the first that is not empty.
pub proof fn first_line_that_is_not_empty_counts(lines: Seq<Seq<char>>, i: int)
    requires
        0 <= i <= lines.len(),
        forall|k: int| 0 <= k < i ==> (#[trigger] lines[k]).len() == 0,
        i < lines.len() ==> lines[i].len() > 0,
    ensures
        i < lines.len() ==> first_text(lines) == Some(lines[i]),
        i == lines.len() ==> first_text(lines) is None,
{
    first_text_skips(lines, i);
    if i < lines.len() {
        assert(lines.skip(i)[0] == lines[i]);
    }
}

/// Every format is read by its own parser, line by line, and named in the
/// file.
pub proof fn every_format_has_its_parser(fmt: LogFormat, f: FileView, i: int, line: Seq<char>)
    requires
        0 <= i < f.entries.len(),
    ensures
        ({
            let g = parsed_as(fmt, f);
            let e = f.entries[i];
            match fmt {
                LogFormat::PlainText => {
                    &&& g.format == Some("Plain text"@)
                    &&& g.entries[i] == plaintext::parsed_entry(e)
                    &&& record_as(fmt, line) == plaintext::line_record(line)
                },
                LogFormat::Logcat => {
                    &&& g.format == Some("Logcat"@)
                    &&& g.entries[i] == logcat::parsed_entry(e)
                    &&& record_as(fmt, line) == logcat::line_record(line)
                },
                LogFormat::Syslog => {
                    &&& g.format == Some("Syslog"@)
                    &&& g.entries[i] == syslog::parsed_entry(e)
                    &&& record_as(fmt, line) == syslog::line_record(line)
                },
                LogFormat::Json => {
                    &&& g.format == Some("JSON"@)
                    &&& g.entries[i] == json::parsed_entry(e)
                    &&& record_as(fmt, line) == json::line_record(line)
                },
            }
        }),
{
}

/// A file is parsed in the format that its extension and its first line that
/// is not empty give it, every line in the same.
pub proof fn files_are_parsed_in_their_format(
    f: FileView,
    ext: Option<Seq<char>>,
    fmt: LogFormat,
    g: FileView,
    i: int,
)
    requires
        parses_to(f, ext, g),
        is_format_for(ext, first_text(raw_lines(f)), fmt),
        0 <= i < f.entries.len(),
    ensures
        g == parsed_as(fmt, f),
        raw_lines(f).len() == f.entries.len(),
        raw_lines(f)[i] == f.entries[i].raw,
{
}

/// An index is parsed in the format that its extension and its first line that
/// is not empty give it: every line has the record of its text in that format,
/// and path, contents and offsets stay.
pub proof fn indexes_are_parsed_in_their_format(
    index: LineIndex,
    ext: Option<Seq<char>>,
    fmt: LogFormat,
    parsed: ParsedIndex,
    i: int,
)
    requires
        index_parses_to(index, ext, parsed),
        is_format_for(ext, first_text(index_lines(&index)), fmt),
        0 <= i < index.offsets@.len(),
    ensures
        parsed.lines.path@ == index.path@,
        parsed.lines.data@ == index.data@,
        parsed.lines.offsets@ == index.offsets@,
        parsed.format@ == fmt.shown(),
        parsed.lines.format is Some,
        parsed.lines.format->0@ == fmt.shown(),
        parsed.records@.len() == index.offsets@.len(),
        parsed.records@[i] == record_as(fmt, index.line_text(i)),
        index_lines(&index).len() == index.offsets@.len(),
        index_lines(&index)[i] == index.line_text(i),
{
}

} // verus!
