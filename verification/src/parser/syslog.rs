//! Parser for BSD/Linux syslog lines.
//!
//! Expected line structure:
//! ```text
//! Jan 15 14:23:05 hostname process[pid]: message
//! ```
//! The timestamp is the leading `MMM (D)D HH:MM:SS` token. Everything after
//! the first `: ` behind it is the message, which decides the level.
use vstd::prelude::*;
use vstd::string::*;
use vstd::utf8::*;

use crate::chars::{self, ascii_literal, indent, trimmed_start};
use crate::loader::{self, scan_level};
use crate::parser::plaintext::{
    clock_spelled_out, has_month, is_prefix, months_spelled_out, starts_with_month,
    timestamp_is_inside_line,
};
use crate::text::{
    ascii_space, digit, find_bytes, first_occurrence, first_occurrence_is_least, has_shape,
    is_ascii_space, is_digit, occurs_at, shape_at, shape_is_ascii,
};
use crate::types::{
    make_record, record_at, record_finds_timestamp, record_without_timestamp, recorded_timestamp,
    EntryView, FileView, LineRecord, LogEntry, LogFile, LogLevel,
};

verus! {

// ---------------------------------------------------------------------------
// Timestamp
// ---------------------------------------------------------------------------

/// Length of the `MMM (D)D HH:MM:SS` timestamp at the start of `b`, which
/// white space or the end of the text must follow. The day has two digits, or
/// a space and one digit.
pub open spec fn timestamp_len(b: Seq<u8>) -> Option<int> {
    if {
        &&& b.len() >= 15
        &&& starts_with_month(b)
        &&& b[3] == ' ' as u8
        &&& b[4] == ' ' as u8 || digit(b[4])
        &&& digit(b[5])
        &&& shape_at(b, 6, " dd:dd:dd".spec_bytes())
        &&& b.len() == 15 || ascii_space(b[15])
    } {
        Some(15)
    } else {
        None
    }
}

/// A timestamp is a prefix of the text whose last byte is ASCII.
pub proof fn timestamp_ends_in_ascii(b: Seq<u8>)
    ensures
        timestamp_len(b) is Some ==> 15 <= b.len() && b[14] < 128,
{
    reveal_strlit(" dd:dd:dd");
    ascii_literal(" dd:dd:dd");
    if timestamp_len(b) is Some {
        shape_is_ascii(b, 6, " dd:dd:dd".spec_bytes(), 8);
    }
}

/// Try to extract the syslog timestamp prefix from `s` (already trimmed).
///
/// Accepts both zero-padded (`Jan 05`) and space-padded (`Jan  5`) day fields.
///
/// Returns a slice of `s` covering exactly `MMM (D)D HH:MM:SS`, or `None` if
/// the line does not start with a valid syslog timestamp.
pub fn try_parse_timestamp(s: &str) -> (r: Option<&str>)
    ensures
        is_prefix(r, s, timestamp_len(s.spec_bytes())),
{
    let b = s.as_bytes();
    proof {
        timestamp_ends_in_ascii(b@);
    }
    if b.len() < 15 || !has_month(b) || b[3] != ' ' as u8 {
        return None;
    }
    if !(b[4] == ' ' as u8 || is_digit(b[4])) || !is_digit(b[5]) {
        return None;
    }
    if !has_shape(b, 6, " dd:dd:dd".as_bytes()) {
        return None;
    }
    if b.len() > 15 && !is_ascii_space(b[15]) {
        return None;
    }
    Some(chars::ascii_ended_prefix(s, 15))
}

// ---------------------------------------------------------------------------
// Message
// ---------------------------------------------------------------------------

/// The message of a line whose timestamp takes `n` bytes: what follows the
/// first `: ` behind it, without leading white space.
pub open spec fn message_after(line: Seq<char>, n: int) -> Option<Seq<char>> {
    let after = encode_utf8(trimmed_start(decode_utf8(encode_utf8(line).skip(n))));
    match first_occurrence(after, ": ".spec_bytes(), 0) {
        Some(p) => Some(trimmed_start(decode_utf8(after.skip(p + 2)))),
        None => None,
    }
}

/// Return the message portion of a syslog line (everything after `": "`).
///
/// Syslog structure after the timestamp:
/// ```text
///  hostname process[pid]: message
/// ```
/// We skip past the timestamp token and find the first `: ` to locate the
/// message boundary. Returns `None` if the structure is not recognisable.
pub fn extract_message<'a>(raw: &'a str, timestamp: &str) -> (r: Option<&'a str>)
    requires
        is_char_boundary(raw.spec_bytes(), timestamp.spec_bytes().len() as int),
    ensures
        match r {
            Some(m) => message_after(raw@, timestamp.spec_bytes().len() as int) == Some(m@),
            None => message_after(raw@, timestamp.spec_bytes().len() as int) is None,
        },
{
    let n: usize = timestamp.as_bytes().len();
    let rest = raw.split_at(n).1;
    proof {
        encode_utf8_valid_utf8(raw@);
        chars::boundary_after_cut(raw.spec_bytes(), n as int, n as int);
        assert(rest.spec_bytes() =~= raw.spec_bytes().skip(n as int));
        chars::decode_of_bytes(rest@, raw.spec_bytes().skip(n as int));
    }
    let after = chars::trim_start(rest);
    let b = after.as_bytes();
    let total: usize = b.len();
    match find_bytes(b, ": ".as_bytes(), 0) {
        Some(p) => {
            proof {
                reveal_strlit(": ");
                ascii_literal(": ");
                first_occurrence_is_least(b@, ": ".spec_bytes(), 0);
                assert(p + 2 <= total);
                assert(b@.subrange(p as int, p + 2)[1] == b@[p + 1]);
                assert(": ".spec_bytes()[1] < 128);
                encode_utf8_valid_utf8(after@);
                chars::boundary_after_ascii(b@, p + 2);
            }
            let tail = after.split_at(p + 2).1;
            proof {
                assert(tail.spec_bytes() =~= b@.skip(p + 2));
                chars::decode_of_bytes(tail@, b@.skip(p + 2));
            }
            Some(chars::trim_start(tail))
        },
        None => None,
    }
}

// ---------------------------------------------------------------------------
// Level
// ---------------------------------------------------------------------------

/// Detect a [`LogLevel`] from a substring using case-insensitive keyword scan.
///
/// Priority order is highest-to-lowest so the dominant keyword wins when
/// multiple level words appear on the same line.
pub fn detect_level_in(text: &str) -> (r: LogLevel)
    ensures
        r == loader::level_in(text@),
        is_ascii_chars(text@) ==> r == loader::keyword_level(chars::ascii_lowercase(text@)),
{
    scan_level(text)
}

// ---------------------------------------------------------------------------
// Entry points
// ---------------------------------------------------------------------------

/// The timestamp of a line: the one that follows its leading white space.
pub open spec fn timestamp_in(line: Seq<char>) -> Option<Seq<char>> {
    let b = encode_utf8(trimmed_start(line));
    if timestamp_len(b) is Some {
        Some(decode_utf8(b.subrange(0, 15)))
    } else {
        None
    }
}

/// The message of a line that has a timestamp.
pub open spec fn message_in(line: Seq<char>) -> Option<Seq<char>> {
    if timestamp_in(line) is Some {
        message_after(trimmed_start(line), 15)
    } else {
        None
    }
}

/// What [`parse`] makes of an entry.
pub open spec fn parsed_entry(e: EntryView) -> EntryView {
    EntryView {
        timestamp: if e.timestamp is None {
            timestamp_in(e.raw)
        } else {
            e.timestamp
        },
        level: if e.level is None || e.level == Some(LogLevel::Unknown) {
            match message_in(e.raw) {
                Some(m) => Some(loader::level_in(m)),
                None => e.level,
            }
        } else {
            e.level
        },
        ..e
    }
}

/// What [`parse`] makes of a file.
pub open spec fn parsed(f: FileView) -> FileView {
    FileView { entries: f.entries.map_values(|e: EntryView| parsed_entry(e)), ..f }
}

/// The timestamp of a line without leading white space, and its message.
fn split_line(line: &str) -> (r: Option<(&str, Option<&str>)>)
    ensures
        match r {
            Some((t, message)) => {
                &&& timestamp_len(line.spec_bytes()) is Some
                &&& t.spec_bytes().len() == 15
                &&& t@ == decode_utf8(line.spec_bytes().subrange(0, 15))
                &&& match message {
                    Some(m) => message_after(line@, 15) == Some(m@),
                    None => message_after(line@, 15) is None,
                }
            },
            None => timestamp_len(line.spec_bytes()) is None,
        },
{
    match try_parse_timestamp(line) {
        Some(t) => {
            proof {
                timestamp_ends_in_ascii(line.spec_bytes());
                encode_utf8_valid_utf8(line@);
                chars::boundary_after_ascii(line.spec_bytes(), 15);
                chars::decode_of_bytes(t@, t.spec_bytes());
            }
            Some((t, extract_message(line, t)))
        },
        None => None,
    }
}

fn parse_entry(entry: &mut LogEntry)
    ensures
        final(entry)@ == parsed_entry(old(entry)@),
{
    let line = chars::trim_start(entry.raw.as_str());
    if let Some((t, message)) = split_line(line) {
        let timestamp = t.to_owned();
        // A level that is already known stays.
        let needs_level = match entry.level {
            None => true,
            Some(l) => l == LogLevel::Unknown,
        };
        if needs_level {
            if let Some(m) = message {
                let level = detect_level_in(m);
                entry.level = Some(level);
            }
        }
        if entry.timestamp.is_none() {
            entry.timestamp = Some(timestamp);
        }
    }
}

/// Parse a syslog-format [`LogFile`] in place.
///
/// For each entry:
/// - Sets `entry.timestamp` from the leading `MMM (D)D HH:MM:SS` prefix.
/// - If `entry.level` is `None` or [`LogLevel::Unknown`], re-detects the level
///   from the *message portion only* (after `hostname process[pid]: `), so that
///   hostnames or process names containing level keywords do not pollute the
///   result.
/// - `entry.raw` is never modified.
pub fn parse(log_file: &mut LogFile)
    ensures
        final(log_file)@ == parsed(old(log_file)@),
{
    let n: usize = log_file.entries.len();
    let ghost before = log_file.entries@;
    let mut i: usize = 0;
    while i < n
        invariant
            i <= n == before.len() == log_file.entries@.len(),
            log_file.path == old(log_file).path,
            log_file.format == old(log_file).format,
            forall|k: int|
                0 <= k < i ==> (#[trigger] log_file.entries@[k])@ == parsed_entry(before[k]@),
            forall|k: int| i <= k < n ==> #[trigger] log_file.entries@[k] == before[k],
        decreases n - i,
    {
        parse_entry(&mut log_file.entries[i]);
        i = i + 1;
    }
    assert(log_file@.entries =~= parsed(old(log_file)@).entries);
}

/// The level that a record holds for a line: that of the message where it
/// mentions one, that of the whole line otherwise.
pub open spec fn record_level(line: Seq<char>) -> LogLevel {
    match message_in(line) {
        Some(m) => if loader::level_in(m) != LogLevel::Unknown {
            loader::level_in(m)
        } else {
            loader::level_in(line)
        },
        None => loader::level_in(line),
    }
}

/// The record of a line in a syslog log.
pub open spec fn line_record(line: Seq<char>) -> LineRecord {
    if timestamp_in(line) is Some {
        record_at(record_level(line), indent(line), 15)
    } else {
        record_without_timestamp(record_level(line))
    }
}

/// The record of one line.
pub fn parse_line(line: &str) -> (r: LineRecord)
    ensures
        r == line_record(line@),
{
    let mut level = scan_level(line);
    let s = chars::trim_start(line);
    match split_line(s) {
        Some((t, message)) => {
            if let Some(m) = message {
                let in_message = detect_level_in(m);
                if in_message != LogLevel::Unknown {
                    level = in_message;
                }
            }
            make_record(level, line.as_bytes().len() - s.as_bytes().len(), t.as_bytes().len())
        },
        None => LineRecord { level, ts_start: 0, ts_len: 0 },
    }
}

// ---------------------------------------------------------------------------
// Laws
// ---------------------------------------------------------------------------

/// The record of a line points to the timestamp that [`parse`] puts into an
/// entry with that text, and to none where there is none.
pub proof fn record_agrees_with_entry(line: Seq<char>)
    requires
        indent(line) <= 0xffff,
    ensures
        recorded_timestamp(line, line_record(line)) == timestamp_in(line),
{
    let b = encode_utf8(trimmed_start(line));
    timestamp_ends_in_ascii(b);
    if timestamp_in(line) is Some {
        timestamp_is_inside_line(line, 15);
        record_finds_timestamp(line, record_level(line), indent(line), 15);
    }
}

/// The level that [`parse`] gives to an entry without one rests on the
/// message alone: two lines with the same message get the same level.
pub proof fn level_rests_on_message(a: EntryView, b: EntryView)
    requires
        message_in(a.raw) is Some,
        message_in(a.raw) == message_in(b.raw),
        a.level is None || a.level == Some(LogLevel::Unknown),
        b.level is None || b.level == Some(LogLevel::Unknown),
    ensures
        parsed_entry(a).level == parsed_entry(b).level,
{
}

/// Parsing twice is parsing once.
pub proof fn parse_is_idempotent(f: FileView)
    ensures
        parsed(parsed(f)) == parsed(f),
{
    assert(parsed(parsed(f)).entries =~= parsed(f).entries);
}

/// Parsing keeps the line numbers and the raw text, every timestamp that was
/// already there and every level that was known.
pub proof fn parse_keeps_the_rest(f: FileView, i: int)
    requires
        0 <= i < f.entries.len(),
    ensures
        parsed(f).entries.len() == f.entries.len(),
        parsed(f).entries[i].line_number == f.entries[i].line_number,
        parsed(f).entries[i].raw == f.entries[i].raw,
        f.entries[i].timestamp is Some ==> parsed(f).entries[i].timestamp
            == f.entries[i].timestamp,
        f.entries[i].level is Some && f.entries[i].level != Some(LogLevel::Unknown)
            ==> parsed(f).entries[i].level == f.entries[i].level,
        timestamp_in(f.entries[i].raw) is None ==> parsed(f).entries[i] == f.entries[i],
{
}

/// Any month and any digits in the places of a `MMM (D)D HH:MM:SS` stamp make
/// a timestamp, where the text ends behind it or ASCII white space follows,
/// and nothing else does.
pub proof fn stamps_are_timestamps(b: Seq<u8>)
    ensures
        ({
            let m = b.subrange(0, 3);
            let is_month = {
                ||| m == "Jan".spec_bytes() || m == "Feb".spec_bytes() || m == "Mar".spec_bytes()
                ||| m == "Apr".spec_bytes() || m == "May".spec_bytes() || m == "Jun".spec_bytes()
                ||| m == "Jul".spec_bytes() || m == "Aug".spec_bytes() || m == "Sep".spec_bytes()
                ||| m == "Oct".spec_bytes() || m == "Nov".spec_bytes() || m == "Dec".spec_bytes()
            };
            let is_stamp = b.len() >= 15 && is_month && (b.len() == 15 || b[15] == 32 || b[15] == 9
                || b[15] == 10 || b[15] == 12 || b[15] == 13) && forall|k: int|
                3 <= k < 15 ==> if k == 3 || k == 6 {
                    #[trigger] b[k] == 32
                } else if k == 4 {
                    b[k] == 32 || 48 <= b[k] <= 57
                } else if k == 9 || k == 12 {
                    b[k] == 58
                } else {
                    48 <= b[k] <= 57
                };
            &&& is_stamp ==> timestamp_len(b) == Some(15int)
            &&& !is_stamp ==> timestamp_len(b) is None
        }),
{
    if b.len() >= 15 {
        months_spelled_out(b);
        clock_spelled_out(b, 6);
    }
}

/// The message is what follows the first colon with a space behind it, without
/// leading white space: whatever the host, the process and the message say.
pub proof fn message_follows_the_first_colon(
    space: Seq<char>,
    stamp: Seq<char>,
    gap: Seq<char>,
    head: Seq<char>,
    message: Seq<char>,
    e: EntryView,
)
    requires
        forall|k: int| 0 <= k < space.len() ==> chars::white_space(#[trigger] space[k]),
        is_ascii_chars(stamp),
        stamp.len() == 15,
        !chars::white_space(stamp[0]),
        forall|k: int| 0 <= k < gap.len() ==> chars::white_space(#[trigger] gap[k]),
        head.len() == 0 || !chars::white_space(head[0]),
        forall|q: int|
            0 <= q < encode_utf8(head).len() - 1 ==> !(#[trigger] encode_utf8(head)[q] == 58
                && encode_utf8(head)[q + 1] == 32),
        e.raw == space + stamp + (gap + (head + (": "@ + message))),
        timestamp_len(encode_utf8(stamp + (gap + (head + (": "@ + message))))) is Some,
    ensures
        timestamp_in(e.raw) == Some(stamp),
        message_in(e.raw) == Some(trimmed_start(message)),
        e.timestamp is None ==> parsed_entry(e).timestamp == Some(stamp),
        e.level is None || e.level == Some(LogLevel::Unknown) ==> parsed_entry(e).level == Some(
            loader::level_in(trimmed_start(message)),
        ),
        line_record(e.raw) == record_at(line_record(e.raw).level, encode_utf8(space).len(), 15),
        line_record(e.raw).level == if loader::level_in(trimmed_start(message))
            != LogLevel::Unknown {
            loader::level_in(trimmed_start(message))
        } else {
            loader::level_in(e.raw)
        },
{
    let end = ": "@ + message;
    let after = head + end;
    let tail = gap + after;
    chars::ascii_head(space, stamp, tail);
    message_of_tail(stamp, gap, head, message);
}

proof fn colon_and_space()
    ensures
        ": ".spec_bytes() == seq![58u8, 32u8],
{
    reveal_strlit(": ");
    ascii_literal(": ");
    let colon = ": ".spec_bytes();
    assert(colon[0] == ": "@[0] as u8);
    assert(colon[1] == ": "@[1] as u8);
    assert(colon =~= seq![58u8, 32u8]);
}

/// What follows the first colon with a space behind it is the message,
/// whatever stands in front of it: `n` bytes that are passed, white space, and
/// a head in which no colon has a space behind it.
pub proof fn message_of_tail(
    passed: Seq<char>,
    gap: Seq<char>,
    head: Seq<char>,
    message: Seq<char>,
)
    requires
        forall|k: int| 0 <= k < gap.len() ==> chars::white_space(#[trigger] gap[k]),
        head.len() == 0 || !chars::white_space(head[0]),
        forall|q: int|
            0 <= q < encode_utf8(head).len() - 1 ==> !(#[trigger] encode_utf8(head)[q] == 58
                && encode_utf8(head)[q + 1] == 32),
    ensures
        message_after(
            passed + (gap + (head + (": "@ + message))),
            encode_utf8(passed).len() as int,
        ) == Some(trimmed_start(message)),
{
    let end = ": "@ + message;
    let after = head + end;
    let tail = gap + after;
    let n = encode_utf8(passed).len() as int;
    chars::encode_concat(passed, tail);
    assert(encode_utf8(passed + tail).skip(n) =~= encode_utf8(tail));
    chars::decode_of_bytes(tail, encode_utf8(tail));
    reveal_strlit(": ");
    assert(after[0] == if head.len() > 0 {
        head[0]
    } else {
        ':'
    });
    chars::trimmed_start_skips(gap, after);
    colon_and_space();
    let colon = ": ".spec_bytes();
    assert(encode_utf8(": "@) == colon);
    chars::encode_concat(head, end);
    chars::encode_concat(": "@, message);
    let b = encode_utf8(after);
    let hb = encode_utf8(head);
    let p = hb.len() as int;
    assert(b =~= hb + colon + encode_utf8(message));
    assert(b.subrange(p, p + 2) =~= colon);
    assert(occurs_at(b, colon, p));
    first_occurrence_is_least(b, colon, 0);
    let q = first_occurrence(b, colon, 0)->0;
    assert(q == p) by {
        if q < p {
            assert(b.subrange(q, q + 2)[0] == b[q]);
            assert(b.subrange(q, q + 2)[1] == b[q + 1]);
            assert(b[q] == hb[q]);
            if q + 1 < p {
                assert(b[q + 1] == hb[q + 1]);
            } else {
                assert(b[p] == 58);
            }
        }
    }
    assert(b.skip(p + 2) =~= encode_utf8(message));
    chars::decode_of_bytes(message, encode_utf8(message));
}

/// A line without a timestamp has no message: its record has the level of the
/// line and points nowhere, and an entry with it is kept whole.
pub proof fn no_timestamp_no_message(e: EntryView)
    requires
        timestamp_len(encode_utf8(trimmed_start(e.raw))) is None,
    ensures
        timestamp_in(e.raw) is None,
        message_in(e.raw) is None,
        parsed_entry(e) == e,
        line_record(e.raw).level == loader::level_in(e.raw),
        line_record(e.raw).ts_start == 0,
        line_record(e.raw).ts_len == 0,
{
}

/// A line with no colon and space behind its timestamp has no message, and an
/// entry with it keeps its level.
pub proof fn no_colon_no_message(e: EntryView)
    requires
        ({
            let b = encode_utf8(trimmed_start(e.raw));
            forall|q: int| 15 <= q < b.len() - 1 ==> !(#[trigger] b[q] == 58 && b[q + 1] == 32)
        }),
    ensures
        message_in(e.raw) is None,
        parsed_entry(e).level == e.level,
        line_record(e.raw).level == loader::level_in(e.raw),
{
    let line = trimmed_start(e.raw);
    let b = encode_utf8(line);
    if timestamp_in(e.raw) is Some {
        timestamp_ends_in_ascii(b);
        encode_utf8_valid_utf8(line);
        chars::boundary_after_ascii(b, 15);
        chars::boundary_after_cut(b, 15, 15);
        let rest = decode_utf8(b.skip(15));
        decode_utf8_encode_utf8(b.skip(15));
        chars::leading_space_is_maximal(rest);
        let n = chars::leading_space(rest) as int;
        assert(rest =~= rest.take(n) + trimmed_start(rest));
        chars::encode_concat(rest.take(n), trimmed_start(rest));
        let after = encode_utf8(trimmed_start(rest));
        let cut = 15int + encode_utf8(rest.take(n)).len();
        assert(encode_utf8(rest) == b.skip(15));
        assert(b.skip(15) == encode_utf8(rest.take(n)) + after);
        assert forall|i: int| 0 <= i < after.len() implies #[trigger] after[i] == b[cut + i] by {
            assert(b.skip(15)[cut - 15 + i] == b[cut + i]);
        }
        colon_and_space();
        let colon = ": ".spec_bytes();
        first_occurrence_is_least(after, colon, 0);
        if let Some(p) = first_occurrence(after, colon, 0) {
            assert(after.subrange(p, p + 2)[0] == b[cut + p]);
            assert(after.subrange(p, p + 2)[1] == b[cut + p + 1]);
        }
    }
}

} // verus!
