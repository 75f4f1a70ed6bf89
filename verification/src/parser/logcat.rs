//! Parser for Android logcat threadtime-format lines.
//!
//! Expected line structure:
//! ```text
//! MM-DD HH:MM:SS.mmm  PID  TID LEVEL TAG: message
//! ```
//!
//! Lines beginning with `--------- beginning` are logcat section banners;
//! they carry no timestamp or level and are left untouched.
use vstd::prelude::*;
use vstd::string::*;
use vstd::utf8::*;

use crate::chars::{self, ascii_literal, indent, trimmed_start, words};
use crate::parser::plaintext::{is_prefix, starts_with_month, timestamp_is_inside_line};
use crate::text::{
    ascii_space, digit, fits, has_shape, is_ascii_space, occurs_at, shape_at, shape_is_ascii,
    stands_at,
};
use crate::types::{
    make_record, record_at, record_finds_timestamp, record_without_timestamp, recorded_timestamp,
    EntryView, FileView, LineRecord, LogEntry, LogFile, LogLevel,
};

verus! {

// ---------------------------------------------------------------------------
// Timestamp
// ---------------------------------------------------------------------------

/// Length of the `MM-DD HH:MM:SS.mmm` timestamp at the start of `b`, which
/// white space or the end of the text must follow.
pub open spec fn timestamp_len(b: Seq<u8>) -> Option<int> {
    if shape_at(b, 0, "dd-dd dd:dd:dd.ddd".spec_bytes()) && (b.len() == 18 || ascii_space(b[18])) {
        Some(18)
    } else {
        None
    }
}

/// A timestamp is a prefix of the text whose last byte is ASCII.
pub proof fn timestamp_ends_in_ascii(b: Seq<u8>)
    ensures
        timestamp_len(b) is Some ==> 18 <= b.len() && b[17] < 128,
{
    reveal_strlit("dd-dd dd:dd:dd.ddd");
    ascii_literal("dd-dd dd:dd:dd.ddd");
    if timestamp_len(b) is Some {
        shape_is_ascii(b, 0, "dd-dd dd:dd:dd.ddd".spec_bytes(), 17);
    }
}

/// Try to parse the leading `MM-DD HH:MM:SS.mmm` timestamp from `s`.
///
/// Validates every digit and separator position directly on bytes.
/// Returns a slice of `s` covering the token, or `None` on mismatch.
pub fn try_parse_timestamp(s: &str) -> (r: Option<&str>)
    ensures
        is_prefix(r, s, timestamp_len(s.spec_bytes())),
{
    let b = s.as_bytes();
    proof {
        reveal_strlit("dd-dd dd:dd:dd.ddd");
        ascii_literal("dd-dd dd:dd:dd.ddd");
        timestamp_ends_in_ascii(b@);
    }
    if !has_shape(b, 0, "dd-dd dd:dd:dd.ddd".as_bytes()) {
        return None;
    }
    if b.len() > 18 && !is_ascii_space(b[18]) {
        return None;
    }
    Some(chars::ascii_ended_prefix(s, 18))
}

// ---------------------------------------------------------------------------
// Level
// ---------------------------------------------------------------------------

/// The level that a logcat level letter stands for.
pub open spec fn letter_level(ch: u8) -> Option<LogLevel> {
    if ch == 'V' as u8 {
        Some(LogLevel::Trace)
    } else if ch == 'D' as u8 {
        Some(LogLevel::Debug)
    } else if ch == 'I' as u8 {
        Some(LogLevel::Info)
    } else if ch == 'W' as u8 {
        Some(LogLevel::Warn)
    } else if ch == 'E' as u8 || ch == 'F' as u8 {
        Some(LogLevel::Error)
    } else {
        None
    }
}

/// Map a logcat single-character level to [`LogLevel`].
///
/// Returns `None` for any character that is not a recognised logcat level letter.
pub fn map_level(ch: u8) -> (r: Option<LogLevel>)
    ensures
        r == letter_level(ch),
{
    if ch == 'V' as u8 {
        Some(LogLevel::Trace)
    } else if ch == 'D' as u8 {
        Some(LogLevel::Debug)
    } else if ch == 'I' as u8 {
        Some(LogLevel::Info)
    } else if ch == 'W' as u8 {
        Some(LogLevel::Warn)
    } else if ch == 'E' as u8 || ch == 'F' as u8 {
        Some(LogLevel::Error)
    } else {
        None
    }
}

/// The level in the fields after the timestamp: the third word, where it is a
/// single level letter.
pub open spec fn fields_level(after_timestamp: Seq<char>) -> Option<LogLevel> {
    let fields = words(after_timestamp);
    if fields.len() > 2 && encode_utf8(fields[2]).len() == 1 {
        letter_level(encode_utf8(fields[2])[0])
    } else {
        None
    }
}

/// Find the logcat level character in the fields that follow the timestamp.
///
/// Threadtime layout after the timestamp:
/// ```text
/// <whitespace> PID <whitespace> TID <whitespace> LEVEL <whitespace> TAG: msg
/// ```
/// The level is the third whitespace-separated token after the timestamp and
/// is always a single character.
pub fn parse_level_from_fields(after_timestamp: &str) -> (r: Option<LogLevel>)
    ensures
        r == fields_level(after_timestamp@),
{
    match chars::nth_word(after_timestamp, 2) {
        Some(token) => {
            let b = token.as_bytes();
            if b.len() == 1 {
                map_level(b[0])
            } else {
                None
            }
        },
        None => None,
    }
}

// ---------------------------------------------------------------------------
// Entry points
// ---------------------------------------------------------------------------

/// A section banner.
pub open spec fn is_banner(b: Seq<u8>) -> bool {
    occurs_at(b, "--------- beginning".spec_bytes(), 0)
}

/// Whether `line` starts with a section banner.
pub(crate) fn starts_banner(line: &str) -> (r: bool)
    ensures
        r == is_banner(line.spec_bytes()),
{
    stands_at(line.as_bytes(), "--------- beginning".as_bytes(), 0)
}

/// The timestamp of a line: the one that follows its leading white space.
pub open spec fn timestamp_in(line: Seq<char>) -> Option<Seq<char>> {
    let b = encode_utf8(trimmed_start(line));
    if timestamp_len(b) is Some && !is_banner(b) {
        Some(decode_utf8(b.subrange(0, 18)))
    } else {
        None
    }
}

/// The level in the level field of a line that has a timestamp.
pub open spec fn level_in(line: Seq<char>) -> Option<LogLevel> {
    let b = encode_utf8(trimmed_start(line));
    if timestamp_len(b) is Some && !is_banner(b) {
        fields_level(decode_utf8(b.skip(18)))
    } else {
        None
    }
}

/// What [`parse`] makes of an entry.
pub open spec fn parsed_entry(e: EntryView) -> EntryView {
    EntryView {
        timestamp: if timestamp_in(e.raw) is Some {
            timestamp_in(e.raw)
        } else {
            e.timestamp
        },
        level: if level_in(e.raw) is Some {
            level_in(e.raw)
        } else {
            e.level
        },
        ..e
    }
}

/// What [`parse`] makes of a file.
pub open spec fn parsed(f: FileView) -> FileView {
    FileView { entries: f.entries.map_values(|e: EntryView| parsed_entry(e)), ..f }
}

/// The timestamp of a line without leading white space, and what follows it;
/// nothing for a banner.
fn split_timestamp(line: &str) -> (r: Option<(&str, &str)>)
    ensures
        match r {
            Some((t, after)) => {
                &&& timestamp_len(line.spec_bytes()) is Some
                &&& !is_banner(line.spec_bytes())
                &&& 18 <= line.spec_bytes().len()
                &&& t.spec_bytes() == line.spec_bytes().subrange(0, 18)
                &&& t@ == decode_utf8(line.spec_bytes().subrange(0, 18))
                &&& after@ == decode_utf8(line.spec_bytes().skip(18))
            },
            None => timestamp_len(line.spec_bytes()) is None || is_banner(line.spec_bytes()),
        },
{
    if starts_banner(line) {
        return None;
    }
    match try_parse_timestamp(line) {
        Some(_) => {
            proof {
                timestamp_ends_in_ascii(line.spec_bytes());
                encode_utf8_valid_utf8(line@);
                chars::boundary_after_ascii(line.spec_bytes(), 18);
            }
            let r = line.split_at(18);
            proof {
                assert(line.spec_bytes().skip(18) =~= r.1.spec_bytes());
                chars::decode_of_bytes(r.0@, line.spec_bytes().subrange(0, 18));
                chars::decode_of_bytes(r.1@, line.spec_bytes().skip(18));
            }
            Some(r)
        },
        None => None,
    }
}

fn parse_entry(entry: &mut LogEntry)
    ensures
        final(entry)@ == parsed_entry(old(entry)@),
{
    let line = chars::trim_start(entry.raw.as_str());
    if let Some((t, after)) = split_timestamp(line) {
        let timestamp = t.to_owned();
        let level = parse_level_from_fields(after);
        entry.timestamp = Some(timestamp);
        // The level field is authoritative: it always wins.
        if level.is_some() {
            entry.level = level;
        }
    }
}

/// Parse a logcat-format [`LogFile`] in place.
///
/// For each entry:
/// - Lines starting with `--------- beginning` are banner lines; they are
///   skipped (no timestamp or level to parse).
/// - For all other lines the leading `MM-DD HH:MM:SS.mmm` token is extracted
///   and stored in `entry.timestamp`.
/// - `entry.level` is **always** overridden with the value parsed from the
///   logcat level field (`V/D/I/W/E/F`) because the logcat level is
///   authoritative and already precise.
/// - `entry.raw` is never modified.
pub fn parse(log_file: &mut LogFile)
    ensures
        final(log_file)@ == parsed(old(log_file)@),
{
    let n: usize = log_file.entries.len();
    let ghost before = log_file.entries@;
    let mut i: usize = 0;
    while i < n
        invariant
            i <= n == before.len() == log_file.entries@.len(),
            log_file.path == old(log_file).path,
            log_file.format == old(log_file).format,
            forall|k: int|
                0 <= k < i ==> (#[trigger] log_file.entries@[k])@ == parsed_entry(before[k]@),
            forall|k: int| i <= k < n ==> #[trigger] log_file.entries@[k] == before[k],
        decreases n - i,
    {
        parse_entry(&mut log_file.entries[i]);
        i = i + 1;
    }
    assert(log_file@.entries =~= parsed(old(log_file)@).entries);
}

/// The level that a record holds for a line: `Unknown` where none was found.
pub open spec fn level_or_unknown(level: Option<LogLevel>) -> LogLevel {
    match level {
        Some(l) => l,
        None => LogLevel::Unknown,
    }
}

/// The record of a line in a logcat log.
pub open spec fn line_record(line: Seq<char>) -> LineRecord {
    if timestamp_in(line) is Some {
        record_at(level_or_unknown(level_in(line)), indent(line), 18)
    } else {
        record_without_timestamp(LogLevel::Unknown)
    }
}

/// The record of one line.
pub fn parse_line(line: &str) -> (r: LineRecord)
    ensures
        r == line_record(line@),
{
    let s = chars::trim_start(line);
    match split_timestamp(s) {
        Some((t, after)) => {
            let level = match parse_level_from_fields(after) {
                Some(l) => l,
                None => LogLevel::Unknown,
            };
            make_record(level, line.as_bytes().len() - s.as_bytes().len(), t.as_bytes().len())
        },
        None => LineRecord { level: LogLevel::Unknown, ts_start: 0, ts_len: 0 },
    }
}

// ---------------------------------------------------------------------------
// Laws
// ---------------------------------------------------------------------------

/// The record of a line points to the timestamp that [`parse`] puts into an
/// entry with that text, and to none where there is none.
pub proof fn record_agrees_with_entry(line: Seq<char>)
    requires
        indent(line) <= 0xffff,
    ensures
        recorded_timestamp(line, line_record(line)) == timestamp_in(line),
{
    let b = encode_utf8(trimmed_start(line));
    timestamp_ends_in_ascii(b);
    if timestamp_in(line) is Some {
        timestamp_is_inside_line(line, 18);
        record_finds_timestamp(line, level_or_unknown(level_in(line)), indent(line), 18);
    }
}

/// No text starts both with a logcat timestamp and with a month name, so no
/// line has both a logcat and a syslog timestamp.
pub proof fn logcat_is_not_syslog(b: Seq<u8>)
    ensures
        !(timestamp_len(b) is Some && starts_with_month(b)),
{
    reveal_strlit("dd-dd dd:dd:dd.ddd");
    ascii_literal("dd-dd dd:dd:dd.ddd");
    if timestamp_len(b) is Some && starts_with_month(b) {
        assert("dd-dd dd:dd:dd.ddd".spec_bytes()[0] == "dd-dd dd:dd:dd.ddd"@[0] as u8);
        assert(fits(b[0int + 0], "dd-dd dd:dd:dd.ddd".spec_bytes()[0]));
        assert(digit(b[0]));
        month_starts_with_letter(b);
    }
}

/// A month name starts with a letter.
pub proof fn month_starts_with_letter(b: Seq<u8>)
    requires
        starts_with_month(b),
    ensures
        b.len() >= 3,
        'A' as u8 <= b[0] <= 'Z' as u8,
{
    reveal_strlit("Jan");
    reveal_strlit("Feb");
    reveal_strlit("Mar");
    reveal_strlit("Apr");
    reveal_strlit("May");
    reveal_strlit("Jun");
    reveal_strlit("Jul");
    reveal_strlit("Aug");
    reveal_strlit("Sep");
    reveal_strlit("Oct");
    reveal_strlit("Nov");
    reveal_strlit("Dec");
    starts_with_literal(b, "Jan");
    starts_with_literal(b, "Feb");
    starts_with_literal(b, "Mar");
    starts_with_literal(b, "Apr");
    starts_with_literal(b, "May");
    starts_with_literal(b, "Jun");
    starts_with_literal(b, "Jul");
    starts_with_literal(b, "Aug");
    starts_with_literal(b, "Sep");
    starts_with_literal(b, "Oct");
    starts_with_literal(b, "Nov");
    starts_with_literal(b, "Dec");
}

proof fn starts_with_literal(b: Seq<u8>, s: &str)
    requires
        is_ascii(s),
        s@.len() > 0,
    ensures
        occurs_at(b, s.spec_bytes(), 0) ==> b.len() >= s@.len() && b[0] == s@[0] as u8,
{
    ascii_literal(s);
    if occurs_at(b, s.spec_bytes(), 0) {
        assert(b.subrange(0, 0int + s.spec_bytes().len())[0] == b[0]);
        assert(s.spec_bytes()[0] == s@[0] as u8);
    }
}

/// The level field is authoritative: where a line has one, it decides,
/// whatever level the entry had before.
pub proof fn level_field_wins(e: EntryView)
    ensures
        level_in(e.raw) is Some ==> parsed_entry(e).level == level_in(e.raw),
        level_in(e.raw) is None ==> parsed_entry(e).level == e.level,
{
}

/// Parsing twice is parsing once.
pub proof fn parse_is_idempotent(f: FileView)
    ensures
        parsed(parsed(f)) == parsed(f),
{
    assert(parsed(parsed(f)).entries =~= parsed(f).entries);
}

/// Parsing keeps the line numbers and the raw text; a line without a logcat
/// timestamp is kept whole.
pub proof fn parse_keeps_the_rest(f: FileView, i: int)
    requires
        0 <= i < f.entries.len(),
    ensures
        parsed(f).entries.len() == f.entries.len(),
        parsed(f).entries[i].line_number == f.entries[i].line_number,
        parsed(f).entries[i].raw == f.entries[i].raw,
        timestamp_in(f.entries[i].raw) is None ==> parsed(f).entries[i] == f.entries[i],
{
}

/// Any digits in the places of a `MM-DD HH:MM:SS.mmm` stamp make a timestamp,
/// where the text ends behind it or ASCII white space follows, and nothing
/// else does.
pub proof fn stamps_are_timestamps(b: Seq<u8>)
    ensures
        ({
            let is_stamp = b.len() >= 18 && (b.len() == 18 || b[18] == 32 || b[18] == 9 || b[18]
                == 10 || b[18] == 12 || b[18] == 13) && forall|k: int|
                0 <= k < 18 ==> if k == 2 {
                    #[trigger] b[k] == 45
                } else if k == 5 {
                    b[k] == 32
                } else if k == 8 || k == 11 {
                    b[k] == 58
                } else if k == 14 {
                    b[k] == 46
                } else {
                    48 <= b[k] <= 57
                };
            &&& is_stamp ==> timestamp_len(b) == Some(18int)
            &&& !is_stamp ==> timestamp_len(b) is None
        }),
{
    reveal_strlit("dd-dd dd:dd:dd.ddd");
    ascii_literal("dd-dd dd:dd:dd.ddd");
    let s = "dd-dd dd:dd:dd.ddd".spec_bytes();
    assert(forall|k: int| 0 <= k < s.len() ==> s[k] == "dd-dd dd:dd:dd.ddd"@[k] as u8);
    if shape_at(b, 0, s) {
        assert forall|k: int| 0 <= k < 18 implies fits(#[trigger] b[k], s[k]) by {
            assert(fits(b[0 + k], s[k]));
        }
    }
}

/// Of all bytes only the letters `V`, `D`, `I`, `W`, `E` and `F` stand for a
/// level.
pub proof fn letters_stand_for_levels(ch: u8)
    ensures
        ch == 86 <==> letter_level(ch) == Some(LogLevel::Trace),
        ch == 68 <==> letter_level(ch) == Some(LogLevel::Debug),
        ch == 73 <==> letter_level(ch) == Some(LogLevel::Info),
        ch == 87 <==> letter_level(ch) == Some(LogLevel::Warn),
        ch == 69 || ch == 70 <==> letter_level(ch) == Some(LogLevel::Error),
        letter_level(ch) != Some(LogLevel::Unknown),
{
}

/// The third word is the level, where it is a level letter alone, whatever the
/// words before and behind it say.
pub proof fn third_word_is_the_level(
    space: Seq<char>,
    pid: Seq<char>,
    second: Seq<char>,
    tid: Seq<char>,
    third: Seq<char>,
    field: Seq<char>,
    rest: Seq<char>,
)
    requires
        forall|k: int| 0 <= k < space.len() ==> chars::white_space(#[trigger] space[k]),
        forall|k: int| 0 <= k < second.len() ==> chars::white_space(#[trigger] second[k]),
        forall|k: int| 0 <= k < third.len() ==> chars::white_space(#[trigger] third[k]),
        second.len() > 0 && third.len() > 0,
        pid.len() > 0 && tid.len() > 0 && field.len() > 0,
        forall|k: int| 0 <= k < pid.len() ==> !chars::white_space(#[trigger] pid[k]),
        forall|k: int| 0 <= k < tid.len() ==> !chars::white_space(#[trigger] tid[k]),
        forall|k: int| 0 <= k < field.len() ==> !chars::white_space(#[trigger] field[k]),
        rest.len() == 0 || chars::white_space(rest[0]),
    ensures
        ({
            let level = fields_level(space + pid + (second + tid + (third + field + rest)));
            &&& field == seq!['V'] <==> level == Some(LogLevel::Trace)
            &&& field == seq!['D'] <==> level == Some(LogLevel::Debug)
            &&& field == seq!['I'] <==> level == Some(LogLevel::Info)
            &&& field == seq!['W'] <==> level == Some(LogLevel::Warn)
            &&& field == seq!['E'] || field == seq!['F'] <==> level == Some(LogLevel::Error)
            &&& level != Some(LogLevel::Unknown)
        }),
{
    let last = third + field + rest;
    let later = second + tid + last;
    let tail = space + pid + later;
    assert(later[0] == second[0]);
    assert(last[0] == third[0]);
    chars::words_are_parted_by_white_space(space, pid, later);
    chars::words_are_parted_by_white_space(second, tid, last);
    chars::words_are_parted_by_white_space(third, field, rest);
    assert(words(tail) =~= seq![pid, tid, field] + words(rest));
    assert(words(tail)[2] == field);
    chars::one_byte_is_one_character(field);
    assert(seq!['V'][0] == 'V' && seq!['D'][0] == 'D' && seq!['I'][0] == 'I');
    assert(seq!['W'][0] == 'W' && seq!['E'][0] == 'E' && seq!['F'][0] == 'F');
    if field.len() == 1 {
        assert(field =~= seq![field[0]]);
        if field[0] <= '\u{7f}' {
            letters_have_their_bytes(field[0]);
        }
    }
}

/// The third field behind the timestamp is the level, where it is one of the
/// letters `V`, `D`, `I`, `W`, `E` and `F` alone, whatever the fields before
/// it and the message say. Anything else there is no level.
pub proof fn third_field_is_the_level(
    space: Seq<char>,
    stamp: Seq<char>,
    gaps: Seq<Seq<char>>,
    pid: Seq<char>,
    tid: Seq<char>,
    field: Seq<char>,
    rest: Seq<char>,
    e: EntryView,
)
    requires
        is_ascii_chars(stamp),
        stamp.len() == 18,
        forall|k: int|
            0 <= k < 18 ==> if k == 2 {
                #[trigger] stamp[k] == '-'
            } else if k == 5 {
                stamp[k] == ' '
            } else if k == 8 || k == 11 {
                stamp[k] == ':'
            } else if k == 14 {
                stamp[k] == '.'
            } else {
                '0' <= stamp[k] <= '9'
            },
        forall|k: int| 0 <= k < space.len() ==> chars::white_space(#[trigger] space[k]),
        gaps.len() == 3,
        forall|i: int, k: int|
            0 <= i < 3 && 0 <= k < gaps[i].len() ==> chars::white_space(#[trigger] gaps[i][k]),
        gaps[0].len() > 0 && gaps[1].len() > 0 && gaps[2].len() > 0,
        gaps[0][0] == ' ' || gaps[0][0] == '\t',
        pid.len() > 0 && tid.len() > 0 && field.len() > 0,
        forall|k: int| 0 <= k < pid.len() ==> !chars::white_space(#[trigger] pid[k]),
        forall|k: int| 0 <= k < tid.len() ==> !chars::white_space(#[trigger] tid[k]),
        forall|k: int| 0 <= k < field.len() ==> !chars::white_space(#[trigger] field[k]),
        rest.len() == 0 || chars::white_space(rest[0]),
        e.raw == space + stamp + (gaps[0] + pid + (gaps[1] + tid + (gaps[2] + field + rest))),
    ensures
        timestamp_in(e.raw) == Some(stamp),
        parsed_entry(e).timestamp == Some(stamp),
        line_record(e.raw) == record_at(line_record(e.raw).level, encode_utf8(space).len(), 18),
        ({
            let level = parsed_entry(e).level;
            let recorded = line_record(e.raw).level;
            &&& field == seq!['V'] ==> level == Some(LogLevel::Trace) && recorded
                == LogLevel::Trace
            &&& field == seq!['D'] ==> level == Some(LogLevel::Debug) && recorded
                == LogLevel::Debug
            &&& field == seq!['I'] ==> level == Some(LogLevel::Info) && recorded == LogLevel::Info
            &&& field == seq!['W'] ==> level == Some(LogLevel::Warn) && recorded == LogLevel::Warn
            &&& field == seq!['E'] ==> level == Some(LogLevel::Error) && recorded
                == LogLevel::Error
            &&& field == seq!['F'] ==> level == Some(LogLevel::Error) && recorded
                == LogLevel::Error
            &&& field != seq!['V'] && field != seq!['D'] && field != seq!['I'] && field
                != seq!['W'] && field != seq!['E'] && field != seq!['F'] ==> level == e.level
                && recorded == LogLevel::Unknown
        }),
{
    let last = gaps[2] + field + rest;
    let later = gaps[1] + tid + last;
    let tail = gaps[0] + pid + later;
    assert('0' <= stamp[0] <= '9');
    chars::ascii_head(space, stamp, tail);
    let b = encode_utf8(trimmed_start(e.raw));
    assert(tail[0] == gaps[0][0]);
    first_byte_of_white_space(tail);
    assert(b.len() > 18 && b[18] == encode_utf8(tail)[0]);
    assert forall|k: int| 0 <= k < 18 implies if k == 2 {
        #[trigger] b[k] == 45
    } else if k == 5 {
        b[k] == 32
    } else if k == 8 || k == 11 {
        b[k] == 58
    } else if k == 14 {
        b[k] == 46
    } else {
        48 <= b[k] <= 57
    } by {
        assert(b[k] == stamp[k] as u8);
    }
    stamps_are_timestamps(b);
    digits_are_no_banner(b);
    assert forall|k: int| 0 <= k < gaps[0].len() implies chars::white_space(
        #[trigger] gaps[0][k],
    ) by {}
    third_word_is_the_level(gaps[0], pid, gaps[1], tid, gaps[2], field, rest);
}

proof fn letters_have_their_bytes(c: char)
    requires
        c <= '\u{7f}',
    ensures
        c == 'V' <==> c as u8 == 86,
        c == 'D' <==> c as u8 == 68,
        c == 'I' <==> c as u8 == 73,
        c == 'W' <==> c as u8 == 87,
        c == 'E' <==> c as u8 == 69,
        c == 'F' <==> c as u8 == 70,
{
}

proof fn first_byte_of_white_space(s: Seq<char>)
    requires
        s.len() > 0,
        s[0] == ' ' || s[0] == '\t',
    ensures
        encode_utf8(s).len() > 0,
        encode_utf8(s)[0] == 32 || encode_utf8(s)[0] == 9,
{
    let one = seq![s[0]];
    assert(s =~= one + s.drop_first());
    chars::encode_concat(one, s.drop_first());
    chars::one_byte_is_one_character(one);
}

proof fn digits_are_no_banner(b: Seq<u8>)
    requires
        b.len() > 0,
        48 <= b[0] <= 57,
    ensures
        !is_banner(b),
{
    reveal_strlit("--------- beginning");
    starts_with_literal(b, "--------- beginning");
}

/// A line without a timestamp has no level either: its record says `Unknown`
/// and points nowhere, and an entry with it is kept whole.
pub proof fn no_timestamp_no_level(e: EntryView)
    requires
        timestamp_len(encode_utf8(trimmed_start(e.raw))) is None,
    ensures
        timestamp_in(e.raw) is None,
        parsed_entry(e) == e,
        line_record(e.raw).level == LogLevel::Unknown,
        line_record(e.raw).ts_start == 0,
        line_record(e.raw).ts_len == 0,
{
}

/// A line with fewer than three fields behind its timestamp has no level.
pub proof fn two_fields_have_no_level(
    gap: Seq<char>,
    pid: Seq<char>,
    between: Seq<char>,
    tid: Seq<char>,
    after: Seq<char>,
)
    requires
        forall|k: int| 0 <= k < gap.len() ==> chars::white_space(#[trigger] gap[k]),
        forall|k: int| 0 <= k < between.len() ==> chars::white_space(#[trigger] between[k]),
        forall|k: int| 0 <= k < after.len() ==> chars::white_space(#[trigger] after[k]),
        forall|k: int| 0 <= k < pid.len() ==> !chars::white_space(#[trigger] pid[k]),
        forall|k: int| 0 <= k < tid.len() ==> !chars::white_space(#[trigger] tid[k]),
        pid.len() > 0 && tid.len() > 0 && between.len() > 0,
    ensures
        fields_level(gap) is None,
        fields_level(gap + pid + after) is None,
        fields_level(gap + pid + (between + tid + after)) is None,
{
    chars::words_are_parted_by_white_space(gap, pid, after);
    chars::words_are_parted_by_white_space(after, pid, Seq::empty());
    chars::words_are_parted_by_white_space(between, tid, after);
    assert((between + tid + after)[0] == between[0]);
    chars::words_are_parted_by_white_space(gap, pid, between + tid + after);
    assert(words(gap + pid + (between + tid + after)) =~= seq![pid, tid]);
    assert(words(gap + pid + after) =~= seq![pid]);
}

} // verus!
