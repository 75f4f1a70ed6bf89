//! Parser for plain-text logs: a timestamp at the start of the line, in one
//! of four formats, and level keywords anywhere in it.
use vstd::prelude::*;
use vstd::string::*;
use vstd::utf8::*;

use crate::chars::{self, ascii_literal, indent, trimmed_start};
use crate::loader::{keyword_level, level_in, scan_level};
use crate::text::{
    alphanumeric, digit, digit_run, digit_run_is_maximal, fits, has_shape, is_alphanumeric, is_digit,
    occurs_at, shape_at, shape_is_ascii, skip_digits, stands_at,
};
use crate::types::{
    make_record, record_at, record_finds_timestamp, record_without_timestamp, recorded_timestamp,
    EntryView, FileView, LineRecord, LogEntry, LogFile,
};

verus! {

// ---------------------------------------------------------------------------
// Common pieces
// ---------------------------------------------------------------------------

/// `r` is the prefix of `s` that takes `len` bytes, or nothing.
pub open spec fn is_prefix(r: Option<&str>, s: &str, len: Option<int>) -> bool {
    match (r, len) {
        (Some(t), Some(n)) => 0 < n <= s.spec_bytes().len() && t.spec_bytes()
            == s.spec_bytes().subrange(0, n),
        (None, None) => true,
        _ => false,
    }
}

/// End of the fraction of a second that may stand at `at`: a point and digits.
pub open spec fn fraction_end(b: Seq<u8>, at: int) -> int {
    if at < b.len() && b[at] == '.' as u8 && digit_run(b, at + 1) > 0 {
        at + 1 + digit_run(b, at + 1)
    } else {
        at
    }
}

/// End of the time zone that may stand at `at`: `Z`, or a sign and `HH:MM`.
pub open spec fn zone_end(b: Seq<u8>, at: int) -> int {
    if at < b.len() && b[at] == 'Z' as u8 {
        at + 1
    } else if at < b.len() && (b[at] == '+' as u8 || b[at] == '-' as u8) && shape_at(
        b,
        at + 1,
        "dd:dd".spec_bytes(),
    ) {
        at + 6
    } else {
        at
    }
}

/// A token may end at `end`: nothing follows, or no letter or digit does.
pub open spec fn token_end(b: Seq<u8>, end: int) -> Option<int> {
    if end < b.len() && alphanumeric(b[end]) {
        None
    } else {
        Some(end)
    }
}

fn skip_fraction(b: &[u8], at: usize) -> (end: usize)
    requires
        0 < at <= b@.len(),
        b@[at - 1] < 128,
    ensures
        end == fraction_end(b@, at as int),
        at <= end <= b@.len(),
        b@[end - 1] < 128,
{
    if at < b.len() && b[at] == '.' as u8 {
        proof {
            digit_run_is_maximal(b@, at + 1);
        }
        let end: usize = skip_digits(b, at + 1);
        if end == at + 1 {
            // A point with no digits is no fraction.
            at
        } else {
            assert(digit(b@[end - 1]));
            end
        }
    } else {
        at
    }
}

fn skip_zone(b: &[u8], at: usize) -> (end: usize)
    requires
        0 < at <= b@.len(),
        b@[at - 1] < 128,
    ensures
        end == zone_end(b@, at as int),
        at <= end <= b@.len(),
        b@[end - 1] < 128,
{
    proof {
        reveal_strlit("dd:dd");
        ascii_literal("dd:dd");
    }
    if at < b.len() && b[at] == 'Z' as u8 {
        at + 1
    } else if at < b.len() && (b[at] == '+' as u8 || b[at] == '-' as u8) && has_shape(
        b,
        at + 1,
        "dd:dd".as_bytes(),
    ) {
        proof {
            shape_is_ascii(b@, at + 1, "dd:dd".spec_bytes(), 4);
        }
        at + 6
    } else {
        at
    }
}

fn ends_token(b: &[u8], end: usize) -> (r: bool)
    ensures
        r == (token_end(b@, end as int) is Some),
{
    !(end < b.len() && is_alphanumeric(b[end]))
}

// ---------------------------------------------------------------------------
// Format 1: ISO 8601 with T and optional fraction and time zone
// ---------------------------------------------------------------------------

/// Length of the `YYYY-MM-DDTHH:MM:SS` timestamp at the start of `b`, with its
/// optional fraction of a second and time zone.
pub open spec fn iso_t_len(b: Seq<u8>) -> Option<int> {
    if shape_at(b, 0, "dddd-dd-ddTdd:dd:dd".spec_bytes()) {
        token_end(b, zone_end(b, fraction_end(b, 19)))
    } else {
        None
    }
}

/// The leading timestamp of a line such as `2024-01-15T14:23:05.123Z message`.
pub fn try_parse_iso_t(s: &str) -> (r: Option<&str>)
    ensures
        is_prefix(r, s, iso_t_len(s.spec_bytes())),
{
    let b = s.as_bytes();
    proof {
        reveal_strlit("dddd-dd-ddTdd:dd:dd");
        ascii_literal("dddd-dd-ddTdd:dd:dd");
    }
    if !has_shape(b, 0, "dddd-dd-ddTdd:dd:dd".as_bytes()) {
        return None;
    }
    proof {
        shape_is_ascii(b@, 0, "dddd-dd-ddTdd:dd:dd".spec_bytes(), 18);
    }
    let end: usize = skip_zone(b, skip_fraction(b, 19));
    if !ends_token(b, end) {
        return None;
    }
    Some(chars::ascii_ended_prefix(s, end))
}

// ---------------------------------------------------------------------------
// Format 2: ISO 8601 with a space between date and time
// ---------------------------------------------------------------------------

/// Length of the `YYYY-MM-DD HH:MM:SS` timestamp at the start of `b`, with its
/// optional fraction of a second.
pub open spec fn iso_space_len(b: Seq<u8>) -> Option<int> {
    if shape_at(b, 0, "dddd-dd-dd dd:dd:dd".spec_bytes()) {
        token_end(b, fraction_end(b, 19))
    } else {
        None
    }
}

/// The leading timestamp of a line such as `2024-01-15 14:23:05.456 message`.
pub fn try_parse_iso_space(s: &str) -> (r: Option<&str>)
    ensures
        is_prefix(r, s, iso_space_len(s.spec_bytes())),
{
    let b = s.as_bytes();
    proof {
        reveal_strlit("dddd-dd-dd dd:dd:dd");
        ascii_literal("dddd-dd-dd dd:dd:dd");
    }
    if !has_shape(b, 0, "dddd-dd-dd dd:dd:dd".as_bytes()) {
        return None;
    }
    proof {
        shape_is_ascii(b@, 0, "dddd-dd-dd dd:dd:dd".spec_bytes(), 18);
    }
    let end: usize = skip_fraction(b, 19);
    if !ends_token(b, end) {
        return None;
    }
    Some(chars::ascii_ended_prefix(s, end))
}

// ---------------------------------------------------------------------------
// Format 3: syslog month-name style
// ---------------------------------------------------------------------------

/// `b` starts with an English month abbreviation.
pub open spec fn starts_with_month(b: Seq<u8>) -> bool {
    ||| occurs_at(b, "Jan".spec_bytes(), 0)
    ||| occurs_at(b, "Feb".spec_bytes(), 0)
    ||| occurs_at(b, "Mar".spec_bytes(), 0)
    ||| occurs_at(b, "Apr".spec_bytes(), 0)
    ||| occurs_at(b, "May".spec_bytes(), 0)
    ||| occurs_at(b, "Jun".spec_bytes(), 0)
    ||| occurs_at(b, "Jul".spec_bytes(), 0)
    ||| occurs_at(b, "Aug".spec_bytes(), 0)
    ||| occurs_at(b, "Sep".spec_bytes(), 0)
    ||| occurs_at(b, "Oct".spec_bytes(), 0)
    ||| occurs_at(b, "Nov".spec_bytes(), 0)
    ||| occurs_at(b, "Dec".spec_bytes(), 0)
}

/// Whether `b` starts with an English month abbreviation.
pub(crate) fn has_month(b: &[u8]) -> (r: bool)
    ensures
        r == starts_with_month(b@),
{
    stands_at(b, "Jan".as_bytes(), 0) || stands_at(b, "Feb".as_bytes(), 0) || stands_at(
        b,
        "Mar".as_bytes(),
        0,
    ) || stands_at(b, "Apr".as_bytes(), 0) || stands_at(b, "May".as_bytes(), 0) || stands_at(
        b,
        "Jun".as_bytes(),
        0,
    ) || stands_at(b, "Jul".as_bytes(), 0) || stands_at(b, "Aug".as_bytes(), 0) || stands_at(
        b,
        "Sep".as_bytes(),
        0,
    ) || stands_at(b, "Oct".as_bytes(), 0) || stands_at(b, "Nov".as_bytes(), 0) || stands_at(
        b,
        "Dec".as_bytes(),
        0,
    )
}

/// Where the day of the month ends: one or two digits, from position 5 on
/// after a padding space, from position 4 on otherwise.
pub open spec fn day_end(b: Seq<u8>) -> Option<int> {
    if b.len() < 7 || !(b[4] == ' ' as u8 || digit(b[4])) {
        None
    } else {
        let start = if b[4] == ' ' as u8 {
            5int
        } else {
            4
        };
        if !digit(b[start]) {
            None
        } else if digit(b[start + 1]) {
            Some(start + 2)
        } else {
            Some(start + 1)
        }
    }
}

/// Length of the `MMM DD HH:MM:SS` timestamp at the start of `b`.
pub open spec fn syslog_len(b: Seq<u8>) -> Option<int> {
    if b.len() >= 15 && starts_with_month(b) && b[3] == ' ' as u8 {
        match day_end(b) {
            Some(d) => if shape_at(b, d, " dd:dd:dd".spec_bytes()) {
                token_end(b, d + 9)
            } else {
                None
            },
            None => None,
        }
    } else {
        None
    }
}

/// The leading timestamp of a line such as `Jan 15 14:23:05 host proc: msg`.
pub fn try_parse_syslog(s: &str) -> (r: Option<&str>)
    ensures
        is_prefix(r, s, syslog_len(s.spec_bytes())),
{
    let b = s.as_bytes();
    proof {
        reveal_strlit(" dd:dd:dd");
        ascii_literal(" dd:dd:dd");
    }
    if b.len() < 15 || !has_month(b) || b[3] != ' ' as u8 {
        return None;
    }
    let day_start: usize = if b[4] == ' ' as u8 {
        5
    } else if is_digit(b[4]) {
        4
    } else {
        return None;
    };
    if !is_digit(b[day_start]) {
        return None;
    }
    let day_end: usize = if is_digit(b[day_start + 1]) {
        day_start + 2
    } else {
        day_start + 1
    };
    if !has_shape(b, day_end, " dd:dd:dd".as_bytes()) {
        return None;
    }
    proof {
        shape_is_ascii(b@, day_end as int, " dd:dd:dd".spec_bytes(), 8);
    }
    let end: usize = day_end + 9;
    if !ends_token(b, end) {
        return None;
    }
    Some(chars::ascii_ended_prefix(s, end))
}

// ---------------------------------------------------------------------------
// Format 4: time only
// ---------------------------------------------------------------------------

/// Length of the `HH:MM:SS` timestamp at the start of `b`, with its optional
/// fraction of a second.
pub open spec fn time_only_len(b: Seq<u8>) -> Option<int> {
    if shape_at(b, 0, "dd:dd:dd".spec_bytes()) {
        token_end(b, fraction_end(b, 8))
    } else {
        None
    }
}

/// The leading timestamp of a line such as `14:23:05.999 message`.
pub fn try_parse_time_only(s: &str) -> (r: Option<&str>)
    ensures
        is_prefix(r, s, time_only_len(s.spec_bytes())),
{
    let b = s.as_bytes();
    proof {
        reveal_strlit("dd:dd:dd");
        ascii_literal("dd:dd:dd");
    }
    if !has_shape(b, 0, "dd:dd:dd".as_bytes()) {
        return None;
    }
    proof {
        shape_is_ascii(b@, 0, "dd:dd:dd".spec_bytes(), 7);
    }
    let end: usize = skip_fraction(b, 8);
    if !ends_token(b, end) {
        return None;
    }
    Some(chars::ascii_ended_prefix(s, end))
}

// ---------------------------------------------------------------------------
// All formats
// ---------------------------------------------------------------------------

/// Length of the timestamp at the start of `b`, in the first format that fits.
pub open spec fn timestamp_len(b: Seq<u8>) -> Option<int> {
    if iso_t_len(b) is Some {
        iso_t_len(b)
    } else if iso_space_len(b) is Some {
        iso_space_len(b)
    } else if syslog_len(b) is Some {
        syslog_len(b)
    } else {
        time_only_len(b)
    }
}

/// The timestamp of a line: the one that follows its leading white space.
pub open spec fn timestamp_in(line: Seq<char>) -> Option<Seq<char>> {
    let b = encode_utf8(trimmed_start(line));
    match timestamp_len(b) {
        Some(n) => Some(decode_utf8(b.subrange(0, n))),
        None => None,
    }
}

fn leading_timestamp(s: &str) -> (r: Option<&str>)
    ensures
        is_prefix(r, s, timestamp_len(s.spec_bytes())),
{
    let iso_t = try_parse_iso_t(s);
    if iso_t.is_some() {
        return iso_t;
    }
    let iso_space = try_parse_iso_space(s);
    if iso_space.is_some() {
        return iso_space;
    }
    let syslog = try_parse_syslog(s);
    if syslog.is_some() {
        return syslog;
    }
    try_parse_time_only(s)
}

/// Try every known format in priority order and return the matched slice, or
/// `None` if the line carries no recognisable timestamp.
pub fn extract_timestamp(line: &str) -> (r: Option<&str>)
    ensures
        match r {
            Some(t) => timestamp_in(line@) == Some(t@),
            None => timestamp_in(line@) is None,
        },
{
    let s = chars::trim_start(line);
    let r = leading_timestamp(s);
    proof {
        if let Some(t) = r {
            chars::decode_of_bytes(t@, t.spec_bytes());
        }
    }
    r
}

// ---------------------------------------------------------------------------
// Entry points
// ---------------------------------------------------------------------------

/// What [`parse`] makes of an entry.
pub open spec fn parsed_entry(e: EntryView) -> EntryView {
    EntryView {
        timestamp: if e.timestamp is None {
            timestamp_in(e.raw)
        } else {
            e.timestamp
        },
        ..e
    }
}

/// What [`parse`] makes of a file.
pub open spec fn parsed(f: FileView) -> FileView {
    FileView { entries: f.entries.map_values(|e: EntryView| parsed_entry(e)), ..f }
}

fn parse_entry(entry: &mut LogEntry)
    ensures
        final(entry)@ == parsed_entry(old(entry)@),
{
    if entry.timestamp.is_none() {
        entry.timestamp = match extract_timestamp(entry.raw.as_str()) {
            Some(t) => Some(t.to_owned()),
            None => None,
        };
    }
}

/// Parse a plain-text log file in place.
///
/// For each entry whose `timestamp` is currently `None`, attempts to extract a
/// timestamp from the start of `raw` using four recognised formats (tried in
/// order, most specific first):
///
/// 1. ISO 8601 with `T` and optional fraction and time zone,
///    e.g. `2024-01-15T14:23:05.123Z`
/// 2. ISO 8601 space-separated, e.g. `2024-01-15 14:23:05`
/// 3. Syslog month-name style, e.g. `Jan 15 14:23:05`
/// 4. Time only, e.g. `14:23:05`
///
/// Entries for which no format matches are left with `timestamp = None`.
pub fn parse(log_file: &mut LogFile)
    ensures
        final(log_file)@ == parsed(old(log_file)@),
{
    let n: usize = log_file.entries.len();
    let ghost before = log_file.entries@;
    let mut i: usize = 0;
    while i < n
        invariant
            i <= n == before.len() == log_file.entries@.len(),
            log_file.path == old(log_file).path,
            log_file.format == old(log_file).format,
            forall|k: int|
                0 <= k < i ==> (#[trigger] log_file.entries@[k])@ == parsed_entry(before[k]@),
            forall|k: int| i <= k < n ==> #[trigger] log_file.entries@[k] == before[k],
        decreases n - i,
    {
        parse_entry(&mut log_file.entries[i]);
        i = i + 1;
    }
    assert(log_file@.entries =~= parsed(old(log_file)@).entries);
}

/// The record of a line in a plain-text log.
pub open spec fn line_record(line: Seq<char>) -> LineRecord {
    match timestamp_len(encode_utf8(trimmed_start(line))) {
        Some(n) => record_at(level_in(line), indent(line), n as nat),
        None => record_without_timestamp(level_in(line)),
    }
}

/// The record of one line: its timestamp in one of the four formats, and the
/// most severe level it mentions.
pub fn parse_line(line: &str) -> (r: LineRecord)
    ensures
        r == line_record(line@),
        is_ascii_chars(line@) ==> r.level == keyword_level(chars::ascii_lowercase(line@)),
{
    let level = scan_level(line);
    let s = chars::trim_start(line);
    match leading_timestamp(s) {
        Some(t) => make_record(
            level,
            line.as_bytes().len() - s.as_bytes().len(),
            t.as_bytes().len(),
        ),
        None => LineRecord { level, ts_start: 0, ts_len: 0 },
    }
}

// ---------------------------------------------------------------------------
// Laws
// ---------------------------------------------------------------------------

proof fn fraction_ends_in_ascii(b: Seq<u8>, at: int)
    requires
        0 < at <= b.len(),
        b[at - 1] < 128,
    ensures
        at <= fraction_end(b, at) <= b.len(),
        b[fraction_end(b, at) - 1] < 128,
{
    if fraction_end(b, at) != at {
        digit_run_is_maximal(b, at + 1);
        assert(digit(b[fraction_end(b, at) - 1]));
    }
}

/// A timestamp is a non-empty prefix of the text whose last byte is ASCII.
pub proof fn timestamp_ends_in_ascii(b: Seq<u8>)
    ensures
        timestamp_len(b) matches Some(n) ==> 0 < n <= b.len() && b[n - 1] < 128,
{
    reveal_strlit("dddd-dd-ddTdd:dd:dd");
    reveal_strlit("dddd-dd-dd dd:dd:dd");
    reveal_strlit(" dd:dd:dd");
    reveal_strlit("dd:dd:dd");
    reveal_strlit("dd:dd");
    ascii_literal("dddd-dd-ddTdd:dd:dd");
    ascii_literal("dddd-dd-dd dd:dd:dd");
    ascii_literal(" dd:dd:dd");
    ascii_literal("dd:dd:dd");
    ascii_literal("dd:dd");
    if iso_t_len(b) is Some {
        shape_is_ascii(b, 0, "dddd-dd-ddTdd:dd:dd".spec_bytes(), 18);
        fraction_ends_in_ascii(b, 19);
        let f = fraction_end(b, 19);
        if zone_end(b, f) == f + 6 {
            shape_is_ascii(b, f + 1, "dd:dd".spec_bytes(), 4);
        }
    } else if iso_space_len(b) is Some {
        shape_is_ascii(b, 0, "dddd-dd-dd dd:dd:dd".spec_bytes(), 18);
        fraction_ends_in_ascii(b, 19);
    } else if syslog_len(b) is Some {
        let d = day_end(b)->0;
        shape_is_ascii(b, d, " dd:dd:dd".spec_bytes(), 8);
    } else if time_only_len(b) is Some {
        shape_is_ascii(b, 0, "dd:dd:dd".spec_bytes(), 7);
        fraction_ends_in_ascii(b, 8);
    }
}

/// The record of a line and the timestamp of an entry agree: where the record
/// can hold position and length, it points to the timestamp that [`parse`]
/// puts into an entry with that text, and to none where there is none.
pub proof fn record_agrees_with_entry(line: Seq<char>)
    requires
        indent(line) <= 0xffff,
        timestamp_len(encode_utf8(trimmed_start(line))) matches Some(n) ==> n <= 0xff,
    ensures
        recorded_timestamp(line, line_record(line)) == timestamp_in(line),
{
    let b = encode_utf8(trimmed_start(line));
    timestamp_ends_in_ascii(b);
    if let Some(n) = timestamp_len(b) {
        timestamp_is_inside_line(line, n);
        record_finds_timestamp(line, level_in(line), indent(line), n as nat);
    }
}

/// A prefix of the trimmed text that ends in ASCII stands in the line behind
/// the leading white space, between two character boundaries.
pub proof fn timestamp_is_inside_line(line: Seq<char>, n: int)
    requires
        0 < n <= encode_utf8(trimmed_start(line)).len(),
        encode_utf8(trimmed_start(line))[n - 1] < 128,
    ensures
        is_char_boundary(encode_utf8(line), indent(line) as int),
        is_char_boundary(encode_utf8(line), indent(line) + n),
        encode_utf8(line).subrange(indent(line) as int, indent(line) + n) == encode_utf8(
            trimmed_start(line),
        ).subrange(0, n),
{
    chars::leading_space_is_maximal(line);
    let k = chars::leading_space(line) as int;
    let a = line.take(k);
    let t = trimmed_start(line);
    assert(a + t =~= line);
    chars::encode_concat(a, t);
    chars::encode_boundary(a, t);
    encode_utf8_valid_utf8(line);
    let whole = encode_utf8(line);
    let at = indent(line) as int;
    assert(whole[at + n - 1] == encode_utf8(t)[n - 1]);
    chars::boundary_after_ascii(whole, at + n);
    assert(whole.subrange(at, at + n) =~= encode_utf8(t).subrange(0, n));
}

/// The formats with a date do not overlap: no text has both an ISO timestamp
/// with `T` and one with a space.
pub proof fn iso_formats_are_disjoint(b: Seq<u8>)
    ensures
        !(iso_t_len(b) is Some && iso_space_len(b) is Some),
{
    reveal_strlit("dddd-dd-ddTdd:dd:dd");
    reveal_strlit("dddd-dd-dd dd:dd:dd");
    ascii_literal("dddd-dd-ddTdd:dd:dd");
    ascii_literal("dddd-dd-dd dd:dd:dd");
    if iso_t_len(b) is Some && iso_space_len(b) is Some {
        assert("dddd-dd-ddTdd:dd:dd".spec_bytes()[10] == "dddd-dd-ddTdd:dd:dd"@[10] as u8);
        assert("dddd-dd-dd dd:dd:dd".spec_bytes()[10] == "dddd-dd-dd dd:dd:dd"@[10] as u8);
        assert(fits(b[0int + 10], "dddd-dd-ddTdd:dd:dd".spec_bytes()[10]));
        assert(fits(b[0int + 10], "dddd-dd-dd dd:dd:dd".spec_bytes()[10]));
    }
}

/// Parsing twice is parsing once.
pub proof fn parse_is_idempotent(f: FileView)
    ensures
        parsed(parsed(f)) == parsed(f),
{
    assert(parsed(parsed(f)).entries =~= parsed(f).entries);
}

/// Parsing keeps the line numbers, the raw text, the levels and every
/// timestamp that was already there.
pub proof fn parse_keeps_the_rest(f: FileView, i: int)
    requires
        0 <= i < f.entries.len(),
    ensures
        parsed(f).entries.len() == f.entries.len(),
        parsed(f).entries[i].line_number == f.entries[i].line_number,
        parsed(f).entries[i].raw == f.entries[i].raw,
        parsed(f).entries[i].level == f.entries[i].level,
        f.entries[i].timestamp is Some ==> parsed(f).entries[i] == f.entries[i],
{
}

/// Any date and time in digits is a timestamp, whatever the digits: four, two
/// and two digits with `-` between them, a `T` or a space, and three times two
/// digits with `:` between them.
///
/// `f` is where the fraction of a second ends (19 where there is none) and `e`
/// where the time zone ends, which only the form with `T` may have. The
/// timestamp is everything before `e`, unless a letter or a digit follows, and
/// then there is none.
pub proof fn dates_are_timestamps(b: Seq<u8>, f: int, e: int)
    requires
        b.len() >= 19,
        forall|k: int|
            0 <= k < 19 ==> if k == 4 || k == 7 {
                #[trigger] b[k] == 45
            } else if k == 10 {
                b[k] == 84 || b[k] == 32
            } else if k == 13 || k == 16 {
                b[k] == 58
            } else {
                48 <= b[k] <= 57
            },
        19 <= f <= e <= b.len(),
        forall|k: int| 20 <= k < f ==> 48 <= #[trigger] b[k] <= 57,
        if f == 19 {
            b.len() == 19 || b[19] != 46 || b.len() == 20 || !(48 <= b[20] <= 57)
        } else {
            f > 20 && b[19] == 46 && (f == b.len() || !(48 <= b[f] <= 57))
        },
        if b[10] == 32 {
            e == f
        } else if f < b.len() && b[f] == 90 {
            e == f + 1
        } else if f + 6 <= b.len() && (b[f] == 43 || b[f] == 45) && 48 <= b[f + 1] <= 57 && 48
            <= b[f + 2] <= 57 && b[f + 3] == 58 && 48 <= b[f + 4] <= 57 && 48 <= b[f + 5] <= 57 {
            e == f + 6
        } else {
            e == f
        },
    ensures
        e < b.len() && (48 <= b[e] <= 57 || 65 <= b[e] <= 90 || 97 <= b[e] <= 122)
            ==> timestamp_len(b) is None,
        !(e < b.len() && (48 <= b[e] <= 57 || 65 <= b[e] <= 90 || 97 <= b[e] <= 122))
            ==> timestamp_len(b) == Some(e),
{
    shapes_spelled_out(b);
    if b.len() >= 20 {
        digit_run_is_maximal(b, 20);
    }
    if f > 20 {
        digits_up_to(b, 20, f);
    }
    zone_spelled_out(b, f);
    first_word_of_months(b);
    assert(48 <= b[0] <= 57);
    assert(48 <= b[2] <= 57);
    assert(b[10] == 84 || b[10] == 32);
}

/// The run of digits from `from` on reaches at least to `to`.
proof fn digits_up_to(b: Seq<u8>, from: int, to: int)
    requires
        0 <= from <= to <= b.len(),
        forall|k: int| from <= k < to ==> 48 <= #[trigger] b[k] <= 57,
    ensures
        from + digit_run(b, from) == to + digit_run(b, to),
    decreases to - from,
{
    if from < to {
        digits_up_to(b, from + 1, to);
    }
}

proof fn shapes_spelled_out(b: Seq<u8>)
    ensures
        shape_at(b, 0, "dddd-dd-ddTdd:dd:dd".spec_bytes()) <==> b.len() >= 19 && b[10] == 84
            && forall|k: int|
            0 <= k < 19 && k != 10 ==> if k == 4 || k == 7 {
                #[trigger] b[k] == 45
            } else if k == 13 || k == 16 {
                b[k] == 58
            } else {
                48 <= b[k] <= 57
            },
        shape_at(b, 0, "dddd-dd-dd dd:dd:dd".spec_bytes()) <==> b.len() >= 19 && b[10] == 32
            && forall|k: int|
            0 <= k < 19 && k != 10 ==> if k == 4 || k == 7 {
                #[trigger] b[k] == 45
            } else if k == 13 || k == 16 {
                b[k] == 58
            } else {
                48 <= b[k] <= 57
            },
        shape_at(b, 0, "dd:dd:dd".spec_bytes()) <==> b.len() >= 8 && forall|k: int|
            0 <= k < 8 ==> if k == 2 || k == 5 {
                #[trigger] b[k] == 58
            } else {
                48 <= b[k] <= 57
            },
{
    reveal_strlit("dddd-dd-ddTdd:dd:dd");
    reveal_strlit("dddd-dd-dd dd:dd:dd");
    reveal_strlit("dd:dd:dd");
    ascii_literal("dddd-dd-ddTdd:dd:dd");
    ascii_literal("dddd-dd-dd dd:dd:dd");
    ascii_literal("dd:dd:dd");
    let t = "dddd-dd-ddTdd:dd:dd".spec_bytes();
    let s = "dddd-dd-dd dd:dd:dd".spec_bytes();
    let o = "dd:dd:dd".spec_bytes();
    assert(forall|k: int| 0 <= k < t.len() ==> t[k] == "dddd-dd-ddTdd:dd:dd"@[k] as u8);
    assert(forall|k: int| 0 <= k < s.len() ==> s[k] == "dddd-dd-dd dd:dd:dd"@[k] as u8);
    assert(forall|k: int| 0 <= k < o.len() ==> o[k] == "dd:dd:dd"@[k] as u8);
    if shape_at(b, 0, t) {
        assert forall|k: int| 0 <= k < 19 implies fits(#[trigger] b[k], t[k]) by {
            assert(fits(b[0 + k], t[k]));
        }
    }
    if shape_at(b, 0, s) {
        assert forall|k: int| 0 <= k < 19 implies fits(#[trigger] b[k], s[k]) by {
            assert(fits(b[0 + k], s[k]));
        }
    }
    if shape_at(b, 0, o) {
        assert forall|k: int| 0 <= k < 8 implies fits(#[trigger] b[k], o[k]) by {
            assert(fits(b[0 + k], o[k]));
        }
    }
}

proof fn zone_spelled_out(b: Seq<u8>, at: int)
    requires
        0 <= at,
    ensures
        shape_at(b, at + 1, "dd:dd".spec_bytes()) <==> at + 6 <= b.len() && 48 <= b[at + 1] <= 57
            && 48 <= b[at + 2] <= 57 && b[at + 3] == 58 && 48 <= b[at + 4] <= 57 && 48 <= b[at + 5]
            <= 57,
{
    reveal_strlit("dd:dd");
    ascii_literal("dd:dd");
    let z = "dd:dd".spec_bytes();
    assert(forall|k: int| 0 <= k < z.len() ==> z[k] == "dd:dd"@[k] as u8);
    if shape_at(b, at + 1, z) {
        assert(fits(b[at + 1 + 0], z[0]));
        assert(fits(b[at + 1 + 1], z[1]));
        assert(fits(b[at + 1 + 2], z[2]));
        assert(fits(b[at + 1 + 3], z[3]));
        assert(fits(b[at + 1 + 4], z[4]));
    }
}

/// A month starts with one of the letters that English months start with.
proof fn first_word_of_months(b: Seq<u8>)
    ensures
        starts_with_month(b) ==> b.len() >= 3 && 65 <= b[0] <= 90,
{
    if starts_with_month(b) {
        crate::parser::logcat::month_starts_with_letter(b);
    }
}

/// Any time of day in digits is a timestamp where no date stands before it:
/// three times two digits with `:` between them. `f` is where the fraction of
/// a second ends (8 where there is none).
pub proof fn times_are_timestamps(b: Seq<u8>, f: int)
    requires
        b.len() >= 8,
        forall|k: int|
            0 <= k < 8 ==> if k == 2 || k == 5 {
                #[trigger] b[k] == 58
            } else {
                48 <= b[k] <= 57
            },
        8 <= f <= b.len(),
        forall|k: int| 9 <= k < f ==> 48 <= #[trigger] b[k] <= 57,
        if f == 8 {
            b.len() == 8 || b[8] != 46 || b.len() == 9 || !(48 <= b[9] <= 57)
        } else {
            f > 9 && b[8] == 46 && (f == b.len() || !(48 <= b[f] <= 57))
        },
    ensures
        f < b.len() && (48 <= b[f] <= 57 || 65 <= b[f] <= 90 || 97 <= b[f] <= 122)
            ==> timestamp_len(b) is None,
        !(f < b.len() && (48 <= b[f] <= 57 || 65 <= b[f] <= 90 || 97 <= b[f] <= 122))
            ==> timestamp_len(b) == Some(f),
{
    shapes_spelled_out(b);
    if b.len() >= 9 {
        digit_run_is_maximal(b, 9);
    }
    if f > 9 {
        digits_up_to(b, 9, f);
    }
    first_word_of_months(b);
    assert(48 <= b[0] <= 57);
    assert(b[2] == 58);
}

/// Any month name, day and time of day is a timestamp: the month, a space, a
/// day of one or two digits behind at most one more space, a space, and three
/// times two digits with `:` between them. `d` is where the day ends.
pub proof fn month_dates_are_timestamps(b: Seq<u8>, d: int)
    requires
        b.len() >= 15,
        ({
            let m = b.subrange(0, 3);
            ||| m == "Jan".spec_bytes() || m == "Feb".spec_bytes() || m == "Mar".spec_bytes()
            ||| m == "Apr".spec_bytes() || m == "May".spec_bytes() || m == "Jun".spec_bytes()
            ||| m == "Jul".spec_bytes() || m == "Aug".spec_bytes() || m == "Sep".spec_bytes()
            ||| m == "Oct".spec_bytes() || m == "Nov".spec_bytes() || m == "Dec".spec_bytes()
        }),
        b[3] == 32,
        if b[4] == 32 {
            48 <= b[5] <= 57 && if 48 <= b[6] <= 57 {
                d == 7
            } else {
                d == 6
            }
        } else {
            48 <= b[4] <= 57 && if 48 <= b[5] <= 57 {
                d == 6
            } else {
                d == 5
            }
        },
        d + 9 <= b.len(),
        forall|k: int|
            d <= k < d + 9 ==> if k == d {
                #[trigger] b[k] == 32
            } else if k == d + 3 || k == d + 6 {
                b[k] == 58
            } else {
                48 <= b[k] <= 57
            },
    ensures
        d + 9 < b.len() && (48 <= b[d + 9] <= 57 || 65 <= b[d + 9] <= 90 || 97 <= b[d + 9] <= 122)
            ==> timestamp_len(b) is None,
        !(d + 9 < b.len() && (48 <= b[d + 9] <= 57 || 65 <= b[d + 9] <= 90 || 97 <= b[d + 9]
            <= 122)) ==> timestamp_len(b) == Some(d + 9),
{
    months_spelled_out(b);
    first_word_of_months(b);
    shapes_spelled_out(b);
    clock_spelled_out(b, d);
}

/// The names of the months are the three letters in front of a text.
pub proof fn months_spelled_out(b: Seq<u8>)
    requires
        b.len() >= 3,
    ensures
        starts_with_month(b) <==> {
            let m = b.subrange(0, 3);
            ||| m == "Jan".spec_bytes() || m == "Feb".spec_bytes() || m == "Mar".spec_bytes()
            ||| m == "Apr".spec_bytes() || m == "May".spec_bytes() || m == "Jun".spec_bytes()
            ||| m == "Jul".spec_bytes() || m == "Aug".spec_bytes() || m == "Sep".spec_bytes()
            ||| m == "Oct".spec_bytes() || m == "Nov".spec_bytes() || m == "Dec".spec_bytes()
        },
{
    let m = b.subrange(0, 3);
    months_have_three_letters();
    assert(forall|w: Seq<u8>| w.len() == 3 && m == w ==> #[trigger] occurs_at(b, w, 0));
    assert(forall|w: Seq<u8>| w.len() == 3 && #[trigger] occurs_at(b, w, 0) ==> m == w);
}

proof fn months_have_three_letters()
    ensures
        "Jan".spec_bytes().len() == 3,
        "Feb".spec_bytes().len() == 3,
        "Mar".spec_bytes().len() == 3,
        "Apr".spec_bytes().len() == 3,
        "May".spec_bytes().len() == 3,
        "Jun".spec_bytes().len() == 3,
        "Jul".spec_bytes().len() == 3,
        "Aug".spec_bytes().len() == 3,
        "Sep".spec_bytes().len() == 3,
        "Oct".spec_bytes().len() == 3,
        "Nov".spec_bytes().len() == 3,
        "Dec".spec_bytes().len() == 3,
{
    reveal_strlit("Jan");
    reveal_strlit("Feb");
    reveal_strlit("Mar");
    reveal_strlit("Apr");
    reveal_strlit("May");
    reveal_strlit("Jun");
    reveal_strlit("Jul");
    reveal_strlit("Aug");
    reveal_strlit("Sep");
    reveal_strlit("Oct");
    reveal_strlit("Nov");
    reveal_strlit("Dec");
    ascii_literal("Jan");
    ascii_literal("Feb");
    ascii_literal("Mar");
    ascii_literal("Apr");
    ascii_literal("May");
    ascii_literal("Jun");
    ascii_literal("Jul");
    ascii_literal("Aug");
    ascii_literal("Sep");
    ascii_literal("Oct");
    ascii_literal("Nov");
    ascii_literal("Dec");
}

/// A space and a time of day: three times two digits with `:` between them.
pub proof fn clock_spelled_out(b: Seq<u8>, d: int)
    requires
        0 <= d,
    ensures
        shape_at(b, d, " dd:dd:dd".spec_bytes()) <==> d + 9 <= b.len() && forall|k: int|
            d <= k < d + 9 ==> if k == d {
                #[trigger] b[k] == 32
            } else if k == d + 3 || k == d + 6 {
                b[k] == 58
            } else {
                48 <= b[k] <= 57
            },
{
    reveal_strlit(" dd:dd:dd");
    ascii_literal(" dd:dd:dd");
    let c = " dd:dd:dd".spec_bytes();
    assert(forall|k: int| 0 <= k < c.len() ==> c[k] == " dd:dd:dd"@[k] as u8);
    if shape_at(b, d, c) {
        assert forall|k: int| d <= k < d + 9 implies fits(#[trigger] b[k], c[k - d]) by {
            assert(fits(b[d + (k - d)], c[k - d]));
        }
    }
}

/// Nothing else is a timestamp: where a text has one, the text starts with a
/// date and a time, with a month, a day and a time, or with a time, and no
/// letter or digit follows the timestamp.
pub proof fn nothing_else_is_a_timestamp(b: Seq<u8>)
    ensures
        timestamp_len(b) matches Some(n) ==> {
            &&& 8 <= n <= b.len()
            &&& n < b.len() ==> !(48 <= b[n] <= 57 || 65 <= b[n] <= 90 || 97 <= b[n] <= 122)
            &&& {
                ||| n >= 19 && forall|k: int|
                    0 <= k < 19 ==> if k == 4 || k == 7 {
                        #[trigger] b[k] == 45
                    } else if k == 10 {
                        b[k] == 84 || b[k] == 32
                    } else if k == 13 || k == 16 {
                        b[k] == 58
                    } else {
                        48 <= b[k] <= 57
                    }
                ||| forall|k: int|
                    0 <= k < 8 ==> if k == 2 || k == 5 {
                        #[trigger] b[k] == 58
                    } else {
                        48 <= b[k] <= 57
                    }
                ||| 14 <= n <= 16 && ({
                    let m = b.subrange(0, 3);
                    ||| m == "Jan".spec_bytes() || m == "Feb".spec_bytes() || m
                        == "Mar".spec_bytes()
                    ||| m == "Apr".spec_bytes() || m == "May".spec_bytes() || m
                        == "Jun".spec_bytes()
                    ||| m == "Jul".spec_bytes() || m == "Aug".spec_bytes() || m
                        == "Sep".spec_bytes()
                    ||| m == "Oct".spec_bytes() || m == "Nov".spec_bytes() || m
                        == "Dec".spec_bytes()
                }) && b.len() >= 15 && b[3] == 32 && (if b[4] == 32 {
                    48 <= b[5] <= 57 && n == if 48 <= b[6] <= 57 {
                        16int
                    } else {
                        15
                    }
                } else {
                    48 <= b[4] <= 57 && n == if 48 <= b[5] <= 57 {
                        15int
                    } else {
                        14
                    }
                }) && forall|k: int|
                    n - 9 <= k < n ==> if k == n - 9 {
                        #[trigger] b[k] == 32
                    } else if k == n - 6 || k == n - 3 {
                        b[k] == 58
                    } else {
                        48 <= b[k] <= 57
                    }
            }
        },
{
    timestamp_ends_in_ascii(b);
    shapes_spelled_out(b);
    if b.len() >= 3 {
        months_spelled_out(b);
    }
    digit_run_is_maximal(b, if b.len() >= 20 { 20 } else { 0 });
    if syslog_len(b) is Some {
        clock_spelled_out(b, day_end(b)->0);
    }
}

/// White space in front of a line changes nothing but where its timestamp
/// stands.
pub proof fn leading_space_does_not_matter(space: Seq<char>, line: Seq<char>)
    requires
        forall|k: int| 0 <= k < space.len() ==> chars::white_space(#[trigger] space[k]),
        line.len() > 0,
        !chars::white_space(line[0]),
    ensures
        timestamp_in(space + line) == timestamp_in(line),
        match timestamp_len(encode_utf8(line)) {
            Some(n) => line_record(space + line) == record_at(
                level_in(space + line),
                encode_utf8(space).len(),
                n as nat,
            ),
            None => line_record(space + line).ts_start == 0 && line_record(space + line).ts_len
                == 0,
        },
{
    chars::trimmed_start_skips(space, line);
    assert(trimmed_start(line) =~= line);
    assert(line.take(0) =~= Seq::<char>::empty());
    timestamp_ends_in_ascii(encode_utf8(line));
}

/// What a line without leading white space has for a timestamp is a prefix of
/// it, of the length that was found.
pub proof fn timestamp_is_a_prefix(line: Seq<char>)
    requires
        line.len() > 0,
        !chars::white_space(line[0]),
    ensures
        match timestamp_len(encode_utf8(line)) {
            Some(n) => timestamp_in(line) matches Some(t) && encode_utf8(t) == encode_utf8(
                line,
            ).take(n) && 0 < n <= encode_utf8(line).len(),
            None => timestamp_in(line) is None,
        },
{
    assert(trimmed_start(line) =~= line);
    timestamp_ends_in_ascii(encode_utf8(line));
    if let Some(n) = timestamp_len(encode_utf8(line)) {
        timestamp_is_inside_line(line, n);
        let b = encode_utf8(line);
        encode_utf8_valid_utf8(line);
        chars::boundary_after_ascii(b, n);
        chars::prefix_is_valid(b, n);
        assert(b.subrange(0, n) =~= b.take(n));
        decode_utf8_encode_utf8(b.subrange(0, n));
    }
}

/// The level of a record is the level of its line, whether the line has a
/// timestamp or not.
pub proof fn record_level_is_that_of_the_line(line: Seq<char>)
    ensures
        line_record(line).level == level_in(line),
        trimmed_start(line).len() == 0 ==> timestamp_in(line) is None && line_record(line).ts_len
            == 0 && line_record(line).ts_start == 0,
{
    nothing_else_is_a_timestamp(encode_utf8(trimmed_start(line)));
    if trimmed_start(line).len() == 0 {
        assert(encode_utf8(trimmed_start(line)) =~= Seq::<u8>::empty());
    }
}

/// A parser of one format returns the timestamp where its format fits, and
/// nothing where it does not.
pub proof fn prefixes_are_of_their_length(r: Option<&str>, s: &str, len: Option<int>)
    requires
        is_prefix(r, s, len),
    ensures
        len is None ==> r is None,
        len matches Some(n) ==> r matches Some(t) && t.spec_bytes() == s.spec_bytes().take(n)
            && t.spec_bytes().len() == n,
{
    if let Some(n) = len {
        assert(s.spec_bytes().subrange(0, n) =~= s.spec_bytes().take(n));
    }
}

/// An entry without a timestamp gets the one that its text starts with, and
/// nothing else of it changes.
pub proof fn entries_get_their_timestamp(e: EntryView)
    requires
        e.timestamp is None,
    ensures
        parsed_entry(e).timestamp == timestamp_in(e.raw),
        parsed_entry(e).raw == e.raw,
        parsed_entry(e).level == e.level,
        parsed_entry(e).line_number == e.line_number,
{
}

/// A date and a time in front of a line, behind white space, are its
/// timestamp, whatever the digits and whatever follows that is no letter or
/// digit: `stamp` is four, two and two digits with `-` between them, a `T` or
/// a space, and three times two digits with `:` between them, and no fraction
/// or time zone follows.
pub proof fn dates_are_found(space: Seq<char>, stamp: Seq<char>, rest: Seq<char>)
    requires
        forall|k: int| 0 <= k < space.len() ==> chars::white_space(#[trigger] space[k]),
        is_ascii_chars(stamp),
        stamp.len() == 19,
        forall|k: int|
            0 <= k < 19 ==> if k == 4 || k == 7 {
                #[trigger] stamp[k] == '-'
            } else if k == 10 {
                stamp[k] == 'T' || stamp[k] == ' '
            } else if k == 13 || k == 16 {
                stamp[k] == ':'
            } else {
                '0' <= stamp[k] <= '9'
            },
        rest.len() > 0 ==> {
            let c = rest[0];
            !('0' <= c <= '9' || 'a' <= c <= 'z' || 'A' <= c <= 'Z' || c == '.' || c == '+' || c
                == '-')
        },
    ensures
        timestamp_in(space + stamp + rest) == Some(stamp),
        line_record(space + stamp + rest) == record_at(
            level_in(space + stamp + rest),
            encode_utf8(space).len(),
            19,
        ),
{
    assert('0' <= stamp[0] <= '9');
    chars::ascii_head(space, stamp, rest);
    let b = encode_utf8(trimmed_start(space + stamp + rest));
    assert forall|k: int| 0 <= k < 19 implies if k == 4 || k == 7 {
        #[trigger] b[k] == 45
    } else if k == 10 {
        b[k] == 84 || b[k] == 32
    } else if k == 13 || k == 16 {
        b[k] == 58
    } else {
        48 <= b[k] <= 57
    } by {
        assert(b[k] == stamp[k] as u8);
    }
    if rest.len() > 0 {
        byte_behind_a_stamp(rest);
        assert(b[19] == encode_utf8(rest)[0]);
    } else {
        assert(encode_utf8(rest) =~= Seq::<u8>::empty());
    }
    dates_are_timestamps(b, 19, 19);
}

proof fn byte_behind_a_stamp(rest: Seq<char>)
    requires
        rest.len() > 0,
        ({
            let c = rest[0];
            !('0' <= c <= '9' || 'a' <= c <= 'z' || 'A' <= c <= 'Z' || c == '.' || c == '+' || c
                == '-')
        }),
    ensures
        encode_utf8(rest).len() > 0,
        ({
            let x = encode_utf8(rest)[0];
            !(48 <= x <= 57 || 97 <= x <= 122 || 65 <= x <= 90 || x == 46 || x == 43 || x == 45)
        }),
{
    chars::first_byte_of_text(rest);
    if rest[0] <= '\u{7f}' {
        byte_of_separator(rest[0]);
    }
}

proof fn byte_of_separator(c: char)
    requires
        c <= '\u{7f}',
        !('0' <= c <= '9' || 'a' <= c <= 'z' || 'A' <= c <= 'Z' || c == '.' || c == '+' || c == '-'),
    ensures
        ({
            let x = c as u8;
            !(48 <= x <= 57 || 97 <= x <= 122 || 65 <= x <= 90 || x == 46 || x == 43 || x == 45)
        }),
{
}

/// Every format has its own beginning, so no text has timestamps of two
/// formats: a date with `-` and `T`, a date with `-` and a space, a month, or
/// a colon behind two digits.
pub proof fn formats_have_their_own_beginning(b: Seq<u8>)
    ensures
        iso_t_len(b) is Some ==> b.len() >= 19 && b[4] == 45 && b[10] == 84,
        iso_space_len(b) is Some ==> b.len() >= 19 && b[4] == 45 && b[10] == 32,
        syslog_len(b) is Some ==> b.len() >= 15 && 65 <= b[0] <= 90 && b[3] == 32,
        time_only_len(b) is Some ==> b.len() >= 8 && 48 <= b[0] <= 57 && b[2] == 58,
        iso_t_len(b) is Some || iso_space_len(b) is Some ==> 48 <= b[0] <= 57 && 48 <= b[2] <= 57,
        iso_t_len(b) is Some ==> timestamp_len(b) == iso_t_len(b),
        iso_space_len(b) is Some ==> timestamp_len(b) == iso_space_len(b),
        syslog_len(b) is Some ==> timestamp_len(b) == syslog_len(b),
        time_only_len(b) is Some ==> timestamp_len(b) == time_only_len(b),
        timestamp_len(b) is Some ==> iso_t_len(b) is Some || iso_space_len(b) is Some || syslog_len(
            b,
        ) is Some || time_only_len(b) is Some,
{
    shapes_spelled_out(b);
    first_word_of_months(b);
    iso_formats_are_disjoint(b);
}

} // verus!
