//! Parser for newline-delimited JSON (NDJSON) log files.
//!
//! Each non-empty line is expected to be a single JSON object. Fields are
//! extracted with a lightweight scanner that looks for quoted keys.
//!
//! # Field aliases
//!
//! | Semantic | Accepted key names |
//! |----------|-------------------|
//! | Timestamp | `"timestamp"`, `"time"`, `"ts"`, `"@timestamp"` |
//! | Level     | `"level"`, `"severity"`, `"lvl"` |
use vstd::prelude::*;
use vstd::string::*;
use vstd::utf8::*;

use crate::chars::{self, indent, lowercase, trimmed};
use crate::loader::{mentions, word_is_mentioned};
use crate::numbers::{
    decimal, decimal_is_digits, decimal_reads_back, decimal_text, parse_unsigned, unsigned_up_to,
};
use crate::text::{
    blank, contains, digit_run, find_bytes, first_occurrence, first_occurrence_is_least, is_blank,
    occurs_at, skip_digits,
};
use crate::types::{
    make_record, record_at, record_finds_timestamp, record_without_timestamp, recorded_timestamp,
    EntryView, FileView, LineRecord, LogEntry, LogFile, LogLevel,
};

verus! {

// ---------------------------------------------------------------------------
// Strings
// ---------------------------------------------------------------------------

/// The position of the first quote from `at` on that no backslash escapes.
pub open spec fn closing_quote(s: Seq<u8>, at: int) -> Option<int>
    decreases s.len() - at + 1,
{
    if at >= s.len() {
        None
    } else if s[at] == '\\' as u8 {
        closing_quote(s, at + 2)
    } else if s[at] == '"' as u8 {
        Some(at)
    } else {
        closing_quote(s, at + 1)
    }
}

/// A closing quote is a quote inside the text.
pub proof fn closing_quote_is_quote(s: Seq<u8>, at: int)
    requires
        0 <= at,
    ensures
        closing_quote(s, at) matches Some(p) ==> at <= p < s.len() && s[p] == '"' as u8,
    decreases s.len() - at + 1,
{
    if at < s.len() {
        if s[at] == '\\' as u8 {
            closing_quote_is_quote(s, at + 2);
        } else if s[at] != '"' as u8 {
            closing_quote_is_quote(s, at + 1);
        }
    }
}

/// Return the byte offset just past the closing `"` of the JSON string that
/// starts (with its opening `"`) at `s[start]`.
///
/// Handles `\"` escape sequences so we don't terminate early. Returns `None`
/// if the string is unterminated.
pub fn end_of_json_string(s: &[u8], start: usize) -> (r: Option<usize>)
    requires
        start < s@.len(),
        s@[start as int] == '"' as u8,
    ensures
        match r {
            Some(end) => closing_quote(s@, start + 1) == Some(end - 1),
            None => closing_quote(s@, start + 1) is None,
        },
{
    let total: usize = s.len();
    let mut i: usize = start + 1;
    while i < total
        invariant
            start < i,
            total == s@.len(),
            closing_quote(s@, i as int) == closing_quote(s@, start + 1),
        decreases s@.len() - i,
    {
        if s[i] == '\\' as u8 {
            // Skip the escaped character.
            if total - i < 2 {
                assert(closing_quote(s@, i + 2) is None);
                return None;
            }
            i = i + 2;
        } else if s[i] == '"' as u8 {
            return Some(i + 1);
        } else {
            i = i + 1;
        }
    }
    None
}

// ---------------------------------------------------------------------------
// Keys and values
// ---------------------------------------------------------------------------

/// `name` between quotes.
pub open spec fn quoted(name: Seq<u8>) -> Seq<u8> {
    seq!['"' as u8] + name + seq!['"' as u8]
}

/// Position `p` is a key position: ignoring blanks, `{` or `,` stands before it.
pub open spec fn key_position(b: Seq<u8>, p: int) -> bool {
    exists|j: int|
        {
            &&& 0 <= j < p
            &&& #[trigger] b[j] == '{' as u8 || b[j] == ',' as u8
            &&& forall|k: int| j < k < p ==> blank(#[trigger] b[k])
        }
}

/// The first position from `at` on that holds no blank.
pub open spec fn after_blanks(b: Seq<u8>, at: int) -> int
    decreases b.len() - at,
{
    if 0 <= at < b.len() && blank(b[at]) {
        after_blanks(b, at + 1)
    } else {
        at
    }
}

/// Where the colon stands that makes a key of the `len` bytes at `p`: they are
/// in key position, and nothing but blanks stands before the colon.
pub open spec fn key_colon(b: Seq<u8>, p: int, len: int) -> Option<int> {
    let colon = after_blanks(b, p + len);
    if key_position(b, p) && colon < b.len() && b[colon] == ':' as u8 {
        Some(colon)
    } else {
        None
    }
}

/// The colon behind the first occurrence of `key` that is a key. Other
/// occurrences, in a value or as an element of an array, are passed over whole.
pub open spec fn colon_of(b: Seq<u8>, key: Seq<u8>, from: int) -> Option<int>
    decreases b.len() - from + 1,
{
    match first_occurrence(b, key, from) {
        Some(p) => if key_colon(b, p, key.len() as int) is Some {
            key_colon(b, p, key.len() as int)
        } else if from <= p && p + key.len() <= b.len() && key.len() > 0 {
            colon_of(b, key, p + key.len())
        } else {
            None
        },
        None => None,
    }
}

/// Where the value of the field `name` starts: behind the colon of its key,
/// and blanks.
pub open spec fn value_at(b: Seq<u8>, name: Seq<u8>) -> Option<int> {
    match colon_of(b, quoted(name), 0) {
        Some(colon) => if after_blanks(b, colon + 1) < b.len() {
            Some(after_blanks(b, colon + 1))
        } else {
            None
        },
        None => None,
    }
}

/// The range between the quotes of the string value of the field `name`.
pub open spec fn string_range(b: Seq<u8>, name: Seq<u8>) -> Option<(int, int)> {
    match value_at(b, name) {
        Some(v) => if b[v] == '"' as u8 {
            match closing_quote(b, v + 1) {
                Some(end) => Some((v + 1, end)),
                None => None,
            }
        } else {
            None
        },
        None => None,
    }
}

/// The string value of the field `name`, escapes as they stand.
pub open spec fn string_field(line: Seq<char>, name: Seq<char>) -> Option<Seq<char>> {
    let b = encode_utf8(line);
    match string_range(b, encode_utf8(name)) {
        Some((start, end)) => Some(decode_utf8(b.subrange(start, end))),
        None => None,
    }
}

/// A value may end at `end`: the line does, or a blank, a comma or a closing
/// bracket follows.
pub open spec fn value_ends(b: Seq<u8>, end: int) -> bool {
    end >= b.len() || blank(b[end]) || b[end] == ',' as u8 || b[end] == '}' as u8 || b[end]
        == ']' as u8
}

/// The value of the field `name` where it is a bare number below 2^64: digits
/// and nothing else.
pub open spec fn number_field(line: Seq<char>, name: Seq<char>) -> Option<nat> {
    let b = encode_utf8(line);
    match value_at(b, encode_utf8(name)) {
        Some(v) => {
            let end = v + digit_run(b, v);
            if value_ends(b, end) {
                unsigned_up_to(b.subrange(v, end), u64::MAX as nat)
            } else {
                None
            }
        },
        None => None,
    }
}

fn in_key_position(b: &[u8], p: usize) -> (r: bool)
    requires
        p <= b@.len(),
    ensures
        r == key_position(b@, p as int),
{
    let mut j: usize = p;
    while j > 0 && is_blank(b[j - 1])
        invariant
            j <= p <= b@.len(),
            forall|k: int| j <= k < p ==> blank(#[trigger] b@[k]),
        decreases j,
    {
        j = j - 1;
    }
    if j == 0 {
        return false;
    }
    let r = b[j - 1] == '{' as u8 || b[j - 1] == ',' as u8;
    proof {
        if r {
            assert(b@[j - 1] == '{' as u8 || b@[j - 1] == ',' as u8);
        } else if key_position(b@, p as int) {
            let i = choose|i: int|
                {
                    &&& 0 <= i < p
                    &&& #[trigger] b@[i] == '{' as u8 || b@[i] == ',' as u8
                    &&& forall|k: int| i < k < p ==> blank(#[trigger] b@[k])
                };
            if i < j - 1 {
                assert(blank(b@[j - 1]));
            }
        }
    }
    r
}

/// The first position from `at` on that holds no blank.
fn skip_blanks(b: &[u8], at: usize) -> (r: usize)
    requires
        at <= b@.len(),
    ensures
        r == after_blanks(b@, at as int),
        at <= r <= b@.len(),
{
    let mut r: usize = at;
    while r < b.len() && is_blank(b[r])
        invariant
            at <= r <= b@.len(),
            after_blanks(b@, r as int) == after_blanks(b@, at as int),
        decreases b@.len() - r,
    {
        r = r + 1;
    }
    r
}

/// The colon behind the first occurrence of `key` that is a key.
fn find_colon(b: &[u8], key: &[u8]) -> (r: Option<usize>)
    requires
        key@.len() > 0,
    ensures
        match r {
            Some(c) => colon_of(b@, key@, 0) == Some(c as int) && c < b@.len(),
            None => colon_of(b@, key@, 0) is None,
        },
{
    let total: usize = b.len();
    let mut from: usize = 0;
    while from <= total
        invariant
            total == b@.len(),
            key@.len() > 0,
            colon_of(b@, key@, from as int) == colon_of(b@, key@, 0),
        decreases total - from + 1,
    {
        match find_bytes(b, key, from) {
            Some(p) => {
                proof {
                    first_occurrence_is_least(b@, key@, from as int);
                }
                let end: usize = p + key.len();
                let colon: usize = skip_blanks(b, end);
                if in_key_position(b, p) && colon < total && b[colon] == ':' as u8 {
                    return Some(colon);
                }
                from = end;
            },
            None => {
                return None;
            },
        }
    }
    None
}

/// Where the value of the field `name` starts.
fn find_value(b: &[u8], name: &[u8]) -> (r: Option<usize>)
    ensures
        match r {
            Some(v) => value_at(b@, name@) == Some(v as int) && v < b@.len(),
            None => value_at(b@, name@) is None,
        },
{
    let total: usize = b.len();
    let mut key: Vec<u8> = Vec::new();
    key.push('"' as u8);
    let mut i: usize = 0;
    while i < name.len()
        invariant
            i <= name@.len(),
            key@ == seq!['"' as u8] + name@.take(i as int),
        decreases name@.len() - i,
    {
        key.push(name[i]);
        i = i + 1;
        assert(key@ =~= seq!['"' as u8] + name@.take(i as int));
    }
    key.push('"' as u8);
    assert(name@.take(name@.len() as int) =~= name@);
    assert(key@ =~= quoted(name@));

    match find_colon(b, key.as_slice()) {
        Some(colon) => {
            let v: usize = skip_blanks(b, colon + 1);
            if v < total {
                Some(v)
            } else {
                None
            }
        },
        None => None,
    }
}

/// The range between the quotes of a string value.
fn find_string(b: &[u8], name: &[u8]) -> (r: Option<(usize, usize)>)
    ensures
        match r {
            Some((start, end)) => {
                &&& string_range(b@, name@) == Some((start as int, end as int))
                &&& 0 < start <= end < b@.len()
                &&& b@[start - 1] == '"' as u8
                &&& b@[end as int] == '"' as u8
            },
            None => string_range(b@, name@) is None,
        },
{
    match find_value(b, name) {
        Some(v) => {
            if b[v] != '"' as u8 {
                return None;
            }
            proof {
                closing_quote_is_quote(b@, v + 1);
            }
            match end_of_json_string(b, v) {
                Some(end) => Some((v + 1, end - 1)),
                None => None,
            }
        },
        None => None,
    }
}

/// Search for the JSON key `name` in `line` and return the string value that
/// follows it, as a `&str` slice of `line`.
///
/// Only matches keys that appear in **key position**, i.e. whose opening `"`
/// is immediately preceded (ignoring blanks) by `{` or `,`, and whose closing
/// `"` is followed (ignoring blanks) by `:`. This prevents false-positive
/// matches when the key name appears inside a value string or as an element
/// of an array.
///
/// Returns `None` if the key is absent or the value is not a JSON string.
pub fn extract_string_field<'a>(line: &'a str, name: &str) -> (r: Option<&'a str>)
    ensures
        match r {
            Some(v) => string_field(line@, name@) == Some(v@),
            None => string_field(line@, name@) is None,
        },
{
    match find_string(line.as_bytes(), name.as_bytes()) {
        Some((start, end)) => {
            proof {
                encode_utf8_valid_utf8(line@);
                chars::boundary_after_ascii(line.spec_bytes(), start as int);
                chars::boundary_at_ascii(line.spec_bytes(), end as int);
            }
            let v = chars::slice(line, start, end);
            proof {
                chars::decode_of_bytes(v@, v.spec_bytes());
            }
            Some(v)
        },
        None => None,
    }
}

/// Search for the JSON key `name` in `line` and return its value as a `u64`,
/// for the case where the value is a bare JSON number (not quoted).
///
/// Uses the same key-position guard as [`extract_string_field`]. Returns
/// `None` if the key is absent, not in key position, or its value is not a
/// sequence of ASCII digits that fits.
pub fn extract_number_field(line: &str, name: &str) -> (r: Option<u64>)
    ensures
        match r {
            Some(n) => number_field(line@, name@) == Some(n as nat),
            None => number_field(line@, name@) is None,
        },
{
    let b = line.as_bytes();
    match find_value(b, name.as_bytes()) {
        Some(v) => {
            let end: usize = skip_digits(b, v);
            let ends = end >= b.len() || is_blank(b[end]) || b[end] == ',' as u8 || b[end]
                == '}' as u8 || b[end] == ']' as u8;
            if ends {
                parse_unsigned(&b[v..end], u64::MAX)
            } else {
                None
            }
        },
        None => None,
    }
}

// ---------------------------------------------------------------------------
// Level
// ---------------------------------------------------------------------------

/// The level of a numeric code in the convention of Bunyan and Pino.
pub open spec fn number_level(n: nat) -> LogLevel {
    if n >= 60 {
        LogLevel::Error
    } else if n >= 50 {
        LogLevel::Warn
    } else if n >= 40 {
        LogLevel::Info
    } else if n >= 30 {
        LogLevel::Debug
    } else {
        LogLevel::Trace
    }
}

/// The level that a lower-case word names.
pub open spec fn word_level(lower: Seq<char>) -> LogLevel {
    if mentions(lower, "error") || mentions(lower, "fatal") || mentions(lower, "crit") {
        LogLevel::Error
    } else if mentions(lower, "warn") {
        LogLevel::Warn
    } else if mentions(lower, "info") {
        LogLevel::Info
    } else if mentions(lower, "debug") {
        LogLevel::Debug
    } else if mentions(lower, "trace") || mentions(lower, "verbose") {
        LogLevel::Trace
    } else {
        LogLevel::Unknown
    }
}

/// The level that the text `s` stands for, `lower` being its lower case: a
/// number that fits into 32 bits is a code, anything else a word.
pub open spec fn text_level(s: Seq<char>, lower: Seq<char>) -> LogLevel {
    match unsigned_up_to(encode_utf8(trimmed(s)), u32::MAX as nat) {
        Some(n) => number_level(n),
        None => word_level(lower),
    }
}

/// The level that a bare number stands for.
pub open spec fn code_level(n: nat) -> LogLevel {
    if n <= u32::MAX {
        number_level(n)
    } else {
        LogLevel::Unknown
    }
}

/// Map a JSON level string (e.g. `"error"`, `"WARN"`, `"30"`) to [`LogLevel`].
///
/// Uses the same keyword-priority order as `loader::detect_level`:
/// error > warn > info > debug > trace > unknown.
///
/// Numeric level conventions (common in Bunyan/Pino) are also supported:
/// 60 → Error, 50 → Warn, 40 → Info, 30 → Debug, 10–20 → Trace.
pub fn level_from_str(s: &str) -> (r: LogLevel)
    ensures
        r == text_level(s@, lowercase(s@)),
        is_ascii_chars(s@) ==> r == text_level(s@, chars::ascii_lowercase(s@)),
{
    match parse_unsigned(chars::trim(s).as_bytes(), u32::MAX as u64) {
        Some(n) => {
            if n >= 60 {
                LogLevel::Error
            } else if n >= 50 {
                LogLevel::Warn
            } else if n >= 40 {
                LogLevel::Info
            } else if n >= 30 {
                LogLevel::Debug
            } else {
                LogLevel::Trace
            }
        },
        None => {
            let lower = s.to_lowercase();
            let b = lower.as_str().as_bytes();
            if contains(b, "error".as_bytes()) || contains(b, "fatal".as_bytes()) || contains(
                b,
                "crit".as_bytes(),
            ) {
                LogLevel::Error
            } else if contains(b, "warn".as_bytes()) {
                LogLevel::Warn
            } else if contains(b, "info".as_bytes()) {
                LogLevel::Info
            } else if contains(b, "debug".as_bytes()) {
                LogLevel::Debug
            } else if contains(b, "trace".as_bytes()) || contains(b, "verbose".as_bytes()) {
                LogLevel::Trace
            } else {
                LogLevel::Unknown
            }
        },
    }
}

/// Digits mention no word that starts with a letter.
proof fn digits_mention_no_word(d: Seq<char>, word: &str)
    requires
        is_ascii_chars(d),
        forall|k: int| 0 <= k < d.len() ==> '0' <= #[trigger] d[k] <= '9',
        word@.len() > 0,
        is_ascii_chars(word@),
        'a' <= word@[0] <= 'z',
    ensures
        !mentions(d, word),
{
    is_ascii_chars_encode_utf8(d);
    is_ascii_chars_encode_utf8(word@);
    let b = encode_utf8(d);
    let w = word.spec_bytes();
    assert(w[0] == word@[0] as u8);
    assert forall|at: int| !occurs_at(b, w, at) by {
        if occurs_at(b, w, at) {
            assert(b.subrange(at, at + w.len())[0] == b[at]);
            assert(b[at] == d[at] as u8);
        }
    }
}

/// A number in base ten has the level of the number.
proof fn decimal_has_code_level(n: nat)
    ensures
        text_level(decimal(n), chars::ascii_lowercase(decimal(n))) == code_level(n),
{
    let d = decimal(n);
    decimal_is_digits(n);
    decimal_reads_back(n);
    assert(chars::leading_space(d) == 0) by {
        assert('0' <= d[0] <= '9');
    }
    assert(chars::trimmed_start(d) =~= d);
    assert(trimmed(d) =~= d) by {
        assert('0' <= d[d.len() - 1] <= '9');
    }
    assert(chars::ascii_lowercase(d) =~= d) by {
        assert forall|k: int| 0 <= k < d.len() implies chars::ascii_lower(d[k]) == d[k] by {
            assert('0' <= d[k] <= '9');
        }
    }
    reveal_strlit("error");
    reveal_strlit("fatal");
    reveal_strlit("crit");
    reveal_strlit("warn");
    reveal_strlit("info");
    reveal_strlit("debug");
    reveal_strlit("trace");
    reveal_strlit("verbose");
    digits_mention_no_word(d, "error");
    digits_mention_no_word(d, "fatal");
    digits_mention_no_word(d, "crit");
    digits_mention_no_word(d, "warn");
    digits_mention_no_word(d, "info");
    digits_mention_no_word(d, "debug");
    digits_mention_no_word(d, "trace");
    digits_mention_no_word(d, "verbose");
}

fn level_from_number(n: u64) -> (r: LogLevel)
    ensures
        r == code_level(n as nat),
{
    let text = decimal_text(n);
    proof {
        decimal_is_digits(n as nat);
        decimal_has_code_level(n as nat);
    }
    level_from_str(text.as_str())
}

// ---------------------------------------------------------------------------
// Fields of a line
// ---------------------------------------------------------------------------

/// The line is a JSON object.
pub open spec fn is_object(b: Seq<u8>) -> bool {
    b.len() > 0 && b[0] == '{' as u8
}

/// The range of the timestamp in an object: that of the first of its aliases
/// that has a string value.
pub open spec fn timestamp_range(b: Seq<u8>) -> Option<(int, int)> {
    if string_range(b, "timestamp".spec_bytes()) is Some {
        string_range(b, "timestamp".spec_bytes())
    } else if string_range(b, "time".spec_bytes()) is Some {
        string_range(b, "time".spec_bytes())
    } else if string_range(b, "ts".spec_bytes()) is Some {
        string_range(b, "ts".spec_bytes())
    } else {
        string_range(b, "@timestamp".spec_bytes())
    }
}

/// The level in the field `name`: that of its string value, or of its number.
pub open spec fn field_level(object: Seq<char>, name: &str) -> Option<LogLevel> {
    match string_field(object, name@) {
        Some(v) => Some(text_level(v, lowercase(v))),
        None => match number_field(object, name@) {
            Some(n) => Some(code_level(n)),
            None => None,
        },
    }
}

/// The level of an object: that of the first of its aliases that has one.
pub open spec fn object_level(object: Seq<char>) -> Option<LogLevel> {
    if field_level(object, "level") is Some {
        field_level(object, "level")
    } else if field_level(object, "severity") is Some {
        field_level(object, "severity")
    } else {
        field_level(object, "lvl")
    }
}

/// The timestamp of a line.
pub open spec fn timestamp_in(line: Seq<char>) -> Option<Seq<char>> {
    let b = encode_utf8(trimmed(line));
    if is_object(b) {
        match timestamp_range(b) {
            Some((start, end)) => Some(decode_utf8(b.subrange(start, end))),
            None => None,
        }
    } else {
        None
    }
}

/// The level of a line.
pub open spec fn level_in(line: Seq<char>) -> Option<LogLevel> {
    if is_object(encode_utf8(trimmed(line))) {
        object_level(trimmed(line))
    } else {
        None
    }
}

fn find_timestamp(b: &[u8]) -> (r: Option<(usize, usize)>)
    ensures
        match r {
            Some((start, end)) => {
                &&& timestamp_range(b@) == Some((start as int, end as int))
                &&& 0 < start <= end < b@.len()
                &&& b@[start - 1] == '"' as u8
                &&& b@[end as int] == '"' as u8
            },
            None => timestamp_range(b@) is None,
        },
{
    let r = find_string(b, "timestamp".as_bytes());
    if r.is_some() {
        return r;
    }
    let r = find_string(b, "time".as_bytes());
    if r.is_some() {
        return r;
    }
    let r = find_string(b, "ts".as_bytes());
    if r.is_some() {
        return r;
    }
    find_string(b, "@timestamp".as_bytes())
}

fn find_field_level(object: &str, name: &str) -> (r: Option<LogLevel>)
    ensures
        r == field_level(object@, name),
{
    // A string value first (`"level":"warn"`), then a bare number (`"level":50`).
    if let Some(v) = extract_string_field(object, name) {
        return Some(level_from_str(v));
    }
    match extract_number_field(object, name) {
        Some(n) => Some(level_from_number(n)),
        None => None,
    }
}

fn find_level(object: &str) -> (r: Option<LogLevel>)
    ensures
        r == object_level(object@),
{
    let r = find_field_level(object, "level");
    if r.is_some() {
        return r;
    }
    let r = find_field_level(object, "severity");
    if r.is_some() {
        return r;
    }
    find_field_level(object, "lvl")
}

fn starts_object(object: &str) -> (r: bool)
    ensures
        r == is_object(object.spec_bytes()),
{
    let b = object.as_bytes();
    b.len() > 0 && b[0] == '{' as u8
}

// ---------------------------------------------------------------------------
// Entry points
// ---------------------------------------------------------------------------

/// What [`parse`] makes of an entry.
pub open spec fn parsed_entry(e: EntryView) -> EntryView {
    EntryView {
        timestamp: if e.timestamp is None {
            timestamp_in(e.raw)
        } else {
            e.timestamp
        },
        level: if (e.level is None || e.level == Some(LogLevel::Unknown)) && level_in(
            e.raw,
        ) is Some {
            level_in(e.raw)
        } else {
            e.level
        },
        ..e
    }
}

/// What [`parse`] makes of a file.
pub open spec fn parsed(f: FileView) -> FileView {
    FileView { entries: f.entries.map_values(|e: EntryView| parsed_entry(e)), ..f }
}

fn parse_entry(entry: &mut LogEntry)
    ensures
        final(entry)@ == parsed_entry(old(entry)@),
{
    let line = chars::trim(entry.raw.as_str());
    if !starts_object(line) {
        return;
    }
    let timestamp = match find_timestamp(line.as_bytes()) {
        Some((start, end)) => {
            proof {
                encode_utf8_valid_utf8(line@);
                chars::boundary_after_ascii(line.spec_bytes(), start as int);
                chars::boundary_at_ascii(line.spec_bytes(), end as int);
            }
            let t = chars::slice(line, start, end);
            proof {
                chars::decode_of_bytes(t@, t.spec_bytes());
            }
            Some(t.to_owned())
        },
        None => None,
    };
    let level = find_level(line);
    if entry.timestamp.is_none() {
        entry.timestamp = timestamp;
    }
    // A level that is already known stays.
    let needs_level = match entry.level {
        None => true,
        Some(l) => l == LogLevel::Unknown,
    };
    if needs_level && level.is_some() {
        entry.level = level;
    }
}

/// Parse a newline-delimited JSON [`LogFile`] in place.
///
/// For each non-empty entry:
/// - `entry.timestamp`, where there is none yet, is set from the first
///   matching timestamp field alias (`"timestamp"`, `"time"`, `"ts"`,
///   `"@timestamp"`).
/// - `entry.level`, where it is not known yet, is set by extracting the first
///   matching level field alias (`"level"`, `"severity"`, `"lvl"`) and mapping
///   it through [`level_from_str`].
/// - `entry.raw` is never modified.
///
/// Lines that do not start with `{` (e.g. blank lines, JSON array brackets)
/// are silently skipped.
pub fn parse(log_file: &mut LogFile)
    ensures
        final(log_file)@ == parsed(old(log_file)@),
{
    let n: usize = log_file.entries.len();
    let ghost before = log_file.entries@;
    let mut i: usize = 0;
    while i < n
        invariant
            i <= n == before.len() == log_file.entries@.len(),
            log_file.path == old(log_file).path,
            log_file.format == old(log_file).format,
            forall|k: int|
                0 <= k < i ==> (#[trigger] log_file.entries@[k])@ == parsed_entry(before[k]@),
            forall|k: int| i <= k < n ==> #[trigger] log_file.entries@[k] == before[k],
        decreases n - i,
    {
        parse_entry(&mut log_file.entries[i]);
        i = i + 1;
    }
    assert(log_file@.entries =~= parsed(old(log_file)@).entries);
}

/// The level that a record holds for a line: `Unknown` where none was found.
pub open spec fn record_level(line: Seq<char>) -> LogLevel {
    match level_in(line) {
        Some(l) => l,
        None => LogLevel::Unknown,
    }
}

/// The record of a line in a JSON log.
pub open spec fn line_record(line: Seq<char>) -> LineRecord {
    let b = encode_utf8(trimmed(line));
    if is_object(b) && timestamp_range(b) is Some {
        let (start, end) = timestamp_range(b)->0;
        record_at(record_level(line), (indent(line) + start) as nat, (end - start) as nat)
    } else {
        record_without_timestamp(record_level(line))
    }
}

/// The record of one line.
pub fn parse_line(line: &str) -> (r: LineRecord)
    ensures
        r == line_record(line@),
{
    let tail = chars::trim_start(line);
    let object = chars::trim_end(tail);
    if !starts_object(object) {
        return LineRecord { level: LogLevel::Unknown, ts_start: 0, ts_len: 0 };
    }
    let level = match find_level(object) {
        Some(l) => l,
        None => LogLevel::Unknown,
    };
    match find_timestamp(object.as_bytes()) {
        Some((start, end)) => {
            let total: usize = line.as_bytes().len();
            proof {
                trimmed_bytes(line@);
            }
            make_record(level, total - tail.as_bytes().len() + start, end - start)
        },
        None => LineRecord { level, ts_start: 0, ts_len: 0 },
    }
}

/// The bytes of a trimmed line stand in the line behind its indent.
proof fn trimmed_bytes(line: Seq<char>)
    ensures
        occurs_at(encode_utf8(line), encode_utf8(trimmed(line)), indent(line) as int),
{
    let head = line.take(chars::leading_space(line) as int);
    let middle = trimmed(line);
    chars::leading_space_is_maximal(line);
    let tail = chars::trimmed_start(line);
    chars::trimmed_end_is_prefix(tail);
    let rest = tail.skip(middle.len() as int);
    assert(tail =~= middle + rest);
    assert(line =~= head + tail);
    chars::encode_concat(head, tail);
    chars::encode_concat(middle, rest);
    let b = encode_utf8(line);
    let n = indent(line) as int;
    assert(b.subrange(n, n + encode_utf8(middle).len()) =~= encode_utf8(middle));
}

// ---------------------------------------------------------------------------
// Laws
// ---------------------------------------------------------------------------

/// A field is only ever found by its quoted name in key position with a colon
/// behind it, never by a mention of the name inside a value or an array.
pub proof fn keys_stand_in_key_position(b: Seq<u8>, name: Seq<u8>, from: int)
    requires
        0 <= from,
    ensures
        colon_of(b, quoted(name), from) matches Some(colon) ==> colon < b.len() && b[colon]
            == ':' as u8 && exists|p: int| #[trigger]
            occurs_at(b, quoted(name), p) && from <= p < colon && key_position(b, p)
                && colon == after_blanks(b, p + quoted(name).len()),
    decreases b.len() - from + 1,
{
    let key = quoted(name);
    first_occurrence_is_least(b, key, from);
    if let Some(p) = first_occurrence(b, key, from) {
        after_blanks_is_past(b, p + key.len());
        if key_colon(b, p, key.len() as int) is None {
            keys_stand_in_key_position(b, name, p + key.len());
        } else {
            assert(occurs_at(b, key, p));
        }
    }
}

/// The range of a string value lies between two quotes.
pub proof fn string_range_is_quoted(b: Seq<u8>, name: Seq<u8>)
    ensures
        string_range(b, name) matches Some((start, end)) ==> 0 < start <= end < b.len()
            && b[start - 1] == '"' as u8 && b[end] == '"' as u8,
{
    keys_stand_in_key_position(b, name, 0);
    if let Some(colon) = colon_of(b, quoted(name), 0) {
        after_blanks_is_past(b, colon + 1);
        closing_quote_is_quote(b, after_blanks(b, colon + 1) + 1);
    }
}

proof fn after_blanks_is_past(b: Seq<u8>, at: int)
    ensures
        at <= after_blanks(b, at),
    decreases b.len() - at,
{
    if 0 <= at < b.len() && blank(b[at]) {
        after_blanks_is_past(b, at + 1);
    }
}

proof fn timestamp_range_is_quoted(b: Seq<u8>)
    ensures
        timestamp_range(b) matches Some((start, end)) ==> 0 < start <= end < b.len() && b[start - 1]
            == '"' as u8 && b[end] == '"' as u8,
{
    string_range_is_quoted(b, "timestamp".spec_bytes());
    string_range_is_quoted(b, "time".spec_bytes());
    string_range_is_quoted(b, "ts".spec_bytes());
    string_range_is_quoted(b, "@timestamp".spec_bytes());
}

proof fn record_finds_quoted(line: Seq<char>, level: LogLevel, start: int, end: int)
    requires
        ({
            let b = encode_utf8(trimmed(line));
            &&& 0 < start < end < b.len()
            &&& b[start - 1] == '"' as u8
            &&& b[end] == '"' as u8
        }),
        indent(line) + start <= 0xffff,
        end - start <= 0xff,
    ensures
        recorded_timestamp(
            line,
            record_at(level, (indent(line) + start) as nat, (end - start) as nat),
        ) == Some(decode_utf8(encode_utf8(trimmed(line)).subrange(start, end))),
{
    let b = encode_utf8(trimmed(line));
    let whole = encode_utf8(line);
    let n = indent(line) as int;
    trimmed_bytes(line);
    let inner = whole.subrange(n, n + b.len());
    assert(inner[start - 1] == whole[n + start - 1]);
    assert(inner[end] == whole[n + end]);
    encode_utf8_valid_utf8(line);
    chars::boundary_after_ascii(whole, n + start);
    chars::boundary_at_ascii(whole, n + end);
    record_finds_timestamp(line, level, (n + start) as nat, (end - start) as nat);
    assert(whole.subrange(n + start, n + end) =~= b.subrange(start, end));
}

/// The record of a line points to the timestamp that [`parse`] puts into an
/// entry with that text, and to none where there is none. A record cannot
/// tell an empty timestamp from none.
pub proof fn record_agrees_with_entry(line: Seq<char>)
    requires
        timestamp_range(encode_utf8(trimmed(line))) matches Some((start, end)) ==> {
            &&& indent(line) + start <= 0xffff
            &&& 0 < end - start <= 0xff
        },
    ensures
        recorded_timestamp(line, line_record(line)) == timestamp_in(line),
{
    let b = encode_utf8(trimmed(line));
    let level = record_level(line);
    let range = timestamp_range(b);
    timestamp_range_is_quoted(b);
    if is_object(b) && range is Some {
        let (start, end) = range->0;
        record_finds_quoted(line, level, start, end);
    }
}

/// Parsing twice is parsing once.
pub proof fn parse_is_idempotent(f: FileView)
    ensures
        parsed(parsed(f)) == parsed(f),
{
    assert(parsed(parsed(f)).entries =~= parsed(f).entries);
}

/// Parsing keeps the line numbers and the raw text, every timestamp that was
/// already there and every level that was known; a line that is no object
/// stays as it is.
pub proof fn parse_keeps_the_rest(f: FileView, i: int)
    requires
        0 <= i < f.entries.len(),
    ensures
        parsed(f).entries.len() == f.entries.len(),
        parsed(f).entries[i].line_number == f.entries[i].line_number,
        parsed(f).entries[i].raw == f.entries[i].raw,
        f.entries[i].timestamp is Some ==> parsed(f).entries[i].timestamp
            == f.entries[i].timestamp,
        f.entries[i].level is Some && f.entries[i].level != Some(LogLevel::Unknown)
            ==> parsed(f).entries[i].level == f.entries[i].level,
        !is_object(encode_utf8(trimmed(f.entries[i].raw))) ==> parsed(f).entries[i]
            == f.entries[i],
{
}

/// A word in the lower case of a level decides it, the most severe word before
/// any other: `error`, `fatal` and `crit` are errors, `trace` and `verbose` are
/// traces, and a level other than `Unknown` is only ever given for its word.
pub proof fn level_words_decide(lower: Seq<char>, at: int)
    ensures
        ({
            let b = encode_utf8(lower);
            let level = word_level(lower);
            &&& 0 <= at <= b.len() - 5 && b.subrange(at, at + 5) == "error".spec_bytes()
                ==> level == LogLevel::Error
            &&& 0 <= at <= b.len() - 5 && b.subrange(at, at + 5) == "fatal".spec_bytes()
                ==> level == LogLevel::Error
            &&& 0 <= at <= b.len() - 4 && b.subrange(at, at + 4) == "crit".spec_bytes()
                ==> level == LogLevel::Error
            &&& 0 <= at <= b.len() - 4 && b.subrange(at, at + 4) == "warn".spec_bytes()
                ==> level == LogLevel::Error || level == LogLevel::Warn
            &&& 0 <= at <= b.len() - 4 && b.subrange(at, at + 4) == "info".spec_bytes()
                ==> level == LogLevel::Error || level == LogLevel::Warn || level == LogLevel::Info
            &&& 0 <= at <= b.len() - 5 && b.subrange(at, at + 5) == "debug".spec_bytes()
                ==> level != LogLevel::Trace && level != LogLevel::Unknown
            &&& 0 <= at <= b.len() - 5 && b.subrange(at, at + 5) == "trace".spec_bytes()
                ==> level != LogLevel::Unknown
            &&& 0 <= at <= b.len() - 7 && b.subrange(at, at + 7) == "verbose".spec_bytes()
                ==> level != LogLevel::Unknown
        }),
        ({
            let b = encode_utf8(lower);
            match word_level(lower) {
                LogLevel::Error => exists|q: int|
                    {
                        ||| 0 <= q <= b.len() - 5 && #[trigger] b.subrange(q, q + 5)
                            == "error".spec_bytes()
                        ||| 0 <= q <= b.len() - 5 && b.subrange(q, q + 5) == "fatal".spec_bytes()
                        ||| 0 <= q <= b.len() - 4 && b.subrange(q, q + 4) == "crit".spec_bytes()
                    },
                LogLevel::Warn => exists|q: int|
                    0 <= q <= b.len() - 4 && #[trigger] b.subrange(q, q + 4)
                        == "warn".spec_bytes(),
                LogLevel::Info => exists|q: int|
                    0 <= q <= b.len() - 4 && #[trigger] b.subrange(q, q + 4)
                        == "info".spec_bytes(),
                LogLevel::Debug => exists|q: int|
                    0 <= q <= b.len() - 5 && #[trigger] b.subrange(q, q + 5)
                        == "debug".spec_bytes(),
                LogLevel::Trace => exists|q: int|
                    {
                        ||| 0 <= q <= b.len() - 5 && #[trigger] b.subrange(q, q + 5)
                            == "trace".spec_bytes()
                        ||| 0 <= q <= b.len() - 7 && b.subrange(q, q + 7) == "verbose".spec_bytes()
                    },
                LogLevel::Unknown => true,
            }
        }),
{
    let b = encode_utf8(lower);
    level_words_have_their_bytes();
    word_is_mentioned(lower, "error", at);
    word_is_mentioned(lower, "fatal", at);
    word_is_mentioned(lower, "crit", at);
    word_is_mentioned(lower, "warn", at);
    word_is_mentioned(lower, "info", at);
    word_is_mentioned(lower, "debug", at);
    word_is_mentioned(lower, "trace", at);
    word_is_mentioned(lower, "verbose", at);
    if mentions(lower, "crit") {
        let q = choose|q: int|
            0 <= q <= b.len() - 4 && #[trigger] b.subrange(q, q + 4) == "crit".spec_bytes();
        assert(b.subrange(q, q + 5) == b.subrange(q, q + 5));
    }
    if mentions(lower, "verbose") {
        let q = choose|q: int|
            0 <= q <= b.len() - 7 && #[trigger] b.subrange(q, q + 7) == "verbose".spec_bytes();
        assert(b.subrange(q, q + 5) == b.subrange(q, q + 5));
    }
}

proof fn level_words_have_their_bytes()
    ensures
        "error".spec_bytes().len() == 5,
        "fatal".spec_bytes().len() == 5,
        "crit".spec_bytes().len() == 4,
        "warn".spec_bytes().len() == 4,
        "info".spec_bytes().len() == 4,
        "debug".spec_bytes().len() == 5,
        "trace".spec_bytes().len() == 5,
        "verbose".spec_bytes().len() == 7,
{
    reveal_strlit("error");
    reveal_strlit("fatal");
    reveal_strlit("crit");
    reveal_strlit("warn");
    reveal_strlit("info");
    reveal_strlit("debug");
    reveal_strlit("trace");
    reveal_strlit("verbose");
    chars::ascii_literal("error");
    chars::ascii_literal("fatal");
    chars::ascii_literal("crit");
    chars::ascii_literal("warn");
    chars::ascii_literal("info");
    chars::ascii_literal("debug");
    chars::ascii_literal("trace");
    chars::ascii_literal("verbose");
}

/// A level that is a decimal number has the level of its code: 60 and above is
/// an error, the fifties are warnings, the forties infos, the thirties debug,
/// and everything below is a trace. Any other text has the level of its words.
pub proof fn level_codes_decide(s: Seq<char>, lower: Seq<char>)
    ensures
        match unsigned_up_to(encode_utf8(trimmed(s)), 0xffff_ffff) {
            Some(n) => {
                &&& n >= 60 <==> text_level(s, lower) == LogLevel::Error
                &&& 50 <= n <= 59 <==> text_level(s, lower) == LogLevel::Warn
                &&& 40 <= n <= 49 <==> text_level(s, lower) == LogLevel::Info
                &&& 30 <= n <= 39 <==> text_level(s, lower) == LogLevel::Debug
                &&& n <= 29 <==> text_level(s, lower) == LogLevel::Trace
            },
            None => text_level(s, lower) == word_level(lower),
        },
{
}

/// The level of an object is the level that its level field names: where the
/// field has a string value, [`level_from_str`] of the value, in the record of
/// the line and in an entry without a level alike, whatever else the line
/// says. `severity` counts where `level` has no value, and `lvl` where neither
/// has.
pub proof fn level_field_decides(
    line: Seq<char>,
    name: &str,
    v: Seq<char>,
    e: EntryView,
    at: int,
)
    requires
        trimmed(line).len() > 0,
        trimmed(line)[0] == '{',
        string_field(trimmed(line), name@) == Some(v),
        ({
            let object = trimmed(line);
            let no_level = string_field(object, "level"@) is None && number_field(
                object,
                "level"@,
            ) is None;
            let no_severity = string_field(object, "severity"@) is None && number_field(
                object,
                "severity"@,
            ) is None;
            ||| name@ == "level"@
            ||| name@ == "severity"@ && no_level
            ||| name@ == "lvl"@ && no_level && no_severity
        }),
        e.raw == line,
        e.level is None || e.level == Some(LogLevel::Unknown),
    ensures
        line_record(line).level == text_level(v, lowercase(v)),
        parsed_entry(e).level == Some(line_record(line).level),
        ({
            let level = line_record(line).level;
            let b = encode_utf8(lowercase(v));
            match unsigned_up_to(encode_utf8(trimmed(v)), 0xffff_ffff) {
                Some(n) => {
                    &&& n >= 60 <==> level == LogLevel::Error
                    &&& 50 <= n <= 59 <==> level == LogLevel::Warn
                    &&& 40 <= n <= 49 <==> level == LogLevel::Info
                    &&& 30 <= n <= 39 <==> level == LogLevel::Debug
                    &&& n <= 29 <==> level == LogLevel::Trace
                },
                None => {
                    &&& 0 <= at <= b.len() - 5 && b.subrange(at, at + 5) == "error".spec_bytes()
                        ==> level == LogLevel::Error
                    &&& 0 <= at <= b.len() - 5 && b.subrange(at, at + 5) == "fatal".spec_bytes()
                        ==> level == LogLevel::Error
                    &&& 0 <= at <= b.len() - 4 && b.subrange(at, at + 4) == "crit".spec_bytes()
                        ==> level == LogLevel::Error
                    &&& 0 <= at <= b.len() - 4 && b.subrange(at, at + 4) == "warn".spec_bytes()
                        ==> level == LogLevel::Error || level == LogLevel::Warn
                    &&& 0 <= at <= b.len() - 4 && b.subrange(at, at + 4) == "info".spec_bytes()
                        ==> level == LogLevel::Error || level == LogLevel::Warn || level
                        == LogLevel::Info
                    &&& 0 <= at <= b.len() - 5 && b.subrange(at, at + 5) == "debug".spec_bytes()
                        ==> level != LogLevel::Trace && level != LogLevel::Unknown
                    &&& 0 <= at <= b.len() - 5 && b.subrange(at, at + 5) == "trace".spec_bytes()
                        ==> level != LogLevel::Unknown
                    &&& 0 <= at <= b.len() - 7 && b.subrange(at, at + 7) == "verbose".spec_bytes()
                        ==> level != LogLevel::Unknown
                },
            }
        }),
{
    brace_is_object(trimmed(line));
    level_codes_decide(v, lowercase(v));
    level_words_decide(lowercase(v), at);
}

/// Where the level field of an object is a bare number, the level is that of
/// the code, and `Unknown` where the number does not fit into 32 bits.
pub proof fn level_number_decides(line: Seq<char>, name: &str, n: nat, e: EntryView)
    requires
        trimmed(line).len() > 0,
        trimmed(line)[0] == '{',
        string_field(trimmed(line), name@) is None,
        number_field(trimmed(line), name@) == Some(n),
        ({
            let object = trimmed(line);
            let no_level = string_field(object, "level"@) is None && number_field(
                object,
                "level"@,
            ) is None;
            let no_severity = string_field(object, "severity"@) is None && number_field(
                object,
                "severity"@,
            ) is None;
            ||| name@ == "level"@
            ||| name@ == "severity"@ && no_level
            ||| name@ == "lvl"@ && no_level && no_severity
        }),
        e.raw == line,
        e.level is None || e.level == Some(LogLevel::Unknown),
    ensures
        parsed_entry(e).level == Some(line_record(line).level),
        ({
            let level = line_record(line).level;
            &&& n > 0xffff_ffff <==> level == LogLevel::Unknown
            &&& 60 <= n <= 0xffff_ffff <==> level == LogLevel::Error
            &&& 50 <= n <= 59 <==> level == LogLevel::Warn
            &&& 40 <= n <= 49 <==> level == LogLevel::Info
            &&& 30 <= n <= 39 <==> level == LogLevel::Debug
            &&& n <= 29 <==> level == LogLevel::Trace
        }),
{
    brace_is_object(trimmed(line));
}

/// A line without a level field, or that is no object, has no level: its
/// record says `Unknown`, and an entry with it keeps the level that it has.
pub proof fn no_level_field_no_level(line: Seq<char>, e: EntryView)
    requires
        ({
            let object = trimmed(line);
            ||| object.len() == 0
            ||| object[0] != '{'
            ||| {
                &&& string_field(object, "level"@) is None
                &&& string_field(object, "severity"@) is None
                &&& string_field(object, "lvl"@) is None
                &&& number_field(object, "level"@) is None
                &&& number_field(object, "severity"@) is None
                &&& number_field(object, "lvl"@) is None
            }
        }),
        e.raw == line,
    ensures
        line_record(line).level == LogLevel::Unknown,
        parsed_entry(e).level == e.level,
{
    brace_is_object(trimmed(line));
}

/// The timestamp of an object is the string value of the first of the fields
/// `timestamp`, `time`, `ts` and `@timestamp` that has one; a line that is no
/// object has none.
pub proof fn timestamp_fields_in_order(line: Seq<char>)
    ensures
        ({
            let object = trimmed(line);
            let first = string_field(object, "timestamp"@);
            let second = string_field(object, "time"@);
            let third = string_field(object, "ts"@);
            let fourth = string_field(object, "@timestamp"@);
            if object.len() == 0 || object[0] != '{' {
                timestamp_in(line) is None
            } else {
                &&& first is Some ==> timestamp_in(line) == first
                &&& first is None && second is Some ==> timestamp_in(line) == second
                &&& first is None && second is None && third is Some ==> timestamp_in(line)
                    == third
                &&& first is None && second is None && third is None ==> timestamp_in(line)
                    == fourth
            }
        }),
{
    brace_is_object(trimmed(line));
    assert("timestamp".spec_bytes() == encode_utf8("timestamp"@));
    assert("time".spec_bytes() == encode_utf8("time"@));
    assert("ts".spec_bytes() == encode_utf8("ts"@));
    assert("@timestamp".spec_bytes() == encode_utf8("@timestamp"@));
}

/// The record of an object says where in the line its timestamp stands: behind
/// the white space in front, between the quotes of the value.
pub proof fn records_say_where_timestamps_stand(
    space: Seq<char>,
    object: Seq<char>,
    line: Seq<char>,
)
    requires
        forall|k: int| 0 <= k < space.len() ==> chars::white_space(#[trigger] space[k]),
        object.len() > 0,
        object[0] == '{',
        !chars::white_space(object.last()),
        line == space + object,
    ensures
        match timestamp_range(encode_utf8(object)) {
            Some((start, end)) => {
                &&& line_record(line) == record_at(
                    line_record(line).level,
                    (encode_utf8(space).len() + start) as nat,
                    (end - start) as nat,
                )
                &&& timestamp_in(line) == Some(
                    decode_utf8(encode_utf8(object).subrange(start, end)),
                )
            },
            None => line_record(line).ts_start == 0 && line_record(line).ts_len == 0,
        },
{
    assert(line =~= space + object + Seq::<char>::empty());
    chars::trimming_drops_white_space(space, object, Seq::empty());
    brace_is_object(object);
}

/// An object is a text that starts with a brace.
proof fn brace_is_object(s: Seq<char>)
    ensures
        is_object(encode_utf8(s)) <==> s.len() > 0 && s[0] == '{',
{
    if s.len() > 0 {
        chars::first_byte_of_text(s);
        if s[0] <= '\u{7f}' {
            chars::bytes_are_characters(s[0], '{');
        }
    } else {
        assert(encode_utf8(s) =~= Seq::<u8>::empty());
    }
}

// ---------------------------------------------------------------------------
// Laws of fields
// ---------------------------------------------------------------------------

/// A field that stands in an object is read: its quoted name behind a brace or
/// a comma, a colon behind the name, with blanks between them or not, and then
/// the value. The name may also be mentioned before, in a value or an array.
///
/// `j` is the place of the brace or comma, `p` that of the name, `c` that of
/// the colon and `q` that of the value, which ends before `end`.
pub proof fn fields_are_read(
    line: Seq<char>,
    name: Seq<char>,
    j: int,
    p: int,
    c: int,
    q: int,
    end: int,
)
    requires
        ({
            let b = encode_utf8(line);
            let key = seq![34u8] + encode_utf8(name) + seq![34u8];
            let m = key.len() as int;
            &&& 0 <= j < p
            &&& p + m <= c < q < end <= b.len()
            &&& b[j] == 123 || b[j] == 44
            &&& forall|k: int| j < k < p ==> #[trigger] b[k] == 32 || b[k] == 9
            &&& b.subrange(p, p + m) == key
            &&& forall|k: int| p + m <= k < c ==> #[trigger] b[k] == 32 || b[k] == 9
            &&& b[c] == 58
            &&& forall|k: int| c < k < q ==> #[trigger] b[k] == 32 || b[k] == 9
            &&& forall|o: int|
                0 <= o < p && #[trigger] b.subrange(o, o + m) == key ==> o + m <= p && {
                    ||| b[o + m] != 58 && b[o + m] != 32 && b[o + m] != 9
                    ||| o == 0
                    ||| b[o - 1] != 123 && b[o - 1] != 44 && b[o - 1] != 32 && b[o - 1] != 9
                }
        }),
    ensures
        ({
            let b = encode_utf8(line);
            &&& end < b.len() && b[q] == 34 && b[end] == 34 && (forall|k: int|
                q < k < end ==> #[trigger] b[k] != 34 && b[k] != 92) ==> string_field(line, name)
                == Some(decode_utf8(b.subrange(q + 1, end))) && number_field(line, name) is None
            &&& b[q] == 34 && closing_quote(b, q + 1) == Some(end) ==> string_field(line, name)
                == Some(decode_utf8(b.subrange(q + 1, end)))
            &&& b[q] == 34 && closing_quote(b, q + 1) is None ==> string_field(line, name) is None
            &&& b[q] != 34 && b[q] != 32 && b[q] != 9 ==> string_field(line, name) is None
            &&& !(48 <= b[q] <= 57) && b[q] != 32 && b[q] != 9 ==> number_field(line, name) is None
            &&& (forall|k: int| q <= k < end ==> 48 <= #[trigger] b[k] <= 57) && (end == b.len()
                || b[end] == 32 || b[end] == 9 || b[end] == 44 || b[end] == 125 || b[end] == 93)
                ==> number_field(line, name) == unsigned_up_to(
                b.subrange(q, end),
                0xffff_ffff_ffff_ffff,
            )
            &&& (forall|k: int| q <= k < end ==> 48 <= #[trigger] b[k] <= 57) && end < b.len()
                && b[end] != 32 && b[end] != 9 && b[end] != 44 && b[end] != 125 && b[end] != 93
                && !(48 <= b[end] <= 57) ==> number_field(line, name) is None
        }),
{
    let b = encode_utf8(line);
    let nb = encode_utf8(name);
    let key = quoted(nb);
    let m = key.len() as int;
    assert(key == seq![34u8] + nb + seq![34u8]);
    assert(key_position(b, p)) by {
        assert(b[j] == '{' as u8 || b[j] == ',' as u8);
    }
    blanks_end(b, p + m, c);
    key_is_found(b, key, 0, p, c);
    if b[q] != 32 && b[q] != 9 {
        blanks_end(b, c + 1, q);
        assert(value_at(b, nb) == Some(q));
    }
    if end < b.len() && b[q] == 34 && b[end] == 34 && forall|k: int|
        q < k < end ==> #[trigger] b[k] != 34 && b[k] != 92 {
        plain_bytes_are_passed(b, q + 1, end);
    }
    if !(48 <= b[q] <= 57) {
        assert(b.subrange(q, q + digit_run(b, q)) =~= Seq::<u8>::empty());
    }
    if (forall|k: int| q <= k < end ==> 48 <= #[trigger] b[k] <= 57) && (end == b.len() || !(48
        <= b[end] <= 57)) {
        assert(48 <= b[q] <= 57);
        digits_end(b, q, end);
    }
}

/// A name that does not stand in quotes anywhere in a line is no field of it.
pub proof fn absent_names_are_no_fields(line: Seq<char>, name: Seq<char>)
    requires
        ({
            let b = encode_utf8(line);
            let key = seq![34u8] + encode_utf8(name) + seq![34u8];
            forall|o: int|
                0 <= o && o + key.len() <= b.len() ==> #[trigger] b.subrange(o, o + key.len())
                    != key
        }),
    ensures
        string_field(line, name) is None,
        number_field(line, name) is None,
{
    let b = encode_utf8(line);
    let key = quoted(encode_utf8(name));
    assert(key == seq![34u8] + encode_utf8(name) + seq![34u8]);
    first_occurrence_is_least(b, key, 0);
    if let Some(o) = first_occurrence(b, key, 0) {
        assert(occurs_at(b, key, o));
        assert(b.subrange(o, o + key.len()) == key);
    }
}

/// What is read as the string value of a field is the value of a field: its
/// quoted name stands behind a brace or a comma, a colon stands behind the
/// name, and the value is what stands behind that, between two quotes.
pub proof fn read_values_are_of_fields(b: Seq<u8>, name: Seq<u8>)
    ensures
        ({
            let key = seq![34u8] + name + seq![34u8];
            let m = key.len() as int;
            string_range(b, name) matches Some((start, end)) ==> {
                &&& 0 < start <= end < b.len()
                &&& b[start - 1] == 34
                &&& b[end] == 34
                &&& exists|j: int, p: int, c: int|
                    {
                        &&& 0 <= j < p
                        &&& p + m <= c < start - 1
                        &&& #[trigger] b[j] == 123 || b[j] == 44
                        &&& forall|k: int| j < k < p ==> #[trigger] b[k] == 32 || b[k] == 9
                        &&& #[trigger] b.subrange(p, p + m) == key
                        &&& forall|k: int| p + m <= k < c ==> #[trigger] b[k] == 32 || b[k] == 9
                        &&& #[trigger] b[c] == 58
                        &&& forall|k: int| c < k < start - 1 ==> #[trigger] b[k] == 32 || b[k] == 9
                    }
            }
        }),
{
    let key = quoted(name);
    let m = key.len() as int;
    assert(key == seq![34u8] + name + seq![34u8]);
    string_range_is_quoted(b, name);
    keys_stand_in_key_position(b, name, 0);
    if let Some((start, end)) = string_range(b, name) {
        let c = colon_of(b, key, 0)->0;
        let p = choose|p: int| #[trigger]
            occurs_at(b, key, p) && 0 <= p < c && key_position(b, p) && c == after_blanks(
                b,
                p + key.len(),
            );
        let j = choose|j: int|
            {
                &&& 0 <= j < p
                &&& #[trigger] b[j] == '{' as u8 || b[j] == ',' as u8
                &&& forall|k: int| j < k < p ==> blank(#[trigger] b[k])
            };
        passed_bytes_are_blanks(b, p + m);
        passed_bytes_are_blanks(b, c + 1);
        after_blanks_is_past(b, p + m);
        after_blanks_is_past(b, c + 1);
        assert(b.subrange(p, p + m) == key);
        assert(b[j] == 123 || b[j] == 44);
        assert(b[c] == 58);
    }
}

/// Inside a string a quote ends it and a backslash takes the byte behind it
/// along; every other byte is passed.
pub proof fn strings_end_at_the_first_bare_quote(s: Seq<u8>, at: int, q: int)
    requires
        0 <= at <= q <= s.len(),
        forall|k: int| at <= k < q ==> #[trigger] s[k] != 34 && s[k] != 92,
    ensures
        q == s.len() ==> closing_quote(s, at) is None,
        q < s.len() && s[q] == 34 ==> closing_quote(s, at) == Some(q),
        q + 2 <= s.len() && s[q] == 92 ==> closing_quote(s, at) == closing_quote(s, q + 2),
        q + 1 == s.len() && s[q] == 92 ==> closing_quote(s, at) is None,
    decreases q - at,
{
    if at < q {
        strings_end_at_the_first_bare_quote(s, at + 1, q);
    }
    reveal_with_fuel(closing_quote, 2);
}

proof fn plain_bytes_are_passed(b: Seq<u8>, at: int, end: int)
    requires
        0 <= at <= end < b.len(),
        b[end] == 34,
        forall|k: int| at <= k < end ==> #[trigger] b[k] != 34 && b[k] != 92,
    ensures
        closing_quote(b, at) == Some(end),
{
    strings_end_at_the_first_bare_quote(b, at, end);
}

proof fn blanks_end(b: Seq<u8>, at: int, end: int)
    requires
        0 <= at <= end < b.len(),
        forall|k: int| at <= k < end ==> #[trigger] b[k] == 32 || b[k] == 9,
        b[end] != 32,
        b[end] != 9,
    ensures
        after_blanks(b, at) == end,
    decreases end - at,
{
    if at < end {
        assert(b[at] == 32 || b[at] == 9);
        blanks_end(b, at + 1, end);
    }
}

proof fn passed_bytes_are_blanks(b: Seq<u8>, at: int)
    ensures
        forall|k: int| at <= k < after_blanks(b, at) ==> #[trigger] b[k] == 32 || b[k] == 9,
    decreases b.len() - at,
{
    if 0 <= at < b.len() && blank(b[at]) {
        passed_bytes_are_blanks(b, at + 1);
    }
}

proof fn digits_end(b: Seq<u8>, at: int, end: int)
    requires
        0 <= at <= end <= b.len(),
        forall|k: int| at <= k < end ==> 48 <= #[trigger] b[k] <= 57,
        end < b.len() ==> !(48 <= b[end] <= 57),
    ensures
        at + digit_run(b, at) == end,
    decreases end - at,
{
    if at < end {
        digits_end(b, at + 1, end);
    }
}

proof fn key_is_found(b: Seq<u8>, key: Seq<u8>, from: int, p: int, c: int)
    requires
        0 <= from <= p,
        key.len() > 0,
        p + key.len() <= c < b.len(),
        b.subrange(p, p + key.len()) == key,
        key_position(b, p),
        after_blanks(b, p + key.len()) == c,
        b[c] == 58,
        forall|o: int|
            0 <= o < p && #[trigger] b.subrange(o, o + key.len()) == key ==> o + key.len() <= p && {
                ||| b[o + key.len()] != 58 && b[o + key.len()] != 32 && b[o + key.len()] != 9
                ||| o == 0
                ||| b[o - 1] != 123 && b[o - 1] != 44 && b[o - 1] != 32 && b[o - 1] != 9
            },
    ensures
        colon_of(b, key, from) == Some(c),
    decreases p - from,
{
    first_occurrence_is_least(b, key, from);
    assert(occurs_at(b, key, p));
    let o = first_occurrence(b, key, from)->0;
    if o < p {
        assert(b.subrange(o, o + key.len()) == key);
        if b[o + key.len()] != 58 && b[o + key.len()] != 32 && b[o + key.len()] != 9 {
            blanks_end(b, o + key.len(), o + key.len());
        } else if key_position(b, o) {
            let i = choose|i: int|
                {
                    &&& 0 <= i < o
                    &&& #[trigger] b[i] == '{' as u8 || b[i] == ',' as u8
                    &&& forall|k: int| i < k < o ==> blank(#[trigger] b[k])
                };
            assert(i == o - 1 || blank(b[o - 1]));
        }
        key_is_found(b, key, o + key.len(), p, c);
    }
}

/// An entry without a timestamp gets that of its text, and nothing but its
/// level may change besides.
pub proof fn entries_get_their_timestamp(e: EntryView)
    requires
        e.timestamp is None,
    ensures
        parsed_entry(e).timestamp == timestamp_in(e.raw),
        parsed_entry(e).raw == e.raw,
        parsed_entry(e).line_number == e.line_number,
{
}

} // verus!
