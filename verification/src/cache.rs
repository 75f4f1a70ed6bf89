//! Sidecar index cache for [`ParsedIndex`].
//!
//! # File layout
//!
//! ```text
//! Header (32 bytes)
//!   [0..8]   magic      : "LOGVIDX1"
//!   [8..16]  file_size  : u64 le, byte length of the source file
//!   [16..24] mtime_secs : u64 le, last-modified Unix timestamp (seconds)
//!   [24..32] line_count : u64 le
//! Body
//!   offsets  : line_count × u64 le  (byte offsets into the source file)
//!   records  : line_count × 4 bytes (level:u8 ts_start:u16le ts_len:u8)
//! Footer
//!   format_len : u8
//!   format_str : format_len bytes (UTF-8, no NUL)
//! ```
//!
//! The cache is keyed by a hash of the absolute source path and validated by
//! comparing `file_size` and `mtime_secs` against those of the live file. Any
//! mismatch makes [`try_load`] return `None`; the caller falls back to a full
//! parse and then calls [`save`] to refresh the cache.
use vstd::prelude::*;
use vstd::string::*;
use vstd::utf8::*;

use crate::chars::{self, ascii_literal};
use crate::numbers::{append_hexadecimal, digit_char, hexadecimal};
use crate::text::{occurs_at, stands_at};
use crate::types::{LineIndex, LineRecord, LogLevel, ParsedIndex};

verus! {

// ---------------------------------------------------------------------------
// Levels as bytes
// ---------------------------------------------------------------------------

/// The byte that stands for a level.
pub open spec fn level_code(l: LogLevel) -> u8 {
    l.slot() as u8
}

/// The level that a byte stands for; every byte without a level of its own
/// stands for `Unknown`.
pub open spec fn coded_level(b: u8) -> LogLevel {
    match b {
        0 => LogLevel::Error,
        1 => LogLevel::Warn,
        2 => LogLevel::Info,
        3 => LogLevel::Debug,
        4 => LogLevel::Trace,
        _ => LogLevel::Unknown,
    }
}

/// The byte that stands for a level.
pub fn level_to_u8(l: LogLevel) -> (r: u8)
    ensures
        r == level_code(l),
{
    match l {
        LogLevel::Error => 0,
        LogLevel::Warn => 1,
        LogLevel::Info => 2,
        LogLevel::Debug => 3,
        LogLevel::Trace => 4,
        LogLevel::Unknown => 5,
    }
}

/// The level that a byte stands for.
pub fn level_from_u8(b: u8) -> (r: LogLevel)
    ensures
        r == coded_level(b),
{
    match b {
        0 => LogLevel::Error,
        1 => LogLevel::Warn,
        2 => LogLevel::Info,
        3 => LogLevel::Debug,
        4 => LogLevel::Trace,
        _ => LogLevel::Unknown,
    }
}

/// Every level is its own code's level.
pub proof fn level_codes_read_back(l: LogLevel)
    ensures
        coded_level(level_code(l)) == l,
{
}

// ---------------------------------------------------------------------------
// Little-endian numbers
// ---------------------------------------------------------------------------

/// The lowest `n` bytes of `v`, least significant first.
pub open spec fn le_bytes(v: nat, n: nat) -> Seq<u8>
    decreases n,
{
    if n == 0 {
        seq![]
    } else {
        seq![(v % 256) as u8] + le_bytes(v / 256, (n - 1) as nat)
    }
}

/// The number whose bytes are `s`, least significant first.
pub open spec fn le_value(s: Seq<u8>) -> nat
    decreases s.len(),
{
    if s.len() == 0 {
        0
    } else {
        s[0] as nat + 256 * le_value(s.drop_first())
    }
}

/// How many numbers `n` bytes can hold.
pub open spec fn le_range(n: nat) -> nat
    decreases n,
{
    if n == 0 {
        1
    } else {
        256 * le_range((n - 1) as nat)
    }
}

/// Reading the bytes of a number gives back the number, where they can hold it.
pub proof fn le_bytes_read_back(v: nat, n: nat)
    ensures
        le_bytes(v, n).len() == n,
        v < le_range(n) ==> le_value(le_bytes(v, n)) == v,
    decreases n,
{
    if n > 0 {
        le_bytes_read_back(v / 256, (n - 1) as nat);
        assert(le_bytes(v, n).drop_first() =~= le_bytes(v / 256, (n - 1) as nat));
    }
}

proof fn eight_bytes_hold_u64()
    ensures
        le_range(8) == 0x1_0000_0000_0000_0000,
{
    reveal_with_fuel(le_range, 9);
}

/// The little-endian number in the eight bytes from `off` on.
pub fn read_u64_le(buf: &[u8], off: usize) -> (r: u64)
    requires
        off + 8 <= buf@.len(),
    ensures
        r == le_value(buf@.subrange(off as int, off + 8)),
{
    let total: usize = buf.len();
    let ghost s = buf@.subrange(off as int, off + 8);
    proof {
        reveal_with_fuel(le_value, 9);
        assert(s.drop_first()[0] == s[1]);
        assert(s.drop_first().drop_first()[0] == s[2]);
        assert(s.drop_first().drop_first().drop_first()[0] == s[3]);
        let t = s.drop_first().drop_first().drop_first().drop_first();
        assert(t[0] == s[4]);
        assert(t.drop_first()[0] == s[5]);
        assert(t.drop_first().drop_first()[0] == s[6]);
        assert(t.drop_first().drop_first().drop_first()[0] == s[7]);
        assert(le_value(t) == s[4] + 256 * (s[5] + 256 * (s[6] + 256 * s[7])));
    }
    let low: u64 = buf[off] as u64 + 256 * (buf[off + 1] as u64 + 256 * (buf[off + 2] as u64 + 256
        * (buf[off + 3] as u64)));
    let high: u64 = buf[off + 4] as u64 + 256 * (buf[off + 5] as u64 + 256 * (buf[off + 6] as u64
        + 256 * (buf[off + 7] as u64)));
    low + 0x1_0000_0000 * high
}

/// Appends `v` as eight little-endian bytes.
pub fn write_u64_le(w: &mut Vec<u8>, v: u64)
    ensures
        final(w)@ == old(w)@ + le_bytes(v as nat, 8),
{
    let mut rest: u64 = v;
    let mut i: usize = 0;
    while i < 8
        invariant
            i <= 8,
            w@ + le_bytes(rest as nat, (8 - i) as nat) == old(w)@ + le_bytes(v as nat, 8),
        decreases 8 - i,
    {
        let ghost before = w@;
        w.push((rest % 256) as u8);
        assert(w@ + le_bytes((rest / 256) as nat, (7 - i) as nat) =~= before + le_bytes(
            rest as nat,
            (8 - i) as nat,
        ));
        rest = rest / 256;
        i = i + 1;
    }
    assert(w@ + le_bytes(rest as nat, 0) =~= w@);
}

// ---------------------------------------------------------------------------
// Layout
// ---------------------------------------------------------------------------

/// The bytes of a record.
pub open spec fn record_bytes(r: LineRecord) -> Seq<u8> {
    seq![
        level_code(r.level),
        (r.ts_start % 256) as u8,
        (r.ts_start / 256) as u8,
        r.ts_len,
    ]
}

/// The record in the four bytes from `at` on.
pub open spec fn record_from(b: Seq<u8>, at: int) -> LineRecord {
    LineRecord {
        level: coded_level(b[at]),
        ts_start: (b[at + 1] + 256 * b[at + 2]) as u16,
        ts_len: b[at + 3],
    }
}

/// The bytes of the header.
pub open spec fn header_bytes(file_size: u64, mtime_secs: u64, line_count: nat) -> Seq<u8> {
    "LOGVIDX1".spec_bytes() + le_bytes(file_size as nat, 8) + le_bytes(mtime_secs as nat, 8)
        + le_bytes(line_count, 8)
}

/// The bytes of the offsets, eight for each.
pub open spec fn offsets_bytes(offsets: Seq<u64>) -> Seq<u8> {
    Seq::new(8 * offsets.len(), |k: int| le_bytes(offsets[k / 8] as nat, 8)[k % 8])
}

/// The bytes of the records, four for each.
pub open spec fn records_bytes(records: Seq<LineRecord>) -> Seq<u8> {
    Seq::new(4 * records.len(), |k: int| record_bytes(records[k / 4])[k % 4])
}

/// The bytes of the footer; a name of more than 255 bytes is cut off.
pub open spec fn footer_bytes(format: Seq<u8>) -> Seq<u8> {
    let n = if format.len() <= 255 {
        format.len()
    } else {
        255
    };
    seq![n as u8] + format.take(n as int)
}

/// The cache file for an index with these offsets, records and format name.
pub open spec fn cache_bytes(
    offsets: Seq<u64>,
    records: Seq<LineRecord>,
    format: Seq<u8>,
    file_size: u64,
    mtime_secs: u64,
) -> Seq<u8> {
    header_bytes(file_size, mtime_secs, offsets.len()) + offsets_bytes(offsets) + records_bytes(
        records,
    ) + footer_bytes(format)
}

/// What a cache file holds of an index.
pub struct CacheView {
    pub offsets: Seq<u64>,
    pub records: Seq<LineRecord>,
    pub format: Seq<char>,
}

/// The number in the eight bytes from `at` on.
pub open spec fn number_from(b: Seq<u8>, at: int) -> nat {
    le_value(b.subrange(at, at + 8))
}

/// The header of `b` fits a source file of this size and age.
pub open spec fn is_fresh(b: Seq<u8>, file_size: u64, mtime_secs: u64) -> bool {
    &&& b.len() >= 32
    &&& occurs_at(b, "LOGVIDX1".spec_bytes(), 0)
    &&& number_from(b, 8) == file_size
    &&& number_from(b, 16) == mtime_secs
}

/// Where the footer of `b` starts.
pub open spec fn footer_at(b: Seq<u8>) -> int {
    32int + 12 * number_from(b, 24)
}

/// What the cache file `b` holds: nothing where it is stale, too short, or its
/// format name is not UTF-8.
pub open spec fn cached(b: Seq<u8>, file_size: u64, mtime_secs: u64) -> Option<CacheView> {
    let n = number_from(b, 24);
    let foot = footer_at(b);
    if is_fresh(b, file_size, mtime_secs) && foot < b.len() && foot + 1 + b[foot] <= b.len()
        && valid_utf8(b.subrange(foot + 1, foot + 1 + b[foot])) {
        Some(
            CacheView {
                offsets: Seq::new(n, |i: int| number_from(b, 32 + 8 * i) as u64),
                records: Seq::new(n, |i: int| record_from(b, 32 + 8 * n + 4 * i)),
                format: decode_utf8(b.subrange(foot + 1, foot + 1 + b[foot])),
            },
        )
    } else {
        None
    }
}

// ---------------------------------------------------------------------------
// Reading and writing
// ---------------------------------------------------------------------------

/// The index that the cache file `cache` holds for the source file `path`
/// with contents `data`.
///
/// Returns `None` if:
/// - The cache magic or format is wrong, or the cache ends too early.
/// - The cached `file_size` or `mtime_secs` is not that of the source file
///   (i.e. the source file was modified since the cache was written).
pub fn try_load<'a>(
    path: &str,
    data: &'a [u8],
    cache: &[u8],
    file_size: u64,
    mtime_secs: u64,
) -> (r: Option<ParsedIndex<'a>>)
    ensures
        match r {
            Some(p) => {
                &&& cached(cache@, file_size, mtime_secs) matches Some(c)
                &&& p.lines.path@ == path@
                &&& p.lines.data@ == data@
                &&& p.lines.offsets@ == c.offsets
                &&& p.lines.format is Some
                &&& p.lines.format->0@ == c.format
                &&& p.records@ == c.records
                &&& p.format@ == c.format
            },
            None => cached(cache@, file_size, mtime_secs) is None,
        },
{
    let total: usize = cache.len();
    if total < 33 || !stands_at(cache, "LOGVIDX1".as_bytes(), 0) {
        return None;
    }
    // Stale: the header tells.
    if read_u64_le(cache, 8) != file_size || read_u64_le(cache, 16) != mtime_secs {
        return None;
    }
    let line_count: u64 = read_u64_le(cache, 24);
    if line_count > ((total - 33) / 12) as u64 {
        return None;
    }
    let n: usize = line_count as usize;

    let mut offsets: Vec<u64> = Vec::new();
    let mut i: usize = 0;
    while i < n
        invariant
            i <= n,
            33 + 12 * n <= total == cache@.len(),
            offsets@ == Seq::new(i as nat, |k: int| number_from(cache@, 32 + 8 * k) as u64),
        decreases n - i,
    {
        offsets.push(read_u64_le(cache, 32 + 8 * i));
        i = i + 1;
        assert(offsets@ =~= Seq::new(i as nat, |k: int| number_from(cache@, 32 + 8 * k) as u64));
    }

    let mut records: Vec<LineRecord> = Vec::new();
    let mut i: usize = 0;
    while i < n
        invariant
            i <= n,
            33 + 12 * n <= total == cache@.len(),
            records@ == Seq::new(i as nat, |k: int| record_from(cache@, 32 + 8 * n + 4 * k)),
        decreases n - i,
    {
        let at: usize = 32 + 8 * n + 4 * i;
        records.push(
            LineRecord {
                level: level_from_u8(cache[at]),
                ts_start: cache[at + 1] as u16 + 256 * (cache[at + 2] as u16),
                ts_len: cache[at + 3],
            },
        );
        i = i + 1;
        assert(records@ =~= Seq::new(
            i as nat,
            |k: int| record_from(cache@, 32 + 8 * n + 4 * k),
        ));
    }

    let foot: usize = 32 + 12 * n;
    let format_len: usize = cache[foot] as usize;
    if format_len > total - foot - 1 {
        return None;
    }
    match core::str::from_utf8(&cache[foot + 1..foot + 1 + format_len]) {
        Ok(format) => {
            proof {
                chars::decode_of_bytes(
                    format@,
                    cache@.subrange(foot + 1, foot + 1 + format_len),
                );
            }
            Some(
                ParsedIndex {
                    lines: LineIndex {
                        path: path.to_owned(),
                        data,
                        offsets,
                        format: Some(format.to_owned()),
                    },
                    records,
                    format: format.to_owned(),
                },
            )
        },
        Err(_) => None,
    }
}

/// The cache file for `parsed`, whose source file has this size and age.
pub fn save(parsed: &ParsedIndex, file_size: u64, mtime_secs: u64) -> (r: Vec<u8>)
    ensures
        r@ == cache_bytes(
            parsed.lines.offsets@,
            parsed.records@,
            encode_utf8(parsed.format@),
            file_size,
            mtime_secs,
        ),
{
    let ghost offsets = parsed.lines.offsets@;
    let ghost records = parsed.records@;
    let ghost head = header_bytes(file_size, mtime_secs, offsets.len());

    let mut w: Vec<u8> = Vec::new();
    append(&mut w, "LOGVIDX1".as_bytes());
    write_u64_le(&mut w, file_size);
    write_u64_le(&mut w, mtime_secs);
    write_u64_le(&mut w, parsed.lines.len() as u64);
    assert(w@ =~= head);

    let mut i: usize = 0;
    assert(w@ =~= head + offsets_bytes(offsets.take(0)));
    while i < parsed.lines.offsets.len()
        invariant
            i <= offsets.len(),
            offsets == parsed.lines.offsets@,
            w@ == head + offsets_bytes(offsets.take(i as int)),
        decreases offsets.len() - i,
    {
        write_u64_le(&mut w, parsed.lines.offsets[i]);
        proof {
            offsets_bytes_grow(offsets, i as int);
        }
        i = i + 1;
        assert(w@ =~= head + offsets_bytes(offsets.take(i as int)));
    }
    assert(offsets.take(offsets.len() as int) =~= offsets);

    let ghost body = head + offsets_bytes(offsets);
    let mut i: usize = 0;
    assert(w@ =~= body + records_bytes(records.take(0)));
    while i < parsed.records.len()
        invariant
            i <= records.len(),
            records == parsed.records@,
            w@ == body + records_bytes(records.take(i as int)),
        decreases records.len() - i,
    {
        let rec = parsed.records[i];
        w.push(level_to_u8(rec.level));
        w.push((rec.ts_start % 256) as u8);
        w.push((rec.ts_start / 256) as u8);
        w.push(rec.ts_len);
        proof {
            records_bytes_grow(records, i as int);
        }
        i = i + 1;
        assert(w@ =~= body + records_bytes(records.take(i as int)));
    }
    assert(records.take(records.len() as int) =~= records);

    let format = parsed.format.as_str().as_bytes();
    let format_len: usize = if format.len() <= 255 {
        format.len()
    } else {
        255
    };
    w.push(format_len as u8);
    append(&mut w, &format[0..format_len]);
    assert(w@ =~= body + records_bytes(records) + footer_bytes(format@));
    w
}

fn append(w: &mut Vec<u8>, bytes: &[u8])
    ensures
        final(w)@ == old(w)@ + bytes@,
{
    let mut i: usize = 0;
    while i < bytes.len()
        invariant
            i <= bytes@.len(),
            w@ == old(w)@ + bytes@.take(i as int),
        decreases bytes@.len() - i,
    {
        w.push(bytes[i]);
        i = i + 1;
        assert(w@ =~= old(w)@ + bytes@.take(i as int));
    }
    assert(bytes@.take(bytes@.len() as int) =~= bytes@);
}

proof fn offsets_bytes_grow(offsets: Seq<u64>, i: int)
    requires
        0 <= i < offsets.len(),
    ensures
        offsets_bytes(offsets.take(i + 1)) == offsets_bytes(offsets.take(i)) + le_bytes(
            offsets[i] as nat,
            8,
        ),
{
    le_bytes_read_back(offsets[i] as nat, 8);
    assert(offsets_bytes(offsets.take(i + 1)) =~= offsets_bytes(offsets.take(i)) + le_bytes(
        offsets[i] as nat,
        8,
    ));
}

proof fn records_bytes_grow(records: Seq<LineRecord>, i: int)
    requires
        0 <= i < records.len(),
    ensures
        records_bytes(records.take(i + 1)) == records_bytes(records.take(i)) + record_bytes(
            records[i],
        ),
{
    assert(records_bytes(records.take(i + 1)) =~= records_bytes(records.take(i)) + record_bytes(
        records[i],
    ));
}

// ---------------------------------------------------------------------------
// File name
// ---------------------------------------------------------------------------

/// The file name of a cache: the hash of the source path in sixteen
/// hexadecimal digits.
pub open spec fn file_name(hash: u64) -> Seq<char> {
    hexadecimal(hash as nat, 16) + ".idx"@
}

/// Name of the cache file for a source whose absolute path has the hash `hash`.
pub fn cache_file_name(hash: u64) -> (r: String)
    ensures
        r@ == file_name(hash),
{
    let mut r = String::new();
    append_hexadecimal(&mut r, hash, 16);
    r.append(".idx");
    assert(r@ =~= file_name(hash));
    r
}

// ---------------------------------------------------------------------------
// Laws
// ---------------------------------------------------------------------------

proof fn header_reads_back(file_size: u64, mtime_secs: u64, n: nat, rest: Seq<u8>)
    requires
        n <= u64::MAX,
    ensures
        ({
            let b = header_bytes(file_size, mtime_secs, n) + rest;
            &&& header_bytes(file_size, mtime_secs, n).len() == 32
            &&& occurs_at(b, "LOGVIDX1".spec_bytes(), 0)
            &&& number_from(b, 8) == file_size
            &&& number_from(b, 16) == mtime_secs
            &&& number_from(b, 24) == n
        }),
{
    reveal_strlit("LOGVIDX1");
    ascii_literal("LOGVIDX1");
    eight_bytes_hold_u64();
    le_bytes_read_back(file_size as nat, 8);
    le_bytes_read_back(mtime_secs as nat, 8);
    le_bytes_read_back(n, 8);
    let b = header_bytes(file_size, mtime_secs, n) + rest;
    assert(b.subrange(0, 8) =~= "LOGVIDX1".spec_bytes());
    assert(b.subrange(8, 16) =~= le_bytes(file_size as nat, 8));
    assert(b.subrange(16, 24) =~= le_bytes(mtime_secs as nat, 8));
    assert(b.subrange(24, 32) =~= le_bytes(n, 8));
}

/// A cache reads back what was written, as long as the source file has not
/// changed. The name of the format must not be longer than its length byte
/// can tell.
pub proof fn cache_reads_back(
    offsets: Seq<u64>,
    records: Seq<LineRecord>,
    format: Seq<char>,
    file_size: u64,
    mtime_secs: u64,
)
    requires
        offsets.len() == records.len() <= u64::MAX,
        encode_utf8(format).len() <= 255,
    ensures
        cached(
            cache_bytes(offsets, records, encode_utf8(format), file_size, mtime_secs),
            file_size,
            mtime_secs,
        ) == Some(CacheView { offsets, records, format }),
{
    let n = offsets.len();
    let f = encode_utf8(format);
    let head = header_bytes(file_size, mtime_secs, n);
    let rest = offsets_bytes(offsets) + records_bytes(records) + footer_bytes(f);
    let b = cache_bytes(offsets, records, f, file_size, mtime_secs);
    assert(b =~= head + rest);
    header_reads_back(file_size, mtime_secs, n, rest);
    eight_bytes_hold_u64();
    assert forall|i: int| 0 <= i < n implies number_from(b, 32 + 8 * i) == offsets[i] by {
        le_bytes_read_back(offsets[i] as nat, 8);
        assert(b.subrange(32 + 8 * i, 40 + 8 * i) =~= le_bytes(offsets[i] as nat, 8));
    }
    assert forall|i: int| 0 <= i < n implies record_from(b, 32 + 8 * n + 4 * i) == records[i] by {
        let at = 32 + 8 * n + 4 * i;
        let bytes = record_bytes(records[i]);
        assert(b[at] == bytes[0]);
        assert(b[at + 1] == bytes[1]);
        assert(b[at + 2] == bytes[2]);
        assert(b[at + 3] == bytes[3]);
    }
    let foot = footer_at(b);
    assert(b[foot] == f.len());
    assert(b.subrange(foot + 1, foot + 1 + b[foot]) =~= f);
    chars::decode_of_bytes(format, f);
    let c = cached(b, file_size, mtime_secs)->0;
    assert(c.offsets =~= offsets);
    assert(c.records =~= records);
}

/// A cache is not used for a source file whose size or age has changed.
pub proof fn stale_cache_is_refused(
    offsets: Seq<u64>,
    records: Seq<LineRecord>,
    format: Seq<u8>,
    file_size: u64,
    mtime_secs: u64,
    live_size: u64,
    live_mtime: u64,
)
    requires
        offsets.len() <= u64::MAX,
        live_size != file_size || live_mtime != mtime_secs,
    ensures
        cached(
            cache_bytes(offsets, records, format, file_size, mtime_secs),
            live_size,
            live_mtime,
        ) is None,
{
    let head = header_bytes(file_size, mtime_secs, offsets.len());
    let rest = offsets_bytes(offsets) + records_bytes(records) + footer_bytes(format);
    assert(cache_bytes(offsets, records, format, file_size, mtime_secs) =~= head + rest);
    header_reads_back(file_size, mtime_secs, offsets.len(), rest);
}

proof fn hexadecimal_is_injective(a: nat, b: nat, width: nat)
    requires
        a < hex_range(width),
        b < hex_range(width),
        hexadecimal(a, width) == hexadecimal(b, width),
    ensures
        a == b,
    decreases width,
{
    if width > 0 {
        let x = hexadecimal(a, width);
        let y = hexadecimal(b, width);
        assert(x.last() == digit_char(a % 16));
        assert(y.last() == digit_char(b % 16));
        assert(x.drop_last() =~= hexadecimal(a / 16, (width - 1) as nat));
        assert(y.drop_last() =~= hexadecimal(b / 16, (width - 1) as nat));
        hexadecimal_is_injective(a / 16, b / 16, (width - 1) as nat);
        assert(digit_char(a % 16) == digit_char(b % 16) ==> a % 16 == b % 16);
    }
}

spec fn hex_range(width: nat) -> nat
    decreases width,
{
    if width == 0 {
        1
    } else {
        16 * hex_range((width - 1) as nat)
    }
}

/// Source paths with different hashes get different cache files.
pub proof fn file_names_are_distinct(a: u64, b: u64)
    requires
        file_name(a) == file_name(b),
    ensures
        a == b,
{
    let x = hexadecimal(a as nat, 16);
    let y = hexadecimal(b as nat, 16);
    assert(x =~= file_name(a).take(file_name(a).len() - ".idx"@.len()));
    assert(y =~= file_name(b).take(file_name(b).len() - ".idx"@.len()));
    reveal_with_fuel(hex_range, 17);
    hexadecimal_is_injective(a as nat, b as nat, 16);
}

/// Where everything stands in a cache file: eight letters and digits, then the
/// size and the age of the source file and the number of lines, then eight
/// bytes for every offset, four for every record, and the name of the format
/// behind its length, of which no more than 255 bytes are kept. Numbers have
/// their lowest byte first.
pub proof fn cache_layout(
    offsets: Seq<u64>,
    records: Seq<LineRecord>,
    format: Seq<u8>,
    file_size: u64,
    mtime_secs: u64,
    i: int,
)
    requires
        offsets.len() == records.len() <= u64::MAX,
    ensures
        ({
            let b = cache_bytes(offsets, records, format, file_size, mtime_secs);
            let n = offsets.len() as int;
            let kept = if format.len() <= 255 {
                format
            } else {
                format.take(255)
            };
            &&& b.len() == 33 + 12 * n + kept.len()
            &&& b.subrange(0, 8) == seq![76u8, 79, 71, 86, 73, 68, 88, 49]
            &&& number_in(b, 8) == file_size
            &&& number_in(b, 16) == mtime_secs
            &&& number_in(b, 24) == n
            &&& 0 <= i < n ==> number_in(b, 32 + 8 * i) == offsets[i]
            &&& 0 <= i < n ==> b[32 + 8 * n + 4 * i] == match records[i].level {
                LogLevel::Error => 0u8,
                LogLevel::Warn => 1,
                LogLevel::Info => 2,
                LogLevel::Debug => 3,
                LogLevel::Trace => 4,
                LogLevel::Unknown => 5,
            }
            &&& 0 <= i < n ==> b[33 + 8 * n + 4 * i] + 256 * b[34 + 8 * n + 4 * i]
                == records[i].ts_start
            &&& 0 <= i < n ==> b[35 + 8 * n + 4 * i] == records[i].ts_len
            &&& b[32 + 12 * n] == kept.len()
            &&& b.skip(33 + 12 * n) == kept
        }),
{
    header_layout(offsets, records, format, file_size, mtime_secs);
    footer_layout(offsets, records, format, file_size, mtime_secs);
    if 0 <= i < offsets.len() {
        offset_layout(offsets, records, format, file_size, mtime_secs, i);
        record_layout(offsets, records, format, file_size, mtime_secs, i);
    }
}

proof fn magic_spelled_out()
    ensures
        "LOGVIDX1".spec_bytes() == seq![76u8, 79, 71, 86, 73, 68, 88, 49],
{
    reveal_strlit("LOGVIDX1");
    ascii_literal("LOGVIDX1");
    let magic = "LOGVIDX1".spec_bytes();
    assert(forall|k: int| 0 <= k < 8 ==> magic[k] == "LOGVIDX1"@[k] as u8);
    assert(magic =~= seq![76u8, 79, 71, 86, 73, 68, 88, 49]);
}

proof fn header_layout(
    offsets: Seq<u64>,
    records: Seq<LineRecord>,
    format: Seq<u8>,
    file_size: u64,
    mtime_secs: u64,
)
    requires
        offsets.len() <= u64::MAX,
    ensures
        ({
            let b = cache_bytes(offsets, records, format, file_size, mtime_secs);
            &&& b.subrange(0, 8) == seq![76u8, 79, 71, 86, 73, 68, 88, 49]
            &&& number_in(b, 8) == file_size
            &&& number_in(b, 16) == mtime_secs
            &&& number_in(b, 24) == offsets.len()
        }),
{
    let b = cache_bytes(offsets, records, format, file_size, mtime_secs);
    let head = header_bytes(file_size, mtime_secs, offsets.len());
    let rest = offsets_bytes(offsets) + records_bytes(records) + footer_bytes(format);
    assert(b =~= head + rest);
    header_reads_back(file_size, mtime_secs, offsets.len(), rest);
    magic_spelled_out();
    number_is_of_bytes(b, 8);
    number_is_of_bytes(b, 16);
    number_is_of_bytes(b, 24);
}

proof fn header_takes_32_bytes(file_size: u64, mtime_secs: u64, n: nat)
    requires
        n <= u64::MAX,
    ensures
        header_bytes(file_size, mtime_secs, n).len() == 32,
{
    header_reads_back(file_size, mtime_secs, n, Seq::empty());
}

proof fn offset_layout(
    offsets: Seq<u64>,
    records: Seq<LineRecord>,
    format: Seq<u8>,
    file_size: u64,
    mtime_secs: u64,
    i: int,
)
    requires
        offsets.len() <= u64::MAX,
        0 <= i < offsets.len(),
    ensures
        number_in(
            cache_bytes(offsets, records, format, file_size, mtime_secs),
            32 + 8 * i,
        ) == offsets[i],
{
    let b = cache_bytes(offsets, records, format, file_size, mtime_secs);
    header_takes_32_bytes(file_size, mtime_secs, offsets.len());
    eight_bytes_hold_u64();
    le_bytes_read_back(offsets[i] as nat, 8);
    assert(b.subrange(32 + 8 * i, 40 + 8 * i) =~= le_bytes(offsets[i] as nat, 8));
    number_is_of_bytes(b, 32 + 8 * i);
}

proof fn record_layout(
    offsets: Seq<u64>,
    records: Seq<LineRecord>,
    format: Seq<u8>,
    file_size: u64,
    mtime_secs: u64,
    i: int,
)
    requires
        offsets.len() == records.len() <= u64::MAX,
        0 <= i < records.len(),
    ensures
        ({
            let b = cache_bytes(offsets, records, format, file_size, mtime_secs);
            let at = 32 + 8 * offsets.len() + 4 * i;
            &&& b[at] == match records[i].level {
                LogLevel::Error => 0u8,
                LogLevel::Warn => 1,
                LogLevel::Info => 2,
                LogLevel::Debug => 3,
                LogLevel::Trace => 4,
                LogLevel::Unknown => 5,
            }
            &&& b[at + 1] + 256 * b[at + 2] == records[i].ts_start
            &&& b[at + 3] == records[i].ts_len
        }),
{
    let b = cache_bytes(offsets, records, format, file_size, mtime_secs);
    header_takes_32_bytes(file_size, mtime_secs, offsets.len());
    let at = 32 + 8 * offsets.len() + 4 * i;
    let bytes = record_bytes(records[i]);
    assert(b[at] == bytes[0]);
    assert(b[at + 1] == bytes[1]);
    assert(b[at + 2] == bytes[2]);
    assert(b[at + 3] == bytes[3]);
}

proof fn footer_layout(
    offsets: Seq<u64>,
    records: Seq<LineRecord>,
    format: Seq<u8>,
    file_size: u64,
    mtime_secs: u64,
)
    requires
        offsets.len() == records.len() <= u64::MAX,
    ensures
        ({
            let b = cache_bytes(offsets, records, format, file_size, mtime_secs);
            let n = offsets.len() as int;
            let kept = if format.len() <= 255 {
                format
            } else {
                format.take(255)
            };
            &&& b.len() == 33 + 12 * n + kept.len()
            &&& b[32 + 12 * n] == kept.len()
            &&& b.skip(33 + 12 * n) == kept
        }),
{
    let b = cache_bytes(offsets, records, format, file_size, mtime_secs);
    let n = offsets.len() as int;
    header_takes_32_bytes(file_size, mtime_secs, offsets.len());
    let kept = if format.len() <= 255 {
        format
    } else {
        format.take(255)
    };
    assert(b.skip(33 + 12 * n) =~= kept);
}

/// The number in the eight bytes from `at` on, the lowest byte first.
pub open spec fn number_in(b: Seq<u8>, at: int) -> int {
    b[at] + 0x100 * b[at + 1] + 0x1_0000 * b[at + 2] + 0x100_0000 * b[at + 3] + 0x1_0000_0000 * b[at
        + 4] + 0x100_0000_0000 * b[at + 5] + 0x1_0000_0000_0000 * b[at + 6]
        + 0x100_0000_0000_0000 * b[at + 7]
}

proof fn number_is_of_bytes(b: Seq<u8>, at: int)
    requires
        0 <= at,
        at + 8 <= b.len(),
    ensures
        number_from(b, at) == number_in(b, at),
{
    let s = b.subrange(at, at + 8);
    reveal_with_fuel(le_value, 9);
    assert(s.drop_first()[0] == s[1]);
    assert(s.drop_first().drop_first()[0] == s[2]);
    assert(s.drop_first().drop_first().drop_first()[0] == s[3]);
    let t = s.drop_first().drop_first().drop_first().drop_first();
    assert(t[0] == s[4]);
    assert(t.drop_first()[0] == s[5]);
    assert(t.drop_first().drop_first()[0] == s[6]);
    assert(t.drop_first().drop_first().drop_first()[0] == s[7]);
    assert(le_value(t) == s[4] + 256 * (s[5] + 256 * (s[6] + 256 * s[7])));
}

/// A cache is read only where it is whole: one that starts with anything but
/// its eight letters and digits, has another size or age than the source file,
/// or ends before its own numbers say, holds nothing.
pub proof fn broken_caches_are_refused(b: Seq<u8>, file_size: u64, mtime_secs: u64)
    ensures
        b.len() < 33 ==> cached(b, file_size, mtime_secs) is None,
        b.len() >= 33 ==> {
            &&& b.subrange(0, 8) != seq![76u8, 79, 71, 86, 73, 68, 88, 49] ==> cached(
                b,
                file_size,
                mtime_secs,
            ) is None
            &&& number_in(b, 8) != file_size ==> cached(b, file_size, mtime_secs) is None
            &&& number_in(b, 16) != mtime_secs ==> cached(b, file_size, mtime_secs) is None
            &&& 33 + 12 * number_in(b, 24) > b.len() ==> cached(b, file_size, mtime_secs) is None
            &&& 33 + 12 * number_in(b, 24) <= b.len() && 33 + 12 * number_in(b, 24) + b[32 + 12
                * number_in(b, 24)] > b.len() ==> cached(b, file_size, mtime_secs) is None
        },
{
    if b.len() >= 33 {
        number_is_of_bytes(b, 8);
        number_is_of_bytes(b, 16);
        number_is_of_bytes(b, 24);
        magic_spelled_out();
    }
}

/// A whole cache for the source file as it is now is read: its lines are those
/// that its own numbers say, each level being the one its byte stands for, and
/// a byte that stands for none means `Unknown`.
pub proof fn whole_caches_are_read(
    b: Seq<u8>,
    file_size: u64,
    mtime_secs: u64,
    i: int,
)
    requires
        b.len() >= 33,
        b.subrange(0, 8) == seq![76u8, 79, 71, 86, 73, 68, 88, 49],
        number_in(b, 8) == file_size,
        number_in(b, 16) == mtime_secs,
        33 + 12 * number_in(b, 24) <= b.len(),
        ({
            let foot = 32 + 12 * number_in(b, 24);
            &&& foot + 1 + b[foot] <= b.len()
            &&& valid_utf8(b.subrange(foot + 1, foot + 1 + b[foot]))
        }),
    ensures
        ({
            let n = number_in(b, 24);
            let foot = 32 + 12 * n;
            let at = 32 + 8 * n + 4 * i;
            &&& cached(b, file_size, mtime_secs) matches Some(c)
            &&& c.offsets.len() == n
            &&& c.records.len() == n
            &&& encode_utf8(c.format) == b.subrange(foot + 1, foot + 1 + b[foot])
            &&& 0 <= i < n ==> {
                &&& c.offsets[i] == number_in(b, 32 + 8 * i)
                &&& c.records[i].ts_start == b[at + 1] + 256 * b[at + 2]
                &&& c.records[i].ts_len == b[at + 3]
                &&& b[at] == 0 <==> c.records[i].level == LogLevel::Error
                &&& b[at] == 1 <==> c.records[i].level == LogLevel::Warn
                &&& b[at] == 2 <==> c.records[i].level == LogLevel::Info
                &&& b[at] == 3 <==> c.records[i].level == LogLevel::Debug
                &&& b[at] == 4 <==> c.records[i].level == LogLevel::Trace
                &&& b[at] >= 5 <==> c.records[i].level == LogLevel::Unknown
            }
        }),
{
    number_is_of_bytes(b, 8);
    number_is_of_bytes(b, 16);
    number_is_of_bytes(b, 24);
    magic_spelled_out();
    let n = number_in(b, 24);
    let foot = 32 + 12 * n;
    assert(footer_at(b) == foot);
    decode_utf8_encode_utf8(b.subrange(foot + 1, foot + 1 + b[foot]));
    if 0 <= i < n {
        number_is_of_bytes(b, 32 + 8 * i);
    }
}

/// The name of a cache file is sixteen hexadecimal digits and an extension.
pub proof fn file_names_have_sixteen_digits(hash: u64)
    ensures
        file_name(hash).len() == 20,
        file_name(hash).take(16) == hexadecimal(hash as nat, 16),
        file_name(hash).skip(16) == ".idx"@,
{
    reveal_strlit(".idx");
    crate::numbers::hexadecimal_digits(hash as nat, 16);
    assert(file_name(hash).take(16) =~= hexadecimal(hash as nat, 16));
    assert(file_name(hash).skip(16) =~= ".idx"@);
}

} // verus!
