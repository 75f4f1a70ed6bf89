//! Opening a log file: from its bytes, and its cache file if there is one, to
//! a parsed index with a count of the lines of each level.
use vstd::prelude::*;
use vstd::utf8::*;

use crate::cache;
use crate::loader;
use crate::parser;
use crate::paths::may_have_extension;
use crate::types::{LineIndex, LineRecord, LogLevel, ParsedIndex};

verus! {

// ---------------------------------------------------------------------------
// Level counts
// ---------------------------------------------------------------------------

/// How many of the first `n` records have the level with this slot.
pub open spec fn count_slot(records: Seq<LineRecord>, slot: nat, n: nat) -> nat
    decreases n,
{
    if n == 0 {
        0
    } else {
        count_slot(records, slot, (n - 1) as nat) + if records[n - 1].level.slot() == slot {
            1nat
        } else {
            0
        }
    }
}

/// `counts` holds, for each level, the number of records with that level.
pub open spec fn counts_levels(records: Seq<LineRecord>, counts: Seq<usize>) -> bool {
    &&& counts.len() == 6
    &&& forall|slot: int|
        0 <= slot < 6 ==> #[trigger] counts[slot] == count_slot(
            records,
            slot as nat,
            records.len(),
        )
}

proof fn count_slot_is_bounded(records: Seq<LineRecord>, slot: nat, n: nat)
    ensures
        count_slot(records, slot, n) <= n,
    decreases n,
{
    if n > 0 {
        count_slot_is_bounded(records, slot, (n - 1) as nat);
    }
}

/// Every record is counted once: the counts add up to the number of records.
pub proof fn counts_add_up(records: Seq<LineRecord>, n: nat)
    requires
        n <= records.len(),
    ensures
        count_slot(records, 0, n) + count_slot(records, 1, n) + count_slot(records, 2, n)
            + count_slot(records, 3, n) + count_slot(records, 4, n) + count_slot(records, 5, n)
            == n,
    decreases n,
{
    if n > 0 {
        counts_add_up(records, (n - 1) as nat);
    }
}

/// The number of records of each level, by the slot of the level.
pub fn level_counts(records: &Vec<LineRecord>) -> (r: [usize; 6])
    ensures
        counts_levels(records@, r@),
{
    let mut r: [usize; 6] = [0, 0, 0, 0, 0, 0];
    let mut i: usize = 0;
    while i < records.len()
        invariant
            i <= records@.len(),
            forall|slot: int|
                0 <= slot < 6 ==> #[trigger] r@[slot] == count_slot(
                    records@,
                    slot as nat,
                    i as nat,
                ),
        decreases records@.len() - i,
    {
        let level = records[i].level;
        let slot: usize = usize::from(level);
        proof {
            count_slot_is_bounded(records@, slot as nat, i as nat);
        }
        r[slot] = r[slot] + 1;
        i = i + 1;
    }
    r
}

// ---------------------------------------------------------------------------
// Opening a file
// ---------------------------------------------------------------------------

/// A file that was opened.
pub struct Opened<'a> {
    pub parsed: ParsedIndex<'a>,
    pub counts: [usize; 6],
    /// The cache file to write for it; none where it came from the cache.
    pub cache: Option<Vec<u8>>,
}

/// The offsets are ascending positions in the file.
pub open spec fn offsets_inside(offsets: Seq<u64>, data: Seq<u8>) -> bool {
    &&& forall|i: int| 0 <= i < offsets.len() ==> #[trigger] offsets[i] <= data.len()
    &&& forall|i: int| 0 < i < offsets.len() ==> offsets[i - 1] <= #[trigger] offsets[i]
}

/// The index in the cache file `cache` can be used: the file is fresh, and
/// every line it points to lies inside the source file.
pub open spec fn is_usable(data: Seq<u8>, cache: Seq<u8>, file_size: u64, mtime_secs: u64) -> bool {
    cache::cached(cache, file_size, mtime_secs) matches Some(c) && offsets_inside(c.offsets, data)
}

/// `parsed` is the index that the cache file holds.
pub open spec fn is_from_cache(
    parsed: ParsedIndex,
    path: Seq<char>,
    data: Seq<u8>,
    c: cache::CacheView,
) -> bool {
    &&& parsed.lines.path@ == path
    &&& parsed.lines.data@ == data
    &&& parsed.lines.offsets@ == c.offsets
    &&& parsed.lines.format is Some
    &&& parsed.lines.format->0@ == c.format
    &&& parsed.records@ == c.records
    &&& parsed.format@ == c.format
}

/// `parsed` is what indexing and parsing the file gives.
pub open spec fn is_from_scan(parsed: ParsedIndex, path: Seq<char>, data: Seq<u8>) -> bool {
    exists|index: LineIndex, ext: Option<Seq<char>>|
        {
            &&& #[trigger] loader::indexes(index, path, data)
            &&& may_have_extension(path, ext)
            &&& #[trigger] parser::index_parses_to(index, ext, parsed)
        }
}

proof fn offsets_lie_inside(index: &LineIndex)
    requires
        index.wf(),
    ensures
        offsets_inside(index.offsets@, index.data@),
{
    let offsets = index.offsets@;
    assert forall|i: int| 0 <= i < offsets.len() implies #[trigger] offsets[i]
        <= index.data@.len() by {
        assert(index.has_line(i));
    }
    assert forall|i: int| 0 < i < offsets.len() implies offsets[i - 1] <= #[trigger] offsets[i] by {
        assert(index.has_line(i - 1));
    }
}

/// Open the file `path` with contents `data`.
///
/// Fast path: a cache file for the live file, which skips the scan. Slow
/// path: scan and parse the whole file, making every progress report, and hand
/// back a cache file so that the next time is instant.
pub fn open_log<'a, F: Fn(u64, u64)>(
    path: &str,
    data: &'a [u8],
    cache: Option<&[u8]>,
    file_size: u64,
    mtime_secs: u64,
    progress: F,
) -> (r: Opened<'a>)
    requires
        forall|scanned: u64, total: u64|
            loader::reports(data@.len()).contains((scanned as nat, total as nat))
                ==> #[trigger] progress.requires((scanned, total)),
    ensures
        r.parsed.wf(),
        counts_levels(r.parsed.records@, r.counts@),
        if cache is Some && is_usable(data@, cache->0@, file_size, mtime_secs) {
            &&& r.cache is None
            &&& is_from_cache(
                r.parsed,
                path@,
                data@,
                cache::cached(cache->0@, file_size, mtime_secs)->0,
            )
        } else {
            &&& is_from_scan(r.parsed, path@, data@)
            &&& r.cache is Some
            &&& r.cache->0@ == cache::cache_bytes(
                r.parsed.lines.offsets@,
                r.parsed.records@,
                encode_utf8(r.parsed.format@),
                file_size,
                mtime_secs,
            )
            &&& loader::all_reported(progress, data@.len())
        },
{
    if let Some(bytes) = cache {
        if let Some(parsed) = cache::try_load(path, data, bytes, file_size, mtime_secs) {
            let inside = parsed.lines.is_well_formed();
            proof {
                let c = cache::cached(bytes@, file_size, mtime_secs)->0;
                let n = c.offsets.len() as int;
                if offsets_inside(c.offsets, data@) {
                    assert forall|i: int| 0 <= i < n implies #[trigger] parsed.lines.has_line(i) by {
                        assert(c.offsets[i] <= data@.len());
                        if i + 1 < n {
                            assert(c.offsets[i + 1] <= data@.len());
                        }
                    }
                }
                if parsed.lines.wf() {
                    offsets_lie_inside(&parsed.lines);
                }
            }
            if inside {
                let counts = level_counts(&parsed.records);
                return Opened { parsed, counts, cache: None };
            }
        }
    }
    let index = loader::index_file_with_progress(path, data, progress);
    let ghost scanned = index;
    let parsed = parser::parse_index(index);
    proof {
        assert(loader::indexes(scanned, path@, data@));
    }
    let bytes = cache::save(&parsed, file_size, mtime_secs);
    let counts = level_counts(&parsed.records);
    Opened { parsed, counts, cache: Some(bytes) }
}

/// A file that was parsed before opens from its cache: as long as size and
/// age stay, the cache file is usable and holds the same index.
pub proof fn reopening_uses_the_cache(
    fmt: parser::LogFormat,
    index: LineIndex,
    parsed: ParsedIndex,
    file_size: u64,
    mtime_secs: u64,
)
    requires
        index.wf(),
        index.offsets@.len() <= u64::MAX,
        parser::is_index_parsed_as(fmt, index, parsed),
    ensures
        ({
            let bytes = cache::cache_bytes(
                parsed.lines.offsets@,
                parsed.records@,
                encode_utf8(parsed.format@),
                file_size,
                mtime_secs,
            );
            &&& is_usable(index.data@, bytes, file_size, mtime_secs)
            &&& is_from_cache(
                parsed,
                index.path@,
                index.data@,
                cache::cached(bytes, file_size, mtime_secs)->0,
            )
        }),
{
    reveal_strlit("Plain text");
    reveal_strlit("Logcat");
    reveal_strlit("Syslog");
    reveal_strlit("JSON");
    is_ascii_chars_encode_utf8(fmt.shown());
    cache::cache_reads_back(
        parsed.lines.offsets@,
        parsed.records@,
        parsed.format@,
        file_size,
        mtime_secs,
    );
    offsets_lie_inside(&index);
}

/// The count of a level is the number of records that have it, and counts no
/// others: those of error, warning, info, debug, trace and unknown lines stand
/// in this order.
pub proof fn counts_are_of_their_level(records: Seq<LineRecord>, counts: Seq<usize>)
    requires
        counts_levels(records, counts),
    ensures
        counts.len() == 6,
        counts[0] == records.filter(|r: LineRecord| r.level == LogLevel::Error).len(),
        counts[1] == records.filter(|r: LineRecord| r.level == LogLevel::Warn).len(),
        counts[2] == records.filter(|r: LineRecord| r.level == LogLevel::Info).len(),
        counts[3] == records.filter(|r: LineRecord| r.level == LogLevel::Debug).len(),
        counts[4] == records.filter(|r: LineRecord| r.level == LogLevel::Trace).len(),
        counts[5] == records.filter(|r: LineRecord| r.level == LogLevel::Unknown).len(),
{
    let n = records.len();
    assert(records.take(n as int) =~= records);
    count_is_of_level(records, LogLevel::Error, n);
    count_is_of_level(records, LogLevel::Warn, n);
    count_is_of_level(records, LogLevel::Info, n);
    count_is_of_level(records, LogLevel::Debug, n);
    count_is_of_level(records, LogLevel::Trace, n);
    count_is_of_level(records, LogLevel::Unknown, n);
    assert(counts[0] == count_slot(records, 0, n));
    assert(counts[1] == count_slot(records, 1, n));
    assert(counts[2] == count_slot(records, 2, n));
    assert(counts[3] == count_slot(records, 3, n));
    assert(counts[4] == count_slot(records, 4, n));
    assert(counts[5] == count_slot(records, 5, n));
    same_filter(records, LogLevel::Error, |r: LineRecord| r.level == LogLevel::Error);
    same_filter(records, LogLevel::Warn, |r: LineRecord| r.level == LogLevel::Warn);
    same_filter(records, LogLevel::Info, |r: LineRecord| r.level == LogLevel::Info);
    same_filter(records, LogLevel::Debug, |r: LineRecord| r.level == LogLevel::Debug);
    same_filter(records, LogLevel::Trace, |r: LineRecord| r.level == LogLevel::Trace);
    same_filter(records, LogLevel::Unknown, |r: LineRecord| r.level == LogLevel::Unknown);
}

proof fn same_filter(
    records: Seq<LineRecord>,
    level: LogLevel,
    p: spec_fn(LineRecord) -> bool,
)
    requires
        forall|r: LineRecord| #[trigger] p(r) == (r.level == level),
    ensures
        records.filter(p) == records.filter(|r: LineRecord| r.level == level),
{
    let q = |r: LineRecord| r.level == level;
    assert(p =~= q);
}

proof fn count_is_of_level(records: Seq<LineRecord>, level: LogLevel, n: nat)
    requires
        n <= records.len(),
    ensures
        count_slot(records, level.slot(), n) == records.take(n as int).filter(
            |r: LineRecord| r.level == level,
        ).len(),
    decreases n,
{
    reveal(Seq::filter);
    if n > 0 {
        count_is_of_level(records, level, (n - 1) as nat);
        assert(records.take(n as int).drop_last() =~= records.take(n - 1));
    }
}

/// A cache whose offsets point behind the end of the file, or run backwards,
/// is not used, and a fresh one whose offsets do neither is.
pub proof fn usable_caches_point_inside(
    data: Seq<u8>,
    cache: Seq<u8>,
    file_size: u64,
    mtime_secs: u64,
    i: int,
)
    ensures
        cache::cached(cache, file_size, mtime_secs) is None ==> !is_usable(
            data,
            cache,
            file_size,
            mtime_secs,
        ),
        cache::cached(cache, file_size, mtime_secs) matches Some(c) ==> {
            &&& 0 <= i < c.offsets.len() && c.offsets[i] > data.len() ==> !is_usable(
                data,
                cache,
                file_size,
                mtime_secs,
            )
            &&& 0 < i < c.offsets.len() && c.offsets[i - 1] > c.offsets[i] ==> !is_usable(
                data,
                cache,
                file_size,
                mtime_secs,
            )
            &&& (forall|a: int, b: int|
                0 <= a <= b < c.offsets.len() ==> #[trigger] c.offsets[a] <= #[trigger] c.offsets[b]
                    <= data.len()) ==> is_usable(data, cache, file_size, mtime_secs)
        },
{
    if let Some(c) = cache::cached(cache, file_size, mtime_secs) {
        if forall|a: int, b: int|
            0 <= a <= b < c.offsets.len() ==> #[trigger] c.offsets[a] <= #[trigger] c.offsets[b]
                <= data.len() {
            assert forall|k: int| 0 < k < c.offsets.len() implies c.offsets[k - 1]
                <= #[trigger] c.offsets[k] by {
                assert(c.offsets[k - 1] <= c.offsets[k] <= data.len());
            }
            assert forall|k: int| 0 <= k < c.offsets.len() implies #[trigger] c.offsets[k]
                <= data.len() by {
                assert(c.offsets[k] <= c.offsets[k] <= data.len());
            }
        }
    }
}

} // verus!
