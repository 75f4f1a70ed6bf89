//! Searching the rows of a parsed index, and the set of rows found.
//!
//! A search walks the rows in order and hands out the numbers of those that
//! pass in batches, so that the first results can be shown while the rest of
//! a large file is still being scanned.
use roaring::RoaringBitmap;
use vstd::prelude::*;
use vstd::string::*;
use vstd::utf8::*;

use crate::chars::{ascii_lowercase, decode_of_bytes, lowercase};
use crate::text::{first_occurrence, first_occurrence_is_least, occurs};
use crate::types::{LogLevel, ParsedIndex};

verus! {

// ---------------------------------------------------------------------------
// Which rows pass
// ---------------------------------------------------------------------------

/// `memchr::memmem::find` returns where the needle first occurs in the
/// haystack, and nothing where it does not occur.
pub assume_specification[ memchr::memmem::find ](haystack: &[u8], needle: &[u8]) -> (r: Option<
    usize,
>)
    ensures
        match r {
            Some(p) => first_occurrence(haystack@, needle@, 0) == Some(p as int),
            None => first_occurrence(haystack@, needle@, 0) is None,
        },
;

/// A row with this level passes the level filter.
pub open spec fn passes_level(filter: Option<LogLevel>, level: LogLevel) -> bool {
    match filter {
        Some(wanted) => level == wanted,
        None => true,
    }
}

/// `b` with the letters `A` to `Z` mapped to `a` to `z`.
pub open spec fn lower_byte(b: u8) -> u8 {
    if 'A' as u8 <= b <= 'Z' as u8 {
        (b + 32) as u8
    } else {
        b
    }
}

/// A line in lower case. Of a line that is no text, only the letters `A` to
/// `Z` have a lower case.
pub open spec fn lower_line(line: Seq<u8>) -> Seq<u8> {
    if valid_utf8(line) {
        encode_utf8(lowercase(decode_utf8(line)))
    } else {
        line.map_values(|b: u8| lower_byte(b))
    }
}

/// Row `i` has the wanted level and its text, in lower case, contains `query`.
pub open spec fn row_passes(
    parsed: &ParsedIndex,
    query: Seq<u8>,
    filter: Option<LogLevel>,
    i: int,
) -> bool {
    &&& passes_level(filter, parsed.records@[i].level)
    &&& query.len() == 0 || occurs(lower_line(parsed.lines.line(i)), query)
}

/// The line is ASCII text.
pub open spec fn is_ascii_line(line: Seq<u8>) -> bool {
    valid_utf8(line) && is_ascii_chars(decode_utf8(line))
}

/// [`row_passes`] for a line of ASCII text, whose lower case is known.
pub open spec fn ascii_row_passes(
    parsed: &ParsedIndex,
    query: Seq<u8>,
    filter: Option<LogLevel>,
    i: int,
) -> bool {
    &&& passes_level(filter, parsed.records@[i].level)
    &&& query.len() == 0 || occurs(
        encode_utf8(ascii_lowercase(decode_utf8(parsed.lines.line(i)))),
        query,
    )
}

/// The rows from `from` to below `to` that pass, in ascending order.
pub open spec fn passing_rows(
    parsed: &ParsedIndex,
    query: Seq<u8>,
    filter: Option<LogLevel>,
    from: int,
    to: int,
) -> Seq<u32>
    decreases to - from,
{
    if to <= from {
        seq![]
    } else {
        let before = passing_rows(parsed, query, filter, from, to - 1);
        if row_passes(parsed, query, filter, to - 1) {
            before.push((to - 1) as u32)
        } else {
            before
        }
    }
}

/// Strictly ascending.
pub open spec fn ascending(rows: Seq<u32>) -> bool {
    forall|i: int, j: int| 0 <= i < j < rows.len() ==> #[trigger] rows[i] < #[trigger] rows[j]
}

/// The passing rows are strictly ascending, and are exactly the rows in the
/// range that pass.
pub proof fn passing_rows_are_exact(
    parsed: &ParsedIndex,
    query: Seq<u8>,
    filter: Option<LogLevel>,
    from: int,
    to: int,
)
    requires
        0 <= from <= to <= u32::MAX,
    ensures
        ascending(passing_rows(parsed, query, filter, from, to)),
        forall|x: u32|
            #[trigger] passing_rows(parsed, query, filter, from, to).contains(x) <==> from <= x < to
                && row_passes(parsed, query, filter, x as int),
    decreases to - from,
{
    if from < to {
        passing_rows_are_exact(parsed, query, filter, from, to - 1);
        let before = passing_rows(parsed, query, filter, from, to - 1);
        let now = passing_rows(parsed, query, filter, from, to);
        let last = (to - 1) as u32;
        if row_passes(parsed, query, filter, to - 1) {
            assert(now == before.push(last));
            assert(now[before.len() as int] == last);
            assert forall|x: u32| before.contains(x) || x == last implies now.contains(x) by {
                if before.contains(x) {
                    let k = before.index_of(x);
                    assert(now[k] == x);
                }
            }
            assert forall|x: u32| now.contains(x) implies before.contains(x) || x == last by {
                let k = now.index_of(x);
                if k < before.len() {
                    assert(before[k] == x);
                }
            }
            assert forall|i: int, j: int| 0 <= i < j < now.len() implies #[trigger] now[i]
                < #[trigger] now[j] by {
                assert(before.contains(before[i]));
                assert(before[i] == now[i]);
            }
        }
    }
}

/// Rows found in two stretches are the rows found in one.
pub proof fn passing_rows_concat(
    parsed: &ParsedIndex,
    query: Seq<u8>,
    filter: Option<LogLevel>,
    from: int,
    mid: int,
    to: int,
)
    requires
        from <= mid <= to,
    ensures
        passing_rows(parsed, query, filter, from, mid) + passing_rows(
            parsed,
            query,
            filter,
            mid,
            to,
        ) == passing_rows(parsed, query, filter, from, to),
    decreases to - mid,
{
    if mid < to {
        passing_rows_concat(parsed, query, filter, from, mid, to - 1);
        assert(passing_rows(parsed, query, filter, from, mid) + passing_rows(
            parsed,
            query,
            filter,
            mid,
            to,
        ) =~= passing_rows(parsed, query, filter, from, to));
    } else {
        assert(passing_rows(parsed, query, filter, from, mid) + passing_rows(
            parsed,
            query,
            filter,
            mid,
            to,
        ) =~= passing_rows(parsed, query, filter, from, mid));
    }
}

/// Whether `line`, in lower case, contains `query`.
fn line_contains(line: &[u8], query: &[u8]) -> (r: bool)
    ensures
        r == occurs(lower_line(line@), query@),
        is_ascii_line(line@) ==> r == occurs(
            encode_utf8(ascii_lowercase(decode_utf8(line@))),
            query@,
        ),
{
    match core::str::from_utf8(line) {
        Ok(text) => {
            let lower = text.to_lowercase();
            let b = lower.as_str().as_bytes();
            proof {
                decode_of_bytes(text@, line@);
                first_occurrence_is_least(b@, query@, 0);
            }
            memchr::memmem::find(b, query).is_some()
        },
        Err(_) => {
            let mut lower: Vec<u8> = Vec::new();
            let mut i: usize = 0;
            while i < line.len()
                invariant
                    i <= line@.len(),
                    lower@ == line@.take(i as int).map_values(|b: u8| lower_byte(b)),
                decreases line@.len() - i,
            {
                let b: u8 = line[i];
                lower.push(
                    if b >= 'A' as u8 && b <= 'Z' as u8 {
                        b + 32
                    } else {
                        b
                    },
                );
                i = i + 1;
                assert(lower@ =~= line@.take(i as int).map_values(|b: u8| lower_byte(b)));
            }
            proof {
                assert(line@.take(line@.len() as int) =~= line@);
                first_occurrence_is_least(lower@, query@, 0);
            }
            memchr::memmem::find(lower.as_slice(), query).is_some()
        },
    }
}

/// Whether row `i` has the wanted level and its text, in lower case, contains
/// `query`.
pub fn matches_row(
    parsed: &ParsedIndex,
    query: &[u8],
    filter: Option<LogLevel>,
    i: usize,
) -> (r: bool)
    requires
        parsed.wf(),
        i < parsed.records@.len(),
    ensures
        r == row_passes(parsed, query@, filter, i as int),
        is_ascii_line(parsed.lines.line(i as int)) ==> r == ascii_row_passes(
            parsed,
            query@,
            filter,
            i as int,
        ),
{
    let passes_level = match filter {
        Some(wanted) => parsed.level_of(i) == wanted,
        None => true,
    };
    if !passes_level {
        return false;
    }
    assert(parsed.lines.has_line(i as int));
    query.len() == 0 || line_contains(parsed.lines.line_bytes(i), query)
}

// ---------------------------------------------------------------------------
// A search in progress
// ---------------------------------------------------------------------------

/// Number of rows handed out at a time.
pub const BATCH: usize = 4096;

/// A search that has reached row `next`.
pub struct RowSearch {
    /// The search string in lower case.
    pub query: String,
    /// Level that a row must have, if any.
    pub level: Option<LogLevel>,
    /// First row not looked at yet.
    pub next: usize,
    /// Rows found and not handed out yet.
    pub batch: Vec<u32>,
}

/// What a step of a search asks for.
pub enum SearchStep {
    /// Nothing: go on with the next step.
    Continue,
    /// Hand out these rows, then go on.
    Send(Vec<u32>),
    /// All rows were looked at: hand out the rest, if there is any, and stop.
    Finish(Option<Vec<u32>>),
}

impl SearchStep {
    /// The rows to hand out.
    pub open spec fn rows(&self) -> Seq<u32> {
        match self {
            SearchStep::Continue => seq![],
            SearchStep::Send(rows) => rows@,
            SearchStep::Finish(Some(rows)) => rows@,
            SearchStep::Finish(None) => seq![],
        }
    }
}

impl RowSearch {
    /// Between steps less than a batch is held back, and the search is inside
    /// the index.
    pub open spec fn wf(&self, parsed: &ParsedIndex) -> bool {
        self.next <= parsed.records@.len() && self.batch@.len() < BATCH
    }

    /// The rows in the stretch from `from` to `to` that this search finds.
    pub open spec fn finds(&self, parsed: &ParsedIndex, from: int, to: int) -> Seq<u32> {
        passing_rows(parsed, encode_utf8(self.query@), self.level, from, to)
    }

    /// A search for `query` among the rows of level `level`.
    pub fn new(query: &str, level: Option<LogLevel>) -> (r: Self)
        ensures
            r.query@ == lowercase(query@),
            is_ascii_chars(query@) ==> r.query@ == ascii_lowercase(query@),
            r.level == level,
            r.next == 0,
            r.batch@ == Seq::<u32>::empty(),
    {
        RowSearch { query: query.to_lowercase(), level, next: 0, batch: Vec::new() }
    }

    /// Look at the next row.
    pub fn step(&mut self, parsed: &ParsedIndex) -> (r: SearchStep)
        requires
            old(self).wf(parsed),
            parsed.wf(),
            parsed.records@.len() <= u32::MAX,
        ensures
            final(self).wf(parsed),
            final(self).query == old(self).query,
            final(self).level == old(self).level,
            r.rows() + final(self).batch@ == old(self).batch@ + old(self).finds(
                parsed,
                old(self).next as int,
                final(self).next as int,
            ),
            old(self).next < parsed.records@.len() && is_ascii_line(
                parsed.lines.line(old(self).next as int),
            ) ==> row_passes(
                parsed,
                encode_utf8(old(self).query@),
                old(self).level,
                old(self).next as int,
            ) == ascii_row_passes(
                parsed,
                encode_utf8(old(self).query@),
                old(self).level,
                old(self).next as int,
            ),
            match r {
                SearchStep::Continue => {
                    &&& old(self).next < parsed.records@.len()
                    &&& final(self).next == old(self).next + 1
                },
                SearchStep::Send(rows) => {
                    &&& old(self).next < parsed.records@.len()
                    &&& final(self).next == old(self).next + 1
                    &&& rows@.len() == 4096
                    &&& final(self).batch@.len() == 0
                },
                SearchStep::Finish(rest) => {
                    &&& old(self).next == parsed.records@.len()
                    &&& final(self).next == old(self).next
                    &&& final(self).batch@.len() == 0
                    &&& rest matches Some(rows) ==> rows@.len() > 0
                },
            },
    {
        let n: usize = parsed.records.len();
        let ghost before = self.batch@;
        if self.next >= n {
            let mut rest: Vec<u32> = Vec::new();
            std::mem::swap(&mut rest, &mut self.batch);
            assert(before + self.finds(parsed, self.next as int, self.next as int) =~= before);
            if rest.len() == 0 {
                assert(Seq::<u32>::empty() + self.batch@ =~= before);
                return SearchStep::Finish(None);
            }
            assert(rest@ + self.batch@ =~= before);
            return SearchStep::Finish(Some(rest));
        }
        let i: usize = self.next;
        let found = matches_row(parsed, self.query.as_str().as_bytes(), self.level, i);
        self.next = i + 1;
        proof {
            reveal_with_fuel(passing_rows, 2);
        }
        if found {
            self.batch.push(i as u32);
            assert(self.batch@ =~= before + self.finds(parsed, i as int, i + 1));
            if self.batch.len() == BATCH {
                let mut rows: Vec<u32> = Vec::new();
                std::mem::swap(&mut rows, &mut self.batch);
                assert(rows@ + self.batch@ =~= rows@);
                return SearchStep::Send(rows);
            }
        } else {
            assert(self.batch@ =~= before + self.finds(parsed, i as int, i + 1));
        }
        assert(Seq::<u32>::empty() + self.batch@ =~= self.batch@);
        SearchStep::Continue
    }
}

// ---------------------------------------------------------------------------
// The set of rows found
// ---------------------------------------------------------------------------

/// `roaring::RoaringBitmap`, a compressed set of 32-bit numbers; here, of rows.
#[verifier::external_type_specification]
#[verifier::external_body]
pub struct ExRoaringBitmap(RoaringBitmap);

/// The numbers in a bitmap, from the smallest to the largest.
pub uninterp spec fn bitmap_rows(bitmap: RoaringBitmap) -> Seq<u32>;

/// `roaring::RoaringBitmap::new` makes an empty bitmap.
pub assume_specification[ RoaringBitmap::new ]() -> (r: RoaringBitmap)
    ensures
        bitmap_rows(r) == Seq::<u32>::empty(),
;

/// `roaring::RoaringBitmap::clear` takes out every number.
pub assume_specification[ RoaringBitmap::clear ](bitmap: &mut RoaringBitmap)
    ensures
        bitmap_rows(*final(bitmap)) == Seq::<u32>::empty(),
;

/// `roaring::RoaringBitmap::len` counts the numbers.
pub assume_specification[ RoaringBitmap::len ](bitmap: &RoaringBitmap) -> (r: u64)
    ensures
        r == bitmap_rows(*bitmap).len(),
;

/// `roaring::RoaringBitmap::select` returns the number with rank `n`, counted
/// from zero at the smallest, and nothing where there are not so many.
pub assume_specification[ RoaringBitmap::select ](bitmap: &RoaringBitmap, n: u32) -> (r: Option<
    u32,
>)
    ensures
        r == if n < bitmap_rows(*bitmap).len() {
            Some(bitmap_rows(*bitmap)[n as int])
        } else {
            None
        },
;

/// `roaring::RoaringBitmap::extend` puts numbers in: afterwards the bitmap
/// holds what it held before and `rows`, each number once.
#[verifier::external_body]
pub(crate) fn bitmap_extend(bitmap: &mut RoaringBitmap, rows: Vec<u32>)
    ensures
        ascending(bitmap_rows(*final(bitmap))),
        forall|x: u32|
            #[trigger] bitmap_rows(*final(bitmap)).contains(x) <==> bitmap_rows(
                *old(bitmap),
            ).contains(x) || rows@.contains(x),
{
    bitmap.extend(rows);
}

/// `roaring::RoaringBitmap::iter`, collected: the numbers from the smallest to
/// the largest.
#[verifier::external_body]
pub(crate) fn bitmap_collect(bitmap: &RoaringBitmap) -> (r: Vec<u32>)
    ensures
        r@ == bitmap_rows(*bitmap),
{
    bitmap.iter().collect()
}

// ---------------------------------------------------------------------------
// Laws
// ---------------------------------------------------------------------------

/// Two ascending sequences with the same members are the same sequence.
pub proof fn ascending_is_unique(a: Seq<u32>, b: Seq<u32>)
    requires
        ascending(a),
        ascending(b),
        forall|x: u32| #[trigger] a.contains(x) <==> b.contains(x),
    ensures
        a == b,
    decreases a.len(),
{
    if a.len() == 0 {
        if b.len() > 0 {
            assert(b.contains(b[0]));
            assert(a.contains(b[0]));
        }
        assert(a =~= b);
    } else {
        assert(a.contains(a.last()));
        let k = b.index_of(a.last());
        assert(b.contains(b.last()));
        assert(a.contains(b.last()));
        let l = a.index_of(b.last());
        assert(a.last() == b.last()) by {
            if l < a.len() - 1 {
                assert(a[l] < a[a.len() - 1]);
            }
            if k < b.len() - 1 {
                assert(b[k] < b[b.len() - 1]);
            }
        }
        let x = a.drop_last();
        let y = b.drop_last();
        assert forall|v: u32| #[trigger] x.contains(v) implies y.contains(v) by {
            let i = x.index_of(v);
            assert(a[i] == v);
            assert(a.contains(v));
            let j = b.index_of(v);
            assert(a[i] < a[a.len() - 1]);
            assert(y[j] == v);
        }
        assert forall|v: u32| #[trigger] y.contains(v) implies x.contains(v) by {
            let i = y.index_of(v);
            assert(b[i] == v);
            assert(b.contains(v));
            assert(a.contains(v));
            let j = a.index_of(v);
            assert(b[i] < b[b.len() - 1]);
            assert(x[j] == v);
        }
        ascending_is_unique(x, y);
        assert(a =~= x.push(a.last()));
        assert(b =~= y.push(b.last()));
    }
}

/// The numbers in an ascending sequence are at least their ranks, so there
/// are no more of them than 32-bit numbers.
pub proof fn ascending_is_bounded(rows: Seq<u32>, k: int)
    requires
        ascending(rows),
        0 <= k < rows.len(),
    ensures
        k <= rows[k],
    decreases k,
{
    if k > 0 {
        ascending_is_bounded(rows, k - 1);
        assert(rows[k - 1] < rows[k]);
    }
}

/// A search hands out every row that passes, once and in order: at any time
/// the rows handed out and the rows held back together are the rows that pass
/// among those looked at, and a finished search has handed out all of them.
pub proof fn search_hands_out_every_row(
    parsed: &ParsedIndex,
    query: Seq<u8>,
    level: Option<LogLevel>,
    sent: Seq<u32>,
    held: Seq<u32>,
    next: int,
    rows: Seq<u32>,
    held_after: Seq<u32>,
    next_after: int,
)
    requires
        0 <= next <= next_after,
        sent + held == passing_rows(parsed, query, level, 0, next),
        rows + held_after == held + passing_rows(parsed, query, level, next, next_after),
    ensures
        sent + rows + held_after == passing_rows(parsed, query, level, 0, next_after),
        held_after.len() == 0 ==> sent + rows == passing_rows(parsed, query, level, 0, next_after),
{
    passing_rows_concat(parsed, query, level, 0, next, next_after);
    assert(sent + rows + held_after =~= sent + (rows + held_after));
    assert(sent + (held + passing_rows(parsed, query, level, next, next_after)) =~= (sent + held)
        + passing_rows(parsed, query, level, next, next_after));
    if held_after.len() == 0 {
        assert(sent + rows + held_after =~= sent + rows);
    }
}

/// The bitmap holds what was handed out: putting the next rows of a search
/// into a bitmap that holds the rows handed out before makes it hold both,
/// one after the other.
pub proof fn bitmap_holds_what_was_sent(
    parsed: &ParsedIndex,
    query: Seq<u8>,
    level: Option<LogLevel>,
    next: int,
    sent: Seq<u32>,
    rows: Seq<u32>,
    held: Seq<u32>,
    after: Seq<u32>,
)
    requires
        0 <= next <= u32::MAX,
        sent + rows + held == passing_rows(parsed, query, level, 0, next),
        ascending(after),
        forall|x: u32| #[trigger] after.contains(x) <==> sent.contains(x) || rows.contains(x),
    ensures
        after == sent + rows,
        held.len() == 0 ==> after == passing_rows(parsed, query, level, 0, next),
{
    passing_rows_are_exact(parsed, query, level, 0, next);
    let all = sent + rows + held;
    let both = sent + rows;
    assert(ascending(both)) by {
        assert forall|i: int, j: int| 0 <= i < j < both.len() implies #[trigger] both[i]
            < #[trigger] both[j] by {
            assert(all[i] < all[j]);
        }
    }
    assert forall|x: u32| #[trigger] after.contains(x) <==> both.contains(x) by {
        if sent.contains(x) {
            assert(both[sent.index_of(x)] == x);
        }
        if rows.contains(x) {
            assert(both[sent.len() + rows.index_of(x)] == x);
        }
        if both.contains(x) {
            let k = both.index_of(x);
            if k < sent.len() {
                assert(sent[k] == x);
            } else {
                assert(rows[k - sent.len()] == x);
            }
        }
    }
    ascending_is_unique(after, both);
    if held.len() == 0 {
        assert(all =~= both);
    }
}

// ---------------------------------------------------------------------------
// Laws of rows
// ---------------------------------------------------------------------------

/// A level filter is equality: with no search string a row passes the filter
/// for a level exactly where its record has that level, each level being
/// answered by its own rows only, and without a filter every row passes.
pub proof fn level_filter_is_equality(parsed: &ParsedIndex, wanted: LogLevel, i: int)
    ensures
        ({
            let level = parsed.records@[i].level;
            let none = Seq::<u8>::empty();
            &&& row_passes(parsed, none, Some(LogLevel::Error), i) <==> level == LogLevel::Error
            &&& row_passes(parsed, none, Some(LogLevel::Warn), i) <==> level == LogLevel::Warn
            &&& row_passes(parsed, none, Some(LogLevel::Info), i) <==> level == LogLevel::Info
            &&& row_passes(parsed, none, Some(LogLevel::Debug), i) <==> level == LogLevel::Debug
            &&& row_passes(parsed, none, Some(LogLevel::Trace), i) <==> level == LogLevel::Trace
            &&& row_passes(parsed, none, Some(LogLevel::Unknown), i) <==> level
                == LogLevel::Unknown
            &&& row_passes(parsed, none, None, i)
            &&& ascii_row_passes(parsed, none, Some(wanted), i) <==> level == wanted
            &&& ascii_row_passes(parsed, none, None, i)
        }),
{
}

/// A filter and a search string are independent: a row passes both where it
/// passes each.
pub proof fn filter_and_query_are_independent(
    parsed: &ParsedIndex,
    query: Seq<u8>,
    wanted: LogLevel,
    i: int,
)
    ensures
        row_passes(parsed, query, Some(wanted), i) <==> row_passes(parsed, query, None, i)
            && parsed.records@[i].level == wanted,
        ascii_row_passes(parsed, query, Some(wanted), i) <==> ascii_row_passes(
            parsed,
            query,
            None,
            i,
        ) && parsed.records@[i].level == wanted,
{
}

/// A row passes for its text exactly where the search string stands somewhere
/// in the lower case of the line. A line that is no text is compared byte by
/// byte, the letters `A` to `Z` in lower case.
pub proof fn query_is_found_in_lower_case(
    parsed: &ParsedIndex,
    query: Seq<u8>,
    i: int,
    at: int,
)
    requires
        query.len() > 0,
    ensures
        ({
            let line = parsed.lines.line(i);
            let lower = encode_utf8(lowercase(decode_utf8(line)));
            let n = query.len() as int;
            valid_utf8(line) ==> {
                &&& 0 <= at <= lower.len() - n && lower.subrange(at, at + n) == query
                    ==> row_passes(parsed, query, None, i)
                &&& row_passes(parsed, query, None, i) ==> exists|p: int|
                    0 <= p <= lower.len() - n && #[trigger] lower.subrange(p, p + n) == query
            }
        }),
        ({
            let line = parsed.lines.line(i);
            let lower = encode_utf8(ascii_lowercase(decode_utf8(line)));
            let n = query.len() as int;
            &&& 0 <= at <= lower.len() - n && lower.subrange(at, at + n) == query
                ==> ascii_row_passes(parsed, query, None, i)
            &&& ascii_row_passes(parsed, query, None, i) ==> exists|p: int|
                0 <= p <= lower.len() - n && #[trigger] lower.subrange(p, p + n) == query
        }),
        ({
            let line = parsed.lines.line(i);
            let n = query.len() as int;
            !valid_utf8(line) ==> {
                &&& 0 <= at <= line.len() - n && (forall|k: int|
                    0 <= k < n ==> #[trigger] query[k] == if 65 <= line[at + k] <= 90 {
                        line[at + k] + 32
                    } else {
                        line[at + k] as int
                    }) ==> row_passes(parsed, query, None, i)
                &&& row_passes(parsed, query, None, i) ==> exists|p: int|
                    {
                        let part = #[trigger] line.subrange(p, p + n);
                        0 <= p <= line.len() - n && forall|k: int|
                            0 <= k < n ==> query[k] == if 65 <= #[trigger] part[k] <= 90 {
                                part[k] + 32
                            } else {
                                part[k] as int
                            }
                    }
            }
        }),
{
    let line = parsed.lines.line(i);
    let n = query.len() as int;
    occurrences_are_stretches(lower_line(line), query, at);
    occurrences_are_stretches(encode_utf8(ascii_lowercase(decode_utf8(line))), query, at);
    if !valid_utf8(line) {
        let lower = lower_line(line);
        assert(lower.len() == line.len());
        if 0 <= at <= line.len() - n && forall|k: int|
            0 <= k < n ==> #[trigger] query[k] == if 65 <= line[at + k] <= 90 {
                line[at + k] + 32
            } else {
                line[at + k] as int
            } {
            assert(lower.subrange(at, at + n) =~= query);
        }
        if row_passes(parsed, query, None, i) {
            let p = choose|p: int| crate::text::occurs_at(lower, query, p);
            let part = line.subrange(p, p + n);
            assert forall|k: int| 0 <= k < n implies query[k] == if 65 <= #[trigger] part[k] <= 90 {
                part[k] + 32
            } else {
                part[k] as int
            } by {
                assert(lower.subrange(p, p + n)[k] == lower[p + k]);
            }
        }
    }
}

proof fn occurrences_are_stretches(hay: Seq<u8>, needle: Seq<u8>, at: int)
    ensures
        0 <= at <= hay.len() - needle.len() && hay.subrange(at, at + needle.len()) == needle
            ==> occurs(hay, needle),
        occurs(hay, needle) ==> exists|p: int|
            0 <= p <= hay.len() - needle.len() && #[trigger] hay.subrange(p, p + needle.len())
                == needle,
{
    if 0 <= at <= hay.len() - needle.len() && hay.subrange(at, at + needle.len()) == needle {
        assert(crate::text::occurs_at(hay, needle, at));
    }
    if occurs(hay, needle) {
        let p = choose|p: int| crate::text::occurs_at(hay, needle, p);
        assert(hay.subrange(p, p + needle.len()) == needle);
    }
}

/// What a search finds in a stretch is exactly the rows of the stretch that
/// have its level and contain its search string, smallest first.
pub proof fn search_finds_what_passes(
    search: &RowSearch,
    parsed: &ParsedIndex,
    from: int,
    to: int,
    x: u32,
)
    requires
        0 <= from <= to <= u32::MAX,
    ensures
        forall|i: int, j: int|
            0 <= i < j < search.finds(parsed, from, to).len() ==> #[trigger] search.finds(
                parsed,
                from,
                to,
            )[i] < #[trigger] search.finds(parsed, from, to)[j],
        search.finds(parsed, from, to).contains(x) <==> {
            &&& from <= x < to
            &&& search.level matches Some(wanted) ==> parsed.records@[x as int].level == wanted
            &&& row_passes(parsed, encode_utf8(search.query@), None, x as int)
        },
{
    passing_rows_are_exact(parsed, encode_utf8(search.query@), search.level, from, to);
    if let Some(wanted) = search.level {
        filter_and_query_are_independent(
            parsed,
            encode_utf8(search.query@),
            wanted,
            x as int,
        );
    }
}

/// A step hands out the rows that it carries, and a step without rows none.
pub proof fn steps_hand_out_their_rows(rows: Vec<u32>)
    ensures
        SearchStep::Send(rows).rows() == rows@,
        SearchStep::Finish(Some(rows)).rows() == rows@,
        SearchStep::Finish(None).rows().len() == 0,
        SearchStep::Continue.rows().len() == 0,
{
}

} // verus!
