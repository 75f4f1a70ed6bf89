//! What the log table shows: which rows, in which colours, and where in a row
//! the search string is marked.
use vstd::prelude::*;
use vstd::string::*;
use vstd::utf8::*;

use crate::chars::{
    ascii_lower, ascii_lowercase, char_width, encode_boundary, encode_concat, encode_injective,
    lowercase, slice,
};
use crate::numbers::{decimal, decimal_text};
use crate::search::row_passes;
use crate::text::{
    contains, find_bytes, first_occurrence, first_occurrence_is_least, occurs, occurs_at,
};
use crate::types::{EntryView, LogFile, LogLevel, ParsedIndex};

verus! {

// ---------------------------------------------------------------------------
// Colours
// ---------------------------------------------------------------------------

/// Red, green and blue.
#[derive(Debug, Clone, Copy, PartialEq, Eq, Structural)]
pub struct Rgb {
    pub r: u8,
    pub g: u8,
    pub b: u8,
}

/// The colour of a level; none where the default text colour is used.
pub open spec fn color_of(level: Option<LogLevel>) -> Option<Rgb> {
    match level {
        Some(LogLevel::Error) => Some(Rgb { r: 255, g: 100, b: 100 }),
        Some(LogLevel::Warn) => Some(Rgb { r: 255, g: 200, b: 80 }),
        Some(LogLevel::Debug) => Some(Rgb { r: 120, g: 120, b: 120 }),
        Some(LogLevel::Trace) => Some(Rgb { r: 120, g: 120, b: 120 }),
        Some(LogLevel::Info) => None,
        Some(LogLevel::Unknown) => None,
        None => None,
    }
}

/// Map a log level to its display colour.
pub fn level_color(level: Option<LogLevel>, default: Rgb) -> (r: Rgb)
    ensures
        r == match color_of(level) {
            Some(c) => c,
            None => default,
        },
{
    match level {
        Some(LogLevel::Error) => Rgb { r: 255, g: 100, b: 100 },
        Some(LogLevel::Warn) => Rgb { r: 255, g: 200, b: 80 },
        Some(LogLevel::Debug) => Rgb { r: 120, g: 120, b: 120 },
        Some(LogLevel::Trace) => Rgb { r: 120, g: 120, b: 120 },
        _ => default,
    }
}

// ---------------------------------------------------------------------------
// Highlighting
// ---------------------------------------------------------------------------

/// A stretch of bytes, marked or not.
#[derive(Debug, Clone, Copy, PartialEq, Eq, Structural)]
pub struct Span {
    pub start: usize,
    pub end: usize,
    pub marked: bool,
}

/// A [`Span`] without a bound on its positions.
pub struct SpanView {
    pub start: int,
    pub end: int,
    pub marked: bool,
}

impl View for Span {
    type V = SpanView;

    open spec fn view(&self) -> SpanView {
        SpanView { start: self.start as int, end: self.end as int, marked: self.marked }
    }
}

/// The values of spans.
pub open spec fn span_views(spans: Seq<Span>) -> Seq<SpanView> {
    spans.map_values(|s: Span| s@)
}

/// The larger of two positions.
pub open spec fn largest(a: int, b: int) -> int {
    if a >= b {
        a
    } else {
        b
    }
}

/// Where the character with index `k` starts in the bytes of `text`.
pub open spec fn char_start(text: Seq<char>, k: int) -> int {
    encode_utf8(text.take(k)).len() as int
}

/// For every byte in the lower case of the first `n` characters of `text`,
/// where the character that it comes from starts and ends. The lower case of
/// the character with index `k` takes `widths[k]` bytes.
pub open spec fn origins(text: Seq<char>, widths: Seq<nat>, n: int) -> Seq<(int, int)>
    decreases n,
{
    if n <= 0 {
        seq![]
    } else {
        origins(text, widths, n - 1) + Seq::new(
            widths[n - 1],
            |j: int| (char_start(text, n - 1), char_start(text, n)),
        )
    }
}

/// The character that byte `p` comes from, in a text of `len` bytes.
pub open spec fn origin(from: Seq<(int, int)>, len: int, p: int) -> (int, int) {
    if 0 <= p < from.len() {
        from[p]
    } else {
        (len, len)
    }
}

/// The spans of a text of `len` bytes from `done` on: characters from which an
/// occurrence of `needle` in `lower`, from `cursor` on, comes are marked, what
/// lies between them is not. Occurrences do not overlap.
pub open spec fn spans_from(
    lower: Seq<u8>,
    needle: Seq<u8>,
    from: Seq<(int, int)>,
    len: int,
    cursor: int,
    done: int,
) -> Seq<SpanView>
    decreases lower.len() - cursor + 1,
{
    match first_occurrence(lower, needle, cursor) {
        Some(at) => if cursor <= at && at + needle.len() <= lower.len() && needle.len() > 0 {
            let past = at + needle.len();
            let start = largest(done, origin(from, len, at).0);
            let end = largest(start, origin(from, len, past - 1).1);
            let before = if start > done {
                seq![SpanView { start: done, end: start, marked: false }]
            } else {
                seq![]
            };
            let own = if end > start {
                seq![SpanView { start, end, marked: true }]
            } else {
                seq![]
            };
            before + own + spans_from(lower, needle, from, len, past, end)
        } else {
            seq![]
        },
        None => if done < len {
            seq![SpanView { start: done, end: len, marked: false }]
        } else {
            seq![]
        },
    }
}

/// The spans of `text` when looking for `needle`, given both in lower case and
/// the number of bytes in the lower case of every character of `text`. An
/// empty needle marks nothing.
pub open spec fn spans_with(
    text: Seq<char>,
    needle: Seq<char>,
    text_lower: Seq<char>,
    needle_lower: Seq<char>,
    widths: Seq<nat>,
) -> Seq<SpanView> {
    let len = encode_utf8(text).len() as int;
    if needle.len() == 0 {
        seq![SpanView { start: 0, end: len, marked: false }]
    } else {
        spans_from(
            encode_utf8(text_lower),
            encode_utf8(needle_lower),
            origins(text, widths, text.len() as int),
            len,
            0,
            0,
        )
    }
}

/// How many bytes the lower case of every character of `text` takes.
pub open spec fn lower_widths(text: Seq<char>) -> Seq<nat> {
    Seq::new(text.len(), |k: int| encode_utf8(lowercase(seq![text[k]])).len())
}

/// Spans follow one another without gap or overlap from `from` to `to`.
pub open spec fn spans_tile(spans: Seq<SpanView>, from: int, to: int) -> bool {
    if spans.len() == 0 {
        from == to
    } else {
        &&& spans[0].start == from
        &&& spans.last().end == to
        &&& forall|k: int| 0 <= k < spans.len() ==> (#[trigger] spans[k]).start <= spans[k].end
        &&& forall|k: int| 0 < k < spans.len() ==> (#[trigger] spans[k]).start == spans[k - 1].end
    }
}

/// Every span starts and ends between characters of the text with these bytes.
pub open spec fn spans_are_slices(spans: Seq<SpanView>, bytes: Seq<u8>) -> bool {
    forall|k: int|
        0 <= k < spans.len() ==> is_char_boundary(bytes, (#[trigger] spans[k]).start)
            && is_char_boundary(bytes, spans[k].end)
}

/// Where every byte in the lower case of `text` comes from.
fn lower_origins(text: &str) -> (r: Vec<(usize, usize)>)
    ensures
        origin_views(r@) == origins(text@, lower_widths(text@), text@.len() as int),
        is_ascii_chars(text@) ==> lower_widths(text@) == Seq::new(text@.len(), |k: int| 1nat),
{
    let total: usize = text.as_bytes().len();
    let ghost widths = lower_widths(text@);
    let mut r: Vec<(usize, usize)> = Vec::new();
    let mut at: usize = 0;
    assert(encode_utf8(text@.take(0)) =~= Seq::<u8>::empty());
    assert(origin_views(r@) =~= origins(text@, widths, 0));
    for c in it: text.chars()
        invariant
            it.seq() == text@,
            total == encode_utf8(text@).len(),
            widths == lower_widths(text@),
            at == char_start(text@, it.index() as int),
            origin_views(r@) == origins(text@, widths, it.index() as int),
            is_ascii_chars(text@) ==> forall|j: int| 0 <= j < it.index() ==> #[trigger] widths[j] == 1,
    {
        let ghost k = it.index() as int;
        let width: usize = char_width(c);
        proof {
            let a = text@.take(k);
            let b = text@.take(k + 1);
            assert(b =~= a + seq![c]);
            encode_concat(a, seq![c]);
            assert(a + text@.skip(k) =~= text@);
            assert(b + text@.skip(k + 1) =~= text@);
            encode_boundary(a, text@.skip(k));
            encode_boundary(b, text@.skip(k + 1));
            encode_concat(b, text@.skip(k + 1));
        }
        let own = slice(text, at, at + width);
        proof {
            assert(own.spec_bytes() =~= encode_utf8(seq![c]));
            encode_injective(own@, seq![c]);
        }
        let lower = own.to_lowercase();
        let n: usize = lower.as_str().as_bytes().len();
        proof {
            if is_ascii_chars(text@) {
                assert(is_ascii_chars(own@));
                assert(lower@ =~= seq![ascii_lower(c)]);
                assert(is_ascii_chars(lower@));
                is_ascii_chars_encode_utf8(lower@);
            }
            assert(widths[k] == n);
        }
        let ghost before = origin_views(r@);
        let mut j: usize = 0;
        assert(origin_views(r@) =~= before + Seq::new(
            0,
            |j: int| (at as int, at + width),
        ));
        while j < n
            invariant
                j <= n,
                at + width <= total,
                origin_views(r@) == before + Seq::new(j as nat, |j: int| (at as int, at + width)),
            decreases n - j,
        {
            let ghost so_far = r@;
            r.push((at, at + width));
            assert(origin_views(r@) =~= origin_views(so_far).push((at as int, at + width)));
            j = j + 1;
            assert(origin_views(r@) =~= before + Seq::new(
                j as nat,
                |j: int| (at as int, at + width),
            ));
        }
        proof {
            let own_origin = Seq::new(n as nat, |j: int| (at as int, at + width));
            let wanted = Seq::new(
                widths[k],
                |j: int| (char_start(text@, k), char_start(text@, k + 1)),
            );
            assert(own_origin =~= wanted);
        }
        at = at + width;
    }
    assert(is_ascii_chars(text@) ==> widths =~= Seq::new(text@.len(), |k: int| 1nat));
    r
}

/// The positions in a list of origins.
pub open spec fn origin_views(from: Seq<(usize, usize)>) -> Seq<(int, int)> {
    from.map_values(|o: (usize, usize)| (o.0 as int, o.1 as int))
}

/// Split `text` into spans, marking every occurrence of `needle`
/// (case-insensitive). When `needle` is empty the text is one span.
///
/// Occurrences are looked for in the lower case of the text; marked are the
/// characters that they come from, whole. The spans make up the text.
#[verifier::rlimit(40)]
pub fn highlight_spans(text: &str, needle: &str) -> (r: Vec<Span>)
    ensures
        span_views(r@) == spans_with(
            text@,
            needle@,
            lowercase(text@),
            lowercase(needle@),
            lower_widths(text@),
        ),
        is_ascii_chars(text@) && is_ascii_chars(needle@) ==> span_views(r@) == spans_with(
            text@,
            needle@,
            ascii_lowercase(text@),
            ascii_lowercase(needle@),
            Seq::new(text@.len(), |k: int| 1nat),
        ),
        spans_tile(span_views(r@), 0, text.spec_bytes().len() as int),
        spans_are_slices(span_views(r@), text.spec_bytes()),
        // No occurrence is missed, and nothing else is marked.
        is_ascii_chars(text@) && is_ascii_chars(needle@) && needle@.len() > 0 ==> forall|
            k: int,
            at: int,
        |
            0 <= k < r@.len() && (#[trigger] r@[k]).start <= at < r@[k].end && at + needle@.len()
                <= text@.len() && #[trigger] ascii_lowercase(text@).subrange(
                at,
                at + needle@.len(),
            ) == ascii_lowercase(needle@) ==> r@[k].marked,
        is_ascii_chars(text@) && is_ascii_chars(needle@) && needle@.len() > 0 ==> forall|k: int|
            0 <= k < r@.len() && (#[trigger] r@[k]).marked ==> r@[k].end == r@[k].start
                + needle@.len() && ascii_lowercase(text@).subrange(
                r@[k].start as int,
                r@[k].end as int,
            ) == ascii_lowercase(needle@),
{
    let len: usize = text.as_bytes().len();
    let mut r: Vec<Span> = Vec::new();
    proof {
        encode_utf8_valid_utf8(text@);
        is_char_boundary_start_end_of_seq(text.spec_bytes());
    }
    if needle.is_empty() {
        r.push(Span { start: 0, end: len, marked: false });
        assert(span_views(r@) =~= seq![SpanView { start: 0, end: len as int, marked: false }]);
        return r;
    }
    let text_lower = text.to_lowercase();
    let needle_lower = needle.to_lowercase();
    let b = text_lower.as_str().as_bytes();
    let n = needle_lower.as_str().as_bytes();
    let from = lower_origins(text);
    let ghost o = origin_views(from@);
    proof {
        if n@.len() == 0 {
            chars_of_no_bytes(needle_lower@);
        }
        origins_are_characters(text@, lower_widths(text@), text@.len() as int);
        spans_make_up_the_text(b@, n@, o, text@, 0, 0);
    }
    let total: usize = b.len();
    let mut cursor: usize = 0;
    let mut done: usize = 0;
    let ghost all = spans_from(b@, n@, o, len as int, 0, 0);
    assert(span_views(r@) + all =~= all);
    loop
        invariant_except_break
            cursor <= total,
            span_views(r@) + spans_from(b@, n@, o, len as int, cursor as int, done as int) == all,
        invariant
            total == b@.len(),
            n@.len() > 0,
            o == origin_views(from@),
        ensures
            span_views(r@) == all,
        decreases total - cursor,
    {
        let ghost before = span_views(r@);
        let ghost start_cursor = cursor as int;
        let ghost start_done = done as int;
        match find_bytes(b, n, cursor) {
            None => {
                if done < len {
                    r.push(Span { start: done, end: len, marked: false });
                }
                assert(span_views(r@) =~= before + spans_from(
                    b@,
                    n@,
                    o,
                    len as int,
                    start_cursor,
                    start_done,
                ));
                break ;
            },
            Some(at) => {
                proof {
                    first_occurrence_is_least(b@, n@, start_cursor);
                    assert(occurs_at(b@, n@, at as int));
                }
                let past: usize = at + n.len();
                let first: usize = if at < from.len() {
                    from[at].0
                } else {
                    len
                };
                let last: usize = if past - 1 < from.len() {
                    from[past - 1].1
                } else {
                    len
                };
                let start: usize = if done >= first {
                    done
                } else {
                    first
                };
                let end: usize = if start >= last {
                    start
                } else {
                    last
                };
                assert(first == origin(o, len as int, at as int).0);
                assert(last == origin(o, len as int, past - 1).1);
                if start > done {
                    r.push(Span { start: done, end: start, marked: false });
                }
                if end > start {
                    r.push(Span { start, end, marked: true });
                }
                cursor = past;
                done = end;
                assert(span_views(r@) + spans_from(
                    b@,
                    n@,
                    o,
                    len as int,
                    cursor as int,
                    done as int,
                ) =~= before + spans_from(b@, n@, o, len as int, start_cursor, start_done));
            },
        }
    }
    proof {
        if is_ascii_chars(text@) && is_ascii_chars(needle@) {
            marks_of_spans(r@, text@, needle@);
        }
    }
    r
}

proof fn marks_of_spans(r: Seq<Span>, text: Seq<char>, needle: Seq<char>)
    requires
        is_ascii_chars(text),
        is_ascii_chars(needle),
        needle.len() > 0,
        span_views(r) == spans_with(
            text,
            needle,
            ascii_lowercase(text),
            ascii_lowercase(needle),
            Seq::new(text.len(), |k: int| 1nat),
        ),
    ensures
        forall|k: int, at: int|
            0 <= k < r.len() && (#[trigger] r[k]).start <= at < r[k].end && at + needle.len()
                <= text.len() && #[trigger] ascii_lowercase(text).subrange(at, at + needle.len())
                == ascii_lowercase(needle) ==> r[k].marked,
        forall|k: int|
            0 <= k < r.len() && (#[trigger] r[k]).marked ==> r[k].end == r[k].start + needle.len()
                && ascii_lowercase(text).subrange(r[k].start as int, r[k].end as int)
                == ascii_lowercase(needle),
{
    ascii_needles_are_marked(text, needle);
    let spans = span_views(r);
    assert forall|k: int| 0 <= k < r.len() implies #[trigger] r[k]@ == spans[k] by {}
    assert forall|k: int, at: int|
        0 <= k < r.len() && (#[trigger] r[k]).start <= at < r[k].end && at + needle.len()
            <= text.len() && #[trigger] ascii_lowercase(text).subrange(at, at + needle.len())
            == ascii_lowercase(needle) implies r[k].marked by {
        assert(spans[k] == r[k]@);
    }
    assert forall|k: int| 0 <= k < r.len() && (#[trigger] r[k]).marked implies r[k].end
        == r[k].start + needle.len() && ascii_lowercase(text).subrange(
        r[k].start as int,
        r[k].end as int,
    ) == ascii_lowercase(needle) by {
        assert(spans[k] == r[k]@);
    }
}

/// Every origin is a character of the text.
proof fn origins_are_characters(text: Seq<char>, widths: Seq<nat>, n: int)
    requires
        0 <= n <= text.len(),
    ensures
        forall|p: int|
            0 <= p < origins(text, widths, n).len() ==> {
                let o = #[trigger] origins(text, widths, n)[p];
                &&& 0 <= o.0 <= o.1 <= encode_utf8(text).len()
                &&& is_char_boundary(encode_utf8(text), o.0)
                &&& is_char_boundary(encode_utf8(text), o.1)
            },
    decreases n,
{
    if n > 0 {
        origins_are_characters(text, widths, n - 1);
        let a = text.take(n - 1);
        let b = text.take(n);
        assert(a + text.skip(n - 1) =~= text);
        assert(b + text.skip(n) =~= text);
        assert(b =~= a + seq![text[n - 1]]);
        encode_boundary(a, text.skip(n - 1));
        encode_boundary(b, text.skip(n));
        encode_concat(a, seq![text[n - 1]]);
        encode_concat(b, text.skip(n));
        let before = origins(text, widths, n - 1);
        let all = origins(text, widths, n);
        assert forall|p: int| 0 <= p < all.len() implies {
            let o = #[trigger] all[p];
            &&& 0 <= o.0 <= o.1 <= encode_utf8(text).len()
            &&& is_char_boundary(encode_utf8(text), o.0)
            &&& is_char_boundary(encode_utf8(text), o.1)
        } by {
            if p < before.len() {
                assert(all[p] == before[p]);
            }
        }
    }
}

proof fn chars_of_no_bytes(s: Seq<char>)
    requires
        encode_utf8(s).len() == 0,
    ensures
        s.len() == 0,
{
    if s.len() > 0 {
        char_is_scalar(s[0]);
        encode_utf8_first_scalar(s);
    }
}

// ---------------------------------------------------------------------------
// Rows
// ---------------------------------------------------------------------------

/// The level filter after a click on the button for `button`: the button is
/// switched on, or off where it was on.
pub open spec fn toggled(filter: Option<LogLevel>, button: Option<LogLevel>) -> Option<LogLevel> {
    if filter == button {
        None
    } else {
        button
    }
}

/// A click on the filter button for `button`.
pub fn toggle_level(filter: &mut Option<LogLevel>, button: Option<LogLevel>)
    ensures
        *final(filter) == toggled(*old(filter), button),
{
    let is_selected = match (*filter, button) {
        (Some(a), Some(b)) => a == b,
        (None, None) => true,
        _ => false,
    };
    if is_selected {
        *filter = None;
    } else {
        *filter = button;
    }
}

/// How many of the first `n` entries have this level.
pub open spec fn count_level(entries: Seq<EntryView>, level: LogLevel, n: nat) -> nat
    decreases n,
{
    if n == 0 {
        0
    } else {
        count_level(entries, level, (n - 1) as nat) + if entries[n - 1].level == Some(level) {
            1nat
        } else {
            0
        }
    }
}

/// The counts on the filter buttons: all lines, then errors, warnings, infos
/// and debug lines.
pub fn button_counts(log_file: &LogFile) -> (r: (usize, usize, usize, usize, usize))
    ensures
        ({
            let e = log_file@.entries;
            &&& r.0 == e.len()
            &&& r.1 == count_level(e, LogLevel::Error, e.len())
            &&& r.2 == count_level(e, LogLevel::Warn, e.len())
            &&& r.3 == count_level(e, LogLevel::Info, e.len())
            &&& r.4 == count_level(e, LogLevel::Debug, e.len())
        }),
{
    let n: usize = log_file.entries.len();
    let ghost e = log_file@.entries;
    let mut errors: usize = 0;
    let mut warnings: usize = 0;
    let mut infos: usize = 0;
    let mut debugs: usize = 0;
    let mut i: usize = 0;
    while i < n
        invariant
            i <= n == log_file.entries@.len() == e.len(),
            e == log_file@.entries,
            errors == count_level(e, LogLevel::Error, i as nat) <= i,
            warnings == count_level(e, LogLevel::Warn, i as nat) <= i,
            infos == count_level(e, LogLevel::Info, i as nat) <= i,
            debugs == count_level(e, LogLevel::Debug, i as nat) <= i,
        decreases n - i,
    {
        assert(e[i as int].level == log_file.entries@[i as int].level);
        match log_file.entries[i].level {
            Some(LogLevel::Error) => {
                errors = errors + 1;
            },
            Some(LogLevel::Warn) => {
                warnings = warnings + 1;
            },
            Some(LogLevel::Info) => {
                infos = infos + 1;
            },
            Some(LogLevel::Debug) => {
                debugs = debugs + 1;
            },
            _ => {},
        }
        i = i + 1;
    }
    (n, errors, warnings, infos, debugs)
}

/// An entry is shown: its text contains the search string, both in lower
/// case, and it has the wanted level.
pub open spec fn is_shown(
    entry: EntryView,
    search: Seq<char>,
    filter: Option<LogLevel>,
) -> bool {
    &&& search.len() == 0 || occurs(
        encode_utf8(lowercase(entry.raw)),
        encode_utf8(lowercase(search)),
    )
    &&& filter matches Some(level) ==> entry.level == Some(level)
}

/// The entries below `n` that are shown, in order.
pub open spec fn shown_below(
    entries: Seq<EntryView>,
    search: Seq<char>,
    filter: Option<LogLevel>,
    n: nat,
) -> Seq<int>
    decreases n,
{
    if n == 0 {
        seq![]
    } else if is_shown(entries[n - 1], search, filter) {
        shown_below(entries, search, filter, (n - 1) as nat).push(n - 1)
    } else {
        shown_below(entries, search, filter, (n - 1) as nat)
    }
}

/// Collect the indices of the rows that match the search and level filter.
///
/// `search`: when non-empty, only rows whose `raw` contains the string
/// (case-insensitive) are shown.
pub fn filtered_rows(log_file: &LogFile, search: &str, filter: Option<LogLevel>) -> (r: Vec<usize>)
    ensures
        r@.map_values(|i: usize| i as int) == shown_below(
            log_file@.entries,
            search@,
            filter,
            log_file@.entries.len(),
        ),
{
    let search_lower = search.to_lowercase();
    let n: usize = log_file.entries.len();
    let ghost e = log_file@.entries;
    let mut r: Vec<usize> = Vec::new();
    let mut i: usize = 0;
    assert(r@.map_values(|i: usize| i as int) =~= shown_below(e, search@, filter, 0));
    while i < n
        invariant
            i <= n == log_file.entries@.len() == e.len(),
            e == log_file@.entries,
            search_lower@ == lowercase(search@),
            r@.map_values(|i: usize| i as int) == shown_below(e, search@, filter, i as nat),
        decreases n - i,
    {
        let entry = &log_file.entries[i];
        let lower = entry.raw.as_str().to_lowercase();
        let passes_search = search.is_empty() || contains(
            lower.as_str().as_bytes(),
            search_lower.as_str().as_bytes(),
        );
        let passes_level = match filter {
            Some(wanted) => match entry.level {
                Some(level) => level == wanted,
                None => false,
            },
            None => true,
        };
        assert(e[i as int] == entry@);
        assert((passes_search && passes_level) == is_shown(e[i as int], search@, filter));
        let ghost before = r@;
        if passes_search && passes_level {
            r.push(i);
            assert(r@.map_values(|i: usize| i as int) =~= before.map_values(
                |i: usize| i as int,
            ).push(i as int));
        }
        i = i + 1;
    }
    r
}

/// The heading of the text column: with a search, the number of rows found.
pub open spec fn heading(search: Seq<char>, rows: nat) -> Seq<char> {
    if search.len() == 0 {
        "Text"@
    } else {
        "Text  ("@ + decimal(rows) + " match"@ + if rows == 1 {
            ""@
        } else {
            "es"@
        } + ")"@
    }
}

/// The heading of the text column.
pub fn text_heading(search: &str, rows: usize) -> (r: String)
    ensures
        r@ == heading(search@, rows as nat),
{
    if search.is_empty() {
        return "Text".to_owned();
    }
    let mut r = "Text  (".to_owned();
    let count = decimal_text(rows as u64);
    r.append(count.as_str());
    r.append(" match");
    if rows != 1 {
        r.append("es");
    } else {
        r.append("");
    }
    r.append(")");
    r
}

// ---------------------------------------------------------------------------
// Laws
// ---------------------------------------------------------------------------

/// A second click on a button undoes the first, where the first switched the
/// button on.
pub proof fn toggling_twice_switches_off(filter: Option<LogLevel>, button: Option<LogLevel>)
    requires
        filter != button,
    ensures
        toggled(filter, button) == button,
        toggled(toggled(filter, button), button) is None,
{
}

/// The rows shown are ascending, and are exactly the entries that match.
pub proof fn shown_rows_are_exact(
    entries: Seq<EntryView>,
    search: Seq<char>,
    filter: Option<LogLevel>,
    n: nat,
)
    requires
        n <= entries.len(),
    ensures
        ({
            let rows = shown_below(entries, search, filter, n);
            &&& forall|i: int, j: int|
                0 <= i < j < rows.len() ==> #[trigger] rows[i] < #[trigger] rows[j]
            &&& forall|x: int|
                #[trigger] rows.contains(x) <==> 0 <= x < n && is_shown(
                    entries[x],
                    search,
                    filter,
                )
        }),
    decreases n,
{
    if n > 0 {
        shown_rows_are_exact(entries, search, filter, (n - 1) as nat);
        let before = shown_below(entries, search, filter, (n - 1) as nat);
        let rows = shown_below(entries, search, filter, n);
        if is_shown(entries[n - 1], search, filter) {
            assert(rows[before.len() as int] == n - 1);
            assert forall|x: int| before.contains(x) || x == n - 1 implies rows.contains(x) by {
                if before.contains(x) {
                    let k = before.index_of(x);
                    assert(rows[k] == x);
                }
            }
            assert forall|x: int| rows.contains(x) implies before.contains(x) || x == n - 1 by {
                let k = rows.index_of(x);
                if k < before.len() {
                    assert(before[k] == x);
                }
            }
            assert forall|i: int, j: int| 0 <= i < j < rows.len() implies #[trigger] rows[i]
                < #[trigger] rows[j] by {
                assert(before.contains(before[i]));
                assert(before[i] == rows[i]);
            }
        }
    }
}

/// Nothing of a text is lost or shown twice, and no character is cut: from
/// `done` on, the spans tile the text, and start and end between characters.
pub proof fn spans_make_up_the_text(
    lower: Seq<u8>,
    needle: Seq<u8>,
    from: Seq<(int, int)>,
    text: Seq<char>,
    cursor: int,
    done: int,
)
    requires
        needle.len() > 0,
        0 <= cursor <= lower.len(),
        0 <= done <= encode_utf8(text).len(),
        is_char_boundary(encode_utf8(text), done),
        forall|p: int|
            0 <= p < from.len() ==> {
                let o = #[trigger] from[p];
                &&& 0 <= o.0 <= o.1 <= encode_utf8(text).len()
                &&& is_char_boundary(encode_utf8(text), o.0)
                &&& is_char_boundary(encode_utf8(text), o.1)
            },
    ensures
        ({
            let len = encode_utf8(text).len() as int;
            let spans = spans_from(lower, needle, from, len, cursor, done);
            spans_tile(spans, done, len) && spans_are_slices(spans, encode_utf8(text))
        }),
    decreases lower.len() - cursor,
{
    let bytes = encode_utf8(text);
    let len = bytes.len() as int;
    encode_utf8_valid_utf8(text);
    is_char_boundary_start_end_of_seq(bytes);
    first_occurrence_is_least(lower, needle, cursor);
    if let Some(at) = first_occurrence(lower, needle, cursor) {
        let past = at + needle.len();
        let start = largest(done, origin(from, len, at).0);
        let end = largest(start, origin(from, len, past - 1).1);
        spans_make_up_the_text(lower, needle, from, text, past, end);
        let rest = spans_from(lower, needle, from, len, past, end);
        let before = if start > done {
            seq![SpanView { start: done, end: start, marked: false }]
        } else {
            seq![]
        };
        let own = if end > start {
            seq![SpanView { start, end, marked: true }]
        } else {
            seq![]
        };
        assert(spans_from(lower, needle, from, len, cursor, done) == before + own + rest);
        spans_chain(own, rest, start, end, len, bytes);
        spans_chain(before, own + rest, done, start, len, bytes);
        assert(before + own + rest =~= before + (own + rest));
    }
}

proof fn spans_chain(
    a: Seq<SpanView>,
    b: Seq<SpanView>,
    from: int,
    mid: int,
    to: int,
    bytes: Seq<u8>,
)
    requires
        spans_tile(a, from, mid),
        spans_tile(b, mid, to),
        spans_are_slices(a, bytes),
        spans_are_slices(b, bytes),
    ensures
        spans_tile(a + b, from, to),
        spans_are_slices(a + b, bytes),
{
    let c = a + b;
    assert forall|k: int| 0 <= k < c.len() implies (#[trigger] c[k]).start <= c[k].end
        && is_char_boundary(bytes, c[k].start) && is_char_boundary(bytes, c[k].end) by {
        if k < a.len() {
            assert(c[k] == a[k]);
        } else {
            assert(c[k] == b[k - a.len()]);
        }
    }
    assert forall|k: int| 0 < k < c.len() implies (#[trigger] c[k]).start == c[k - 1].end by {
        if k < a.len() {
            assert(c[k] == a[k] && c[k - 1] == a[k - 1]);
        } else if k > a.len() {
            assert(c[k] == b[k - a.len()] && c[k - 1] == b[k - a.len() - 1]);
        } else {
            assert(c[k] == b[0] && c[k - 1] == a.last());
        }
    }
    if a.len() > 0 {
        assert(c[0] == a[0]);
    }
    if b.len() > 0 {
        assert(c.last() == b.last());
    } else {
        assert(c =~= a);
    }
    if a.len() == 0 {
        assert(c =~= b);
    }
}

/// The origins of the bytes of a text of `n` ASCII characters, each of which
/// is a byte of its own.
pub open spec fn ascii_origins(n: nat) -> Seq<(int, int)> {
    Seq::new(n, |p: int| (p, p + 1))
}

/// In ASCII text every byte of the lower case comes from the byte at the same
/// place.
pub proof fn ascii_origins_are_places(text: Seq<char>, n: int)
    requires
        is_ascii_chars(text),
        0 <= n <= text.len(),
    ensures
        origins(text, Seq::new(text.len(), |k: int| 1nat), n) == ascii_origins(n as nat),
    decreases n,
{
    let ones = Seq::new(text.len(), |k: int| 1nat);
    if n > 0 {
        ascii_origins_are_places(text, n - 1);
        is_ascii_chars_encode_utf8(text.take(n - 1));
        is_ascii_chars_encode_utf8(text.take(n));
    }
    assert(origins(text, ones, n) =~= ascii_origins(n as nat));
}

/// In ASCII text a marked span holds the needle, and nothing more.
pub proof fn marked_spans_hold_the_needle(lower: Seq<u8>, needle: Seq<u8>, cursor: int, k: int)
    requires
        needle.len() > 0,
        0 <= cursor <= lower.len(),
        ({
            let len = lower.len() as int;
            let spans = spans_from(lower, needle, ascii_origins(len as nat), len, cursor, cursor);
            0 <= k < spans.len() && spans[k].marked
        }),
    ensures
        ({
            let len = lower.len() as int;
            let spans = spans_from(lower, needle, ascii_origins(len as nat), len, cursor, cursor);
            &&& occurs_at(lower, needle, spans[k].start)
            &&& spans[k].end == spans[k].start + needle.len()
        }),
    decreases lower.len() - cursor,
{
    let len = lower.len() as int;
    let o = ascii_origins(len as nat);
    let spans = spans_from(lower, needle, o, len, cursor, cursor);
    first_occurrence_is_least(lower, needle, cursor);
    if let Some(at) = first_occurrence(lower, needle, cursor) {
        let past = at + needle.len();
        let rest = spans_from(lower, needle, o, len, past, past);
        let m = if at > cursor {
            1int
        } else {
            0
        };
        if k > m {
            assert(spans[k] == rest[k - m - 1]);
            marked_spans_hold_the_needle(lower, needle, past, k - m - 1);
        }
    }
}

/// No occurrence is missed: in ASCII text the needle begins nowhere in a span
/// that is not marked.
pub proof fn unmarked_spans_hold_no_needle(
    lower: Seq<u8>,
    needle: Seq<u8>,
    cursor: int,
    k: int,
    at: int,
)
    requires
        needle.len() > 0,
        0 <= cursor <= lower.len(),
        ({
            let len = lower.len() as int;
            let spans = spans_from(lower, needle, ascii_origins(len as nat), len, cursor, cursor);
            0 <= k < spans.len() && !spans[k].marked && spans[k].start <= at < spans[k].end
        }),
    ensures
        !occurs_at(lower, needle, at),
    decreases lower.len() - cursor,
{
    let len = lower.len() as int;
    let o = ascii_origins(len as nat);
    let spans = spans_from(lower, needle, o, len, cursor, cursor);
    first_occurrence_is_least(lower, needle, cursor);
    if let Some(p) = first_occurrence(lower, needle, cursor) {
        let past = p + needle.len();
        let rest = spans_from(lower, needle, o, len, past, past);
        let m = if p > cursor {
            1int
        } else {
            0
        };
        if k > m {
            assert(spans[k] == rest[k - m - 1]);
            unmarked_spans_hold_no_needle(lower, needle, past, k - m - 1, at);
        }
    }
}

/// The search through an index and the filter on a log held in memory agree:
/// a row passes where an entry with its text and level is shown.
pub proof fn search_agrees_with_filter(
    parsed: &ParsedIndex,
    search: Seq<char>,
    filter: Option<LogLevel>,
    i: int,
    entry: EntryView,
)
    requires
        valid_utf8(parsed.lines.line(i)),
        entry.raw == parsed.lines.line_text(i),
        entry.level == Some(parsed.records@[i].level),
    ensures
        ({
            let query = if search.len() == 0 {
                seq![]
            } else {
                encode_utf8(lowercase(search))
            };
            row_passes(parsed, query, filter, i) == is_shown(entry, search, filter)
        }),
{
    let lower = encode_utf8(lowercase(entry.raw));
    assert(lower.subrange(0, 0) =~= Seq::<u8>::empty());
    if search.len() > 0 && encode_utf8(lowercase(search)).len() == 0 {
        assert(encode_utf8(lowercase(search)) =~= Seq::<u8>::empty());
        assert(occurs_at(lower, encode_utf8(lowercase(search)), 0));
    }
}

/// In ASCII text every occurrence of the needle is marked and nothing else is,
/// upper and lower case being the same: a marked span is as long as the needle
/// and holds it, wherever the needle stands a marked span covers its start,
/// and no needle begins in a span that is not marked.
pub proof fn ascii_needles_are_marked(text: Seq<char>, needle: Seq<char>)
    requires
        is_ascii_chars(text),
        is_ascii_chars(needle),
        needle.len() > 0,
    ensures
        ({
            let lower = ascii_lowercase(text);
            let wanted = ascii_lowercase(needle);
            let n = needle.len() as int;
            let spans = spans_with(
                text,
                needle,
                lower,
                wanted,
                Seq::new(text.len(), |k: int| 1nat),
            );
            &&& forall|k: int|
                0 <= k < spans.len() && (#[trigger] spans[k]).marked ==> {
                    &&& 0 <= spans[k].start
                    &&& spans[k].end == spans[k].start + n
                    &&& spans[k].end <= text.len()
                    &&& lower.subrange(spans[k].start, spans[k].end) == wanted
                }
            &&& forall|k: int, at: int|
                0 <= k < spans.len() && !(#[trigger] spans[k]).marked && spans[k].start <= at
                    < spans[k].end && at + n <= text.len() ==> #[trigger] lower.subrange(at, at + n)
                    != wanted
            &&& forall|at: int|
                0 <= at && at + n <= text.len() && #[trigger] lower.subrange(at, at + n) == wanted
                    ==> exists|k: int|
                    0 <= k < spans.len() && (#[trigger] spans[k]).marked && spans[k].start <= at
                        < spans[k].end
        }),
{
    let lower = ascii_lowercase(text);
    let wanted = ascii_lowercase(needle);
    let n = needle.len() as int;
    let len = text.len() as int;
    let ones = Seq::new(text.len(), |k: int| 1nat);
    let spans = spans_with(text, needle, lower, wanted, ones);
    ascii_lowercase_is_ascii(text);
    ascii_lowercase_is_ascii(needle);
    is_ascii_chars_encode_utf8(text);
    is_ascii_chars_encode_utf8(lower);
    is_ascii_chars_encode_utf8(wanted);
    ascii_origins_are_places(text, len);
    let b = encode_utf8(lower);
    let w = encode_utf8(wanted);
    assert forall|at: int| 0 <= at && at + n <= len implies (#[trigger] lower.subrange(at, at + n)
        == wanted <==> occurs_at(b, w, at)) by {
        if lower.subrange(at, at + n) == wanted {
            assert forall|j: int| 0 <= j < n implies b.subrange(at, at + n)[j] == w[j] by {
                assert(lower.subrange(at, at + n)[j] == lower[at + j]);
            }
            assert(b.subrange(at, at + n) =~= w);
        }
        if occurs_at(b, w, at) {
            assert forall|j: int| 0 <= j < n implies lower.subrange(at, at + n)[j] == wanted[j] by {
                assert(b.subrange(at, at + n)[j] == b[at + j]);
                assert(w[j] == wanted[j] as u8);
                assert(lower[at + j] as u8 == wanted[j] as u8);
                is_ascii_chars_nat_bound(lower);
                is_ascii_chars_nat_bound(wanted);
            }
            assert(lower.subrange(at, at + n) =~= wanted);
        }
    }
    assert forall|k: int| 0 <= k < spans.len() && (#[trigger] spans[k]).marked implies {
        &&& 0 <= spans[k].start
        &&& spans[k].end == spans[k].start + n
        &&& spans[k].end <= len
        &&& lower.subrange(spans[k].start, spans[k].end) == wanted
    } by {
        marked_spans_hold_the_needle(b, w, 0, k);
    }
    assert forall|k: int, at: int|
        0 <= k < spans.len() && !(#[trigger] spans[k]).marked && spans[k].start <= at
            < spans[k].end && at + n <= len implies #[trigger] lower.subrange(at, at + n)
        != wanted by {
        ascii_spans_start_inside(b, w, 0, k);
        unmarked_spans_hold_no_needle(b, w, 0, k, at);
    }
    let from = origins(text, ones, len);
    origins_are_characters(text, ones, len);
    encode_utf8_valid_utf8(text);
    is_char_boundary_start_end_of_seq(encode_utf8(text));
    spans_make_up_the_text(b, w, from, text, 0, 0);
    assert forall|at: int|
        0 <= at && at + n <= len && #[trigger] lower.subrange(at, at + n) == wanted implies exists|
        k: int,
    |
        0 <= k < spans.len() && (#[trigger] spans[k]).marked && spans[k].start <= at
            < spans[k].end by {
        let k = span_at(spans, 0, len, at);
        assert(spans[k].marked);
    }
}

proof fn ascii_lowercase_is_ascii(s: Seq<char>)
    requires
        is_ascii_chars(s),
    ensures
        is_ascii_chars(ascii_lowercase(s)),
        ascii_lowercase(s).len() == s.len(),
{
    is_ascii_chars_nat_bound(s);
}

proof fn ascii_spans_start_inside(lower: Seq<u8>, needle: Seq<u8>, cursor: int, k: int)
    requires
        needle.len() > 0,
        0 <= cursor <= lower.len(),
        ({
            let len = lower.len() as int;
            let spans = spans_from(lower, needle, ascii_origins(len as nat), len, cursor, cursor);
            0 <= k < spans.len()
        }),
    ensures
        ({
            let len = lower.len() as int;
            let spans = spans_from(lower, needle, ascii_origins(len as nat), len, cursor, cursor);
            cursor <= spans[k].start
        }),
    decreases lower.len() - cursor,
{
    let len = lower.len() as int;
    let o = ascii_origins(len as nat);
    let spans = spans_from(lower, needle, o, len, cursor, cursor);
    first_occurrence_is_least(lower, needle, cursor);
    if let Some(at) = first_occurrence(lower, needle, cursor) {
        let past = at + needle.len();
        let rest = spans_from(lower, needle, o, len, past, past);
        let m = if at > cursor {
            1int
        } else {
            0
        };
        if k > m {
            assert(spans[k] == rest[k - m - 1]);
            ascii_spans_start_inside(lower, needle, past, k - m - 1);
        }
    }
}

/// Spans that tile a stretch have one over every place in it.
proof fn span_at(spans: Seq<SpanView>, from: int, to: int, at: int) -> (k: int)
    requires
        spans_tile(spans, from, to),
        from <= at < to,
    ensures
        0 <= k < spans.len(),
        spans[k].start <= at < spans[k].end,
    decreases spans.len(),
{
    let last = spans.len() - 1;
    if spans[last].start <= at {
        last
    } else {
        let fewer = spans.drop_last();
        assert(spans[last].start == spans[last - 1].end);
        assert(fewer[0] == spans[0]);
        assert(fewer.last() == spans[last - 1]);
        assert forall|k: int| 0 < k < fewer.len() implies (#[trigger] fewer[k]).start == fewer[k
            - 1].end by {
            assert(fewer[k] == spans[k] && fewer[k - 1] == spans[k - 1]);
        }
        assert forall|k: int| 0 <= k < fewer.len() implies (#[trigger] fewer[k]).start
            <= fewer[k].end by {
            assert(fewer[k] == spans[k]);
        }
        let k = span_at(fewer, from, fewer.last().end, at);
        assert(fewer[k] == spans[k]);
        k
    }
}

/// An empty needle marks nothing: the text is one span that is not marked.
pub proof fn empty_needle_marks_nothing(text: Seq<char>, lower: Seq<char>, widths: Seq<nat>)
    ensures
        ({
            let spans = spans_with(text, Seq::empty(), lower, Seq::empty(), widths);
            &&& spans.len() == 1
            &&& spans[0].start == 0
            &&& spans[0].end == encode_utf8(text).len()
            &&& !spans[0].marked
        }),
{
}

/// The lower-case bytes of a character come one after another, those of each
/// character behind those of the characters before it, and each comes from the
/// whole of its character.
pub proof fn origins_follow_the_text(text: Seq<char>, widths: Seq<nat>, k: int, j: int)
    requires
        0 <= k < text.len(),
        0 <= j < widths[k],
    ensures
        ({
            let all = origins(text, widths, text.len() as int);
            let before = origins(text, widths, k).len();
            &&& origins(text, widths, 0).len() == 0
            &&& origins(text, widths, k + 1).len() == before + widths[k]
            &&& before + widths[k] <= all.len()
            &&& all[before + j] == (
                encode_utf8(text.take(k)).len() as int,
                encode_utf8(text.take(k + 1)).len() as int,
            )
        }),
{
    origins_grow(text, widths, k + 1, text.len() as int);
    let upto = origins(text, widths, k + 1);
    assert(upto == origins(text, widths, k) + Seq::new(
        widths[k],
        |i: int| (char_start(text, k), char_start(text, k + 1)),
    ));
    let at = origins(text, widths, k).len() + j;
    assert(upto[at] == (char_start(text, k), char_start(text, k + 1)));
}

proof fn origins_grow(text: Seq<char>, widths: Seq<nat>, m: int, n: int)
    requires
        0 <= m <= n,
    ensures
        origins(text, widths, m).len() <= origins(text, widths, n).len(),
        forall|p: int|
            0 <= p < origins(text, widths, m).len() ==> origins(text, widths, n)[p]
                == #[trigger] origins(text, widths, m)[p],
    decreases n - m,
{
    if m < n {
        origins_grow(text, widths, m, n - 1);
        let before = origins(text, widths, n - 1);
        assert forall|p: int| 0 <= p < before.len() implies origins(text, widths, n)[p]
            == before[p] by {}
    }
}

/// Characters stand in order: bytes of the lower case that come later come
/// from the same character or from one behind it.
proof fn origins_are_in_order(text: Seq<char>, widths: Seq<nat>, n: int)
    requires
        0 <= n <= text.len(),
    ensures
        forall|p: int|
            0 <= p < origins(text, widths, n).len() ==> 0 <= (#[trigger] origins(
                text,
                widths,
                n,
            )[p]).0 < origins(text, widths, n)[p].1 <= char_start(text, n),
        forall|p: int, q: int|
            0 <= p <= q < origins(text, widths, n).len() ==> {
                let a = #[trigger] origins(text, widths, n)[p];
                let b = #[trigger] origins(text, widths, n)[q];
                a == b || a.1 <= b.0
            },
    decreases n,
{
    if n > 0 {
        origins_are_in_order(text, widths, n - 1);
        let c = text[n - 1];
        assert(text.take(n) =~= text.take(n - 1) + seq![c]);
        encode_concat(text.take(n - 1), seq![c]);
        assert(char_start(text, n - 1) < char_start(text, n)) by {
            if encode_utf8(seq![c]).len() == 0 {
                chars_of_no_bytes(seq![c]);
            }
        }
        let before = origins(text, widths, n - 1);
        let all = origins(text, widths, n);
        assert forall|p: int| 0 <= p < all.len() implies 0 <= (#[trigger] all[p]).0 < all[p].1
            <= char_start(text, n) by {
            if p < before.len() {
                assert(all[p] == before[p]);
            }
        }
        assert forall|p: int, q: int| 0 <= p <= q < all.len() implies {
            let a = #[trigger] all[p];
            let b = #[trigger] all[q];
            a == b || a.1 <= b.0
        } by {
            if q < before.len() {
                assert(all[p] == before[p] && all[q] == before[q]);
            } else if p < before.len() {
                assert(all[p] == before[p]);
            }
        }
    }
}

/// Where the needle stands in the lower case at `p`, the character behind it
/// is marked from `done` on, or was passed before.
proof fn occurrence_is_marked(
    lower: Seq<u8>,
    needle: Seq<u8>,
    from: Seq<(int, int)>,
    len: int,
    cursor: int,
    done: int,
    p: int,
)
    requires
        needle.len() > 0,
        from.len() == lower.len(),
        forall|i: int| 0 <= i < from.len() ==> 0 <= (#[trigger] from[i]).0 < from[i].1,
        forall|i: int, j: int|
            0 <= i <= j < from.len() ==> {
                let a = #[trigger] from[i];
                let b = #[trigger] from[j];
                a == b || a.1 <= b.0
            },
        0 <= cursor <= p,
        if cursor == 0 {
            done == 0
        } else {
            cursor <= from.len() && done == from[cursor - 1].1
        },
        occurs_at(lower, needle, p),
    ensures
        ({
            let spans = spans_from(lower, needle, from, len, cursor, done);
            from[p].1 <= done || exists|k: int|
                0 <= k < spans.len() && (#[trigger] spans[k]).marked && spans[k].start
                    <= from[p].0 && from[p].1 <= spans[k].end
        }),
    decreases lower.len() - cursor,
{
    let spans = spans_from(lower, needle, from, len, cursor, done);
    first_occurrence_is_least(lower, needle, cursor);
    let at = first_occurrence(lower, needle, cursor)->0;
    let past = at + needle.len();
    let start = largest(done, from[at].0);
    let end = largest(start, from[past - 1].1);
    let rest = spans_from(lower, needle, from, len, past, end);
    assert(from[at] == from[past - 1] || from[at].1 <= from[past - 1].0);
    if cursor > 0 {
        assert(from[cursor - 1] == from[past - 1] || from[cursor - 1].1 <= from[past - 1].0);
        assert(from[cursor - 1] == from[p] || from[cursor - 1].1 <= from[p].0);
    }
    assert(end == from[past - 1].1);
    let before = if start > done {
        seq![SpanView { start: done, end: start, marked: false }]
    } else {
        seq![]
    };
    let own = if end > start {
        seq![SpanView { start, end, marked: true }]
    } else {
        seq![]
    };
    assert(spans == before + own + rest);
    let m = before.len() as int;
    if p < past {
        assert(from[at] == from[p] || from[at].1 <= from[p].0);
        assert(from[p] == from[past - 1] || from[p].1 <= from[past - 1].0);
        if from[p].1 > done {
            assert(spans[m].marked);
        }
    } else {
        occurrence_is_marked(lower, needle, from, len, past, end, p);
        if from[p].1 <= end {
            assert(from[past - 1] == from[p] || from[past - 1].1 <= from[p].0);
            assert(from[at] == from[p] || from[at].1 <= from[p].0);
            if from[p].1 > done {
                assert(spans[m].marked);
            }
        } else {
            let k = choose|k: int|
                0 <= k < rest.len() && (#[trigger] rest[k]).marked && rest[k].start <= from[p].0
                    && from[p].1 <= rest[k].end;
            assert(spans[before.len() + own.len() + k] == rest[k]);
        }
    }
}

/// A marked span ends where the last character of an occurrence ends, and
/// starts with the first character of it, or behind an earlier occurrence.
proof fn mark_is_an_occurrence(
    lower: Seq<u8>,
    needle: Seq<u8>,
    from: Seq<(int, int)>,
    len: int,
    cursor: int,
    done: int,
    k: int,
)
    requires
        needle.len() > 0,
        from.len() == lower.len(),
        0 <= cursor,
        0 <= k < spans_from(lower, needle, from, len, cursor, done).len(),
        spans_from(lower, needle, from, len, cursor, done)[k].marked,
    ensures
        ({
            let span = spans_from(lower, needle, from, len, cursor, done)[k];
            exists|p: int| #[trigger]
                occurs_at(lower, needle, p) && from[p].0 <= span.start && span.end == from[p
                    + needle.len() - 1].1
        }),
    decreases lower.len() - cursor,
{
    let spans = spans_from(lower, needle, from, len, cursor, done);
    first_occurrence_is_least(lower, needle, cursor);
    let at = first_occurrence(lower, needle, cursor)->0;
    let past = at + needle.len();
    let start = largest(done, from[at].0);
    let end = largest(start, from[past - 1].1);
    let rest = spans_from(lower, needle, from, len, past, end);
    let before = if start > done {
        seq![SpanView { start: done, end: start, marked: false }]
    } else {
        seq![]
    };
    let own = if end > start {
        seq![SpanView { start, end, marked: true }]
    } else {
        seq![]
    };
    assert(spans == before + own + rest);
    let m = before.len() + own.len();
    if k >= m {
        assert(spans[k] == rest[k - m]);
        mark_is_an_occurrence(lower, needle, from, len, past, end, k - m);
    } else {
        assert(occurs_at(lower, needle, at));
    }
}

/// In any text every occurrence of the needle is marked and nothing else is:
/// where the lower case of the text holds the lower case of the needle, the
/// character it starts in lies whole in a marked span; and a marked span ends
/// with the last character of an occurrence and starts no earlier than its
/// first.
pub proof fn needles_are_marked(
    text: Seq<char>,
    needle: Seq<char>,
    text_lower: Seq<char>,
    needle_lower: Seq<char>,
    widths: Seq<nat>,
    p: int,
    k: int,
)
    requires
        needle.len() > 0,
        encode_utf8(needle_lower).len() > 0,
        origins(text, widths, text.len() as int).len() == encode_utf8(text_lower).len(),
    ensures
        ({
            let b = encode_utf8(text_lower);
            let w = encode_utf8(needle_lower);
            let from = origins(text, widths, text.len() as int);
            let spans = spans_with(text, needle, text_lower, needle_lower, widths);
            &&& 0 <= p <= b.len() - w.len() && b.subrange(p, p + w.len()) == w ==> exists|i: int|
                0 <= i < spans.len() && (#[trigger] spans[i]).marked && spans[i].start <= from[p].0
                    && from[p].1 <= spans[i].end
            &&& 0 <= k < spans.len() && spans[k].marked ==> exists|q: int|
                0 <= q <= b.len() - w.len() && #[trigger] b.subrange(q, q + w.len()) == w
                    && from[q].0 <= spans[k].start && spans[k].end == from[q + w.len() - 1].1
        }),
{
    let b = encode_utf8(text_lower);
    let w = encode_utf8(needle_lower);
    let len = encode_utf8(text).len() as int;
    let from = origins(text, widths, text.len() as int);
    let spans = spans_with(text, needle, text_lower, needle_lower, widths);
    origins_are_in_order(text, widths, text.len() as int);
    assert(spans == spans_from(b, w, from, len, 0, 0));
    if 0 <= p <= b.len() - w.len() && b.subrange(p, p + w.len()) == w {
        assert(occurs_at(b, w, p));
        occurrence_is_marked(b, w, from, len, 0, 0, p);
    }
    if 0 <= k < spans.len() && spans[k].marked {
        mark_is_an_occurrence(b, w, from, len, 0, 0, k);
        let q = choose|q: int| #[trigger]
            occurs_at(b, w, q) && from[q].0 <= spans[k].start && spans[k].end == from[q + w.len()
                - 1].1;
        assert(b.subrange(q, q + w.len()) == w);
    }
}

/// A level filter on a log held in memory is equality, each level being
/// answered by its own entries only; without a filter every level is shown.
pub proof fn shown_levels_are_the_wanted_ones(entry: EntryView, search: Seq<char>)
    ensures
        is_shown(entry, Seq::empty(), Some(LogLevel::Error)) <==> entry.level == Some(
            LogLevel::Error,
        ),
        is_shown(entry, Seq::empty(), Some(LogLevel::Warn)) <==> entry.level == Some(
            LogLevel::Warn,
        ),
        is_shown(entry, Seq::empty(), Some(LogLevel::Info)) <==> entry.level == Some(
            LogLevel::Info,
        ),
        is_shown(entry, Seq::empty(), Some(LogLevel::Debug)) <==> entry.level == Some(
            LogLevel::Debug,
        ),
        is_shown(entry, Seq::empty(), Some(LogLevel::Trace)) <==> entry.level == Some(
            LogLevel::Trace,
        ),
        is_shown(entry, Seq::empty(), Some(LogLevel::Unknown)) <==> entry.level == Some(
            LogLevel::Unknown,
        ),
        is_shown(entry, Seq::empty(), None),
        forall|wanted: LogLevel|
            #[trigger] is_shown(entry, search, Some(wanted)) <==> is_shown(entry, search, None)
                && entry.level == Some(wanted),
{
}

/// Without a level filter an entry is shown exactly where the lower case of
/// the search string stands somewhere in the lower case of its text.
pub proof fn shown_texts_hold_the_search(entry: EntryView, search: Seq<char>, at: int)
    requires
        search.len() > 0,
    ensures
        ({
            let b = encode_utf8(lowercase(entry.raw));
            let w = encode_utf8(lowercase(search));
            &&& 0 <= at <= b.len() - w.len() && b.subrange(at, at + w.len()) == w ==> is_shown(
                entry,
                search,
                None,
            )
            &&& is_shown(entry, search, None) ==> exists|q: int|
                0 <= q <= b.len() - w.len() && #[trigger] b.subrange(q, q + w.len()) == w
        }),
{
    let b = encode_utf8(lowercase(entry.raw));
    let w = encode_utf8(lowercase(search));
    if 0 <= at <= b.len() - w.len() && b.subrange(at, at + w.len()) == w {
        assert(occurs_at(b, w, at));
    }
    if is_shown(entry, search, None) {
        let q = choose|q: int| occurs_at(b, w, q);
        assert(b.subrange(q, q + w.len()) == w);
    }
}

/// A button counts the rows that it shows: as many entries have a level as
/// there are rows when it is the filter and nothing is searched for.
pub proof fn buttons_count_the_rows_they_show(
    entries: Seq<EntryView>,
    level: LogLevel,
    n: nat,
)
    requires
        n <= entries.len(),
    ensures
        count_level(entries, level, n) == shown_below(
            entries,
            Seq::empty(),
            Some(level),
            n,
        ).len(),
        count_level(entries, level, n) == entries.take(n as int).filter(
            |e: EntryView| e.level == Some(level),
        ).len(),
    decreases n,
{
    let wanted = |e: EntryView| e.level == Some(level);
    if n > 0 {
        buttons_count_the_rows_they_show(entries, level, (n - 1) as nat);
        let upto = entries.take(n as int);
        assert(upto.drop_last() =~= entries.take(n - 1));
        reveal(Seq::filter);
    } else {
        reveal(Seq::filter);
    }
}

/// A click on the button that is on switches it off, a click on any other
/// switches that one on.
pub proof fn clicks_switch_one_button(filter: Option<LogLevel>, button: LogLevel)
    ensures
        filter == Some(button) ==> toggled(filter, Some(button)) is None,
        filter != Some(button) ==> toggled(filter, Some(button)) == Some(button),
        toggled(filter, None) is None,
{
}

/// The heading says how many rows a search found, in base ten, and one row is
/// a match, any other number of them matches.
pub proof fn heading_counts_matches(search: Seq<char>, rows: nat)
    ensures
        search.len() == 0 ==> heading(search, rows) == "Text"@,
        search.len() > 0 && rows == 1 ==> heading(search, rows) == "Text  (1 match)"@,
        search.len() > 0 && rows != 1 ==> heading(search, rows) == "Text  ("@ + decimal(rows)
            + " matches)"@,
{
    reveal_strlit("Text  (");
    reveal_strlit(" match");
    reveal_strlit("es");
    reveal_strlit("");
    reveal_strlit(")");
    reveal_strlit(" matches)");
    reveal_strlit("Text  (1 match)");
    if search.len() > 0 && rows != 1 {
        assert(heading(search, rows) =~= "Text  ("@ + decimal(rows) + " matches)"@);
    }
    if search.len() > 0 && rows == 1 {
        reveal_with_fuel(decimal, 2);
        assert(decimal(1) =~= seq!['1']);
        assert(heading(search, rows) =~= "Text  (1 match)"@);
    }
}

/// Errors are red, warnings amber, debug lines and traces grey; every other
/// line has the default colour.
pub proof fn levels_have_their_colours(level: LogLevel)
    ensures
        color_of(None) is None,
        level == LogLevel::Error <==> color_of(Some(level)) == Some(Rgb { r: 255, g: 100, b: 100 }),
        level == LogLevel::Warn <==> color_of(Some(level)) == Some(Rgb { r: 255, g: 200, b: 80 }),
        level == LogLevel::Debug || level == LogLevel::Trace <==> color_of(Some(level)) == Some(
            Rgb { r: 120, g: 120, b: 120 },
        ),
        level == LogLevel::Info || level == LogLevel::Unknown <==> color_of(Some(level)) is None,
{
}

/// The widths used for marking are those of the lower case: for every
/// character of the text, the number of bytes its lower case takes.
pub proof fn widths_are_of_the_lower_case(text: Seq<char>, k: int)
    requires
        0 <= k < text.len(),
    ensures
        lower_widths(text).len() == text.len(),
        lower_widths(text)[k] == encode_utf8(lowercase(text.subrange(k, k + 1))).len(),
{
    assert(text.subrange(k, k + 1) =~= seq![text[k]]);
}

} // verus!
