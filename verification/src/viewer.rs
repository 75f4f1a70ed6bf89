//! State of the viewer and the decisions it takes from frame to frame.
//!
//! [`LogViewerApp`] holds plain values only. Windows, dialogs, threads and
//! clocks belong to the program around it, which reports what happened and
//! carries out what is asked for.
use std::sync::Arc;

use roaring::RoaringBitmap;
use vstd::prelude::*;
use vstd::string::*;
use vstd::utf8::*;

use crate::chars::{self, ascii_lowercase, lowercase, same_text, trimmed};
use crate::numbers::{group_digits, grouped, decimal, parse_unsigned, unsigned_up_to};
use crate::recent::{mark_same, may_mark, put_first, texts, unmarked, with_file};
use crate::search::{
    ascending, ascending_is_bounded, bitmap_collect, bitmap_extend, bitmap_rows, RowSearch,
};
use crate::types::{text_of, AppError, LogLevel, ParsedIndex};

verus! {

/// How long the filter must have stayed the same before a search starts, in
/// nanoseconds.
pub const DEBOUNCE_NANOS: u128 = 150_000_000;

/// State of the viewer.
pub struct LogViewerApp<'a> {
    /// Last successfully loaded index.
    pub parsed: Option<Arc<ParsedIndex<'a>>>,
    /// Number of lines of each level, by the slot of the level.
    pub level_counts: [usize; 6],
    /// Path of the file being loaded, while a load is running.
    pub loading: Option<String>,
    /// Most recent error, shown until dismissed.
    pub last_error: Option<String>,
    /// `true` = dark, `false` = light.
    pub dark_mode: bool,
    /// Recently opened files, the latest first.
    pub recent_files: Vec<String>,
    /// Current search string; filters and highlights the log table.
    pub search: String,
    /// Current log level filter.
    pub level_filter: Option<LogLevel>,
    /// Jump to line input.
    pub jump_input: String,
    /// Pending line jump request.
    pub scroll_to_line: Option<usize>,
    /// Request focus on jump input.
    pub focus_jump: bool,
    /// Request focus on search input.
    pub focus_search: bool,
    /// The search string that the filter was last built for.
    pub last_search: String,
    /// The level that the filter was last built for.
    pub last_level_filter: Option<LogLevel>,
    /// Rows that pass the current filter.
    pub filtered_bitmap: RoaringBitmap,
    /// Number of rows in `filtered_bitmap`.
    pub filtered_count: u64,
    /// Counts on the filter buttons: all lines, then errors, warnings, infos
    /// and debug lines.
    pub search_counts: (usize, usize, usize, usize, usize),
    /// The filter must be built anew.
    pub needs_filter_update: bool,
    /// A search is running.
    pub searching: bool,
    /// The last search has delivered all its rows.
    pub search_complete: bool,
    /// Bytes scanned by the running load, and the size of the file.
    pub load_progress: Option<(u64, u64)>,
    /// Size of the loaded file.
    pub file_size_bytes: u64,
    /// Which of the filtered rows was last jumped to.
    pub match_cursor: Option<usize>,
}

impl<'a> LogViewerApp<'a> {
    /// The rows that pass the current filter, in ascending order.
    pub open spec fn filtered(&self) -> Seq<u32> {
        bitmap_rows(self.filtered_bitmap)
    }

    /// The filtered rows are in order, the count is theirs, and each of them
    /// has a line number in 32 bits.
    pub open spec fn wf(&self) -> bool {
        &&& ascending(self.filtered())
        &&& self.filtered_count == self.filtered().len()
        &&& forall|x: u32| #[trigger] self.filtered().contains(x) ==> x < u32::MAX
    }
}

impl<'a> Default for LogViewerApp<'a> {
    /// Nothing loaded, dark theme, no filter.
    fn default() -> (r: Self)
        ensures
            r.wf(),
            r.parsed is None,
            r.level_counts@ == seq![0usize, 0, 0, 0, 0, 0],
            r.loading is None,
            r.last_error is None,
            r.dark_mode,
            r.recent_files@.len() == 0,
            r.search@.len() == 0,
            r.level_filter is None,
            r.jump_input@.len() == 0,
            r.scroll_to_line is None,
            !r.focus_jump,
            !r.focus_search,
            r.last_search@.len() == 0,
            r.last_level_filter is None,
            r.filtered().len() == 0,
            r.search_counts == (0usize, 0usize, 0usize, 0usize, 0usize),
            !r.needs_filter_update,
            !r.searching,
            !r.search_complete,
            r.load_progress is None,
            r.file_size_bytes == 0,
            r.match_cursor is None,
    {
        let r = LogViewerApp {
            parsed: None,
            level_counts: [0, 0, 0, 0, 0, 0],
            loading: None,
            last_error: None,
            dark_mode: true,
            recent_files: Vec::new(),
            search: String::new(),
            level_filter: None,
            jump_input: String::new(),
            scroll_to_line: None,
            focus_jump: false,
            focus_search: false,
            last_search: String::new(),
            last_level_filter: None,
            filtered_bitmap: RoaringBitmap::new(),
            filtered_count: 0,
            search_counts: (0, 0, 0, 0, 0),
            needs_filter_update: false,
            searching: false,
            search_complete: false,
            load_progress: None,
            file_size_bytes: 0,
            match_cursor: None,
        };
        assert(r.level_counts@ =~= seq![0usize, 0, 0, 0, 0, 0]);
        r
    }
}

// ---------------------------------------------------------------------------
// Loading
// ---------------------------------------------------------------------------

impl<'a> LogViewerApp<'a> {
    /// A load of `path` was started. Any previous error is discarded; the old
    /// file stays visible until the new one arrives.
    pub fn begin_load(&mut self, path: String)
        ensures
            *final(self) == (LogViewerApp {
                loading: Some(path),
                load_progress: None,
                last_error: None,
                ..*old(self)
            }),
    {
        self.load_progress = None;
        self.loading = Some(path);
        self.last_error = None;
    }

    /// The running load reported how far it is.
    pub fn note_progress(&mut self, scanned: u64, total: u64)
        ensures
            *final(self) == (LogViewerApp {
                load_progress: Some((scanned, total)),
                ..*old(self)
            }),
    {
        self.load_progress = Some((scanned, total));
    }

    /// The running load has ended.
    ///
    /// A loaded file replaces the one before, goes to the front of the recent
    /// files and asks for the filter to be built anew. A failed load leaves
    /// the file before in place and shows the error.
    pub fn finish_load(&mut self, outcome: Result<(ParsedIndex<'a>, [usize; 6], u64), AppError>)
        requires
            old(self).loading is Some,
        ensures
            match outcome {
                Ok((parsed, counts, file_size)) => {
                    &&& *final(self) == (LogViewerApp {
                        parsed: final(self).parsed,
                        level_counts: counts,
                        loading: None,
                        last_error: None,
                        recent_files: final(self).recent_files,
                        needs_filter_update: true,
                        file_size_bytes: file_size,
                        ..*old(self)
                    })
                    &&& final(self).parsed is Some
                    &&& *final(self).parsed->0 == parsed
                    &&& exists|same: Seq<bool>|
                        #[trigger] may_mark(
                            texts(old(self).recent_files@),
                            old(self).loading->0@,
                            same,
                        ) && texts(final(self).recent_files@) == with_file(
                            texts(old(self).recent_files@),
                            same,
                            old(self).loading->0@,
                        )
                },
                Err(e) => {
                    &&& *final(self) == (LogViewerApp {
                        loading: None,
                        last_error: final(self).last_error,
                        ..*old(self)
                    })
                    &&& text_of(final(self).last_error) == Some(e.shown())
                },
            },
    {
        match self.loading.take() {
            Some(path) => {
                match outcome {
                    Ok((parsed, counts, file_size)) => {
                        let same = mark_same(&self.recent_files, path.as_str());
                        self.recent_files = put_first(&self.recent_files, &same, path);
                        self.level_counts = counts;
                        self.file_size_bytes = file_size;
                        self.needs_filter_update = true;
                        self.parsed = Some(Arc::new(parsed));
                        self.last_error = None;
                    },
                    Err(e) => {
                        self.last_error = Some(e.message());
                    },
                }
            },
            None => {},
        }
    }

    /// The list of recent files was read back: the files on `lines` are added,
    /// but for those that are `missing` by now.
    pub fn restore_recent(&mut self, lines: &Vec<String>, missing: &Vec<bool>)
        requires
            lines@.len() == missing@.len(),
        ensures
            *final(self) == (LogViewerApp {
                recent_files: final(self).recent_files,
                ..*old(self)
            }),
            texts(final(self).recent_files@) == texts(old(self).recent_files@) + unmarked(
                texts(lines@),
                missing@,
                lines@.len() as int,
            ),
    {
        let ghost before = texts(self.recent_files@);
        let ghost all = texts(lines@);
        let mut i: usize = 0;
        assert(texts(self.recent_files@) =~= before + unmarked(all, missing@, 0));
        while i < lines.len()
            invariant
                i <= lines@.len() == missing@.len(),
                all == texts(lines@),
                *self == (LogViewerApp { recent_files: self.recent_files, ..*old(self) }),
                texts(self.recent_files@) == before + unmarked(all, missing@, i as int),
            decreases lines@.len() - i,
        {
            let ghost so_far = texts(self.recent_files@);
            if !missing[i] {
                self.recent_files.push(lines[i].clone());
                assert(texts(self.recent_files@) =~= so_far.push(all[i as int]));
                assert(so_far.push(all[i as int]) =~= before + unmarked(all, missing@, i + 1));
            }
            i = i + 1;
        }
    }

    /// The error was dismissed.
    pub fn dismiss_error(&mut self)
        ensures
            *final(self) == (LogViewerApp { last_error: None, ..*old(self) }),
    {
        self.last_error = None;
    }
}

// ---------------------------------------------------------------------------
// Searching
// ---------------------------------------------------------------------------

/// What was seen when looking for results of the running search.
pub enum SearchEvent {
    /// Some rows arrived.
    Rows(Vec<u32>),
    /// Nothing has arrived yet.
    Pending,
    /// No more rows will arrive, or no search is running.
    Closed,
}

impl<'a> LogViewerApp<'a> {
    /// Whether a new search is to start: none is running, the filter must be
    /// built anew, and it has stayed the same for long enough.
    pub open spec fn is_search_due(&self, unchanged_nanos: u128) -> bool {
        !self.searching && unchanged_nanos > DEBOUNCE_NANOS && self.needs_filter_update
    }

    /// Start a search if one is due: it begins with no rows found. Without a
    /// file there is nothing to search, and the request is dropped.
    pub fn start_due_search(&mut self, unchanged_nanos: u128) -> (r: Option<RowSearch>)
        requires
            old(self).wf(),
        ensures
            final(self).wf(),
            match r {
                Some(s) => {
                    &&& old(self).is_search_due(unchanged_nanos)
                    &&& old(self).parsed is Some
                    &&& *final(self) == (LogViewerApp {
                        needs_filter_update: false,
                        filtered_bitmap: final(self).filtered_bitmap,
                        filtered_count: 0,
                        search_complete: false,
                        searching: true,
                        ..*old(self)
                    })
                    &&& final(self).filtered().len() == 0
                    &&& s.query@ == lowercase(old(self).search@)
                    &&& is_ascii_chars(old(self).search@) ==> s.query@ == ascii_lowercase(
                        old(self).search@,
                    )
                    &&& s.level == old(self).level_filter
                    &&& s.next == 0
                    &&& s.batch@.len() == 0
                },
                None => {
                    &&& !old(self).is_search_due(unchanged_nanos) || old(self).parsed is None
                    &&& *final(self) == (LogViewerApp {
                        needs_filter_update: old(self).needs_filter_update
                            && !old(self).is_search_due(unchanged_nanos),
                        ..*old(self)
                    })
                },
            },
    {
        if self.searching || unchanged_nanos <= DEBOUNCE_NANOS || !self.needs_filter_update {
            return None;
        }
        self.needs_filter_update = false;
        if self.parsed.is_none() {
            return None;
        }
        self.filtered_bitmap.clear();
        self.filtered_count = 0;
        self.search_complete = false;
        self.searching = true;
        Some(RowSearch::new(self.search.as_str(), self.level_filter))
    }

    /// Take in what was seen of the running search. Returns whether to look
    /// again at once.
    pub fn take_search_event(&mut self, event: SearchEvent) -> (again: bool)
        requires
            old(self).wf(),
            event matches SearchEvent::Rows(rows) ==> forall|x: u32|
                #[trigger] rows@.contains(x) ==> x < u32::MAX,
        ensures
            final(self).wf(),
            match event {
                SearchEvent::Rows(rows) => {
                    &&& again
                    &&& *final(self) == (LogViewerApp {
                        filtered_bitmap: final(self).filtered_bitmap,
                        filtered_count: final(self).filtered_count,
                        ..*old(self)
                    })
                    &&& forall|x: u32|
                        #[trigger] final(self).filtered().contains(x) <==> old(
                            self,
                        ).filtered().contains(x) || rows@.contains(x)
                },
                SearchEvent::Pending => !again && *final(self) == *old(self),
                SearchEvent::Closed => {
                    &&& !again
                    &&& *final(self) == (LogViewerApp {
                        searching: false,
                        search_complete: true,
                        ..*old(self)
                    })
                },
            },
    {
        match event {
            SearchEvent::Rows(rows) => {
                bitmap_extend(&mut self.filtered_bitmap, rows);
                self.filtered_count = self.filtered_bitmap.len();
                true
            },
            SearchEvent::Pending => false,
            SearchEvent::Closed => {
                self.searching = false;
                self.search_complete = true;
                false
            },
        }
    }

    /// The filter that the rows were found with.
    pub open spec fn is_filter_current(&self) -> bool {
        self.search@ == self.last_search@ && self.level_filter == self.last_level_filter
    }

    /// Note a change of the search string or of the level: the filter must be
    /// built anew, and the walk through the matches starts over. Returns
    /// whether there was a change, which restarts the wait before a search.
    pub fn note_filter_change(&mut self) -> (changed: bool)
        ensures
            changed == !old(self).is_filter_current(),
            final(self).is_filter_current(),
            *final(self) == if changed {
                LogViewerApp {
                    last_search: final(self).last_search,
                    last_level_filter: old(self).level_filter,
                    needs_filter_update: true,
                    match_cursor: None,
                    ..*old(self)
                }
            } else {
                *old(self)
            },
    {
        let search_changed = !same_text(self.search.as_str(), self.last_search.as_str());
        let level_changed = match (self.level_filter, self.last_level_filter) {
            (Some(a), Some(b)) => a != b,
            (None, None) => false,
            _ => true,
        };
        if search_changed || level_changed {
            self.last_search = self.search.clone();
            self.last_level_filter = self.level_filter;
            self.needs_filter_update = true;
            self.match_cursor = None;
            return true;
        }
        false
    }

    /// Escape: no search string and no level filter.
    pub fn clear_filter(&mut self)
        ensures
            *final(self) == (LogViewerApp {
                search: final(self).search,
                level_filter: None,
                ..*old(self)
            }),
            final(self).search@.len() == 0,
    {
        self.search = String::new();
        self.level_filter = None;
    }

    /// Empty the search string; the level filter stays.
    pub fn clear_search(&mut self)
        ensures
            *final(self) == (LogViewerApp { search: final(self).search, ..*old(self) }),
            final(self).search@.len() == 0,
    {
        self.search = String::new();
    }

    /// The text of the filtered rows, in order.
    pub fn filtered_lines(&self) -> (r: Vec<String>)
        requires
            self.parsed is Some,
            self.parsed->0.wf(),
            forall|k: int|
                0 <= k < self.filtered().len() ==> (#[trigger] self.filtered()[k])
                    < self.parsed->0.records@.len(),
        ensures
            r@.len() == self.filtered().len(),
            forall|k: int|
                0 <= k < r@.len() ==> (#[trigger] r@[k])@ == self.parsed->0.lines.line_text(
                    self.filtered()[k] as int,
                ),
    {
        let mut r: Vec<String> = Vec::new();
        if let Some(parsed) = &self.parsed {
            let rows = bitmap_collect(&self.filtered_bitmap);
            let mut i: usize = 0;
            while i < rows.len()
                invariant
                    i <= rows@.len(),
                    self.parsed == Some(*parsed),
                    parsed.wf(),
                    rows@ == self.filtered(),
                    forall|k: int|
                        0 <= k < rows@.len() ==> (#[trigger] self.filtered()[k])
                            < parsed.records@.len(),
                    r@.len() == i,
                    forall|k: int|
                        0 <= k < i ==> (#[trigger] r@[k])@ == parsed.lines.line_text(
                            self.filtered()[k] as int,
                        ),
                decreases rows@.len() - i,
            {
                assert(self.filtered()[i as int] == rows@[i as int]);
                assert(parsed.lines.has_line(rows@[i as int] as int));
                r.push(parsed.lines.line_str(rows[i] as usize).to_owned());
                i = i + 1;
            }
        }
        r
    }

    /// Whether every filtered row is a row of the loaded file. Right after a
    /// file was loaded the rows may still be those of the file before.
    pub fn rows_fit(&self) -> (r: bool)
        ensures
            r == (self.parsed is Some && forall|k: int|
                0 <= k < self.filtered().len() ==> (#[trigger] self.filtered()[k])
                    < self.parsed->0.records@.len()),
    {
        match &self.parsed {
            Some(parsed) => {
                let n: usize = parsed.records.len();
                let rows = bitmap_collect(&self.filtered_bitmap);
                let mut i: usize = 0;
                while i < rows.len()
                    invariant
                        i <= rows@.len(),
                        self.parsed == Some(*parsed),
                        n == parsed.records@.len(),
                        rows@ == self.filtered(),
                        forall|k: int|
                            0 <= k < i ==> (#[trigger] self.filtered()[k]) < n,
                    decreases rows@.len() - i,
                {
                    if rows[i] as usize >= n {
                        assert(self.filtered()[i as int] >= n);
                        return false;
                    }
                    i = i + 1;
                }
                true
            },
            None => false,
        }
    }
}

// ---------------------------------------------------------------------------
// Moving about
// ---------------------------------------------------------------------------

/// Line `n` of a file with `count` lines: at least the first, at most the last.
pub open spec fn clamped_line(n: nat, count: nat) -> nat {
    let at_least = if n < 1 {
        1
    } else {
        n
    };
    if at_least > count {
        count
    } else {
        at_least
    }
}

/// The cursor after `cursor` among `count` matches; after the last comes the
/// first.
pub open spec fn next_match(cursor: nat, count: nat) -> nat {
    (cursor + 1) % count
}

/// The cursor before `cursor` among `count` matches; before the first comes
/// the last.
pub open spec fn previous_match(cursor: nat, count: nat) -> nat {
    if cursor == 0 {
        (count - 1) as nat
    } else {
        (cursor - 1) as nat
    }
}

impl<'a> LogViewerApp<'a> {
    /// Where the walk through the matches stands.
    pub open spec fn cursor(&self) -> nat {
        match self.match_cursor {
            Some(c) => c as nat,
            None => 0,
        }
    }

    /// The line number in the jump input, if it is one.
    pub open spec fn jump_number(&self) -> Option<nat> {
        unsigned_up_to(encode_utf8(trimmed(self.jump_input@)), usize::MAX as nat)
    }

    /// Enter in the jump input: ask to scroll to the line it names, and empty
    /// it. Anything but a number is just dropped.
    pub fn jump(&mut self)
        requires
            old(self).parsed is Some,
        ensures
            *final(self) == (LogViewerApp {
                scroll_to_line: final(self).scroll_to_line,
                jump_input: final(self).jump_input,
                ..*old(self)
            }),
            final(self).jump_input@.len() == 0,
            match old(self).jump_number() {
                Some(n) => final(self).scroll_to_line is Some && final(self).scroll_to_line->0
                    == clamped_line(n, old(self).parsed->0.lines.offsets@.len()),
                None => final(self).scroll_to_line == old(self).scroll_to_line,
            },
    {
        if let Some(parsed) = &self.parsed {
            let count: usize = parsed.lines.len();
            let input = chars::trim(self.jump_input.as_str());
            if let Some(n) = parse_unsigned(input.as_bytes(), usize::MAX as u64) {
                let at_least: usize = if n < 1 {
                    1
                } else {
                    n as usize
                };
                self.scroll_to_line = Some(
                    if at_least > count {
                        count
                    } else {
                        at_least
                    },
                );
            }
        }
        self.jump_input = String::new();
    }

    /// Whether stepping back lands on a match. The walk may stand beyond the
    /// matches while those of a newly loaded file come in.
    pub fn can_step_back(&self) -> (r: bool)
        ensures
            r == (self.cursor() <= self.filtered_count),
    {
        match self.match_cursor {
            Some(c) => c as u64 <= self.filtered_count,
            None => true,
        }
    }

    /// Go to the next match, or else to the previous one, around the ends, and
    /// ask to scroll to its line. Without matches nothing happens.
    pub fn step_match(&mut self, next: bool, previous: bool)
        requires
            old(self).wf(),
            old(self).filtered_count > 0 && previous && !next ==> old(self).cursor()
                <= old(self).filtered_count,
            old(self).filtered_count > 0 && next ==> old(self).cursor() < usize::MAX,
        ensures
            final(self).wf(),
            *final(self) == (LogViewerApp {
                match_cursor: final(self).match_cursor,
                scroll_to_line: final(self).scroll_to_line,
                ..*old(self)
            }),
            if (next || previous) && old(self).filtered_count > 0 {
                let count = old(self).filtered_count as nat;
                let c = if next {
                    next_match(old(self).cursor(), count)
                } else {
                    previous_match(old(self).cursor(), count)
                };
                &&& c < count
                &&& final(self).match_cursor is Some
                &&& final(self).match_cursor->0 == c
                &&& final(self).scroll_to_line is Some
                &&& final(self).scroll_to_line->0 == old(self).filtered()[c as int] + 1
            } else {
                *final(self) == *old(self)
            },
    {
        if (!next && !previous) || self.filtered_count == 0 {
            return;
        }
        let ghost rows = self.filtered();
        let count: u64 = self.filtered_count;
        let at: usize = match self.match_cursor {
            Some(c) => c,
            None => 0,
        };
        let cursor: u64 = if next {
            (at as u64 + 1) % count
        } else if at > 0 {
            at as u64 - 1
        } else {
            count - 1
        };
        proof {
            ascending_is_bounded(rows, cursor as int);
            assert(rows.contains(rows[cursor as int]));
        }
        if let Some(row) = self.filtered_bitmap.select(cursor as u32) {
            self.match_cursor = Some(cursor as usize);
            self.scroll_to_line = Some(row as usize + 1);
        }
    }

    /// What the match label shows: which match the walk stands at, counted
    /// from one, and how many there are.
    pub fn match_position(&self) -> (r: (u64, u64))
        ensures
            r.1 == self.filtered_count,
            r.0 == if self.cursor() + 1 <= self.filtered_count {
                self.cursor() + 1
            } else {
                self.filtered_count as nat
            },
    {
        let at: u64 = match self.match_cursor {
            Some(c) => c as u64,
            None => 0,
        };
        if at < self.filtered_count {
            (at + 1, self.filtered_count)
        } else {
            (self.filtered_count, self.filtered_count)
        }
    }
}

// ---------------------------------------------------------------------------
// What is shown
// ---------------------------------------------------------------------------

/// The window title: the file being loaded, else the file shown, else the
/// name of the program alone.
pub open spec fn title_of(loading: Option<Seq<char>>, shown: Option<Seq<char>>) -> Seq<char> {
    match loading {
        Some(name) => "Log Viewer — Loading "@ + name + "…"@,
        None => match shown {
            Some(name) => "Log Viewer — "@ + name,
            None => "Log Viewer"@,
        },
    }
}

/// The window title for the names of the file being loaded and of the file
/// shown.
pub fn window_title(loading: Option<&str>, shown: Option<&str>) -> (r: String)
    ensures
        r@ == title_of(
            match loading {
                Some(n) => Some(n@),
                None => None,
            },
            match shown {
                Some(n) => Some(n@),
                None => None,
            },
        ),
{
    if let Some(name) = loading {
        let mut r = "Log Viewer — Loading ".to_owned();
        r.append(name);
        r.append("…");
        return r;
    }
    match shown {
        Some(name) => {
            let mut r = "Log Viewer — ".to_owned();
            r.append(name);
            r
        },
        None => "Log Viewer".to_owned(),
    }
}

impl<'a> LogViewerApp<'a> {
    /// Switch between the dark and the light theme.
    pub fn toggle_theme(&mut self)
        ensures
            *final(self) == (LogViewerApp { dark_mode: !old(self).dark_mode, ..*old(self) }),
    {
        self.dark_mode = !self.dark_mode;
    }

    /// The format and the number of lines of the loaded file, as the status
    /// bar shows them.
    pub fn status(&self) -> (r: Option<(String, String)>)
        ensures
            match r {
                Some((format, lines)) => {
                    &&& self.parsed is Some
                    &&& format@ == if self.parsed->0.format@.len() == 0 {
                        "Unknown"@
                    } else {
                        self.parsed->0.format@
                    }
                    &&& lines@ == grouped(decimal(self.parsed->0.lines.offsets@.len()))
                },
                None => self.parsed is None,
            },
    {
        match &self.parsed {
            Some(parsed) => {
                let format = if parsed.format.as_str().is_empty() {
                    "Unknown".to_owned()
                } else {
                    parsed.format.clone()
                };
                Some((format, group_digits(parsed.lines.len() as u64)))
            },
            None => None,
        }
    }

    /// Bring the counts on the filter buttons up to date: they count the
    /// whole file, whatever the filter.
    pub fn refresh_counts(&mut self)
        requires
            old(self).parsed is Some,
        ensures
            *final(self) == (LogViewerApp {
                search_counts: (
                    final(self).search_counts.0,
                    old(self).level_counts@[0],
                    old(self).level_counts@[1],
                    old(self).level_counts@[2],
                    old(self).level_counts@[3],
                ),
                ..*old(self)
            }),
            final(self).search_counts.0 == old(self).parsed->0.lines.offsets@.len(),
    {
        if let Some(parsed) = &self.parsed {
            let all: usize = parsed.lines.len();
            self.search_counts = (
                all,
                self.level_counts[0],
                self.level_counts[1],
                self.level_counts[2],
                self.level_counts[3],
            );
        }
    }
}

// ---------------------------------------------------------------------------
// Laws
// ---------------------------------------------------------------------------

/// Stepping forward and then back, or back and then forward, ends where it
/// began.
pub proof fn steps_undo_each_other(cursor: nat, count: nat)
    requires
        cursor < count,
    ensures
        next_match(cursor, count) < count,
        previous_match(cursor, count) < count,
        previous_match(next_match(cursor, count), count) == cursor,
        next_match(previous_match(cursor, count), count) == cursor,
{
    if cursor + 1 < count {
        vstd::arithmetic::div_mod::lemma_small_mod(cursor + 1, count);
    } else {
        vstd::arithmetic::div_mod::lemma_mod_self_0(count as int);
    }
    vstd::arithmetic::div_mod::lemma_small_mod(cursor, count);
    vstd::arithmetic::div_mod::lemma_mod_self_0(count as int);
}

/// A jump never leaves a file that has lines.
pub proof fn jumps_stay_inside(n: nat, count: nat)
    requires
        count > 0,
    ensures
        1 <= clamped_line(n, count) <= count,
        1 <= n <= count ==> clamped_line(n, count) == n,
{
}

/// A jump beyond the end goes to the last line, one before the start to the
/// first, and in a file without lines there is only line zero to go to.
pub proof fn jumps_are_clamped(n: nat, count: nat)
    ensures
        n > count ==> clamped_line(n, count) == count,
        n == 0 && count > 0 ==> clamped_line(n, count) == 1,
        count == 0 ==> clamped_line(n, count) == 0,
{
}

/// Forward means one further and back one less, around the ends.
pub proof fn steps_go_one_by_one(cursor: nat, count: nat)
    requires
        cursor < count,
    ensures
        cursor + 1 < count ==> next_match(cursor, count) == cursor + 1,
        cursor + 1 == count ==> next_match(cursor, count) == 0,
        cursor > 0 ==> previous_match(cursor, count) == cursor - 1,
        cursor == 0 ==> previous_match(cursor, count) == count - 1,
{
    if cursor + 1 < count {
        vstd::arithmetic::div_mod::lemma_small_mod(cursor + 1, count);
    } else {
        vstd::arithmetic::div_mod::lemma_mod_self_0(count as int);
    }
}

/// A walk that stands beyond the matches goes on as if it had gone around them.
pub proof fn steps_go_around(cursor: nat, count: nat)
    requires
        count > 0,
    ensures
        next_match(cursor, count) < count,
        next_match(cursor + count, count) == next_match(cursor, count),
{
    vstd::arithmetic::div_mod::lemma_mod_add_multiples_vanish((cursor + 1) as int, count as int);
    assert(cursor + count + 1 == count + (cursor + 1));
}

/// A walk that was not started stands at the first match.
pub proof fn walks_start_at_the_first_match(app: &LogViewerApp)
    ensures
        app.match_cursor is None ==> app.cursor() == 0,
        app.match_cursor matches Some(c) ==> app.cursor() == c,
{
}

/// A line number in base ten is read from the jump input, with white space
/// around it or without.
pub proof fn jump_numbers_are_read(
    app: &LogViewerApp,
    before: Seq<char>,
    n: nat,
    after: Seq<char>,
)
    requires
        forall|k: int| 0 <= k < before.len() ==> chars::white_space(#[trigger] before[k]),
        forall|k: int| 0 <= k < after.len() ==> chars::white_space(#[trigger] after[k]),
        app.jump_input@ == before + decimal(n) + after,
    ensures
        n <= usize::MAX ==> app.jump_number() == Some(n),
        n > usize::MAX ==> app.jump_number() is None,
{
    let d = decimal(n);
    crate::numbers::decimal_is_digits(n);
    crate::numbers::decimal_reads_back(n);
    assert('0' <= d[0] <= '9');
    assert('0' <= d[d.len() - 1] <= '9');
    chars::trimming_drops_white_space(before, d, after);
}

/// A search is due once the filter has stayed the same for more than 150
/// milliseconds, where it must be built anew and no search is running.
pub proof fn searches_wait_for_quiet(app: &LogViewerApp, unchanged_nanos: u128)
    ensures
        app.searching ==> !app.is_search_due(unchanged_nanos),
        !app.needs_filter_update ==> !app.is_search_due(unchanged_nanos),
        unchanged_nanos <= 150_000_000 ==> !app.is_search_due(unchanged_nanos),
        !app.searching && app.needs_filter_update && unchanged_nanos > 150_000_000
            ==> app.is_search_due(unchanged_nanos),
{
}

/// The filter is current as long as neither the search string nor the level
/// has changed; a change of either is enough.
pub proof fn any_change_makes_the_filter_stale(app: &LogViewerApp)
    ensures
        app.search@ != app.last_search@ ==> !app.is_filter_current(),
        app.level_filter != app.last_level_filter ==> !app.is_filter_current(),
        app.search@ == app.last_search@ && app.level_filter == app.last_level_filter
            ==> app.is_filter_current(),
{
}

/// The title names the file being loaded before the file shown, and always
/// starts with the name of the program.
pub proof fn title_names_the_file(loading: Seq<char>, shown: Option<Seq<char>>, name: Seq<char>)
    ensures
        title_of(Some(loading), shown).take(10) == "Log Viewer"@,
        title_of(Some(loading), shown).subrange(21, 21int + loading.len()) == loading,
        title_of(Some(loading), shown).len() == 22 + loading.len(),
        title_of(None, Some(name)).take(10) == "Log Viewer"@,
        title_of(None, Some(name)).skip(13) == name,
        title_of(None, None) == "Log Viewer"@,
{
    reveal_strlit("Log Viewer — Loading ");
    reveal_strlit("…");
    reveal_strlit("Log Viewer — ");
    reveal_strlit("Log Viewer");
    assert(title_of(Some(loading), shown).take(10) =~= "Log Viewer"@);
    assert(title_of(Some(loading), shown).subrange(21, 21int + loading.len()) =~= loading);
    assert(title_of(None, Some(name)).take(10) =~= "Log Viewer"@);
    assert(title_of(None, Some(name)).skip(13) =~= name);
}

} // verus!
