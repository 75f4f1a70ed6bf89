//! The list of recently opened files and the text file that keeps it.
use vstd::prelude::*;
use vstd::string::*;
use vstd::utf8::*;

use crate::chars;
use crate::paths::{may_be_same, same_path};

verus! {

// ---------------------------------------------------------------------------
// The list
// ---------------------------------------------------------------------------

/// Number of files kept in the list.
pub const KEPT: usize = 5;

/// The texts of a list of paths.
pub open spec fn texts(files: Seq<String>) -> Seq<Seq<char>> {
    files.map_values(|f: String| f@)
}

/// The first `n` of `files` that are not marked as equal to the file just
/// opened, in order.
pub open spec fn unmarked(files: Seq<Seq<char>>, same: Seq<bool>, n: int) -> Seq<Seq<char>>
    decreases n,
{
    if n <= 0 {
        seq![]
    } else if same[n - 1] {
        unmarked(files, same, n - 1)
    } else {
        unmarked(files, same, n - 1).push(files[n - 1])
    }
}

/// At most the first [`KEPT`] of `files`.
pub open spec fn cut(files: Seq<Seq<char>>) -> Seq<Seq<char>> {
    if files.len() <= KEPT {
        files
    } else {
        files.take(KEPT as int)
    }
}

/// The list after opening `path`: the new file first, then the files before,
/// without those that `same` marks as equal to it.
pub open spec fn with_file(
    files: Seq<Seq<char>>,
    same: Seq<bool>,
    path: Seq<char>,
) -> Seq<Seq<char>> {
    cut(seq![path] + unmarked(files, same, files.len() as int))
}

/// `same` marks files that may be equal to `path`.
pub open spec fn may_mark(files: Seq<Seq<char>>, path: Seq<char>, same: Seq<bool>) -> bool {
    &&& same.len() == files.len()
    &&& forall|k: int|
        0 <= k < files.len() ==> may_be_same(#[trigger] files[k], path, same[k])
}

/// Puts `path` at the front of `files`, takes out the files that `same` marks,
/// and keeps no more than [`KEPT`].
pub fn put_first(files: &Vec<String>, same: &Vec<bool>, path: String) -> (r: Vec<String>)
    requires
        same@.len() == files@.len(),
    ensures
        texts(r@) == with_file(texts(files@), same@, path@),
{
    let ghost before = texts(files@);
    let ghost name = path@;
    let mut r: Vec<String> = Vec::new();
    r.push(path);
    let mut i: usize = 0;
    assert(texts(r@) =~= cut(seq![name] + unmarked(before, same@, 0)));
    while i < files.len()
        invariant
            i <= files@.len() == same@.len(),
            before == texts(files@),
            texts(r@) == cut(seq![name] + unmarked(before, same@, i as int)),
        decreases files@.len() - i,
    {
        assert(texts(r@).len() == r@.len());
        let ghost so_far = seq![name] + unmarked(before, same@, i as int);
        let ghost kept = r@;
        if !same[i] {
            assert(seq![name] + unmarked(before, same@, i + 1) =~= so_far.push(before[i as int]));
            if r.len() < KEPT {
                r.push(files[i].clone());
                assert(texts(r@) =~= texts(kept).push(before[i as int]));
            } else {
                assert(so_far.push(before[i as int]).take(KEPT as int) =~= so_far.take(
                    KEPT as int,
                ));
                assert(so_far.take(KEPT as int) =~= texts(r@));
            }
        }
        i = i + 1;
    }
    r
}

/// The marks for [`put_first`].
pub(crate) fn mark_same(files: &Vec<String>, path: &str) -> (r: Vec<bool>)
    ensures
        may_mark(texts(files@), path@, r@),
{
    let mut r: Vec<bool> = Vec::new();
    let mut i: usize = 0;
    while i < files.len()
        invariant
            i <= files@.len(),
            r@.len() == i,
            forall|k: int|
                0 <= k < i ==> may_be_same(#[trigger] texts(files@)[k], path@, r@[k]),
        decreases files@.len() - i,
    {
        r.push(same_path(files[i].as_str(), path));
        i = i + 1;
    }
    r
}

// ---------------------------------------------------------------------------
// The text file
// ---------------------------------------------------------------------------

/// The paths, one per line; no line feed after the last.
pub open spec fn joined(files: Seq<Seq<char>>) -> Seq<char>
    decreases files.len(),
{
    if files.len() == 0 {
        seq![]
    } else if files.len() == 1 {
        files[0]
    } else {
        joined(files.drop_last()) + "\n"@ + files.last()
    }
}

/// The text that keeps the list.
pub fn config_text(files: &Vec<String>) -> (r: String)
    ensures
        r@ == joined(texts(files@)),
{
    let ghost all = texts(files@);
    let mut r = String::new();
    let mut i: usize = 0;
    assert(r@ =~= joined(all.take(0)));
    while i < files.len()
        invariant
            i <= files@.len(),
            all == texts(files@),
            r@ == joined(all.take(i as int)),
        decreases files@.len() - i,
    {
        let ghost before = r@;
        if i > 0 {
            r.append("\n");
        }
        r.append(files[i].as_str());
        proof {
            let now = all.take(i + 1);
            assert(now.drop_last() =~= all.take(i as int));
            assert(now.last() == files@[i as int]@);
        }
        i = i + 1;
        assert(r@ =~= joined(all.take(i as int)));
    }
    assert(all.take(all.len() as int) =~= all);
    r
}

/// `line` without a carriage return at its end.
pub open spec fn strip_return(line: Seq<u8>) -> Seq<u8> {
    if line.len() > 0 && line.last() == 13 {
        line.drop_last()
    } else {
        line
    }
}

/// The position of the first line feed from `at` on, or the length.
pub open spec fn line_feed_from(b: Seq<u8>, at: int) -> int
    decreases b.len() - at,
{
    if at < 0 || at >= b.len() || b[at] == 10 {
        at
    } else {
        line_feed_from(b, at + 1)
    }
}

/// The lines of `b` from `at` on, without their line ends; what follows the
/// last line feed is a line only where it is not empty.
pub open spec fn lines_from(b: Seq<u8>, at: int) -> Seq<Seq<u8>>
    decreases b.len() - at,
{
    if at < 0 || at >= b.len() {
        seq![]
    } else {
        let end = line_feed_from(b, at);
        if at <= end < b.len() {
            seq![strip_return(b.subrange(at, end))] + lines_from(b, end + 1)
        } else {
            seq![b.skip(at)]
        }
    }
}

/// The UTF-8 bytes of texts.
pub open spec fn encoded(lines: Seq<Seq<char>>) -> Seq<Seq<u8>> {
    lines.map_values(|l: Seq<char>| encode_utf8(l))
}

proof fn line_feed_is_first(b: Seq<u8>, at: int)
    requires
        0 <= at <= b.len(),
    ensures
        at <= line_feed_from(b, at) <= b.len(),
        line_feed_from(b, at) < b.len() ==> b[line_feed_from(b, at)] == 10,
        forall|k: int| at <= k < line_feed_from(b, at) ==> #[trigger] b[k] != 10,
    decreases b.len() - at,
{
    if at < b.len() && b[at] != 10 {
        line_feed_is_first(b, at + 1);
    }
}

/// The lines of the text that keeps the list.
pub fn config_lines(content: &str) -> (r: Vec<String>)
    ensures
        encoded(texts(r@)) == lines_from(encode_utf8(content@), 0),
{
    let b = content.as_bytes();
    let total: usize = b.len();
    let mut r: Vec<String> = Vec::new();
    let mut at: usize = 0;
    proof {
        encode_utf8_valid_utf8(content@);
    }
    assert(encoded(texts(r@)) + lines_from(b@, 0) =~= lines_from(b@, 0));
    while at < total
        invariant
            at <= total == b@.len(),
            b@ == content.spec_bytes(),
            valid_utf8(b@),
            is_char_boundary(b@, at as int),
            encoded(texts(r@)) + lines_from(b@, at as int) == lines_from(b@, 0),
        decreases total - at,
    {
        let ghost start = at as int;
        let ghost before = encoded(texts(r@));
        let mut end: usize = at;
        while end < total && b[end] != 10
            invariant
                at <= end <= total == b@.len(),
                line_feed_from(b@, end as int) == line_feed_from(b@, at as int),
            decreases total - end,
        {
            end = end + 1;
        }
        proof {
            if end < total {
                chars::boundary_at_ascii(b@, end as int);
                chars::boundary_after_ascii(b@, end + 1);
            } else {
                is_char_boundary_start_end_of_seq(b@);
            }
        }
        if end < total {
            let mut stop: usize = end;
            if stop > at && b[stop - 1] == 13 {
                stop = stop - 1;
                proof {
                    chars::boundary_at_ascii(b@, stop as int);
                }
            }
            let line = chars::slice(content, at, stop);
            r.push(line.to_owned());
            assert(line.spec_bytes() =~= strip_return(b@.subrange(start, end as int)));
            at = end + 1;
            assert(encoded(texts(r@)) =~= before.push(line.spec_bytes()));
            assert(lines_from(b@, start) == seq![line.spec_bytes()] + lines_from(b@, at as int));
            assert(before.push(line.spec_bytes()) + lines_from(b@, at as int) =~= before + (seq![
                line.spec_bytes(),
            ] + lines_from(b@, at as int)));
        } else {
            let line = chars::slice(content, at, end);
            r.push(line.to_owned());
            assert(line.spec_bytes() =~= b@.skip(start));
            at = end;
            assert(encoded(texts(r@)) =~= before.push(line.spec_bytes()));
            assert(encoded(texts(r@)) + lines_from(b@, at as int) =~= before + lines_from(
                b@,
                start,
            ));
        }
    }
    assert(encoded(texts(r@)) + lines_from(b@, at as int) =~= encoded(texts(r@)));
    r
}

// ---------------------------------------------------------------------------
// Laws
// ---------------------------------------------------------------------------

/// The file just opened comes first, and the list never grows beyond its
/// limit.
pub proof fn opened_file_comes_first(files: Seq<Seq<char>>, same: Seq<bool>, path: Seq<char>)
    ensures
        0 < with_file(files, same, path).len() <= KEPT,
        with_file(files, same, path)[0] == path,
{
}

proof fn unmarked_members(files: Seq<Seq<char>>, same: Seq<bool>, n: int)
    requires
        0 <= n <= files.len() == same.len(),
    ensures
        forall|f: Seq<char>|
            #[trigger] unmarked(files, same, n).contains(f) ==> exists|k: int|
                0 <= k < n && files[k] == f && !same[k],
    decreases n,
{
    if n > 0 {
        unmarked_members(files, same, n - 1);
        let before = unmarked(files, same, n - 1);
        let now = unmarked(files, same, n);
        assert forall|f: Seq<char>| #[trigger] now.contains(f) implies exists|k: int|
            0 <= k < n && files[k] == f && !same[k] by {
            let i = now.index_of(f);
            if i < before.len() {
                assert(before[i] == f);
                assert(before.contains(f));
            } else {
                assert(files[n - 1] == f && !same[n - 1]);
            }
        }
    }
}

proof fn unmarked_keeps_apart(files: Seq<Seq<char>>, same: Seq<bool>, n: int)
    requires
        0 <= n <= files.len() == same.len(),
        files.no_duplicates(),
    ensures
        unmarked(files, same, n).no_duplicates(),
    decreases n,
{
    if n > 0 {
        unmarked_keeps_apart(files, same, n - 1);
        unmarked_members(files, same, n - 1);
        let before = unmarked(files, same, n - 1);
        if !same[n - 1] {
            if before.contains(files[n - 1]) {
                let k = choose|k: int| 0 <= k < n - 1 && files[k] == files[n - 1] && !same[k];
                assert(files[k] != files[n - 1]);
            }
            assert(unmarked(files, same, n).no_duplicates()) by {
                let now = unmarked(files, same, n);
                assert forall|i: int, j: int|
                    0 <= i < now.len() && 0 <= j < now.len() && i != j implies now[i]
                    != now[j] by {
                    if i == before.len() {
                        assert(before.contains(before[j]));
                    } else if j == before.len() {
                        assert(before.contains(before[i]));
                    }
                }
            }
        }
    }
}

/// No file stands in the list twice: opening a file takes out where it stood
/// before.
pub proof fn no_file_is_listed_twice(files: Seq<Seq<char>>, same: Seq<bool>, path: Seq<char>)
    requires
        files.no_duplicates(),
        may_mark(files, path, same),
    ensures
        with_file(files, same, path).no_duplicates(),
{
    let n = files.len() as int;
    unmarked_keeps_apart(files, same, n);
    unmarked_members(files, same, n);
    let rest = unmarked(files, same, n);
    let all = seq![path] + rest;
    assert(!rest.contains(path)) by {
        if rest.contains(path) {
            let k = choose|k: int| 0 <= k < n && files[k] == path && !same[k];
            assert(may_be_same(files[k], path, same[k]));
        }
    }
    assert forall|i: int, j: int|
        0 <= i < all.len() && 0 <= j < all.len() && i != j implies all[i] != all[j] by {
        if i == 0 {
            assert(rest.contains(rest[j - 1]));
        } else if j == 0 {
            assert(rest.contains(rest[i - 1]));
        } else {
            assert(rest[i - 1] != rest[j - 1]);
        }
    }
}

/// A path that a line of its own can keep: not empty, without a line feed,
/// and not ending in a carriage return.
pub open spec fn keepable(path: Seq<char>) -> bool {
    let b = encode_utf8(path);
    &&& b.len() > 0
    &&& b.last() != 13
    &&& forall|k: int| 0 <= k < b.len() ==> #[trigger] b[k] != 10
}

proof fn one_line(b: Seq<u8>, at: int, line: Seq<u8>)
    requires
        0 <= at <= b.len(),
        b.skip(at) == line,
        line.len() > 0,
        forall|k: int| 0 <= k < line.len() ==> #[trigger] line[k] != 10,
    ensures
        lines_from(b, at) == seq![line],
{
    line_feed_is_first(b, at);
    let end = line_feed_from(b, at);
    if end < b.len() {
        assert(line[end - at] == b[end]);
    }
}

proof fn lines_grow(b: Seq<u8>, at: int, line: Seq<u8>)
    requires
        0 <= at < b.len(),
        b.last() != 10,
        b.last() != 13,
        line.len() > 0,
        forall|k: int| 0 <= k < line.len() ==> #[trigger] line[k] != 10,
    ensures
        lines_from(b + seq![10u8] + line, at) == lines_from(b, at).push(line),
    decreases b.len() - at,
{
    let c = b + seq![10u8] + line;
    line_feed_is_first(b, at);
    line_feed_is_first(c, at);
    let end = line_feed_from(b, at);
    let end_after = line_feed_from(c, at);
    if end < b.len() {
        assert(end_after == end) by {
            assert(c[end] == 10);
            if end_after < end {
                assert(b[end_after] != 10);
            }
        }
        assert(c.subrange(at, end) =~= b.subrange(at, end));
        if end + 1 < b.len() {
            lines_grow(b, end + 1, line);
            assert(lines_from(c, at) =~= lines_from(b, at).push(line));
        } else {
            assert(b.last() == b[end]);
        }
    } else {
        assert(c[b.len() as int] == 10);
        assert(end_after == b.len()) by {
            if end_after < b.len() {
                assert(b[end_after] != 10);
            }
        }
        let own = b.skip(at);
        assert(c.subrange(at, end_after) =~= own);
        assert(own.last() == b.last());
        assert(c.skip(end_after + 1) =~= line);
        one_line(c, end_after + 1, line);
        assert(lines_from(c, at) =~= lines_from(b, at).push(line));
    }
}

/// The list reads back from the text that keeps it.
pub proof fn config_reads_back(files: Seq<Seq<char>>)
    requires
        forall|k: int| 0 <= k < files.len() ==> keepable(#[trigger] files[k]),
    ensures
        lines_from(encode_utf8(joined(files)), 0) == encoded(files),
    decreases files.len(),
{
    if files.len() == 0 {
        assert(encode_utf8(joined(files)) =~= Seq::<u8>::empty());
        assert(encoded(files) =~= Seq::<Seq<u8>>::empty());
    } else {
        let line = encode_utf8(files.last());
        assert(keepable(files[files.len() - 1]));
        if files.len() == 1 {
            assert(line.skip(0) =~= line);
            one_line(line, 0, line);
            assert(encoded(files) =~= seq![line]);
        } else {
            let front = files.drop_last();
            let b = encode_utf8(joined(front));
            assert forall|k: int| 0 <= k < front.len() implies keepable(#[trigger] front[k]) by {
                assert(front[k] == files[k]);
            }
            config_reads_back(front);
            joined_ends_like_last(front);
            reveal_strlit("\n");
            assert("\n"@ =~= seq!['\n']);
            chars::ascii_literal("\n");
            assert(encode_utf8("\n"@) =~= seq![10u8]);
            chars::encode_concat(joined(front), "\n"@);
            chars::encode_concat(joined(front) + "\n"@, files.last());
            lines_grow(b, 0, line);
            assert(encoded(files) =~= encoded(front).push(line));
        }
    }
}

proof fn joined_ends_like_last(files: Seq<Seq<char>>)
    requires
        files.len() > 0,
        forall|k: int| 0 <= k < files.len() ==> keepable(#[trigger] files[k]),
    ensures
        ({
            let b = encode_utf8(joined(files));
            b.len() > 0 && b.last() != 10 && b.last() != 13
        }),
{
    let last = encode_utf8(files.last());
    assert(keepable(files[files.len() - 1]));
    assert(last[last.len() - 1] != 10);
    if files.len() > 1 {
        let front = joined(files.drop_last()) + "\n"@;
        chars::encode_concat(front, files.last());
        let b = encode_utf8(joined(files));
        assert(b.last() == last.last());
    }
}

/// A file that is new to the list goes to its front, and the files before keep
/// their order; only the first five are kept.
pub proof fn new_files_push_the_others_back(
    files: Seq<Seq<char>>,
    same: Seq<bool>,
    path: Seq<char>,
)
    requires
        same.len() == files.len(),
        forall|k: int| 0 <= k < same.len() ==> !#[trigger] same[k],
    ensures
        files.len() <= 4 ==> with_file(files, same, path) == seq![path] + files,
        files.len() >= 5 ==> with_file(files, same, path) == (seq![path] + files).take(5),
{
    unmarked_prefix(files, same, files.len() as int);
    assert(files.take(files.len() as int) =~= files);
}

/// A file that stood in the list moves to its front, and the others keep their
/// order.
pub proof fn reopened_files_move_to_the_front(
    files: Seq<Seq<char>>,
    same: Seq<bool>,
    path: Seq<char>,
    at: int,
)
    requires
        same.len() == files.len() <= 5,
        0 <= at < files.len(),
        forall|k: int| 0 <= k < same.len() ==> (#[trigger] same[k] <==> k == at),
    ensures
        with_file(files, same, path) == seq![path] + files.remove(at),
        unmarked(files, same, files.len() as int) == files.remove(at),
{
    let n = files.len() as int;
    unmarked_prefix(files, same, at);
    unmarked_without_one(files, same, at, n);
    assert(unmarked(files, same, n) =~= files.remove(at));
}

proof fn unmarked_prefix(files: Seq<Seq<char>>, same: Seq<bool>, n: int)
    requires
        0 <= n <= files.len() == same.len(),
        forall|k: int| 0 <= k < n ==> !#[trigger] same[k],
    ensures
        unmarked(files, same, n) == files.take(n),
    decreases n,
{
    if n > 0 {
        unmarked_prefix(files, same, n - 1);
        assert(files.take(n) =~= files.take(n - 1).push(files[n - 1]));
    } else {
        assert(files.take(0) =~= Seq::<Seq<char>>::empty());
    }
}

proof fn unmarked_without_one(files: Seq<Seq<char>>, same: Seq<bool>, at: int, n: int)
    requires
        0 <= at < n <= files.len() == same.len(),
        forall|k: int| 0 <= k < same.len() ==> (#[trigger] same[k] <==> k == at),
    ensures
        unmarked(files, same, n) == files.take(at) + files.subrange(at + 1, n),
    decreases n,
{
    if n == at + 1 {
        unmarked_prefix(files, same, at);
        assert(files.take(at) + files.subrange(at + 1, n) =~= files.take(at));
    } else {
        unmarked_without_one(files, same, at, n - 1);
        assert(!same[n - 1]);
        assert(files.take(at) + files.subrange(at + 1, n) =~= (files.take(at) + files.subrange(
            at + 1,
            n - 1,
        )).push(files[n - 1]));
    }
}

/// Where a file stands in a list with some taken out: behind those that stood
/// before it and were kept, so that no file is lost and none changes places.
pub proof fn kept_files_stay_in_order(files: Seq<Seq<char>>, same: Seq<bool>, k: int)
    requires
        0 <= k < files.len() == same.len(),
        !same[k],
    ensures
        ({
            let all = unmarked(files, same, files.len() as int);
            let before = unmarked(files, same, k);
            &&& before.len() < all.len()
            &&& all.take(before.len() as int) == before
            &&& all[before.len() as int] == files[k]
        }),
{
    unmarked_grows(files, same, k + 1, files.len() as int);
    let all = unmarked(files, same, files.len() as int);
    let before = unmarked(files, same, k);
    let upto = unmarked(files, same, k + 1);
    assert(upto == before.push(files[k]));
    assert(upto[before.len() as int] == files[k]);
    assert(all.take(upto.len() as int)[before.len() as int] == files[k]);
    assert(all.take(before.len() as int) =~= all.take(upto.len() as int).take(before.len() as int));
    assert(upto.take(before.len() as int) =~= before);
}

proof fn unmarked_grows(files: Seq<Seq<char>>, same: Seq<bool>, m: int, n: int)
    requires
        0 <= m <= n <= files.len() == same.len(),
    ensures
        unmarked(files, same, m).len() <= unmarked(files, same, n).len(),
        unmarked(files, same, n).take(unmarked(files, same, m).len() as int) == unmarked(
            files,
            same,
            m,
        ),
    decreases n - m,
{
    let a = unmarked(files, same, m);
    if m < n {
        unmarked_grows(files, same, m, n - 1);
        let b = unmarked(files, same, n - 1);
        let c = unmarked(files, same, n);
        assert(c.take(a.len() as int) =~= b.take(a.len() as int));
    } else {
        assert(a.take(a.len() as int) =~= a);
    }
}

/// The text that keeps the list has one line per file, and nothing behind the
/// last.
pub proof fn files_are_kept_line_by_line(files: Seq<Seq<char>>, file: Seq<char>)
    ensures
        joined(Seq::empty()).len() == 0,
        joined(seq![file]) == file,
        files.len() > 0 ==> joined(files.push(file)) == joined(files) + seq!['\n'] + file,
{
    reveal_strlit("\n");
    assert("\n"@ =~= seq!['\n']);
    assert(files.push(file).drop_last() =~= files);
}

/// A line of the kept text ends at a line feed, with a carriage return before
/// it or without; what follows is read as lines of its own. `before` is what
/// was read already.
pub proof fn kept_lines_end_at_line_feeds(before: Seq<u8>, line: Seq<u8>, rest: Seq<u8>)
    requires
        forall|k: int| 0 <= k < line.len() ==> #[trigger] line[k] != 10,
    ensures
        ({
            let b = before + line + seq![13u8, 10u8] + rest;
            lines_from(b, before.len() as int) == seq![line] + lines_from(
                b,
                before.len() + line.len() + 2int,
            )
        }),
        line.len() == 0 || line.last() != 13 ==> ({
            let b = before + line + seq![10u8] + rest;
            lines_from(b, before.len() as int) == seq![line] + lines_from(
                b,
                before.len() + line.len() + 1int,
            )
        }),
        line.len() > 0 ==> lines_from(before + line, before.len() as int) == seq![line],
        lines_from(before, before.len() as int).len() == 0,
{
    let m = before.len() as int;
    let n = line.len() as int;
    let crlf = before + line + seq![13u8, 10u8] + rest;
    line_feed_is_first(crlf, m);
    assert(crlf[m + n] == 13 && crlf[m + n + 1] == 10);
    assert(line_feed_from(crlf, m) == m + n + 1) by {
        let p = line_feed_from(crlf, m);
        if p < m + n {
            assert(crlf[p] == line[p - m]);
        }
    }
    assert(crlf.subrange(m, m + n + 1) =~= line + seq![13u8]);
    assert((line + seq![13u8]).drop_last() =~= line);
    let lf = before + line + seq![10u8] + rest;
    line_feed_is_first(lf, m);
    assert(lf[m + n] == 10);
    assert(line_feed_from(lf, m) == m + n) by {
        let p = line_feed_from(lf, m);
        if p < m + n {
            assert(lf[p] == line[p - m]);
        }
    }
    assert(lf.subrange(m, m + n) =~= line);
    if n > 0 {
        assert((before + line).skip(m) =~= line);
        one_line(before + line, m, line);
    }
}

/// The list after opening a file is that file and then those of the files
/// before that are not marked, as many as there is room for.
pub proof fn lists_hold_the_kept_files(
    files: Seq<Seq<char>>,
    same: Seq<bool>,
    path: Seq<char>,
    k: int,
)
    requires
        same.len() == files.len(),
    ensures
        ({
            let kept = unmarked(files, same, files.len() as int);
            let list = with_file(files, same, path);
            &&& list.len() == if kept.len() <= 4 {
                kept.len() + 1
            } else {
                5
            }
            &&& list[0] == path
            &&& 0 < k < list.len() ==> list[k] == kept[k - 1]
        }),
{
}

/// Opening a file takes out where it stood before, and leaves every file that
/// is surely another.
pub proof fn only_the_opened_file_is_taken_out(
    files: Seq<Seq<char>>,
    path: Seq<char>,
    same: Seq<bool>,
    k: int,
)
    requires
        may_mark(files, path, same),
        0 <= k < files.len(),
    ensures
        same.len() == files.len(),
        files[k] == path ==> same[k],
        !may_be_same(files[k], path, true) ==> !same[k],
{
    assert(may_be_same(files[k], path, same[k]));
}

} // verus!
