//! What a path says as text: its extension, and whether two paths are the same.
//!
//! `std::path` takes a path apart in its platform's way. Slashes part names
//! everywhere, backslashes on some platforms only, and there a colon at index
//! one ends the name of a drive. What is relied on here holds in each of these
//! ways.
use vstd::prelude::*;

verus! {

// ---------------------------------------------------------------------------
// Taking a path apart
// ---------------------------------------------------------------------------

/// The ways in which a path may be taken apart.
pub enum PathStyle {
    /// Slashes part names.
    Slashes,
    /// Slashes and backslashes part names.
    Backslashes,
    /// As `Backslashes`, and a colon at index one ends the name of a drive.
    Drives,
}

impl PathStyle {
    /// Backslashes part names.
    pub open spec fn backslash(self) -> bool {
        !(self is Slashes)
    }
}

/// `c` parts names.
pub open spec fn separates(c: char, backslash: bool) -> bool {
    c == '/' || (backslash && c == '\\')
}

/// One past the last separator, or 0.
pub open spec fn past_separator(path: Seq<char>, backslash: bool) -> int
    decreases path.len(),
{
    if path.len() == 0 {
        0
    } else if separates(path.last(), backslash) {
        path.len() as int
    } else {
        past_separator(path.drop_last(), backslash)
    }
}

/// The names in a path, in order: what stands between separators, save for
/// empty stretches and single dots.
pub open spec fn names(path: Seq<char>, backslash: bool) -> Seq<Seq<char>>
    decreases path.len(),
{
    if path.len() == 0 {
        seq![]
    } else {
        let start = past_separator(path, backslash);
        let before = if 0 < start <= path.len() {
            names(path.take(start - 1), backslash)
        } else {
            seq![]
        };
        let name = path.skip(start);
        if name.len() == 0 || name == seq!['.'] {
            before
        } else {
            before.push(name)
        }
    }
}

/// The path begins with two separators. Such a path may name a share or a
/// device first.
pub open spec fn starts_doubled(path: Seq<char>) -> bool {
    path.len() >= 2 && separates(path[0], true) && separates(path[1], true)
}

/// A colon stands at index one.
pub open spec fn has_drive_colon(path: Seq<char>) -> bool {
    path.len() >= 2 && path[1] == ':'
}

// ---------------------------------------------------------------------------
// Extension
// ---------------------------------------------------------------------------

/// The last position of `c` in `s`, or -1.
pub open spec fn last_position(s: Seq<char>, c: char) -> int
    decreases s.len(),
{
    if s.len() == 0 {
        -1
    } else if s.last() == c {
        s.len() - 1
    } else {
        last_position(s.drop_last(), c)
    }
}

/// The extension of a file name: what follows its last dot, where that dot is
/// not its first character. `..` is no file name.
pub open spec fn name_extension(name: Seq<char>) -> Option<Seq<char>> {
    let dot = last_position(name, '.');
    if dot <= 0 || name == seq!['.', '.'] {
        None
    } else {
        Some(name.skip(dot + 1))
    }
}

/// How many characters of the only name in a path belong to a drive.
pub open spec fn drive_len(path: Seq<char>, style: PathStyle) -> int {
    if style is Drives && has_drive_colon(path) && !separates(path[0], true) {
        2
    } else {
        0
    }
}

/// The extension of a path taken apart in the given way: that of its last name.
pub open spec fn extension_under(path: Seq<char>, style: PathStyle) -> Option<Seq<char>> {
    let all = names(path, style.backslash());
    if all.len() == 0 {
        None
    } else if all.len() == 1 {
        name_extension(all[0].skip(drive_len(path, style)))
    } else {
        name_extension(all.last())
    }
}

/// A path whose last name is a file name whatever the platform: where it
/// begins with two separators, a share and a further name stand before it, and
/// no question mark, behind which nothing would be taken apart as usual.
pub open spec fn readable(path: Seq<char>) -> bool {
    starts_doubled(path) ==> path.len() > 2 && path[2] != '?' && names(path, true).len() >= 3
}

/// `ext` is what the extension of `path` may be: that of one of the ways to
/// take it apart. Of a path that is not readable only this is said: without a
/// dot it has no extension.
pub open spec fn may_have_extension(path: Seq<char>, ext: Option<Seq<char>>) -> bool {
    if readable(path) {
        ||| ext == extension_under(path, PathStyle::Slashes)
        ||| ext == extension_under(path, PathStyle::Backslashes)
        ||| ext == extension_under(path, PathStyle::Drives)
    } else {
        last_position(path, '.') < 0 ==> ext is None
    }
}

/// Every way to take the path apart gives it the same extension.
pub open spec fn settled(path: Seq<char>) -> bool {
    &&& readable(path)
    &&& extension_under(path, PathStyle::Slashes) == extension_under(path, PathStyle::Backslashes)
    &&& extension_under(path, PathStyle::Slashes) == extension_under(path, PathStyle::Drives)
}

/// `std::path::Path::extension`, as text. Claimed is what its documentation
/// and that of `std::path::Path::components` say: the extension is what
/// follows the last dot of the file name, none where that dot comes first and
/// none for `..`; and the file name is the last component, where slashes, on
/// some platforms backslashes and the colon of a drive too, end a component,
/// and empty and single-dot ones at the end do not count. Which of these ways
/// the platform has is left open, and so is what it makes of a path that
/// begins with two separators and does not name a file on a share.
#[verifier::external_body]
pub(crate) fn path_extension(path: &str) -> (r: Option<&str>)
    ensures
        match r {
            Some(e) => may_have_extension(path@, Some(e@)),
            None => may_have_extension(path@, None),
        },
{
    match std::path::Path::new(path).extension() {
        Some(e) => e.to_str(),
        None => None,
    }
}

// ---------------------------------------------------------------------------
// Sameness
// ---------------------------------------------------------------------------

/// The path begins with a dot that stands alone.
pub open spec fn starts_with_dot(path: Seq<char>, backslash: bool) -> bool {
    path.len() > 0 && path[0] == '.' && (path.len() == 1 || separates(path[1], backslash))
}

/// Two paths have the same parts: both or none begin with a separator, both or
/// none with a lone dot, and they have the same names.
pub open spec fn same_parts(a: Seq<char>, b: Seq<char>, backslash: bool) -> bool {
    &&& (a.len() > 0 && separates(a[0], backslash)) == (b.len() > 0 && separates(b[0], backslash))
    &&& starts_with_dot(a, backslash) == starts_with_dot(b, backslash)
    &&& names(a, backslash) == names(b, backslash)
}

/// The path with the letter of its drive, if it has one, in upper case.
pub open spec fn drive_folded(path: Seq<char>) -> Seq<char> {
    if has_drive_colon(path) && 'a' <= path[0] <= 'z' {
        path.update(0, ((path[0] as u8) - 32) as char)
    } else {
        path
    }
}

/// `same` is what comparing the two paths may give. Equal texts are equal
/// paths. Paths with the same parts in every way to take them apart are equal,
/// and paths whose parts differ in every way are not; a path that is but a
/// drive, and paths that begin with two separators, are left open.
pub open spec fn may_be_same(a: Seq<char>, b: Seq<char>, same: bool) -> bool {
    &&& a == b ==> same
    &&& !starts_doubled(a) && !starts_doubled(b) ==> {
        &&& same_parts(a, b, false) && same_parts(a, b, true) && !(has_drive_colon(a) && names(
            a,
            true,
        ).len() <= 1) ==> same
        &&& !same_parts(a, b, false) && !same_parts(drive_folded(a), drive_folded(b), true)
            ==> !same
    }
}

/// `==` of `std::path::Path`, which compares the components of two paths.
/// Claimed is that a path equals itself; that doubled and trailing separators
/// and dots that stand alone do not matter, save for a dot in front; and that
/// paths are not equal where their components differ with slashes alone as
/// separators and with slashes and backslashes, the letter of a drive in
/// either case. Left open is what rests on the platform, and paths that begin
/// with two separators.
#[verifier::external_body]
pub(crate) fn same_path(a: &str, b: &str) -> (r: bool)
    ensures
        may_be_same(a@, b@, r),
{
    std::path::Path::new(a) == std::path::Path::new(b)
}

// ---------------------------------------------------------------------------
// Laws
// ---------------------------------------------------------------------------

proof fn past_separator_is_last(path: Seq<char>, backslash: bool)
    ensures
        0 <= past_separator(path, backslash) <= path.len(),
        past_separator(path, backslash) > 0 ==> separates(
            path[past_separator(path, backslash) - 1],
            backslash,
        ),
        forall|k: int|
            past_separator(path, backslash) <= k < path.len() ==> !separates(
                #[trigger] path[k],
                backslash,
            ),
    decreases path.len(),
{
    if path.len() > 0 && !separates(path.last(), backslash) {
        past_separator_is_last(path.drop_last(), backslash);
        let start = past_separator(path, backslash);
        assert forall|k: int| start <= k < path.len() implies !separates(
            #[trigger] path[k],
            backslash,
        ) by {
            if k < path.len() - 1 {
                assert(path.drop_last()[k] == path[k]);
            }
        }
    }
}

proof fn last_position_is_last(s: Seq<char>, c: char)
    ensures
        -1 <= last_position(s, c) < s.len(),
        last_position(s, c) >= 0 ==> s[last_position(s, c)] == c,
        forall|k: int| last_position(s, c) < k < s.len() ==> #[trigger] s[k] != c,
    decreases s.len(),
{
    if s.len() > 0 && s.last() != c {
        last_position_is_last(s.drop_last(), c);
        let p = last_position(s, c);
        assert forall|k: int| p < k < s.len() implies #[trigger] s[k] != c by {
            if k < s.len() - 1 {
                assert(s.drop_last()[k] == s[k]);
            }
        }
    }
}

proof fn names_without_backslash(path: Seq<char>)
    requires
        forall|k: int| 0 <= k < path.len() ==> #[trigger] path[k] != '\\',
    ensures
        names(path, true) == names(path, false),
    decreases path.len(),
{
    if path.len() > 0 {
        past_separator_is_last(path, true);
        past_separator_is_last(path, false);
        let start = past_separator(path, true);
        let other = past_separator(path, false);
        assert(start == other) by {
            if start < other {
                assert(!separates(path[other - 1], true));
            }
            if other < start {
                assert(!separates(path[start - 1], false));
            }
        }
        if start > 0 {
            let front = path.take(start - 1);
            assert forall|k: int| 0 <= k < front.len() implies #[trigger] front[k] != '\\' by {
                assert(front[k] == path[k]);
            }
            names_without_backslash(front);
        }
    }
}

/// A path without backslashes and without a colon at index one has the same
/// extension on every platform.
pub proof fn slashed_paths_are_settled(path: Seq<char>)
    requires
        readable(path),
        forall|k: int| 0 <= k < path.len() ==> #[trigger] path[k] != '\\',
        !has_drive_colon(path),
    ensures
        settled(path),
{
    names_without_backslash(path);
}

proof fn first_name_stays(path: Seq<char>, backslash: bool)
    requires
        path.len() >= 2,
        !separates(path[0], backslash),
        !separates(path[1], backslash),
    ensures
        names(path, backslash).len() >= 1,
        names(path, backslash)[0].len() >= 2,
    decreases path.len(),
{
    past_separator_is_last(path, backslash);
    let start = past_separator(path, backslash);
    if start > 0 {
        first_name_stays(path.take(start - 1), backslash);
    } else {
        assert(path.skip(0) =~= path);
    }
}

/// Where the last name of a path begins for sure: one past the last slash, the
/// last backslash and a colon at index one.
pub open spec fn sure_start(path: Seq<char>) -> int {
    let start = past_separator(path, true);
    if has_drive_colon(path) && start < 2 {
        2
    } else {
        start
    }
}

/// The path ends in a name with an extension whatever the platform: its last
/// dot stands behind where the name begins for sure.
pub open spec fn has_sure_extension(path: Seq<char>) -> bool {
    &&& !starts_doubled(path)
    &&& sure_start(path) < last_position(path, '.')
    &&& path.skip(sure_start(path)) != seq!['.', '.']
}

/// What follows the last dot of a path.
pub open spec fn sure_extension(path: Seq<char>) -> Seq<char> {
    path.skip(last_position(path, '.') + 1)
}

proof fn tail_extension(path: Seq<char>, start: int)
    requires
        0 <= start <= sure_start(path),
        has_sure_extension(path),
    ensures
        path.skip(start).len() > 1,
        path.skip(start) == seq!['.', '.'] ==> start < sure_start(path),
        path.skip(start) != seq!['.', '.'] ==> name_extension(path.skip(start)) == Some(
            sure_extension(path),
        ),
{
    let dot = last_position(path, '.');
    let tail = path.skip(start);
    last_position_is_last(path, '.');
    last_position_is_last(tail, '.');
    assert(tail[dot - start] == '.');
    let p = last_position(tail, '.');
    if p > dot - start {
        assert(path[start + p] == '.');
    }
    assert(tail.skip(p + 1) =~= path.skip(dot + 1));
}

/// A name with an extension at the end of a path gives the path that
/// extension on every platform, whatever backslashes and colons stand in it.
pub proof fn sure_extensions_are_settled(path: Seq<char>)
    requires
        has_sure_extension(path),
    ensures
        settled(path),
        forall|ext: Option<Seq<char>>| #[trigger]
            may_have_extension(path, ext) <==> ext == Some(sure_extension(path)),
{
    past_separator_is_last(path, true);
    past_separator_is_last(path, false);
    last_position_is_last(path, '.');
    let ps = past_separator(path, true);
    let us = past_separator(path, false);
    assert(us <= ps) by {
        if us > ps {
            assert(!separates(path[us - 1], true));
        }
    }
    tail_extension(path, us);
    tail_extension(path, ps);
    tail_extension(path, sure_start(path));
    // A name of two dots would be what follows the sure start.
    assert(path.skip(us) != seq!['.', '.'] && path.skip(ps) != seq!['.', '.']) by {
        if path.skip(us) == seq!['.', '.'] {
            assert(path.skip(us)[0] == path[us] && path.skip(us)[1] == path[us + 1]);
            assert(path.len() == us + 2);
        }
        if path.skip(ps) == seq!['.', '.'] {
            assert(path.skip(ps)[0] == path[ps] && path.skip(ps)[1] == path[ps + 1]);
            assert(path.len() == ps + 2);
        }
    }
    assert(path.skip(us) != seq!['.']);
    assert(path.skip(ps) != seq!['.']);
    let slashed = names(path, false);
    let both = names(path, true);
    assert(slashed.last() == path.skip(us));
    assert(both.last() == path.skip(ps));
    assert(slashed[0].skip(0) =~= slashed[0]);
    assert(both[0].skip(0) =~= both[0]);
    if drive_len(path, PathStyle::Drives) == 2 && both.len() == 1 {
        if ps > 0 {
            assert(separates(path[ps - 1], true));
            assert(!separates(':', true));
            assert(ps - 1 != 1);
            first_name_stays(path.take(ps - 1), true);
        }
        assert(both[0].skip(2) =~= path.skip(2));
    }
}

proof fn names_without_dot(path: Seq<char>, backslash: bool)
    requires
        last_position(path, '.') < 0,
    ensures
        forall|i: int|
            0 <= i < names(path, backslash).len() ==> last_position(
                #[trigger] names(path, backslash)[i],
                '.',
            ) < 0,
    decreases path.len(),
{
    last_position_is_last(path, '.');
    if path.len() > 0 {
        past_separator_is_last(path, backslash);
        let start = past_separator(path, backslash);
        let name = path.skip(start);
        last_position_is_last(name, '.');
        let dot = last_position(name, '.');
        if dot >= 0 {
            assert(path[start + dot] == '.');
        }
        if start > 0 {
            let front = path.take(start - 1);
            last_position_is_last(front, '.');
            let dot = last_position(front, '.');
            if dot >= 0 {
                assert(path[dot] == '.');
            }
            names_without_dot(front, backslash);
        }
        let before = if start > 0 {
            names(path.take(start - 1), backslash)
        } else {
            seq![]
        };
        let all = names(path, backslash);
        assert(all == before || all == before.push(name));
        assert forall|i: int| 0 <= i < all.len() implies last_position(#[trigger] all[i], '.')
            < 0 by {
            if i < before.len() {
                assert(all[i] == before[i]);
            }
        }
    }
}

/// A path without a dot has no extension.
pub proof fn dotless_paths_have_none(path: Seq<char>)
    requires
        last_position(path, '.') < 0,
    ensures
        forall|ext: Option<Seq<char>>| #[trigger] may_have_extension(path, ext) ==> ext is None,
{
    names_without_dot(path, false);
    names_without_dot(path, true);
    let both = names(path, true);
    let slashed = names(path, false);
    if slashed.len() > 0 {
        assert(slashed[0].skip(0) =~= slashed[0]);
    }
    if both.len() > 0 {
        assert(both[0].skip(0) =~= both[0]);
        if drive_len(path, PathStyle::Drives) == 2 {
            first_name_stays(path, true);
        }
        let own = both[0].skip(drive_len(path, PathStyle::Drives));
        last_position_is_last(both[0], '.');
        last_position_is_last(own, '.');
        let dot = last_position(own, '.');
        if dot >= 0 {
            assert(own[dot] == both[0][dot + drive_len(path, PathStyle::Drives)]);
        }
    }
}

} // verus!
