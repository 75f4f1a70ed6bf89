//! Text primitives shared by the parsers.
//!
//! A line is modelled as a sequence of characters; its bytes are the UTF-8
//! encoding of that sequence. Everything that looks at fixed positions works
//! on the bytes, everything that trims or splits works on the characters.
use vstd::prelude::*;

verus! {

// ---------------------------------------------------------------------------
// Byte classes
// ---------------------------------------------------------------------------

/// ASCII decimal digits.
pub open spec fn digit(b: u8) -> bool {
    '0' as u8 <= b <= '9' as u8
}

/// ASCII letters and digits.
pub open spec fn alphanumeric(b: u8) -> bool {
    digit(b) || 'a' as u8 <= b <= 'z' as u8 || 'A' as u8 <= b <= 'Z' as u8
}

/// ASCII white space: space, tab, line feed, form feed and carriage return.
pub open spec fn ascii_space(b: u8) -> bool {
    b == ' ' as u8 || b == 9 || b == 10 || b == 12 || b == 13
}

/// Space or tab.
pub open spec fn blank(b: u8) -> bool {
    b == ' ' as u8 || b == 9
}

/// Whether `b` is an ASCII decimal digit.
pub fn is_digit(b: u8) -> (r: bool)
    ensures
        r == digit(b),
{
    b >= '0' as u8 && b <= '9' as u8
}

/// Whether `b` is an ASCII letter or digit.
pub fn is_alphanumeric(b: u8) -> (r: bool)
    ensures
        r == alphanumeric(b),
{
    is_digit(b) || (b >= 'a' as u8 && b <= 'z' as u8) || (b >= 'A' as u8 && b <= 'Z' as u8)
}

/// Whether `b` is ASCII white space.
pub fn is_ascii_space(b: u8) -> (r: bool)
    ensures
        r == ascii_space(b),
{
    b == ' ' as u8 || b == 9 || b == 10 || b == 12 || b == 13
}

/// Whether `b` is a space or a tab.
pub fn is_blank(b: u8) -> (r: bool)
    ensures
        r == blank(b),
{
    b == ' ' as u8 || b == 9
}

// ---------------------------------------------------------------------------
// Searching
// ---------------------------------------------------------------------------

/// `needle` stands in `hay` at position `at`.
pub open spec fn occurs_at(hay: Seq<u8>, needle: Seq<u8>, at: int) -> bool {
    &&& 0 <= at
    &&& at + needle.len() <= hay.len()
    &&& hay.subrange(at, at + needle.len()) == needle
}

/// `needle` stands somewhere in `hay`.
pub open spec fn occurs(hay: Seq<u8>, needle: Seq<u8>) -> bool {
    exists|at: int| occurs_at(hay, needle, at)
}

/// The first position, not before `from`, at which `needle` stands in `hay`.
pub open spec fn first_occurrence(hay: Seq<u8>, needle: Seq<u8>, from: int) -> Option<int>
    decreases hay.len() - from + 1,
{
    if from + needle.len() > hay.len() {
        None
    } else if occurs_at(hay, needle, from) {
        Some(from)
    } else {
        first_occurrence(hay, needle, from + 1)
    }
}

/// `first_occurrence` is the least position that `occurs_at` admits, and is
/// absent only where there is none.
pub proof fn first_occurrence_is_least(hay: Seq<u8>, needle: Seq<u8>, from: int)
    requires
        0 <= from,
    ensures
        match first_occurrence(hay, needle, from) {
            Some(p) => from <= p && occurs_at(hay, needle, p) && forall|q: int|
                from <= q < p ==> !#[trigger] occurs_at(hay, needle, q),
            None => forall|q: int| from <= q ==> !#[trigger] occurs_at(hay, needle, q),
        },
    decreases hay.len() - from + 1,
{
    if from + needle.len() <= hay.len() && !occurs_at(hay, needle, from) {
        first_occurrence_is_least(hay, needle, from + 1);
    }
}

/// Whether `needle` stands in `hay` at position `at`.
pub fn stands_at(hay: &[u8], needle: &[u8], at: usize) -> (r: bool)
    ensures
        r == occurs_at(hay@, needle@, at as int),
{
    if at > hay.len() || needle.len() > hay.len() - at {
        return false;
    }
    let mut k: usize = 0;
    while k < needle.len()
        invariant
            k <= needle@.len(),
            at + needle@.len() <= hay.len(),
            forall|j: int| 0 <= j < k ==> hay@[at + j] == #[trigger] needle@[j],
        decreases needle@.len() - k,
    {
        if hay[at + k] != needle[k] {
            assert(hay@.subrange(at as int, at + needle@.len())[k as int] == hay@[at + k]);
            return false;
        }
        k = k + 1;
    }
    assert(hay@.subrange(at as int, at + needle@.len()) =~= needle@);
    true
}

/// The first position, not before `from`, at which `needle` stands in `hay`.
pub fn find_bytes(hay: &[u8], needle: &[u8], from: usize) -> (r: Option<usize>)
    ensures
        match r {
            Some(p) => first_occurrence(hay@, needle@, from as int) == Some(p as int),
            None => first_occurrence(hay@, needle@, from as int) is None,
        },
{
    if from > hay.len() || needle.len() > hay.len() - from {
        return None;
    }
    let last: usize = hay.len() - needle.len();
    let mut at: usize = from;
    while at < last
        invariant
            from <= at <= last,
            last + needle@.len() == hay@.len(),
            first_occurrence(hay@, needle@, from as int) == first_occurrence(
                hay@,
                needle@,
                at as int,
            ),
        decreases last - at,
    {
        if stands_at(hay, needle, at) {
            return Some(at);
        }
        at = at + 1;
    }
    reveal_with_fuel(first_occurrence, 2);
    if stands_at(hay, needle, last) {
        Some(last)
    } else {
        None
    }
}

/// Whether `needle` stands somewhere in `hay`.
pub fn contains(hay: &[u8], needle: &[u8]) -> (r: bool)
    ensures
        r == occurs(hay@, needle@),
{
    proof {
        first_occurrence_is_least(hay@, needle@, 0);
    }
    find_bytes(hay, needle, 0).is_some()
}

// ---------------------------------------------------------------------------
// Shapes: runs of digits and fixed separators
// ---------------------------------------------------------------------------

/// `b` fits the shape byte `s`: any digit for `d`, the byte itself otherwise.
pub open spec fn fits(b: u8, s: u8) -> bool {
    if s == 'd' as u8 {
        digit(b)
    } else {
        b == s
    }
}

/// The bytes of `text` from `at` on begin with `shape`.
pub open spec fn shape_at(text: Seq<u8>, at: int, shape: Seq<u8>) -> bool {
    &&& 0 <= at
    &&& at + shape.len() <= text.len()
    &&& forall|k: int| 0 <= k < shape.len() ==> fits(text[at + k], #[trigger] shape[k])
}

/// Whether the bytes of `text` from `at` on begin with `shape`.
pub fn has_shape(text: &[u8], at: usize, shape: &[u8]) -> (r: bool)
    ensures
        r == shape_at(text@, at as int, shape@),
{
    if at > text.len() || shape.len() > text.len() - at {
        return false;
    }
    let mut k: usize = 0;
    while k < shape.len()
        invariant
            k <= shape@.len(),
            at + shape@.len() <= text.len(),
            forall|j: int| 0 <= j < k ==> fits(text@[at + j], #[trigger] shape@[j]),
        decreases shape@.len() - k,
    {
        let fit = if shape[k] == 'd' as u8 {
            is_digit(text[at + k])
        } else {
            text[at + k] == shape[k]
        };
        if !fit {
            assert(!fits(text@[at + k], shape@[k as int]));
            return false;
        }
        k = k + 1;
    }
    true
}

/// What fits an ASCII shape is ASCII.
pub proof fn shape_is_ascii(b: Seq<u8>, at: int, shape: Seq<u8>, k: int)
    requires
        shape_at(b, at, shape),
        0 <= k < shape.len(),
        shape[k] < 128,
    ensures
        b[at + k] < 128,
{
    assert(fits(b[at + k], shape[k]));
}

/// How many digits follow one another in `text` from `at` on.
pub open spec fn digit_run(text: Seq<u8>, at: int) -> nat
    decreases text.len() - at,
{
    if 0 <= at < text.len() && digit(text[at]) {
        1 + digit_run(text, at + 1)
    } else {
        0
    }
}

/// A run of digits ends inside the text, holds digits only and cannot be extended.
pub proof fn digit_run_is_maximal(text: Seq<u8>, at: int)
    requires
        0 <= at <= text.len(),
    ensures
        at + digit_run(text, at) <= text.len(),
        forall|k: int| at <= k < at + digit_run(text, at) ==> digit(#[trigger] text[k]),
        at + digit_run(text, at) < text.len() ==> !digit(text[at + digit_run(text, at)]),
    decreases text.len() - at,
{
    if at < text.len() && digit(text[at]) {
        digit_run_is_maximal(text, at + 1);
    }
}

/// Where the run of digits that starts at `at` ends.
pub fn skip_digits(text: &[u8], at: usize) -> (end: usize)
    requires
        at <= text@.len(),
    ensures
        end == at + digit_run(text@, at as int),
        end <= text@.len(),
{
    let mut end: usize = at;
    while end < text.len() && is_digit(text[end])
        invariant
            at <= end <= text@.len(),
            end + digit_run(text@, end as int) == at + digit_run(text@, at as int),
        decreases text@.len() - end,
    {
        end = end + 1;
    }
    end
}

} // verus!
