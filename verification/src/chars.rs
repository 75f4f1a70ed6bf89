//! Trimming, splitting and lower-casing of character sequences, and the
//! bridge between a string slice and its UTF-8 bytes.
use vstd::prelude::*;
use vstd::string::*;
use vstd::utf8::*;

use crate::text::stands_at;

verus! {

// ---------------------------------------------------------------------------
// UTF-8 facts
// ---------------------------------------------------------------------------

/// The encoding of a concatenation is the concatenation of the encodings.
pub proof fn encode_concat(a: Seq<char>, b: Seq<char>)
    ensures
        encode_utf8(a + b) == encode_utf8(a) + encode_utf8(b),
    decreases a.len(),
{
    if a.len() == 0 {
        assert(a + b =~= b);
    } else {
        assert((a + b).drop_first() =~= a.drop_first() + b);
        encode_concat(a.drop_first(), b);
        assert(encode_utf8(a + b) =~= encode_utf8(a) + encode_utf8(b));
    }
}

/// The end of an encoded prefix is a character boundary of the whole.
pub proof fn encode_boundary(a: Seq<char>, b: Seq<char>)
    ensures
        is_char_boundary(encode_utf8(a + b), encode_utf8(a).len() as int),
    decreases a.len(),
{
    encode_utf8_valid_utf8(a + b);
    encode_concat(a, b);
    if a.len() > 0 {
        let whole = encode_utf8(a + b);
        encode_utf8_first_scalar(a + b);
        assert((a + b).drop_first() =~= a.drop_first() + b);
        assert(pop_first_scalar(whole) =~= encode_utf8(a.drop_first() + b));
        encode_boundary(a.drop_first(), b);
    }
}

/// Two texts with the same bytes are the same text.
pub proof fn encode_injective(a: Seq<char>, b: Seq<char>)
    requires
        encode_utf8(a) == encode_utf8(b),
    ensures
        a == b,
{
    encode_utf8_decode_utf8(a);
    encode_utf8_decode_utf8(b);
}

/// A text whose bytes are `bytes` is what `bytes` decodes to.
pub proof fn decode_of_bytes(a: Seq<char>, bytes: Seq<u8>)
    requires
        encode_utf8(a) == bytes,
    ensures
        decode_utf8(bytes) == a,
        valid_utf8(bytes),
{
    encode_utf8_decode_utf8(a);
    encode_utf8_valid_utf8(a);
}

/// An ASCII literal has one byte per character.
pub proof fn ascii_literal(s: &str)
    requires
        is_ascii(s),
    ensures
        s.spec_bytes().len() == s@.len(),
        forall|k: int| 0 <= k < s@.len() ==> s.spec_bytes()[k] == #[trigger] s@[k] as u8,
        forall|k: int| 0 <= k < s.spec_bytes().len() ==> #[trigger] s.spec_bytes()[k] < 128,
{
    is_ascii_spec_bytes(s);
    is_ascii_chars_nat_bound(s@);
}

/// The position just past an ASCII byte is a character boundary.
pub proof fn boundary_after_ascii(bytes: Seq<u8>, end: int)
    requires
        valid_utf8(bytes),
        0 < end <= bytes.len(),
        bytes[end - 1] < 128,
    ensures
        is_char_boundary(bytes, end),
    decreases bytes.len(),
{
    let n = length_of_first_scalar(bytes);
    let rest = pop_first_scalar(bytes);
    utf8_byte_ranges_bitwise(bytes[end - 1]);
    if end - 1 < n {
        reveal_with_fuel(is_char_boundary, 2);
    } else {
        assert(rest[end - n - 1] == bytes[end - 1]);
        boundary_after_ascii(rest, end - n);
    }
}

/// The position of an ASCII byte is a character boundary.
pub proof fn boundary_at_ascii(bytes: Seq<u8>, at: int)
    requires
        valid_utf8(bytes),
        0 <= at < bytes.len(),
        bytes[at] < 128,
    ensures
        is_char_boundary(bytes, at),
{
    utf8_byte_ranges_bitwise(bytes[at]);
    is_char_boundary_iff_not_is_continuation_byte(bytes, at);
}

/// Number of bytes that encode `c`.
pub fn char_width(c: char) -> (n: usize)
    ensures
        n == encode_scalar(c as u32).len(),
        n == encode_utf8(seq![c]).len(),
        1 <= n <= 4,
{
    proof {
        assert(seq![c].drop_first() =~= Seq::<char>::empty());
        assert(encode_utf8(seq![c].drop_first()) =~= Seq::<u8>::empty());
        assert(encode_utf8(seq![c]) =~= encode_scalar(c as u32) + encode_utf8(
            seq![c].drop_first(),
        ));
        char_is_scalar(c);
    }
    let v: u32 = c as u32;
    if v < 0x80 {
        1
    } else if v < 0x800 {
        2
    } else if v < 0x10000 {
        3
    } else {
        4
    }
}

/// Splits `s` after its first `k` characters, which take `at` bytes.
fn split_chars(s: &str, at: usize, k: Ghost<int>) -> (r: (&str, &str))
    requires
        0 <= k@ <= s@.len(),
        at == encode_utf8(s@.take(k@)).len(),
    ensures
        r.0@ == s@.take(k@),
        r.1@ == s@.skip(k@),
{
    proof {
        let a = s@.take(k@);
        let b = s@.skip(k@);
        assert(a + b =~= s@);
        encode_boundary(a, b);
        encode_concat(a, b);
    }
    let r = s.split_at(at);
    proof {
        let a = s@.take(k@);
        let b = s@.skip(k@);
        assert(r.0.spec_bytes() =~= encode_utf8(a));
        assert(r.1.spec_bytes() =~= encode_utf8(b));
        encode_injective(r.0@, a);
        encode_injective(r.1@, b);
    }
    r
}

/// The first `end` bytes of `s`; the byte before `end` is ASCII.
pub(crate) fn ascii_ended_prefix(s: &str, end: usize) -> (r: &str)
    requires
        0 < end <= s.spec_bytes().len(),
        s.spec_bytes()[end - 1] < 128,
    ensures
        r.spec_bytes() == s.spec_bytes().subrange(0, end as int),
{
    proof {
        encode_utf8_valid_utf8(s@);
        boundary_after_ascii(s.spec_bytes(), end as int);
    }
    s.split_at(end).0
}

/// A character boundary stays one after cutting off a prefix at another.
pub proof fn boundary_after_cut(bytes: Seq<u8>, cut: int, at: int)
    requires
        valid_utf8(bytes),
        0 <= cut <= at,
        is_char_boundary(bytes, cut),
        is_char_boundary(bytes, at),
    ensures
        at <= bytes.len(),
        valid_utf8(bytes.skip(cut)),
        is_char_boundary(bytes.skip(cut), at - cut),
    decreases bytes.len(),
{
    if cut == 0 {
        assert(bytes.skip(0) =~= bytes);
    } else {
        let n = length_of_first_scalar(bytes);
        let rest = pop_first_scalar(bytes);
        reveal_with_fuel(is_char_boundary, 2);
        boundary_after_cut(rest, cut - n, at - n);
        assert(rest.skip(cut - n) =~= bytes.skip(cut));
    }
}

/// What stands before a character boundary is text.
pub proof fn prefix_is_valid(bytes: Seq<u8>, end: int)
    requires
        valid_utf8(bytes),
        is_char_boundary(bytes, end),
    ensures
        0 <= end <= bytes.len(),
        valid_utf8(bytes.take(end)),
    decreases bytes.len(),
{
    if end != 0 {
        let n = length_of_first_scalar(bytes);
        let rest = pop_first_scalar(bytes);
        reveal_with_fuel(is_char_boundary, 2);
        prefix_is_valid(rest, end - n);
        let cut = bytes.take(end);
        assert(cut[0] == bytes[0]);
        assert(valid_first_scalar(cut));
        assert(pop_first_scalar(cut) =~= rest.take(end - n));
    }
}

/// The bytes of `s` from `start` to `end`, both character boundaries.
pub(crate) fn slice(s: &str, start: usize, end: usize) -> (r: &str)
    requires
        start <= end,
        is_char_boundary(s.spec_bytes(), start as int),
        is_char_boundary(s.spec_bytes(), end as int),
    ensures
        end <= s.spec_bytes().len(),
        r.spec_bytes() == s.spec_bytes().subrange(start as int, end as int),
{
    proof {
        encode_utf8_valid_utf8(s@);
        boundary_after_cut(s.spec_bytes(), start as int, end as int);
    }
    let rest = s.split_at(start).1;
    assert(rest.spec_bytes() =~= s.spec_bytes().skip(start as int));
    let r = rest.split_at(end - start).0;
    assert(r.spec_bytes() =~= s.spec_bytes().subrange(start as int, end as int));
    r
}

/// Whether two texts are the same, character by character.
pub fn same_text(a: &str, b: &str) -> (r: bool)
    ensures
        r == (a@ == b@),
{
    let r = a.as_bytes().len() == b.as_bytes().len() && stands_at(a.as_bytes(), b.as_bytes(), 0);
    proof {
        assert(a.spec_bytes().subrange(0, a.spec_bytes().len() as int) =~= a.spec_bytes());
        if r {
            encode_injective(a@, b@);
        }
    }
    r
}

// ---------------------------------------------------------------------------
// White space
// ---------------------------------------------------------------------------

/// Characters with the Unicode property `White_Space`.
pub open spec fn white_space(c: char) -> bool {
    let v = c as u32;
    ||| 0x9 <= v <= 0xd
    ||| v == 0x20 || v == 0x85 || v == 0xa0 || v == 0x1680
    ||| 0x2000 <= v <= 0x200a
    ||| v == 0x2028 || v == 0x2029 || v == 0x202f || v == 0x205f || v == 0x3000
}

/// Whether `c` has the Unicode property `White_Space`.
pub fn is_white_space(c: char) -> (r: bool)
    ensures
        r == white_space(c),
{
    let v: u32 = c as u32;
    (v >= 0x9 && v <= 0xd) || v == 0x20 || v == 0x85 || v == 0xa0 || v == 0x1680 || (v >= 0x2000
        && v <= 0x200a) || v == 0x2028 || v == 0x2029 || v == 0x202f || v == 0x205f || v == 0x3000
}

/// How many white-space characters `s` begins with.
pub open spec fn leading_space(s: Seq<char>) -> nat
    decreases s.len(),
{
    if s.len() > 0 && white_space(s[0]) {
        1 + leading_space(s.drop_first())
    } else {
        0
    }
}

/// How many characters stand in `s` before its first white space.
pub open spec fn leading_word(s: Seq<char>) -> nat
    decreases s.len(),
{
    if s.len() > 0 && !white_space(s[0]) {
        1 + leading_word(s.drop_first())
    } else {
        0
    }
}

/// `s` without its leading white space.
pub open spec fn trimmed_start(s: Seq<char>) -> Seq<char> {
    s.skip(leading_space(s) as int)
}

/// `s` without its trailing white space.
pub open spec fn trimmed_end(s: Seq<char>) -> Seq<char>
    decreases s.len(),
{
    if s.len() > 0 && white_space(s.last()) {
        trimmed_end(s.drop_last())
    } else {
        s
    }
}

/// `s` without white space at either end.
pub open spec fn trimmed(s: Seq<char>) -> Seq<char> {
    trimmed_end(trimmed_start(s))
}

/// Bytes taken by the leading white space of `s`.
pub open spec fn indent(s: Seq<char>) -> nat {
    encode_utf8(s.take(leading_space(s) as int)).len()
}

/// The leading white space is maximal and lies inside the text.
pub proof fn leading_space_is_maximal(s: Seq<char>)
    ensures
        leading_space(s) <= s.len(),
        forall|k: int| 0 <= k < leading_space(s) ==> white_space(#[trigger] s[k]),
        leading_space(s) < s.len() ==> !white_space(s[leading_space(s) as int]),
    decreases s.len(),
{
    if s.len() > 0 && white_space(s[0]) {
        leading_space_is_maximal(s.drop_first());
        assert forall|k: int| 0 <= k < leading_space(s) implies white_space(#[trigger] s[k]) by {
            if k > 0 {
                assert(s.drop_first()[k - 1] == s[k]);
            }
        }
    }
}

/// The leading word is maximal and lies inside the text.
pub proof fn leading_word_is_maximal(s: Seq<char>)
    ensures
        leading_word(s) <= s.len(),
        forall|k: int| 0 <= k < leading_word(s) ==> !white_space(#[trigger] s[k]),
        leading_word(s) < s.len() ==> white_space(s[leading_word(s) as int]),
    decreases s.len(),
{
    if s.len() > 0 && !white_space(s[0]) {
        leading_word_is_maximal(s.drop_first());
        assert forall|k: int| 0 <= k < leading_word(s) implies !white_space(#[trigger] s[k]) by {
            if k > 0 {
                assert(s.drop_first()[k - 1] == s[k]);
            }
        }
    }
}

proof fn leading_space_counted(s: Seq<char>, n: int)
    requires
        0 <= n <= s.len(),
        forall|k: int| 0 <= k < n ==> white_space(#[trigger] s[k]),
        n < s.len() ==> !white_space(s[n]),
    ensures
        leading_space(s) == n,
{
    leading_space_is_maximal(s);
    let m = leading_space(s) as int;
    if m < n {
        assert(white_space(s[m]));
    }
}

proof fn leading_word_counted(s: Seq<char>, n: int)
    requires
        0 <= n <= s.len(),
        forall|k: int| 0 <= k < n ==> !white_space(#[trigger] s[k]),
        n < s.len() ==> white_space(s[n]),
    ensures
        leading_word(s) == n,
{
    leading_word_is_maximal(s);
    let m = leading_word(s) as int;
    if m < n {
        assert(!white_space(s[m]));
    }
}

/// Splits off the leading characters that are white space (`space`) or that
/// are not.
fn split_run(s: &str, space: bool) -> (r: (&str, &str))
    ensures
        ({
            let n = if space { leading_space(s@) } else { leading_word(s@) } as int;
            r.0@ == s@.take(n) && r.1@ == s@.skip(n)
        }),
{
    let total: usize = s.as_bytes().len();
    let mut at: usize = 0;
    assert(encode_utf8(s@.take(0)) =~= Seq::<u8>::empty());
    for c in it: s.chars()
        invariant
            it.seq() == s@,
            total == encode_utf8(s@).len(),
            at == encode_utf8(s@.take(it.index() as int)).len(),
            forall|k: int|
                0 <= k < it.index() ==> white_space(#[trigger] s@[k]) == space,
    {
        let ghost k = it.index() as int;
        if is_white_space(c) != space {
            proof {
                if space {
                    leading_space_counted(s@, k);
                } else {
                    leading_word_counted(s@, k);
                }
            }
            return split_chars(s, at, Ghost(k));
        }
        proof {
            assert(s@.take(k + 1) =~= s@.take(k) + seq![c]);
            encode_concat(s@.take(k), seq![c]);
            assert(s@.take(k + 1) + s@.skip(k + 1) =~= s@);
            encode_concat(s@.take(k + 1), s@.skip(k + 1));
        }
        at = at + char_width(c);
    }
    proof {
        if space {
            leading_space_counted(s@, s@.len() as int);
        } else {
            leading_word_counted(s@, s@.len() as int);
        }
    }
    split_chars(s, at, Ghost(s@.len() as int))
}

/// `s` without its leading white space.
pub fn trim_start(s: &str) -> (r: &str)
    ensures
        r@ == trimmed_start(s@),
        s.spec_bytes().len() == indent(s@) + r.spec_bytes().len(),
        r.spec_bytes() == s.spec_bytes().skip(indent(s@) as int),
{
    let r = split_run(s, true);
    proof {
        leading_space_is_maximal(s@);
        assert(r.0@ + r.1@ =~= s@);
        encode_concat(r.0@, r.1@);
        assert(s.spec_bytes().skip(indent(s@) as int) =~= r.1.spec_bytes());
    }
    r.1
}

proof fn trimmed_end_counted(s: Seq<char>, n: int)
    requires
        0 <= n <= s.len(),
        forall|k: int| n <= k < s.len() ==> white_space(#[trigger] s[k]),
        n > 0 ==> !white_space(s[n - 1]),
    ensures
        trimmed_end(s) == s.take(n),
    decreases s.len(),
{
    if n < s.len() {
        assert(white_space(s[s.len() - 1]));
        trimmed_end_counted(s.drop_last(), n);
        assert(s.drop_last().take(n) =~= s.take(n));
    } else {
        assert(s.take(n) =~= s);
    }
}

/// Trimming the end keeps a prefix that does not end in white space, and
/// drops white space only.
pub proof fn trimmed_end_is_prefix(s: Seq<char>)
    ensures
        trimmed_end(s).len() <= s.len(),
        trimmed_end(s) == s.take(trimmed_end(s).len() as int),
        trimmed_end(s).len() > 0 ==> !white_space(trimmed_end(s).last()),
        forall|k: int| trimmed_end(s).len() <= k < s.len() ==> white_space(#[trigger] s[k]),
    decreases s.len(),
{
    if s.len() > 0 && white_space(s.last()) {
        trimmed_end_is_prefix(s.drop_last());
        let n = trimmed_end(s).len() as int;
        assert(s.drop_last().take(n) =~= s.take(n));
        assert forall|k: int| n <= k < s.len() implies white_space(#[trigger] s[k]) by {
            if k < s.len() - 1 {
                assert(s.drop_last()[k] == s[k]);
            }
        }
    } else {
        assert(s.take(s.len() as int) =~= s);
    }
}

/// `s` without its trailing white space.
pub fn trim_end(s: &str) -> (r: &str)
    ensures
        r@ == trimmed_end(s@),
{
    let total: usize = s.as_bytes().len();
    let mut at: usize = 0;
    let mut end: usize = 0;
    let ghost mut kept: int = 0;
    assert(encode_utf8(s@.take(0)) =~= Seq::<u8>::empty());
    for c in it: s.chars()
        invariant
            it.seq() == s@,
            total == encode_utf8(s@).len(),
            at == encode_utf8(s@.take(it.index() as int)).len(),
            0 <= kept <= it.index(),
            end == encode_utf8(s@.take(kept)).len(),
            forall|k: int| kept <= k < it.index() ==> white_space(#[trigger] s@[k]),
            kept > 0 ==> !white_space(s@[kept - 1]),
    {
        proof {
            let k = it.index() as int;
            assert(s@.take(k + 1) =~= s@.take(k) + seq![c]);
            encode_concat(s@.take(k), seq![c]);
            assert(s@.take(k + 1) + s@.skip(k + 1) =~= s@);
            encode_concat(s@.take(k + 1), s@.skip(k + 1));
        }
        at = at + char_width(c);
        if !is_white_space(c) {
            end = at;
            proof {
                kept = it.index() as int + 1;
            }
        }
    }
    proof {
        trimmed_end_counted(s@, kept);
    }
    split_chars(s, end, Ghost(kept)).0
}

/// `s` without white space at either end.
pub fn trim(s: &str) -> (r: &str)
    ensures
        r@ == trimmed(s@),
{
    trim_end(trim_start(s))
}

/// The words of `s`: its maximal runs of characters other than white space.
pub open spec fn words(s: Seq<char>) -> Seq<Seq<char>>
    decreases s.len(),
{
    let t = trimmed_start(s);
    let n = leading_word(t) as int;
    if 0 < n <= t.len() <= s.len() {
        seq![t.take(n)] + words(t.skip(n))
    } else {
        seq![]
    }
}

/// The word of `s` with index `n`, counted from zero.
pub fn nth_word(s: &str, n: usize) -> (r: Option<&str>)
    ensures
        match r {
            Some(w) => n < words(s@).len() && w@ == words(s@)[n as int],
            None => n >= words(s@).len(),
        },
{
    let mut rest = s;
    let mut i: usize = 0;
    loop
        invariant
            i <= n,
            words(s@).len() == i + words(rest@).len(),
            forall|k: int| 0 <= k < words(rest@).len() ==> words(s@)[i + k] == #[trigger] words(rest@)[k],
        decreases n - i,
    {
        let t = trim_start(rest);
        let (word, after) = split_run(t, false);
        proof {
            leading_space_is_maximal(rest@);
            leading_word_is_maximal(t@);
        }
        if word.is_empty() {
            proof {
                assert(leading_word(t@) == 0);
            }
            return None;
        }
        if i == n {
            assert(words(rest@)[0] == word@);
            return Some(word);
        }
        proof {
            let before = words(rest@);
            assert(before =~= seq![word@] + words(after@));
            assert forall|k: int| 0 <= k < words(after@).len() implies words(s@)[i + 1 + k]
                == #[trigger] words(after@)[k] by {
                assert(before[k + 1] == words(after@)[k]);
            }
        }
        rest = after;
        i = i + 1;
    }
}

/// White space in front of a text is all that trimming its start drops, and
/// what is kept starts with something else.
pub proof fn trimmed_start_skips(space: Seq<char>, s: Seq<char>)
    requires
        forall|k: int| 0 <= k < space.len() ==> white_space(#[trigger] space[k]),
    ensures
        trimmed_start(space + s) == trimmed_start(s),
        indent(space + s) == encode_utf8(space).len() + indent(s),
        s.len() > 0 && !white_space(s[0]) ==> trimmed_start(s) == s && indent(s) == 0,
        s.len() == 0 ==> trimmed_start(s) == s && indent(s) == 0,
{
    leading_space_is_maximal(s);
    let n = leading_space(s) as int;
    let whole = space + s;
    assert forall|k: int| 0 <= k < space.len() + n implies white_space(#[trigger] whole[k]) by {
        if k >= space.len() {
            assert(white_space(s[k - space.len()]));
        }
    }
    leading_space_counted(whole, space.len() + n);
    assert(whole.skip(space.len() + n) =~= s.skip(n));
    assert(whole.take(space.len() + n) =~= space + s.take(n));
    encode_concat(space, s.take(n));
    if s.len() == 0 || !white_space(s[0]) {
        assert(s.skip(0) =~= s);
        assert(s.take(0) =~= Seq::<char>::empty());
    }
}

/// White space behind a text is all that trimming its end drops.
pub proof fn trimmed_end_skips(s: Seq<char>, space: Seq<char>)
    requires
        forall|k: int| 0 <= k < space.len() ==> white_space(#[trigger] space[k]),
        s.len() == 0 || !white_space(s.last()),
    ensures
        trimmed_end(s + space) == s,
{
    let whole = s + space;
    let n = s.len() as int;
    assert forall|k: int| n <= k < whole.len() implies white_space(#[trigger] whole[k]) by {
        assert(white_space(space[k - n]));
    }
    trimmed_end_counted(whole, n);
    assert(whole.take(n) =~= s);
}

/// Trimming drops exactly the white space at the two ends of a text.
pub proof fn trimming_drops_white_space(before: Seq<char>, s: Seq<char>, after: Seq<char>)
    requires
        forall|k: int| 0 <= k < before.len() ==> white_space(#[trigger] before[k]),
        forall|k: int| 0 <= k < after.len() ==> white_space(#[trigger] after[k]),
        s.len() > 0,
        !white_space(s[0]),
        !white_space(s.last()),
    ensures
        trimmed(before + s + after) == s,
        indent(before + s + after) == encode_utf8(before).len(),
{
    assert(before + s + after =~= before + (s + after));
    trimmed_start_skips(before, s + after);
    assert((s + after)[0] == s[0]);
    trimmed_end_skips(s, after);
}

/// The words of a text are what white space parts: a word in front, with white
/// space behind it or nothing, is the first, and the words of the rest follow.
pub proof fn words_are_parted_by_white_space(
    space: Seq<char>,
    word: Seq<char>,
    rest: Seq<char>,
)
    requires
        forall|k: int| 0 <= k < space.len() ==> white_space(#[trigger] space[k]),
        forall|k: int| 0 <= k < word.len() ==> !white_space(#[trigger] word[k]),
        word.len() > 0,
        rest.len() == 0 || white_space(rest[0]),
    ensures
        words(space + word + rest) == seq![word] + words(rest),
        words(space) == Seq::<Seq<char>>::empty(),
{
    let whole = space + word + rest;
    let t = word + rest;
    assert(whole =~= space + t);
    trimmed_start_skips(space, t);
    assert(t[0] == word[0]);
    let n = word.len() as int;
    assert forall|k: int| 0 <= k < n implies !white_space(#[trigger] t[k]) by {
        assert(t[k] == word[k]);
    }
    leading_word_counted(t, n);
    assert(t.take(n) =~= word);
    assert(t.skip(n) =~= rest);
    assert(space + Seq::<char>::empty() =~= space);
    trimmed_start_skips(space, Seq::<char>::empty());
}

// ---------------------------------------------------------------------------
// Lower case
// ---------------------------------------------------------------------------

/// What `str::to_lowercase` makes of a text.
pub uninterp spec fn lowercase(s: Seq<char>) -> Seq<char>;

/// `c` with the letters `A` to `Z` mapped to `a` to `z`.
pub open spec fn ascii_lower(c: char) -> char {
    if 'A' <= c <= 'Z' {
        ((c as u8) + 32) as char
    } else {
        c
    }
}

/// `s` with the letters `A` to `Z` mapped to `a` to `z`.
pub open spec fn ascii_lowercase(s: Seq<char>) -> Seq<char> {
    s.map_values(|c: char| ascii_lower(c))
}

/// The lower case of an ASCII text is as long, has the letters `a` to `z` where
/// the letters `A` to `Z` were, and everything else where it was.
pub proof fn lower_case_moves_letters_only(s: Seq<char>, k: int)
    requires
        0 <= k < s.len(),
    ensures
        ascii_lowercase(s).len() == s.len(),
        65 <= s[k] as u32 <= 90 ==> ascii_lowercase(s)[k] as u32 == s[k] as u32 + 32,
        !(65 <= s[k] as u32 <= 90) ==> ascii_lowercase(s)[k] == s[k],
{
}

/// `str::to_lowercase` maps every character to its Unicode lower-case form of
/// one or more characters. The mapping is named, not spelled out; stated of
/// it is that only the empty text becomes empty, and that on ASCII text it
/// maps `A` to `Z` onto `a` to `z` and keeps everything else.
pub assume_specification[ str::to_lowercase ](s: &str) -> (r: String)
    ensures
        r@ == lowercase(s@),
        r@.len() == 0 <==> s@.len() == 0,
        is_ascii_chars(s@) ==> r@ == ascii_lowercase(s@),
;

// ---------------------------------------------------------------------------
// Decoding
// ---------------------------------------------------------------------------

/// The error of `core::str::from_utf8`; its contents are never looked at.
#[verifier::external_type_specification]
#[verifier::external_body]
pub struct ExUtf8Error(core::str::Utf8Error);

/// `core::str::from_utf8` accepts exactly the valid UTF-8 byte sequences and
/// returns the text with those bytes.
pub assume_specification[ core::str::from_utf8 ](v: &[u8]) -> (r: Result<
    &str,
    core::str::Utf8Error,
>)
    ensures
        r is Ok <==> valid_utf8(v@),
        r matches Ok(s) ==> s.spec_bytes() == v@,
;

// ---------------------------------------------------------------------------
// ASCII in front of a text
// ---------------------------------------------------------------------------

/// Behind white space, ASCII characters in front of a text take one byte each,
/// and the bytes behind them are the rest of the text.
pub proof fn ascii_head(space: Seq<char>, head: Seq<char>, tail: Seq<char>)
    requires
        forall|k: int| 0 <= k < space.len() ==> white_space(#[trigger] space[k]),
        is_ascii_chars(head),
        head.len() > 0,
        !white_space(head[0]),
    ensures
        ({
            let b = encode_utf8(trimmed_start(space + head + tail));
            let n = head.len() as int;
            &&& trimmed_start(space + head + tail) == head + tail
            &&& indent(space + head + tail) == encode_utf8(space).len()
            &&& b == encode_utf8(head) + encode_utf8(tail)
            &&& encode_utf8(head).len() == n
            &&& forall|k: int| 0 <= k < n ==> #[trigger] b[k] == head[k] as u8
            &&& decode_utf8(b.subrange(0, n)) == head
            &&& b.skip(n) == encode_utf8(tail)
            &&& decode_utf8(b.skip(n)) == tail
        }),
{
    assert(space + head + tail =~= space + (head + tail));
    assert((head + tail)[0] == head[0]);
    trimmed_start_skips(space, head + tail);
    is_ascii_chars_encode_utf8(head);
    encode_concat(head, tail);
    let b = encode_utf8(head + tail);
    let n = head.len() as int;
    assert forall|k: int| 0 <= k < n implies #[trigger] b[k] == head[k] as u8 by {
        assert(b[k] == encode_utf8(head)[k]);
    }
    assert(b.subrange(0, n) =~= encode_utf8(head));
    assert(b.skip(n) =~= encode_utf8(tail));
    decode_of_bytes(head, encode_utf8(head));
    decode_of_bytes(tail, encode_utf8(tail));
}

/// A text that takes one byte is one ASCII character.
pub proof fn one_byte_is_one_character(s: Seq<char>)
    ensures
        encode_utf8(s).len() == 1 <==> s.len() == 1 && s[0] <= '\u{7f}',
        s.len() == 1 && s[0] <= '\u{7f}' ==> encode_utf8(s)[0] == s[0] as u8,
        s.len() <= encode_utf8(s).len(),
    decreases s.len(),
{
    if s.len() > 0 {
        let rest = s.drop_first();
        one_byte_is_one_character(rest);
        char_is_scalar(s[0]);
        encode_utf8_first_scalar(s);
        let one = seq![s[0]];
        assert(s =~= one + rest);
        encode_concat(one, rest);
        if s[0] <= '\u{7f}' {
            ascii_characters_take_one_byte(s[0]);
            if s.len() == 1 {
                assert(rest =~= Seq::<char>::empty());
                assert(encode_utf8(rest) =~= Seq::<u8>::empty());
            }
        } else {
            wide_characters_take_more_bytes(s[0]);
        }
    }
}

proof fn ascii_characters_take_one_byte(c: char)
    requires
        c <= '\u{7f}',
    ensures
        encode_utf8(seq![c]).len() == 1,
        encode_utf8(seq![c])[0] == c as u8,
{
    let one = seq![c];
    assert(is_ascii_chars(one));
    is_ascii_chars_encode_utf8(one);
    assert(one[0] == c);
}

proof fn wide_characters_take_more_bytes(c: char)
    requires
        c > '\u{7f}',
    ensures
        encode_utf8(seq![c]).len() > 1,
{
    char_is_scalar(c);
    char_u32_cast(c, c as u32);
    let one = seq![c];
    assert(one.drop_first() =~= Seq::<char>::empty());
    assert(encode_utf8(one.drop_first()) =~= Seq::<u8>::empty());
    assert(encode_utf8(one) =~= encode_scalar(c as u32) + encode_utf8(one.drop_first()));
}

/// The first byte of a text is its first character where that is ASCII, and no
/// ASCII byte where it is not.
pub proof fn first_byte_of_text(s: Seq<char>)
    requires
        s.len() > 0,
    ensures
        encode_utf8(s).len() > 0,
        s[0] <= '\u{7f}' ==> encode_utf8(s)[0] == s[0] as u8,
        s[0] > '\u{7f}' ==> encode_utf8(s)[0] >= 128,
{
    assert(s =~= seq![s[0]] + s.drop_first());
    first_byte_of_character(s[0], s.drop_first());
}

proof fn first_byte_of_character(c: char, rest: Seq<char>)
    ensures
        ({
            let b = encode_utf8(seq![c] + rest);
            &&& b.len() > 0
            &&& c <= '\u{7f}' ==> b[0] == c as u8
            &&& c > '\u{7f}' ==> b[0] >= 128
        }),
{
    let one = seq![c];
    encode_concat(one, rest);
    one_byte_is_one_character(one);
    let whole = one + rest;
    encode_utf8_valid_utf8(whole);
    encode_utf8_first_scalar(whole);
    let b = encode_utf8(whole);
    if c > '\u{7f}' && b[0] < 128 {
        utf8_byte_ranges_bitwise(b[0]);
        assert(length_of_first_scalar(b) == 1);
        assert(encode_utf8(one).len() == 1) by {
            assert(one.drop_first() =~= Seq::<char>::empty());
            assert(encode_utf8(one.drop_first()) =~= Seq::<u8>::empty());
            assert(encode_utf8(one) =~= encode_scalar(c as u32) + encode_utf8(one.drop_first()));
            assert(whole[0] == c);
        }
    }
}

/// An ASCII character is the byte with its number, and no other is.
pub proof fn bytes_are_characters(c: char, d: char)
    requires
        c <= '\u{7f}',
        d <= '\u{7f}',
    ensures
        c == d <==> c as u8 == d as u8,
        c as u8 == c as nat,
{
}

} // verus!
