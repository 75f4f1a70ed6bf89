//! Reading and writing of unsigned numbers.
use vstd::prelude::*;
use vstd::string::*;
use vstd::utf8::*;

use crate::text::{digit, is_digit};

verus! {

// ---------------------------------------------------------------------------
// Reading
// ---------------------------------------------------------------------------

/// Every byte of `s` is a decimal digit, and there is at least one.
pub open spec fn all_digits(s: Seq<u8>) -> bool {
    s.len() > 0 && forall|k: int| 0 <= k < s.len() ==> digit(#[trigger] s[k])
}

/// The number that the digits `s` write in base ten.
pub open spec fn digits_value(s: Seq<u8>) -> nat
    decreases s.len(),
{
    if s.len() == 0 {
        0
    } else {
        digits_value(s.drop_last()) * 10 + (s.last() - '0' as u8) as nat
    }
}

/// The number that `s` writes: digits, with an optional plus sign in front.
pub open spec fn unsigned_value(s: Seq<u8>) -> Option<nat> {
    let digits = if s.len() > 0 && s[0] == '+' as u8 {
        s.skip(1)
    } else {
        s
    };
    if all_digits(digits) {
        Some(digits_value(digits))
    } else {
        None
    }
}

/// The number that `s` writes, where it is at most `max`.
pub open spec fn unsigned_up_to(s: Seq<u8>, max: nat) -> Option<nat> {
    match unsigned_value(s) {
        Some(v) => if v <= max {
            Some(v)
        } else {
            None
        },
        None => None,
    }
}

/// More digits never write a smaller number.
pub proof fn digits_value_monotonic(s: Seq<u8>, n: int)
    requires
        0 <= n <= s.len(),
        forall|k: int| 0 <= k < s.len() ==> digit(#[trigger] s[k]),
    ensures
        digits_value(s.take(n)) <= digits_value(s),
    decreases s.len(),
{
    if n == s.len() {
        assert(s.take(n) =~= s);
    } else {
        digits_value_monotonic(s.drop_last(), n);
        assert(s.drop_last().take(n) =~= s.take(n));
    }
}

/// The number that `s` writes in base ten, where it is at most `max`.
pub fn parse_unsigned(s: &[u8], max: u64) -> (r: Option<u64>)
    ensures
        match r {
            Some(v) => unsigned_up_to(s@, max as nat) == Some(v as nat),
            None => unsigned_up_to(s@, max as nat) is None,
        },
{
    let start: usize = if s.len() > 0 && s[0] == '+' as u8 {
        1
    } else {
        0
    };
    let ghost digits = s@.skip(start as int);
    assert(s@.skip(0) =~= s@);
    if start == s.len() {
        return None;
    }
    let mut value: u64 = 0;
    let mut i: usize = start;
    assert(digits.take(0) =~= Seq::<u8>::empty());
    while i < s.len()
        invariant
            start <= i <= s@.len(),
            start <= 1,
            digits == s@.skip(start as int),
            digits == if s@.len() > 0 && s@[0] == '+' as u8 {
                s@.skip(1)
            } else {
                s@
            },
            forall|k: int| 0 <= k < i - start ==> digit(#[trigger] digits[k]),
            value == digits_value(digits.take(i - start)),
            value <= max,
        decreases s@.len() - i,
    {
        let b: u8 = s[i];
        let ghost n = i - start;
        assert(digits[n] == b);
        if !is_digit(b) {
            assert(!all_digits(digits));
            return None;
        }
        let d: u64 = (b - '0' as u8) as u64;
        assert(digits.take(n + 1).drop_last() =~= digits.take(n));
        assert(digits_value(digits.take(n + 1)) == value * 10 + d);
        if value > max / 10 || (value == max / 10 && d > max % 10) {
            proof {
                assert(value * 10 + d > max);
                if all_digits(digits) {
                    digits_value_monotonic(digits, n + 1);
                }
            }
            return None;
        }
        value = value * 10 + d;
        i = i + 1;
    }
    assert(digits.take(digits.len() as int) =~= digits);
    Some(value)
}

// ---------------------------------------------------------------------------
// Writing
// ---------------------------------------------------------------------------

/// The lower-case hexadecimal digit of value `d`.
pub open spec fn digit_char(d: nat) -> char {
    if d < 10 {
        (48 + d) as char
    } else {
        (87 + d) as char
    }
}

/// `n` in base ten, without leading zeros.
pub open spec fn decimal(n: nat) -> Seq<char>
    decreases n,
{
    if n < 10 {
        seq![digit_char(n)]
    } else {
        decimal(n / 10).push(digit_char(n % 10))
    }
}

/// The lowest `width` digits of `n` in base sixteen.
pub open spec fn hexadecimal(n: nat, width: nat) -> Seq<char>
    decreases width,
{
    if width == 0 {
        seq![]
    } else {
        hexadecimal(n / 16, (width - 1) as nat).push(digit_char(n % 16))
    }
}

/// The first `n` of `digits`, with a comma before every digit but the first
/// that has a multiple of three digits from it to the end.
pub open spec fn grouped_upto(digits: Seq<char>, n: nat) -> Seq<char>
    decreases n,
{
    if n == 0 {
        seq![]
    } else {
        let before = grouped_upto(digits, (n - 1) as nat);
        let i = n - 1;
        if i > 0 && (digits.len() - i) % 3 == 0 {
            before.push(',').push(digits[i])
        } else {
            before.push(digits[i])
        }
    }
}

/// `digits` in groups of three, counted from the right, parted by commas.
pub open spec fn grouped(digits: Seq<char>) -> Seq<char> {
    grouped_upto(digits, digits.len())
}

fn digit_text(d: u8) -> (r: &'static str)
    requires
        d < 16,
    ensures
        r@ == seq![digit_char(d as nat)],
{
    proof {
        reveal_strlit("0");
        reveal_strlit("1");
        reveal_strlit("2");
        reveal_strlit("3");
        reveal_strlit("4");
        reveal_strlit("5");
        reveal_strlit("6");
        reveal_strlit("7");
        reveal_strlit("8");
        reveal_strlit("9");
        reveal_strlit("a");
        reveal_strlit("b");
        reveal_strlit("c");
        reveal_strlit("d");
        reveal_strlit("e");
        reveal_strlit("f");
    }
    let r = match d {
        0 => "0",
        1 => "1",
        2 => "2",
        3 => "3",
        4 => "4",
        5 => "5",
        6 => "6",
        7 => "7",
        8 => "8",
        9 => "9",
        10 => "a",
        11 => "b",
        12 => "c",
        13 => "d",
        14 => "e",
        _ => "f",
    };
    assert(r@ =~= seq![digit_char(d as nat)]);
    r
}

/// The decimal digits of `n` as values below ten, most significant first.
fn decimal_digits(n: u64) -> (r: Vec<u8>)
    ensures
        forall|k: int| 0 <= k < r@.len() ==> #[trigger] r@[k] < 10,
        r@.map_values(|d: u8| digit_char(d as nat)) == decimal(n as nat),
    decreases n,
{
    let mut r: Vec<u8> = if n < 10 {
        Vec::new()
    } else {
        decimal_digits(n / 10)
    };
    let ghost before = r@;
    r.push((n % 10) as u8);
    assert(r@.map_values(|d: u8| digit_char(d as nat)) =~= before.map_values(
        |d: u8| digit_char(d as nat),
    ).push(digit_char((n % 10) as nat)));
    assert(n < 10 ==> r@.map_values(|d: u8| digit_char(d as nat)) =~= decimal(n as nat));
    r
}

/// `n` in base ten.
pub fn decimal_text(n: u64) -> (r: String)
    ensures
        r@ == decimal(n as nat),
{
    let digits = decimal_digits(n);
    let ghost d = decimal(n as nat);
    let mut r = String::new();
    let mut i: usize = 0;
    while i < digits.len()
        invariant
            i <= digits@.len(),
            forall|k: int| 0 <= k < digits@.len() ==> #[trigger] digits@[k] < 10,
            d == digits@.map_values(|d: u8| digit_char(d as nat)),
            r@ == d.take(i as int),
        decreases digits@.len() - i,
    {
        r.append(digit_text(digits[i]));
        assert(d[i as int] == digit_char(digits@[i as int] as nat));
        i = i + 1;
        assert(r@ =~= d.take(i as int));
    }
    assert(r@ =~= d);
    r
}

/// A count as the status bar shows it: `1234567` becomes `1,234,567`.
pub fn group_digits(n: u64) -> (r: String)
    ensures
        r@ == grouped(decimal(n as nat)),
{
    let digits = decimal_digits(n);
    let ghost d = decimal(n as nat);
    let mut r = String::new();
    let mut i: usize = 0;
    while i < digits.len()
        invariant
            i <= digits@.len(),
            forall|k: int| 0 <= k < digits@.len() ==> #[trigger] digits@[k] < 10,
            d == digits@.map_values(|d: u8| digit_char(d as nat)),
            r@ == grouped_upto(d, i as nat),
        decreases digits@.len() - i,
    {
        if i > 0 && (digits.len() - i) % 3 == 0 {
            r.append(",");
            proof {
                reveal_strlit(",");
            }
        }
        r.append(digit_text(digits[i]));
        assert(d[i as int] == digit_char(digits@[i as int] as nat));
        i = i + 1;
        assert(r@ =~= grouped_upto(d, i as nat));
    }
    r
}

/// Appends the lowest `width` digits of `n` in base sixteen.
pub fn append_hexadecimal(r: &mut String, n: u64, width: usize)
    ensures
        final(r)@ == old(r)@ + hexadecimal(n as nat, width as nat),
    decreases width,
{
    if width > 0 {
        append_hexadecimal(r, n / 16, width - 1);
        r.append(digit_text((n % 16) as u8));
    }
    assert(r@ =~= old(r)@ + hexadecimal(n as nat, width as nat));
}

// ---------------------------------------------------------------------------
// Laws
// ---------------------------------------------------------------------------

/// A number in base ten is at least one digit and nothing else.
pub proof fn decimal_is_digits(n: nat)
    ensures
        decimal(n).len() > 0,
        forall|k: int| 0 <= k < decimal(n).len() ==> '0' <= #[trigger] decimal(n)[k] <= '9',
        is_ascii_chars(decimal(n)),
    decreases n,
{
    if n >= 10 {
        decimal_is_digits(n / 10);
    }
}

/// Reading a number gives back the number that was written.
pub proof fn decimal_reads_back(n: nat)
    ensures
        unsigned_value(encode_utf8(decimal(n))) == Some(n),
    decreases n,
{
    let d = decimal(n);
    let b = encode_utf8(d);
    decimal_is_digits(n);
    is_ascii_chars_encode_utf8(d);
    assert forall|k: int| 0 <= k < b.len() implies digit(#[trigger] b[k]) by {
        assert(d[k] as u8 == b[k]);
    }
    assert(d[0] as u8 == b[0]);
    assert(b.last() == d.last() as u8);
    if n < 10 {
        assert(b.drop_last() =~= Seq::<u8>::empty());
        assert(digits_value(b.drop_last()) == 0);
    } else {
        let front = decimal(n / 10);
        decimal_is_digits(n / 10);
        is_ascii_chars_encode_utf8(front);
        assert(b.drop_last() =~= encode_utf8(front)) by {
            assert forall|k: int| 0 <= k < front.len() implies b[k] == encode_utf8(front)[k] by {
                assert(d[k] == front[k]);
            }
        }
        decimal_reads_back(n / 10);
        assert(encode_utf8(front)[0] == front[0] as u8);
    }
}

/// `s` without its commas.
pub open spec fn without_commas(s: Seq<char>) -> Seq<char> {
    s.filter(|c: char| c != ',')
}

proof fn grouping_adds_commas_upto(digits: Seq<char>, n: nat)
    requires
        n <= digits.len(),
        forall|k: int| 0 <= k < digits.len() ==> #[trigger] digits[k] != ',',
    ensures
        without_commas(grouped_upto(digits, n)) == digits.take(n as int),
    decreases n,
{
    let p = |c: char| c != ',';
    if n == 0 {
        assert(Seq::<char>::empty().filter(p) =~= Seq::<char>::empty()) by {
            reveal(Seq::filter);
        }
        assert(digits.take(0) =~= Seq::<char>::empty());
    } else {
        let before = grouped_upto(digits, (n - 1) as nat);
        grouping_adds_commas_upto(digits, (n - 1) as nat);
        let d = digits[n - 1];
        before.lemma_filter_push(',', p);
        before.lemma_filter_push(d, p);
        before.push(',').lemma_filter_push(d, p);
        assert(digits.take(n as int) =~= digits.take(n - 1).push(d));
    }
}

/// A grouped count differs from the count in its commas alone.
pub proof fn grouping_adds_commas(n: nat)
    ensures
        without_commas(grouped(decimal(n))) == decimal(n),
{
    decimal_is_digits(n);
    grouping_adds_commas_upto(decimal(n), decimal(n).len());
    assert(decimal(n).take(decimal(n).len() as int) =~= decimal(n));
}

/// A digit behind a number makes it ten times as large and adds the digit.
pub proof fn digits_write_base_ten(s: Seq<u8>, d: u8)
    requires
        48 <= d <= 57,
    ensures
        digits_value(Seq::empty()) == 0,
        digits_value(s.push(d)) == 10 * digits_value(s) + (d - 48),
{
    assert(s.push(d).drop_last() =~= s);
}

/// A number is read from digits alone, with a plus sign in front or without,
/// where it is not too large. Nothing else is a number.
pub proof fn numbers_are_digits(s: Seq<u8>, max: nat, at: int)
    ensures
        s.len() > 0 && (forall|k: int| 0 <= k < s.len() ==> 48 <= #[trigger] s[k] <= 57) ==> {
            &&& digits_value(s) <= max ==> unsigned_up_to(s, max) == Some(digits_value(s))
            &&& digits_value(s) <= max ==> unsigned_up_to(seq![43u8] + s, max) == Some(
                digits_value(s),
            )
            &&& digits_value(s) > max ==> unsigned_up_to(s, max) is None
            &&& digits_value(s) > max ==> unsigned_up_to(seq![43u8] + s, max) is None
        },
        s.len() == 0 ==> unsigned_up_to(s, max) is None,
        s.len() == 1 && s[0] == 43 ==> unsigned_up_to(s, max) is None,
        0 < at < s.len() && !(48 <= s[at] <= 57) ==> unsigned_up_to(s, max) is None,
        s.len() > 0 && s[0] != 43 && !(48 <= s[0] <= 57) ==> unsigned_up_to(s, max) is None,
{
    let signed = seq![43u8] + s;
    assert(signed.skip(1) =~= s);
    assert(forall|b: u8| #[trigger] digit(b) <==> 48 <= b <= 57);
    if s.len() > 0 {
        assert(digit(s[0]) <==> 48 <= s[0] <= 57);
        if 0 < at < s.len() {
            assert(s.skip(1)[at - 1] == s[at]);
            assert(digit(s[at]) <==> 48 <= s[at] <= 57);
        }
    }
}

/// Grouping counts from the right: up to three digits stay as they are, and of
/// more the last three stand behind a comma and the groups of the rest.
pub proof fn groups_have_three_digits(digits: Seq<char>)
    ensures
        digits.len() <= 3 ==> grouped(digits) == digits,
        digits.len() > 3 ==> grouped(digits) == grouped(digits.take(digits.len() - 3)) + ","@
            + digits.skip(digits.len() - 3),
{
    reveal_strlit(",");
    assert(","@ =~= seq![',']);
    reveal_with_fuel(grouped_upto, 4);
    let n = digits.len() as int;
    if n <= 3 {
        assert(grouped(digits) =~= digits);
    } else {
        let front = digits.take(n - 3);
        groups_of_the_front(digits, (n - 3) as nat);
        assert(grouped_upto(digits, (n - 3) as nat) == grouped(front));
        assert(grouped(digits) =~= grouped(front) + ","@ + digits.skip(n - 3));
    }
}

proof fn groups_of_the_front(digits: Seq<char>, n: nat)
    requires
        digits.len() >= 3,
        n <= digits.len() - 3,
    ensures
        grouped_upto(digits, n) == grouped_upto(digits.take(digits.len() - 3), n),
    decreases n,
{
    if n > 0 {
        groups_of_the_front(digits, (n - 1) as nat);
        let i = n - 1;
        assert((digits.len() - i) % 3 == (digits.len() - 3 - i) % 3);
    }
}

/// The last hexadecimal digit of a number is its remainder by sixteen, in the
/// characters `0` to `9` and `a` to `f`, and the digits before it are those of
/// the quotient.
pub proof fn hexadecimal_digits(n: nat, width: nat)
    requires
        width > 0,
    ensures
        ({
            let h = hexadecimal(n, width);
            let c = h.last();
            &&& h.len() == width
            &&& h.drop_last() == hexadecimal(n / 16, (width - 1) as nat)
            &&& n % 16 < 10 ==> '0' <= c <= '9' && c as nat == 48 + n % 16
            &&& n % 16 >= 10 ==> 'a' <= c <= 'f' && c as nat == 87 + n % 16
        }),
    decreases width,
{
    if width > 1 {
        hexadecimal_digits(n / 16, (width - 1) as nat);
    }
    assert(hexadecimal(n, width).drop_last() =~= hexadecimal(n / 16, (width - 1) as nat));
}

/// A number below ten is its own digit, and one more digit behind the digits
/// of a number makes the number ten times as large and adds the digit.
pub proof fn decimal_digits_follow(n: nat)
    ensures
        n <= 9 ==> decimal(n).len() == 1 && decimal(n)[0] as nat == 48 + n,
        n >= 10 ==> decimal(n).drop_last() == decimal(n / 10) && decimal(n).last() as nat == 48 + n
            % 10,
        n > 0 ==> decimal(n)[0] != '0',
    decreases n,
{
    if n >= 10 {
        decimal_digits_follow(n / 10);
        decimal_is_digits(n / 10);
        assert(decimal(n).drop_last() =~= decimal(n / 10));
    }
}

} // verus!
