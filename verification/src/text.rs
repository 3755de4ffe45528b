//! Small text building blocks: decimal and hexadecimal numbers, comparison of
//! strings, and the quoted form of a string.

use crate::utf8;
use vstd::prelude::*;
use vstd::utf8::*;

verus! {

/// The character of the decimal digit `d`.
pub open spec fn digit(d: nat) -> char {
    (0x30 + d) as char
}

/// `n` in decimal, without leading zeros.
pub open spec fn decimal(n: nat) -> Seq<char>
    decreases n,
{
    if n < 10 {
        seq![digit(n)]
    } else {
        decimal(n / 10).push(digit(n % 10))
    }
}

/// The character of the lower-case hexadecimal digit `d`.
pub open spec fn hex_digit(d: nat) -> char {
    if d < 10 {
        digit(d)
    } else {
        (0x61 + (d - 10)) as char
    }
}

/// `b` as two lower-case hexadecimal digits.
pub open spec fn hex_byte(b: u8) -> Seq<char> {
    seq![hex_digit((b / 16) as nat), hex_digit((b % 16) as nat)]
}

/// Whether the byte is an ASCII decimal digit.
pub open spec fn is_digit(b: u8) -> bool {
    0x30 <= b <= 0x39
}

/// The number that a row of decimal digits stands for.
pub open spec fn digits_value(digits: Seq<u8>) -> nat
    decreases digits.len(),
{
    if digits.len() == 0 {
        0
    } else {
        digits_value(digits.drop_last()) * 10 + (digits.last() - 0x30) as nat
    }
}

/// The text after an optional plus sign.
pub open spec fn without_plus(text: Seq<u8>) -> Seq<u8> {
    if text.len() > 0 && text[0] == 0x2b {
        text.skip(1)
    } else {
        text
    }
}

/// The `usize` that the text writes in decimal: an optional plus sign, then one or
/// more digits and nothing else.
pub open spec fn usize_value(text: Seq<u8>) -> Option<usize> {
    let digits = without_plus(text);
    if digits.len() > 0 && (forall|i: int| 0 <= i < digits.len() ==> is_digit(#[trigger] digits[i]))
        && digits_value(digits) <= usize::MAX {
        Some(digits_value(digits) as usize)
    } else {
        None
    }
}

/// The views of a sequence of strings.
pub open spec fn texts(strings: Seq<String>) -> Seq<Seq<char>> {
    strings.map_values(|s: String| s@)
}

/// The parts with a separator between each two of them.
pub open spec fn joined(parts: Seq<Seq<char>>, separator: Seq<char>) -> Seq<char>
    decreases parts.len(),
{
    if parts.len() == 0 {
        seq![]
    } else if parts.len() == 1 {
        parts[0]
    } else {
        joined(parts.drop_last(), separator) + separator + parts.last()
    }
}

/// The one-character string of a hexadecimal digit.
fn digit_str(d: u8) -> (r: &'static str)
    requires
        d < 16,
    ensures
        r@ == seq![hex_digit(d as nat)],
{
    proof {
        reveal_strlit("0");
        reveal_strlit("1");
        reveal_strlit("2");
        reveal_strlit("3");
        reveal_strlit("4");
        reveal_strlit("5");
        reveal_strlit("6");
        reveal_strlit("7");
        reveal_strlit("8");
        reveal_strlit("9");
        reveal_strlit("a");
        reveal_strlit("b");
        reveal_strlit("c");
        reveal_strlit("d");
        reveal_strlit("e");
        reveal_strlit("f");
    }
    match d {
        0 => "0",
        1 => "1",
        2 => "2",
        3 => "3",
        4 => "4",
        5 => "5",
        6 => "6",
        7 => "7",
        8 => "8",
        9 => "9",
        10 => "a",
        11 => "b",
        12 => "c",
        13 => "d",
        14 => "e",
        _ => "f",
    }
}

/// Writes `n` in decimal.
pub fn decimal_string(n: u64) -> (r: String)
    ensures
        r@ == decimal(n as nat),
    decreases n,
{
    if n < 10 {
        digit_str(n as u8).to_owned()
    } else {
        let mut out = decimal_string(n / 10);
        let last: u64 = n % 10;
        out.append(digit_str(last as u8));
        out
    }
}

/// Writes `b` as two lower-case hexadecimal digits.
pub fn hex_string(b: u8) -> (r: String)
    ensures
        r@ == hex_byte(b),
{
    let mut out = digit_str(b / 16).to_owned();
    out.append(digit_str(b % 16));
    out
}

/// The value of a row of digits is at least that of any part it begins with.
proof fn lemma_digits_value_grows(digits: Seq<u8>, k: int)
    requires
        0 <= k <= digits.len(),
    ensures
        digits_value(digits.take(k)) <= digits_value(digits),
    decreases digits.len() - k,
{
    if k == digits.len() {
        assert(digits.take(k) == digits);
    } else {
        lemma_digits_value_grows(digits, k + 1);
        assert(digits.take(k + 1).drop_last() == digits.take(k));
    }
}

/// The digits of `n` are ASCII digits, and their value is `n`.
pub proof fn lemma_decimal_digits(n: nat)
    ensures
        is_ascii_chars(decimal(n)),
        decimal(n).len() > 0,
        forall|i: int| 0 <= i < decimal(n).len() ==> is_digit(#[trigger] encode_utf8(decimal(n))[i]),
        encode_utf8(decimal(n)).len() == decimal(n).len(),
        digits_value(encode_utf8(decimal(n))) == n,
    decreases n,
{
    if n >= 10 {
        lemma_decimal_digits(n / 10);
        assert forall|i: int| 0 <= i < decimal(n).len() implies '\0' <= #[trigger] decimal(n)[i]
            <= '\u{7f}' by {
            if i < decimal(n / 10).len() {
                assert(decimal(n)[i] == decimal(n / 10)[i]);
            }
        }
        utf8::lemma_encode_ascii(decimal(n));
        utf8::lemma_encode_ascii(decimal(n / 10));
        let bytes = encode_utf8(decimal(n));
        let init = encode_utf8(decimal(n / 10));
        assert(bytes.drop_last() =~= init) by {
            assert forall|i: int| 0 <= i < init.len() implies bytes[i] == init[i] by {
                assert(decimal(n)[i] == decimal(n / 10)[i]);
            }
        }
        assert(bytes.last() == 0x30 + n % 10);
        assert forall|i: int| 0 <= i < bytes.len() implies is_digit(#[trigger] bytes[i]) by {
            if i < init.len() {
                assert(bytes[i] == init[i]);
            }
        }
    } else {
        utf8::lemma_encode_ascii(decimal(n));
        let bytes = encode_utf8(decimal(n));
        assert(bytes.drop_last() =~= seq![]);
        assert(bytes.last() == 0x30 + n);
        assert(digits_value(bytes.drop_last()) == 0);
    }
}

/// A number that fits is read back from its digits.
pub proof fn lemma_decimal_read_back(n: usize)
    ensures
        usize_value(encode_utf8(decimal(n as nat))) == Some(n),
{
    lemma_decimal_digits(n as nat);
    let bytes = encode_utf8(decimal(n as nat));
    assert(is_digit(bytes[0]));
}

/// [`joined`] from the front.
pub proof fn lemma_joined_front(parts: Seq<Seq<char>>, separator: Seq<char>)
    requires
        parts.len() >= 2,
    ensures
        joined(parts, separator) == parts[0] + separator + joined(parts.skip(1), separator),
    decreases parts.len(),
{
    let init = parts.drop_last();
    let tail = parts.skip(1);
    assert(tail.last() == parts.last());
    if parts.len() == 2 {
        assert(joined(init, separator) == parts[0]);
        assert(joined(tail, separator) == parts[1]);
    } else {
        lemma_joined_front(init, separator);
        assert(init.skip(1) == tail.drop_last());
        assert(joined(parts, separator) =~= parts[0] + separator + joined(tail, separator));
    }
}

/// Reads a `usize` written in decimal.
pub fn parse_usize(text: &[u8]) -> (r: Option<usize>)
    ensures
        r == usize_value(text@),
{
    let start: usize = if text.len() > 0 && text[0] == 0x2b {
        1
    } else {
        0
    };
    let ghost digits = without_plus(text@);
    assert(digits == text@.skip(start as int));
    if start == text.len() {
        return None;
    }
    let mut value: usize = 0;
    let mut i: usize = start;
    while i < text.len()
        invariant
            start <= i <= text.len(),
            start < text.len(),
            digits == without_plus(text@),
            digits == text@.skip(start as int),
            forall|j: int| 0 <= j < i - start ==> is_digit(#[trigger] digits[j]),
            value == digits_value(digits.take(i - start)),
        decreases text.len() - i,
    {
        let b = text[i];
        let ghost k = i - start;
        assert(digits[k] == b);
        assert(digits.take(k + 1).drop_last() == digits.take(k));
        if b < 0x30 || b > 0x39 {
            return None;
        }
        proof {
            lemma_digits_value_grows(digits, k + 1);
        }
        let units: usize = (b - 0x30) as usize;
        if value > usize::MAX / 10 {
            return None;
        }
        let tens: usize = value * 10;
        if tens > usize::MAX - units {
            return None;
        }
        value = tens + units;
        i = i + 1;
    }
    assert(digits.take(i - start) == digits);
    Some(value)
}

/// Whether two strings hold the same characters.
pub fn same_text(a: &str, b: &str) -> (r: bool)
    ensures
        r == (a@ == b@),
{
    let x = a.as_bytes();
    let y = b.as_bytes();
    proof {
        encode_utf8_decode_utf8(a@);
        encode_utf8_decode_utf8(b@);
    }
    if x.len() != y.len() {
        return false;
    }
    let mut i: usize = 0;
    while i < x.len()
        invariant
            i <= x.len(),
            x.len() == y.len(),
            x@ == encode_utf8(a@),
            y@ == encode_utf8(b@),
            x@.take(i as int) == y@.take(i as int),
        decreases x.len() - i,
    {
        if x[i] != y[i] {
            return false;
        }
        assert(x@.take(i + 1) == x@.take(i as int).push(x@[i as int]));
        assert(y@.take(i + 1) == y@.take(i as int).push(y@[i as int]));
        i = i + 1;
    }
    assert(x@.take(x@.len() as int) == x@);
    assert(y@.take(y@.len() as int) == y@);
    true
}

/// The form in which `{:?}` shows a string: in double quotes, with escapes.
pub uninterp spec fn quoted(text: Seq<char>) -> Seq<char>;

/// `{:?}` of `str`, through `std::format!`.
///
/// The result depends on the characters alone and is named [`quoted`]; which
/// characters are escaped, and how, is left to std.
#[verifier::external_body]
pub(crate) fn quoted_string(s: &str) -> (r: String)
    ensures
        r@ == quoted(s@),
{
    format!("{s:?}")
}

/// The form in which `{:?}` shows a list of strings.
pub open spec fn quoted_list(items: Seq<Seq<char>>) -> Seq<char> {
    "["@ + joined(items.map_values(|item: Seq<char>| quoted(item)), ", "@) + "]"@
}

/// Writes a list of strings as `{:?}` does.
pub fn quoted_list_string(items: &Vec<String>) -> (r: String)
    ensures
        r@ == quoted_list(texts(items@)),
{
    let ghost parts = texts(items@).map_values(|item: Seq<char>| quoted(item));
    let mut out = "[".to_owned();
    let ghost open = out@;
    let mut i: usize = 0;
    assert(out@ =~= open + joined(parts.take(0), ", "@));
    while i < items.len()
        invariant
            i <= items.len(),
            parts == texts(items@).map_values(|item: Seq<char>| quoted(item)),
            out@ == open + joined(parts.take(i as int), ", "@),
        decreases items.len() - i,
    {
        if i > 0 {
            out.append(", ");
        }
        out.append(quoted_string(items[i].as_str()).as_str());
        proof {
            let next = parts.take(i + 1);
            assert(next.drop_last() == parts.take(i as int));
            assert(next.last() == quoted(items[i as int]@));
            assert(out@ =~= open + joined(next, ", "@));
        }
        i = i + 1;
    }
    assert(parts.take(i as int) == parts);
    out.append("]");
    out
}

} // verus!
