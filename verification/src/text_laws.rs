//! What holds of calls of the text building blocks.

use crate::text;
use vstd::prelude::*;
use vstd::utf8::*;

verus! {

/// One more digit at the end of a number is one more character at the end of its text;
/// a number of one digit is that digit.
pub proof fn law_decimal_string(n: u64, d: u64, m: u64, short: String, long: String)
    requires
        d < 10,
        m == 10 * n + d,
        call_ensures(text::decimal_string, (n,), short),
        call_ensures(text::decimal_string, (m,), long),
    ensures
        n == 0 ==> long@ == seq![(0x30 + d) as char],
        n > 0 ==> long@ == short@.push((0x30 + d) as char),
{
    assert(short@ == text::decimal(n as nat));
    assert(long@ == text::decimal(m as nat));
    assert(n > 0 ==> m / 10 == n && m % 10 == d);
}

/// A byte is written as its upper and its lower half, each as one of `0` to `9` and `a`
/// to `f`.
pub proof fn law_hex_string(b: u8, r: String)
    requires
        call_ensures(text::hex_string, (b,), r),
    ensures
        r@.len() == 2,
        b / 16 < 10 ==> r@[0] == (0x30 + b / 16) as char,
        b / 16 >= 10 ==> r@[0] == (0x61 + (b / 16 - 10)) as char,
        b % 16 < 10 ==> r@[1] == (0x30 + b % 16) as char,
        b % 16 >= 10 ==> r@[1] == (0x61 + (b % 16 - 10)) as char,
{
    assert(r@ == text::hex_byte(b));
}

/// A number is read digit by digit: one more digit makes it ten times as much and the
/// digit more, as long as it fits. Nothing else may follow, a plus sign may stand in
/// front, and there has to be a digit.
pub proof fn law_parse_usize(
    short: &[u8],
    b: u8,
    long: &[u8],
    short_value: Option<usize>,
    long_value: Option<usize>,
)
    requires
        long@ == short@.push(b),
        call_ensures(text::parse_usize, (short,), short_value),
        call_ensures(text::parse_usize, (long,), long_value),
    ensures
        short@.len() == 0 ==> short_value is None,
        short@ == seq![0x2bu8] ==> short_value is None,
        short@.len() == 0 || short@ == seq![0x2bu8] ==> long_value == if 0x30 <= b <= 0x39 {
            Some((b - 0x30) as usize)
        } else {
            None
        },
        short@.len() > 0 && short@ != seq![0x2bu8] ==> match (short_value, long_value) {
            (Some(short_value), Some(long_value)) => 0x30 <= b <= 0x39 && long_value == 10
                * short_value + (b - 0x30),
            (Some(short_value), None) => !(0x30 <= b <= 0x39) || 10 * short_value + (b - 0x30)
                > usize::MAX,
            (None, long_value) => long_value is None,
        },
{
    let digits = text::without_plus(short@);
    let more = text::without_plus(long@);
    assert(short_value == text::usize_value(short@));
    assert(long_value == text::usize_value(long@));
    if short@.len() == 0 {
        assert(short@ =~= seq![]);
        if b == 0x2b {
            assert(more =~= seq![]);
        } else {
            assert(more =~= seq![b]);
            assert(more.drop_last() =~= seq![]);
            assert(more[0] == b);
            assert(text::digits_value(more.drop_last()) == 0);
        }
    } else {
        assert(long@[0] == short@[0]);
        assert(more =~= digits.push(b));
        assert(more.drop_last() =~= digits);
        assert(more.last() == b);
        if short@ == seq![0x2bu8] {
            assert(digits =~= seq![]);
            assert(more[0] == b);
        } else {
            assert(digits.len() > 0) by {
                if digits.len() == 0 {
                    assert(short@ =~= seq![0x2bu8]);
                }
            }
            if forall|i: int| 0 <= i < more.len() ==> text::is_digit(#[trigger] more[i]) {
                assert forall|i: int| 0 <= i < digits.len() implies text::is_digit(
                    #[trigger] digits[i],
                ) by {
                    assert(more[i] == digits[i]);
                }
                assert(text::is_digit(more[more.len() - 1]));
            } else {
                if text::is_digit(b) && forall|i: int|
                    0 <= i < digits.len() ==> text::is_digit(#[trigger] digits[i]) {
                    assert forall|i: int| 0 <= i < more.len() implies text::is_digit(
                        #[trigger] more[i],
                    ) by {
                        if i < digits.len() {
                            assert(more[i] == digits[i]);
                        }
                    }
                }
            }
        }
    }
}

/// Texts are equal exactly if every character is.
pub proof fn law_same_text(a: &str, b: &str, r: bool)
    requires
        call_ensures(text::same_text, (a, b), r),
    ensures
        r <==> a@.len() == b@.len() && forall|i: int| 0 <= i < a@.len() ==> #[trigger] a@[i] == b@[i],
{
    if a@.len() == b@.len() && forall|i: int| 0 <= i < a@.len() ==> #[trigger] a@[i] == b@[i] {
        assert(a@ =~= b@);
    }
}

/// The texts of strings are those of each of them, character for character.
pub proof fn law_texts(strings: Seq<String>)
    ensures
        text::texts(strings).len() == strings.len(),
        forall|i: int| 0 <= i < strings.len() ==> #[trigger] text::texts(strings)[i] == strings[i]@,
{
}

/// A list is shown in brackets, with a comma and a space between its items: one item
/// more stands before the closing bracket.
pub proof fn law_quoted_list_string(
    items: &Vec<String>,
    item: String,
    more: &Vec<String>,
    short: String,
    long: String,
)
    requires
        more@ == items@.push(item),
        call_ensures(text::quoted_list_string, (items,), short),
        call_ensures(text::quoted_list_string, (more,), long),
    ensures
        items@.len() == 0 ==> short@ == seq!['[', ']'] && long@ == seq!['['] + text::quoted(item@)
            + seq![']'],
        items@.len() > 0 ==> long@ == short@.drop_last() + seq![',', ' '] + text::quoted(item@)
            + seq![']'],
{
    reveal_strlit("[");
    reveal_strlit("]");
    reveal_strlit(", ");
    let parts = text::texts(items@).map_values(|item: Seq<char>| text::quoted(item));
    let all = text::texts(more@).map_values(|item: Seq<char>| text::quoted(item));
    assert(short@ == text::quoted_list(text::texts(items@)));
    assert(long@ == text::quoted_list(text::texts(more@)));
    assert(all =~= parts.push(text::quoted(item@)));
    assert(all.drop_last() =~= parts);
    assert("["@ =~= seq!['[']);
    assert("]"@ =~= seq![']']);
    assert(", "@ =~= seq![',', ' ']);
    if items@.len() == 0 {
        assert(short@ =~= seq!['[', ']']);
        assert(long@ =~= seq!['['] + text::quoted(item@) + seq![']']);
    } else {
        assert(short@.drop_last() =~= seq!['['] + text::joined(parts, ", "@));
        assert(long@ =~= short@.drop_last() + seq![',', ' '] + text::quoted(item@) + seq![']']);
    }
}

} // verus!
