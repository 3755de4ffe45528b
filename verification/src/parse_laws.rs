//! What holds of calls that encode and parse instructions.

use crate::instruction;
use crate::instruction::{
    ElementParse, InstructionParse, LengthParse, ParseError, ParseFault,
};
use crate::instruction_laws;
use crate::text;
use crate::utf8;
use vstd::prelude::*;
use vstd::utf8::*;

verus! {

/// No elements are a bare terminator, and one element more stands before the
/// terminator: after a comma where it is not the first, its number of characters in
/// decimal, a dot, and all its characters.
pub proof fn law_encode_instruction(
    elements: &[&str],
    value: &str,
    more: &[&str],
    count: u64,
    digits: String,
    short: String,
    long: String,
)
    requires
        more@ == elements@.push(value),
        count == value@.len(),
        call_ensures(text::decimal_string, (count,), digits),
        call_ensures(instruction::encode_instruction, (elements,), short),
        call_ensures(instruction::encode_instruction, (more,), long),
    ensures
        elements@.len() == 0 ==> short@ == seq![';'] && long@ == digits@ + seq!['.'] + value@
            + seq![';'],
        elements@.len() > 0 ==> long@ == short@.drop_last() + seq![','] + digits@ + seq!['.']
            + value@ + seq![';'],
        short@.last() == ';',
{
    let f = |value: Seq<char>| instruction::element_text(value);
    let values = elements@.map_values(|element: &str| element@);
    let all = more@.map_values(|element: &str| element@);
    let parts = values.map_values(f);
    assert(short@ == instruction::instruction_text(values));
    assert(long@ == instruction::instruction_text(all));
    assert(digits@ == text::decimal(count as nat));
    assert(all =~= values.push(value@));
    assert(all.map_values(f).drop_last() =~= parts);
    assert(all.map_values(f).last() == digits@ + seq!['.'] + value@);
    if elements@.len() == 0 {
        assert(short@ =~= seq![';']);
        assert(long@ =~= digits@ + seq!['.'] + value@ + seq![';']);
    } else {
        assert(short@.drop_last() =~= text::joined(parts, seq![',']));
        assert(long@ =~= short@.drop_last() + seq![','] + digits@ + seq!['.'] + value@ + seq![';']);
    }
}

/// ASCII bytes are valid text.
proof fn lemma_ascii_valid(bytes: Seq<u8>)
    requires
        forall|i: int| 0 <= i < bytes.len() ==> #[trigger] bytes[i] <= 0x7f,
    ensures
        valid_utf8(bytes),
    decreases bytes.len(),
{
    if bytes.len() > 0 {
        let rest = bytes.skip(1);
        assert forall|i: int| 0 <= i < rest.len() implies #[trigger] rest[i] <= 0x7f by {
            assert(rest[i] == bytes[i + 1]);
        }
        lemma_ascii_valid(rest);
        let b = bytes[0];
        assert(valid_first_scalar(bytes));
        assert(pop_first_scalar(bytes) =~= rest);
    }
}

/// What writes a number is valid text.
proof fn lemma_number_valid(prefix: Seq<u8>)
    requires
        text::usize_value(prefix) is Some,
    ensures
        valid_utf8(prefix),
{
    let digits = text::without_plus(prefix);
    assert forall|i: int| 0 <= i < prefix.len() implies #[trigger] prefix[i] <= 0x7f by {
        if prefix[0] == 0x2b {
            if i > 0 {
                assert(text::is_digit(digits[i - 1]));
            }
        } else {
            assert(text::is_digit(digits[i]));
        }
    }
    lemma_ascii_valid(prefix);
}

/// The length prefix in front of a dot.
proof fn lemma_prefix(prefix: Seq<u8>, rest: Seq<u8>)
    requires
        forall|i: int| 0 <= i < prefix.len() ==> prefix[i] != 0x2e,
    ensures
        ({
            let bytes = prefix + seq![0x2eu8] + rest;
            &&& instruction::bytes_before(bytes, instruction::DOT) == prefix.len()
            &&& bytes.take(prefix.len() as int) == prefix
            &&& bytes.skip(prefix.len() as int + 1) == rest
            &&& text::usize_value(prefix) matches Some(count) ==> instruction::length_parse(bytes)
                == (LengthParse::Length { count, dot: prefix.len() as int })
        }),
{
    let bytes = prefix + seq![0x2eu8] + rest;
    assert forall|i: int| 0 <= i < prefix.len() implies bytes[i] != instruction::DOT by {
        assert(bytes[i] == prefix[i]);
    }
    assert(bytes[prefix.len() as int] == instruction::DOT);
    instruction::lemma_bytes_before_is(bytes, instruction::DOT, prefix.len() as int);
    assert(bytes.take(prefix.len() as int) =~= prefix);
    assert(bytes.skip(prefix.len() as int + 1) =~= rest);
    if text::usize_value(prefix) is Some {
        lemma_number_valid(prefix);
    }
}

/// An element in front of other bytes, whatever way its length is written.
proof fn lemma_element(prefix: Seq<u8>, value: Seq<char>, tail: Seq<u8>)
    requires
        forall|i: int| 0 <= i < prefix.len() ==> prefix[i] != 0x2e,
        text::usize_value(prefix) matches Some(count) && count == value.len(),
        tail.len() > 0,
    ensures
        ({
            let bytes = prefix + seq![0x2eu8] + (encode_utf8(value) + tail);
            let end = prefix.len() as int + 1 + encode_utf8(value).len();
            &&& instruction::element_parse(bytes) == (ElementParse::Element { value, end })
            &&& bytes[end] == tail[0]
            &&& bytes.skip(end + 1) == tail.skip(1)
            &&& bytes.len() == end + tail.len()
        }),
{
    let rest = encode_utf8(value) + tail;
    let bytes = prefix + seq![0x2eu8] + rest;
    let end = prefix.len() as int + 1 + encode_utf8(value).len();
    lemma_prefix(prefix, rest);
    instruction_laws::lemma_value_front(value, tail);
    assert(bytes.skip(end + 1) =~= tail.skip(1));
}

/// What is wrong with the text after a length prefix, where it begins with valid text.
proof fn lemma_text_fault(prefix: Seq<u8>, front: Seq<u8>, tail: Seq<u8>)
    requires
        forall|i: int| 0 <= i < prefix.len() ==> prefix[i] != 0x2e,
        text::usize_value(prefix) is Some,
        valid_utf8(front),
    ensures
        instruction::text_fault(prefix + seq![0x2eu8] + (front + tail)) == if valid_utf8(tail) {
            None
        } else if utf8::incomplete_utf8(tail) {
            Some(InstructionParse::Incomplete)
        } else {
            Some(
                InstructionParse::Malformed(
                    ParseFault::ValueNotUtf8 {
                        valid_up_to: front.len() + utf8::valid_up_to(tail),
                        error_len: utf8::error_len(tail)->0,
                    },
                ),
            )
        },
{
    lemma_prefix(prefix, front + tail);
    utf8::lemma_after_valid(front, tail);
    utf8::lemma_valid_up_to(tail);
    utf8::lemma_valid_up_to_concat(front, tail);
    assert((front + tail).skip(front.len() + utf8::valid_up_to(tail) as int) =~= tail.skip(
        utf8::valid_up_to(tail) as int,
    ));
}

/// A result is told by its model.
proof fn lemma_known(r: Result<Option<(Vec<String>, usize)>, ParseError>)
    ensures
        match instruction::parse_outcome(r) {
            InstructionParse::Incomplete => r matches Ok(None),
            InstructionParse::Complete { elements, consumed } => r matches Ok(Some((found, size)))
                && size == consumed && found@.len() == elements.len() && forall|i: int|
                0 <= i < elements.len() ==> (#[trigger] found@[i])@ == elements[i],
            InstructionParse::Malformed(fault) => match fault {
                ParseFault::LengthNotUtf8 => r matches Err(err) && err is LengthNotUtf8,
                ParseFault::LengthNotInteger { prefix } => r matches Err(
                    ParseError::LengthNotInteger { prefix: text },
                ) && text@ == prefix,
                ParseFault::ValueNotUtf8 { valid_up_to, error_len } => r matches Err(
                    ParseError::ValueNotUtf8 { valid_up_to: from, error_len: len },
                ) && from == valid_up_to && len == error_len,
                ParseFault::UnexpectedByte { byte } => r matches Err(
                    ParseError::UnexpectedByte { byte: b },
                ) && b == byte,
            },
        },
{
    match r {
        Ok(None) => {},
        Ok(Some((found, size))) => {
            let elements = text::texts(found@);
            assert forall|i: int| 0 <= i < elements.len() implies (#[trigger] found@[i])@
                == elements[i] by {}
        },
        Err(err) => match err {
            ParseError::LengthNotUtf8 => {},
            ParseError::LengthNotInteger { prefix } => {},
            ParseError::ValueNotUtf8 { valid_up_to, error_len } => {},
            ParseError::UnexpectedByte { byte } => {},
        },
    }
}

/// An element that a semicolon follows is an instruction, whatever comes after it and
/// whatever way its length is written.
pub proof fn law_parse_last(
    prefix: &[u8],
    count: usize,
    value: Seq<char>,
    rest: Seq<u8>,
    buf: &[u8],
    r: Result<Option<(Vec<String>, usize)>, ParseError>,
)
    requires
        forall|i: int| 0 <= i < prefix@.len() ==> prefix@[i] != 0x2e,
        call_ensures(text::parse_usize, (prefix,), Some(count)),
        count == value.len(),
        buf@ == prefix@ + seq![0x2eu8] + (encode_utf8(value) + (seq![0x3bu8] + rest)),
        call_ensures(instruction::parse_instruction, (buf,), r),
    ensures
        r matches Ok(Some((elements, consumed))) && elements@.len() == 1 && elements@[0]@ == value
            && consumed + rest.len() == buf@.len(),
{
    lemma_element(prefix@, value, seq![0x3bu8] + rest);
    assert(instruction::parse_outcome(r) == instruction::instruction_parse(buf@));
    lemma_known(r);
    assert(seq![value][0] == value);
}

/// An element that a comma follows stands before the elements of what comes after it.
/// Where no instruction comes after it, there is none at all; what is wrong with text
/// after it is then what is wrong, and bytes after it that are no text have to become
/// text first.
pub proof fn law_parse_comma(
    prefix: &[u8],
    count: usize,
    value: Seq<char>,
    rest: &[u8],
    buf: &[u8],
    after: Result<Option<(Vec<String>, usize)>, ParseError>,
    r: Result<Option<(Vec<String>, usize)>, ParseError>,
)
    requires
        forall|i: int| 0 <= i < prefix@.len() ==> prefix@[i] != 0x2e,
        call_ensures(text::parse_usize, (prefix,), Some(count)),
        count == value.len(),
        buf@ == prefix@ + seq![0x2eu8] + (encode_utf8(value) + (seq![0x2cu8] + rest@)),
        call_ensures(instruction::parse_instruction, (rest,), after),
        call_ensures(instruction::parse_instruction, (buf,), r),
    ensures
        match after {
            Ok(Some((more, size))) => r matches Ok(Some((elements, consumed))) && {
                &&& elements@.len() == more@.len() + 1
                &&& elements@[0]@ == value
                &&& forall|i: int|
                    0 <= i < more@.len() ==> (#[trigger] more@[i])@ == elements@[i + 1]@
                &&& buf@.len() - consumed == rest@.len() - size
            },
            _ => if valid_utf8(rest@) {
                match after {
                    Ok(_) => r matches Ok(None),
                    Err(ParseError::LengthNotUtf8) => r matches Err(err) && err is LengthNotUtf8,
                    Err(ParseError::LengthNotInteger { prefix }) => r matches Err(
                        ParseError::LengthNotInteger { prefix: same },
                    ) && same@ == prefix@,
                    Err(ParseError::UnexpectedByte { byte }) => r matches Err(
                        ParseError::UnexpectedByte { byte: same },
                    ) && same == byte,
                    Err(ParseError::ValueNotUtf8 { .. }) => false,
                }
            } else if utf8::incomplete_utf8(rest@) {
                r matches Ok(None)
            } else {
                r matches Err(ParseError::ValueNotUtf8 { valid_up_to, error_len }) && valid_up_to
                    == encode_utf8(value).len() + 1 + utf8::valid_up_to(rest@) && utf8::error_len(
                    rest@,
                ) == Some(error_len as nat)
            },
        },
{
    let tail = seq![0x2cu8] + rest@;
    let front = encode_utf8(value) + seq![0x2cu8];
    lemma_element(prefix@, value, tail);
    assert(tail.skip(1) =~= rest@);
    encode_utf8_valid_utf8(value);
    lemma_ascii_valid(seq![0x2cu8]);
    valid_utf8_concat(encode_utf8(value), seq![0x2cu8]);
    assert(encode_utf8(value) + tail =~= front + rest@);
    lemma_text_fault(prefix@, front, rest@);
    instruction_laws::lemma_after_length(rest@);
    assert(instruction::parse_outcome(r) == instruction::instruction_parse(buf@));
    assert(instruction::parse_outcome(after) == instruction::instruction_parse(rest@));
    lemma_known(r);
    lemma_known(after);
    utf8::lemma_valid_up_to(rest@);
    if let Ok(Some((more, size))) = after {
        let found = text::texts(more@);
        assert(instruction::elements_parse(rest@) == (InstructionParse::Complete {
            elements: found,
            consumed: size as int,
        }));
        if let Ok(Some((elements, consumed))) = r {
            assert(text::texts(elements@) == seq![value] + found);
            assert forall|i: int| 0 <= i < more@.len() implies (#[trigger] more@[i])@
                == elements@[i + 1]@ by {
                assert(found[i] == more@[i]@);
                assert((seq![value] + found)[i + 1] == found[i]);
                assert(text::texts(elements@)[i + 1] == elements@[i + 1]@);
            }
            assert(text::texts(elements@)[0] == elements@[0]@);
        }
    } else {
        lemma_no_value_fault(rest@);
    }
}

/// Elements alone are not held to be text.
proof fn lemma_no_value_fault(bytes: Seq<u8>)
    ensures
        !(instruction::elements_parse(bytes) matches InstructionParse::Malformed(
            ParseFault::ValueNotUtf8 { .. },
        )),
    decreases bytes.len(),
{
    instruction::lemma_element_end(bytes);
    if let ElementParse::Element { value, end } = instruction::element_parse(bytes) {
        lemma_no_value_fault(bytes.skip(end + 1));
    }
}

/// After an element stands a comma or a semicolon. Another byte is an error, once it and
/// all that follows is text.
pub proof fn law_parse_separator(
    prefix: &[u8],
    count: usize,
    value: Seq<char>,
    tail: Seq<u8>,
    buf: &[u8],
    r: Result<Option<(Vec<String>, usize)>, ParseError>,
)
    requires
        forall|i: int| 0 <= i < prefix@.len() ==> prefix@[i] != 0x2e,
        call_ensures(text::parse_usize, (prefix,), Some(count)),
        count == value.len(),
        tail.len() > 0,
        tail[0] != 0x2c,
        tail[0] != 0x3b,
        buf@ == prefix@ + seq![0x2eu8] + (encode_utf8(value) + tail),
        call_ensures(instruction::parse_instruction, (buf,), r),
    ensures
        if valid_utf8(tail) {
            r matches Err(ParseError::UnexpectedByte { byte }) && byte == tail[0]
        } else if utf8::incomplete_utf8(tail) {
            r matches Ok(None)
        } else {
            r matches Err(ParseError::ValueNotUtf8 { valid_up_to, error_len }) && valid_up_to
                == encode_utf8(value).len() + utf8::valid_up_to(tail) && utf8::error_len(tail)
                == Some(error_len as nat)
        },
{
    lemma_element(prefix@, value, tail);
    encode_utf8_valid_utf8(value);
    lemma_text_fault(prefix@, encode_utf8(value), tail);
    assert(instruction::parse_outcome(r) == instruction::instruction_parse(buf@));
    lemma_known(r);
}

/// While the characters of a value, and the byte after it, have not all arrived, more
/// is asked for; but bytes that can never be text are an error.
pub proof fn law_parse_short(
    prefix: &[u8],
    count: usize,
    rest: Seq<u8>,
    buf: &[u8],
    r: Result<Option<(Vec<String>, usize)>, ParseError>,
)
    requires
        forall|i: int| 0 <= i < prefix@.len() ==> prefix@[i] != 0x2e,
        call_ensures(text::parse_usize, (prefix,), Some(count)),
        buf@ == prefix@ + seq![0x2eu8] + rest,
        decode_utf8(rest.take(utf8::valid_up_to(rest) as int)).len() < count || valid_utf8(rest)
            && decode_utf8(rest).len() == count,
        call_ensures(instruction::parse_instruction, (buf,), r),
    ensures
        if valid_utf8(rest) || utf8::incomplete_utf8(rest) {
            r matches Ok(None)
        } else {
            r matches Err(ParseError::ValueNotUtf8 { valid_up_to, error_len }) && valid_up_to
                == utf8::valid_up_to(rest) && utf8::error_len(rest) == Some(error_len as nat)
        },
{
    let none: Seq<u8> = seq![];
    lemma_prefix(prefix@, rest);
    lemma_ascii_valid(none);
    lemma_text_fault(prefix@, none, rest);
    assert(none + rest =~= rest);
    utf8::lemma_valid_up_to(rest);
    if valid_utf8(rest) {
        assert(rest.take(rest.len() as int) =~= rest);
        decode_utf8_encode_utf8(rest);
        assert(decode_utf8(rest).len() == count ==> decode_utf8(rest).take(count as int)
            =~= decode_utf8(rest));
    }
    assert(instruction::parse_outcome(r) == instruction::instruction_parse(buf@));
    lemma_known(r);
}

/// Before the first dot stands a number. Without a dot more is asked for.
pub proof fn law_parse_length(
    prefix: &[u8],
    count: Option<usize>,
    rest: Seq<u8>,
    buf: &[u8],
    cut: Result<Option<(Vec<String>, usize)>, ParseError>,
    r: Result<Option<(Vec<String>, usize)>, ParseError>,
)
    requires
        forall|i: int| 0 <= i < prefix@.len() ==> prefix@[i] != 0x2e,
        call_ensures(text::parse_usize, (prefix,), count),
        buf@ == prefix@ + seq![0x2eu8] + rest,
        call_ensures(instruction::parse_instruction, (prefix,), cut),
        call_ensures(instruction::parse_instruction, (buf,), r),
    ensures
        cut matches Ok(None),
        !valid_utf8(prefix@) ==> (r matches Err(err) && err is LengthNotUtf8),
        valid_utf8(prefix@) && count is None ==> (r matches Err(
            ParseError::LengthNotInteger { prefix: text },
        ) && text@ == decode_utf8(prefix@)),
{
    lemma_prefix(prefix@, rest);
    instruction::lemma_bytes_before_is(
        prefix@,
        instruction::DOT,
        prefix@.len() as int,
    );
    assert(instruction::parse_outcome(r) == instruction::instruction_parse(buf@));
    assert(instruction::parse_outcome(cut) == instruction::instruction_parse(prefix@));
    lemma_known(r);
    lemma_known(cut);
}

/// The messages of bytes that are no instruction.
pub proof fn law_parse_messages(
    err: &ParseError,
    len: u64,
    from: u64,
    len_digits: String,
    from_digits: String,
    byte: u8,
    hex: String,
    r: String,
)
    requires
        *err matches ParseError::ValueNotUtf8 { valid_up_to, error_len } ==> from == valid_up_to
            && len == error_len,
        *err matches ParseError::UnexpectedByte { byte: b } ==> byte == b,
        call_ensures(text::decimal_string, (len,), len_digits),
        call_ensures(text::decimal_string, (from,), from_digits),
        call_ensures(text::hex_string, (byte,), hex),
        call_ensures(ParseError::message, (err,), r),
    ensures
        match *err {
            ParseError::LengthNotUtf8 => r@ == "instruction length prefix not utf-8"@,
            ParseError::LengthNotInteger { prefix } => r@
                == "instruction length prefix not an integer: "@ + text::quoted(prefix@),
            ParseError::ValueNotUtf8 { .. } => r@
                == "instruction value not utf-8: invalid utf-8 sequence of "@ + len_digits@
                + " bytes from index "@ + from_digits@,
            ParseError::UnexpectedByte { .. } => r@
                == "expected ',' or ';' after element, got byte 0x"@ + hex@,
        },
{
    assert(r@ == err@.message());
}

} // verus!
