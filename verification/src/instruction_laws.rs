//! What holds between encoding and parsing instructions.

use crate::instruction;
use crate::instruction::{ElementParse, InstructionParse, LengthParse};
use crate::text;
use crate::utf8;
use vstd::prelude::*;
use vstd::utf8::*;

verus! {

/// The bytes of an instruction on the wire.
pub open spec fn wire(elements: Seq<Seq<char>>) -> Seq<u8> {
    encode_utf8(instruction::instruction_text(elements))
}

/// Every element is short enough for its length to be a `usize`.
pub open spec fn countable(elements: Seq<Seq<char>>) -> bool {
    forall|i: int| 0 <= i < elements.len() ==> (#[trigger] elements[i]).len() <= usize::MAX
}

/// The characters of an instruction after its first element.
spec fn text_tail(elements: Seq<Seq<char>>) -> Seq<char> {
    if elements.len() == 1 {
        seq![';']
    } else {
        seq![','] + instruction::instruction_text(elements.skip(1))
    }
}

/// An instruction begins with its first element.
proof fn lemma_text_front(elements: Seq<Seq<char>>)
    requires
        elements.len() > 0,
    ensures
        instruction::instruction_text(elements) == instruction::element_text(elements[0]) + text_tail(elements),
{
    let f = |value: Seq<char>| instruction::element_text(value);
    let parts = elements.map_values(f);
    if elements.len() == 1 {
        assert(instruction::instruction_text(elements) =~= instruction::element_text(elements[0]) + seq![';']);
    } else {
        text::lemma_joined_front(parts, seq![',']);
        assert(parts.skip(1) == elements.skip(1).map_values(f));
        assert(instruction::instruction_text(elements) =~= instruction::element_text(elements[0]) + text_tail(elements));
    }
}

/// The bytes of an element: the digits, the dot, the value.
proof fn lemma_element_bytes(value: Seq<char>)
    ensures
        encode_utf8(instruction::element_text(value)) == encode_utf8(text::decimal(value.len())) + seq![instruction::DOT]
            + encode_utf8(value),
{
    let digits = text::decimal(value.len());
    utf8::lemma_encode_concat(digits + seq!['.'], value);
    utf8::lemma_encode_concat(digits, seq!['.']);
    utf8::lemma_encode_ascii(seq!['.']);
    assert(encode_utf8(seq!['.']) =~= seq![instruction::DOT]);
}

/// The encoding of one ASCII character in front of other text.
proof fn lemma_ascii_front(c: char, chars: Seq<char>)
    requires
        c <= '\u{7f}',
    ensures
        encode_utf8(seq![c] + chars) == seq![c as u8] + encode_utf8(chars),
{
    utf8::lemma_encode_concat(seq![c], chars);
    utf8::lemma_encode_ascii(seq![c]);
    assert(encode_utf8(seq![c]) =~= seq![c as u8]);
}

/// The dot of an element is the first one in it, and the digits before it are read
/// back.
proof fn lemma_element_dot(value: Seq<char>, bytes: Seq<u8>)
    requires
        value.len() <= usize::MAX,
        (encode_utf8(text::decimal(value.len())) + seq![instruction::DOT]).is_prefix_of(bytes),
    ensures
        ({
            let digits = encode_utf8(text::decimal(value.len()));
            &&& instruction::bytes_before(bytes, instruction::DOT) == digits.len()
            &&& bytes.take(digits.len() as int) == digits
            &&& valid_utf8(digits)
            &&& text::usize_value(digits) == Some(value.len() as usize)
        }),
{
    let digits = encode_utf8(text::decimal(value.len()));
    let head = digits + seq![instruction::DOT];
    text::lemma_decimal_digits(value.len());
    text::lemma_decimal_read_back(value.len() as usize);
    encode_utf8_valid_utf8(text::decimal(value.len()));
    assert(bytes.take(digits.len() as int) =~= digits) by {
        assert forall|i: int| 0 <= i < digits.len() implies bytes[i] == digits[i] by {
            assert(head[i] == digits[i]);
        }
    }
    assert(bytes[digits.len() as int] == head[digits.len() as int]);
    assert forall|i: int| 0 <= i < digits.len() implies bytes[i] != instruction::DOT by {
        assert(text::is_digit(digits[i]));
        assert(bytes[i] == bytes.take(digits.len() as int)[i]);
    }
    instruction::lemma_bytes_before_is(bytes, instruction::DOT, digits.len() as int);
}

/// A value in front of other bytes is read back, whatever those bytes are.
pub proof fn lemma_value_front(value: Seq<char>, tail: Seq<u8>)
    requires
        value.len() <= usize::MAX,
    ensures
        instruction::value_parse(encode_utf8(value) + tail, value.len() as usize) == if tail.len()
            > 0 {
            ElementParse::Element { value, end: encode_utf8(value).len() as int }
        } else {
            ElementParse::Incomplete
        },
{
    let front = encode_utf8(value);
    let n = utf8::valid_up_to(tail) as int;
    encode_utf8_valid_utf8(value);
    encode_utf8_decode_utf8(value);
    utf8::lemma_valid_up_to(tail);
    utf8::lemma_valid_up_to_concat(front, tail);
    utf8::lemma_decode_concat(front, tail.take(n));
    assert((value + decode_utf8(tail.take(n))).take(value.len() as int) =~= value);
}

/// The bytes of a value that was read are its encoding.
proof fn lemma_value_back(bytes: Seq<u8>, count: usize)
    ensures
        instruction::value_parse(bytes, count) matches ElementParse::Element { value, end } ==> {
            &&& value.len() == count
            &&& 0 <= end < bytes.len()
            &&& bytes.take(end) == encode_utf8(value)
        },
{
    if let ElementParse::Element { value, end } = instruction::value_parse(bytes, count) {
        let head = bytes.take(utf8::valid_up_to(bytes) as int);
        let chars = decode_utf8(head);
        utf8::lemma_valid_up_to(bytes);
        decode_utf8_encode_utf8(head);
        assert(chars == value + chars.skip(count as int));
        utf8::lemma_encode_concat(value, chars.skip(count as int));
        assert(bytes.take(end) =~= head.take(end));
        assert(head.take(end) =~= encode_utf8(value));
    }
}

/// Of a part of the bytes after the dot the same is read as of all of them, or more
/// is asked for.
proof fn lemma_value_stable(whole: Seq<u8>, k: int, count: usize)
    requires
        0 <= k <= whole.len(),
    ensures
        instruction::value_parse(whole.take(k), count) is Incomplete || instruction::value_parse(
            whole.take(k),
            count,
        ) == instruction::value_parse(whole, count),
{
    let part = whole.take(k);
    let n = utf8::valid_up_to(part) as int;
    let head = part.take(n);
    let more = whole.skip(n);
    utf8::lemma_valid_up_to(part);
    utf8::lemma_valid_up_to(more);
    assert(whole =~= head + more);
    utf8::lemma_valid_up_to_concat(head, more);
    utf8::lemma_decode_concat(head, more.take(utf8::valid_up_to(more) as int));
    let chars = decode_utf8(head);
    let all = decode_utf8(whole.take(utf8::valid_up_to(whole) as int));
    if chars.len() >= count {
        assert(chars.take(count as int) =~= all.take(count as int));
    }
}

/// An encoded element in front of other bytes.
proof fn lemma_element_front(value: Seq<char>, tail: Seq<u8>)
    requires
        value.len() <= usize::MAX,
        tail.len() > 0,
    ensures
        instruction::element_parse(encode_utf8(instruction::element_text(value)) + tail) == (
        ElementParse::Element {
            value,
            end: encode_utf8(instruction::element_text(value)).len() as int,
        }),
{
    let digits = encode_utf8(text::decimal(value.len()));
    let bytes = encode_utf8(instruction::element_text(value)) + tail;
    lemma_element_bytes(value);
    assert((digits + seq![instruction::DOT]).is_prefix_of(bytes));
    lemma_element_dot(value, bytes);
    assert(bytes.skip(digits.len() as int + 1) =~= encode_utf8(value) + tail);
    lemma_value_front(value, tail);
}

/// Parsing gives back what was encoded, and takes exactly its bytes, whatever bytes
/// follow in the buffer.
pub proof fn law_parse_encoded(elements: Seq<Seq<char>>, rest: Seq<u8>)
    requires
        elements.len() > 0,
        countable(elements),
    ensures
        instruction::instruction_parse(wire(elements) + rest) == (InstructionParse::Complete {
            elements,
            consumed: wire(elements).len() as int,
        }),
{
    lemma_elements_encoded(elements, rest);
}

proof fn lemma_elements_encoded(elements: Seq<Seq<char>>, rest: Seq<u8>)
    requires
        elements.len() > 0,
        countable(elements),
    ensures
        instruction::elements_parse(wire(elements) + rest) == (InstructionParse::Complete {
            elements,
            consumed: wire(elements).len() as int,
        }),
    decreases elements.len(),
{
    let value = elements[0];
    let front = encode_utf8(instruction::element_text(value));
    let tail = encode_utf8(text_tail(elements));
    let bytes = wire(elements) + rest;
    let end = front.len() as int;
    lemma_text_front(elements);
    utf8::lemma_encode_concat(instruction::element_text(value), text_tail(elements));
    assert(bytes =~= front + (tail + rest));
    lemma_ascii_front(text_tail(elements)[0], text_tail(elements).skip(1));
    assert(text_tail(elements) =~= seq![text_tail(elements)[0]] + text_tail(elements).skip(1));
    lemma_element_front(value, tail + rest);
    assert(bytes[end] == tail[0]);
    if elements.len() == 1 {
        assert(encode_utf8(text_tail(elements).skip(1)) =~= seq![]);
        assert(seq![value] =~= elements);
    } else {
        let more = elements.skip(1);
        assert(text_tail(elements).skip(1) =~= instruction::instruction_text(more));
        assert(bytes.skip(end + 1) =~= wire(more) + rest);
        assert forall|i: int| 0 <= i < more.len() implies (#[trigger] more[i]).len()
            <= usize::MAX by {
            assert(more[i] == elements[i + 1]);
        }
        lemma_elements_encoded(more, rest);
        assert(seq![value] + more =~= elements);
    }
}

/// An instruction has an opcode, lies inside the buffer, and its last byte is the
/// terminator.
pub proof fn law_parse_bounds(buf: Seq<u8>)
    ensures
        instruction::instruction_parse(buf) matches InstructionParse::Complete {
            elements,
            consumed,
        } ==> elements.len() > 0 && 0 < consumed <= buf.len() && buf[consumed - 1] == instruction::SEMICOLON,
{
    lemma_elements_bounds(buf);
}

proof fn lemma_elements_bounds(buf: Seq<u8>)
    ensures
        instruction::elements_parse(buf) matches InstructionParse::Complete {
            elements,
            consumed,
        } ==> elements.len() > 0 && 0 < consumed <= buf.len() && buf[consumed - 1] == instruction::SEMICOLON,
    decreases buf.len(),
{
    instruction::lemma_element_end(buf);
    if let ElementParse::Element { value, end } = instruction::element_parse(buf) {
        if buf[end] == instruction::COMMA {
            lemma_elements_bounds(buf.skip(end + 1));
        }
    }
}

/// The element at the start of a part of the bytes is that of all of them, or the
/// parser asks for more.
proof fn lemma_element_stable(whole: Seq<u8>, k: int)
    requires
        0 <= k <= whole.len(),
    ensures
        instruction::element_parse(whole.take(k)) is Incomplete
            || instruction::element_parse(whole.take(k)) == instruction::element_parse(whole),
{
    let part = whole.take(k);
    lemma_length_stable(whole, k);
    instruction::lemma_bytes_before(part, instruction::DOT);
    if let LengthParse::Length { count, dot } = instruction::length_parse(part) {
        let rest = whole.skip(dot + 1);
        assert(part.skip(dot + 1) =~= rest.take(k - dot - 1));
        lemma_value_stable(rest, k - dot - 1, count);
    }
}

/// The elements at the start of a part of the bytes are those of all of them, or more
/// is asked for.
proof fn lemma_elements_stable(whole: Seq<u8>, k: int)
    requires
        0 <= k <= whole.len(),
    ensures
        instruction::elements_parse(whole.take(k)) is Incomplete
            || instruction::elements_parse(whole.take(k)) == instruction::elements_parse(whole),
    decreases whole.len(),
{
    let part = whole.take(k);
    lemma_element_stable(whole, k);
    instruction::lemma_element_end(part);
    if let ElementParse::Element { value, end } = instruction::element_parse(part) {
        assert(part[end] == whole[end]);
        if part[end] == instruction::COMMA {
            lemma_elements_stable(whole.skip(end + 1), k - end - 1);
            assert(part.skip(end + 1) =~= whole.skip(end + 1).take(k - end - 1));
        }
    }
}

/// The text after a length prefix decides how the whole stands.
pub proof fn lemma_after_length(bytes: Seq<u8>)
    ensures
        instruction::length_parse(bytes) matches LengthParse::Length { dot, .. } ==> {
            let rest = bytes.skip(dot + 1);
            &&& 0 <= dot < bytes.len()
            &&& valid_utf8(bytes) <==> valid_utf8(rest)
            &&& utf8::incomplete_utf8(bytes) <==> utf8::incomplete_utf8(rest)
        },
{
    instruction::lemma_bytes_before(bytes, instruction::DOT);
    if let LengthParse::Length { dot, .. } = instruction::length_parse(bytes) {
        utf8::lemma_encode_ascii(seq!['.']);
        assert(encode_utf8(seq!['.']) =~= seq![instruction::DOT]);
        encode_utf8_valid_utf8(seq!['.']);
        valid_utf8_concat(bytes.take(dot), seq![instruction::DOT]);
        assert(bytes =~= bytes.take(dot) + seq![instruction::DOT] + bytes.skip(dot + 1));
        utf8::lemma_after_valid(bytes.take(dot) + seq![instruction::DOT], bytes.skip(dot + 1));
    }
}

/// Once there is a length prefix, it stays the same.
proof fn lemma_length_stable(whole: Seq<u8>, k: int)
    requires
        0 <= k <= whole.len(),
    ensures
        instruction::length_parse(whole.take(k)) is Incomplete
            || instruction::length_parse(whole.take(k)) == instruction::length_parse(whole),
{
    let part = whole.take(k);
    let dot = instruction::bytes_before(part, instruction::DOT);
    instruction::lemma_bytes_before(part, instruction::DOT);
    if dot < part.len() {
        assert forall|i: int| 0 <= i < dot implies whole[i] != instruction::DOT by {
            assert(whole[i] == part[i]);
        }
        assert(whole[dot] == part[dot]);
        instruction::lemma_bytes_before_is(whole, instruction::DOT, dot);
        assert(whole.take(dot) =~= part.take(dot));
    }
}

/// Text after a length prefix that is not UTF-8 stays so, and for the same reason.
proof fn lemma_fault_stable(whole: Seq<u8>, k: int)
    requires
        0 <= k <= whole.len(),
        instruction::text_fault(whole.take(k)) matches Some(fault) && fault is Malformed,
    ensures
        instruction::text_fault(whole) == instruction::text_fault(whole.take(k)),
        !valid_utf8(whole.take(k)),
        !utf8::incomplete_utf8(whole.take(k)),
{
    let part = whole.take(k);
    lemma_length_stable(whole, k);
    lemma_after_length(part);
    if let LengthParse::Length { dot, .. } = instruction::length_parse(part) {
        utf8::lemma_invalid_extended(part.skip(dot + 1), whole.skip(k));
        assert(part.skip(dot + 1) + whole.skip(k) =~= whole.skip(dot + 1));
    }
}

/// The bytes of an instruction are text.
proof fn lemma_elements_valid(buf: Seq<u8>)
    ensures
        instruction::elements_parse(buf) matches InstructionParse::Complete { consumed, .. }
            ==> valid_utf8(buf.take(consumed)),
    decreases buf.len(),
{
    if let InstructionParse::Complete { consumed, .. } = instruction::elements_parse(buf) {
        instruction::lemma_element_end(buf);
        instruction::lemma_bytes_before(buf, instruction::DOT);
        lemma_elements_bounds(buf);
        let dot = instruction::bytes_before(buf, instruction::DOT);
        let count = text::usize_value(buf.take(dot))->0;
        let rest = buf.skip(dot + 1);
        let end = instruction::element_parse(buf)->end;
        lemma_value_back(rest, count);
        if let ElementParse::Element { value, end: size } = instruction::value_parse(rest, count) {
            let separator: char = if buf[end] == instruction::COMMA {
                ','
            } else {
                ';'
            };
            let text = decode_utf8(buf.take(dot)) + seq!['.'] + value + seq![separator];
            utf8::lemma_encode_concat(decode_utf8(buf.take(dot)) + seq!['.'] + value, seq![separator]);
            utf8::lemma_encode_concat(decode_utf8(buf.take(dot)) + seq!['.'], value);
            utf8::lemma_encode_concat(decode_utf8(buf.take(dot)), seq!['.']);
            utf8::lemma_encode_ascii(seq!['.']);
            utf8::lemma_encode_ascii(seq![separator]);
            decode_utf8_encode_utf8(buf.take(dot));
            assert(encode_utf8(seq!['.']) =~= seq![instruction::DOT]);
            assert(encode_utf8(seq![separator]) =~= seq![buf[end]]);
            assert(buf.take(end + 1) =~= buf.take(dot) + seq![instruction::DOT] + rest.take(size)
                + seq![buf[end]]);
            encode_utf8_valid_utf8(text);
        }
        if buf[end] == instruction::COMMA {
            let tail = buf.skip(end + 1);
            lemma_elements_bounds(tail);
            lemma_elements_valid(tail);
            assert(buf.take(consumed) =~= buf.take(end + 1) + tail.take(consumed - end - 1));
            valid_utf8_concat(buf.take(end + 1), tail.take(consumed - end - 1));
        }
    }
}

/// Nothing is wrong with the valid text at the start of the bytes that is not wrong
/// with all of them. The exception is a mistake in the text, as in `1.a|`, followed by
/// bytes that are not: then it is those bytes that are reported, or more is asked for
/// if they only end inside a character.
pub open spec fn settled(bytes: Seq<u8>) -> bool {
    let text = bytes.take(utf8::valid_up_to(bytes) as int);
    instruction::instruction_parse(text) is Malformed ==> instruction::instruction_parse(bytes)
        == instruction::instruction_parse(text)
}

/// Valid text is settled, and so is whatever begins with an instruction.
pub proof fn law_settled(bytes: Seq<u8>)
    ensures
        valid_utf8(bytes) ==> settled(bytes),
        instruction::instruction_parse(bytes) is Complete ==> settled(bytes),
{
    let n = utf8::valid_up_to(bytes) as int;
    utf8::lemma_valid_up_to(bytes);
    assert(valid_utf8(bytes) ==> bytes.take(n) =~= bytes);
    if instruction::instruction_parse(bytes) is Complete {
        law_parse_stable(bytes, n);
    }
}

/// An instruction that was read does not change with what arrives after it, and an
/// error is not followed by an instruction. Of settled bytes that arrive bit by bit,
/// the parser makes the same at any time, or it asks for more.
pub proof fn law_parse_stable(whole: Seq<u8>, k: int)
    requires
        0 <= k <= whole.len(),
    ensures
        ({
            let part = instruction::instruction_parse(whole.take(k));
            let all = instruction::instruction_parse(whole);
            &&& part is Complete ==> part == all
            &&& part is Malformed ==> !(all is Complete)
            &&& settled(whole) ==> part is Incomplete || part == all
        }),
{
    let part = whole.take(k);
    lemma_elements_stable(whole, k);
    lemma_length_stable(whole, k);
    if instruction::instruction_parse(part) is Malformed {
        if let Some(fault) = instruction::text_fault(part) {
            lemma_fault_stable(whole, k);
            lemma_no_later_instruction(whole, k);
        } else if instruction::length_parse(part) is Length {
            // The mistake stands in valid text.
            let n = utf8::valid_up_to(whole) as int;
            let text = whole.take(n);
            lemma_after_length(part);
            lemma_after_length(text);
            lemma_after_length(whole);
            utf8::lemma_valid_up_to(whole);
            assert(k <= n) by {
                if n < k {
                    assert(!valid_utf8(whole.take(k)));
                }
            }
            assert(text.take(k) =~= part);
            lemma_elements_stable(text, k);
            lemma_length_stable(text, k);
        }
    }
}

/// After text that is not UTF-8 there is no instruction that begins before it.
proof fn lemma_no_later_instruction(whole: Seq<u8>, k: int)
    requires
        0 <= k <= whole.len(),
        !valid_utf8(whole.take(k)),
        !utf8::incomplete_utf8(whole.take(k)),
        !(instruction::elements_parse(whole.take(k)) is Complete),
    ensures
        !(instruction::elements_parse(whole) is Complete),
{
    if let InstructionParse::Complete { consumed, .. } = instruction::elements_parse(whole) {
        let part = whole.take(k);
        let bytes = whole.take(consumed);
        lemma_elements_bounds(whole);
        lemma_elements_valid(whole);
        lemma_elements_consumed(whole);
        if consumed <= k {
            assert(part.take(consumed) =~= bytes);
            lemma_elements_stable(part, consumed);
        } else {
            assert(part + bytes.skip(k) =~= bytes);
        }
    }
}

/// An instruction that has arrived whole stays the same whatever arrives after it.
pub proof fn law_parse_extended(buf: Seq<u8>, more: Seq<u8>)
    requires
        instruction::instruction_parse(buf) is Complete,
    ensures
        instruction::instruction_parse(buf + more) == instruction::instruction_parse(buf),
{
    law_parse_stable(buf + more, buf.len() as int);
    assert((buf + more).take(buf.len() as int) =~= buf);
}

/// As long as an encoded instruction has not arrived whole, the parser asks for
/// more: no part of one is malformed or taken for an instruction.
pub proof fn law_parse_partial(elements: Seq<Seq<char>>, k: int)
    requires
        elements.len() > 0,
        countable(elements),
        0 <= k < wire(elements).len(),
    ensures
        instruction::instruction_parse(wire(elements).take(k)) is Incomplete,
{
    let none: Seq<u8> = seq![];
    law_parse_encoded(elements, none);
    assert(wire(elements) + none =~= wire(elements));
    law_settled(wire(elements));
    law_parse_stable(wire(elements), k);
    law_parse_bounds(wire(elements).take(k));
}

/// Cutting bytes off behind the byte after an element leaves the element as it is.
proof fn lemma_element_shortened(bytes: Seq<u8>, n: int)
    requires
        instruction::element_parse(bytes) is Element,
        instruction::element_parse(bytes)->end < n <= bytes.len(),
    ensures
        instruction::element_parse(bytes.take(n)) == instruction::element_parse(bytes),
{
    instruction::lemma_bytes_before(bytes, instruction::DOT);
    let dot = instruction::bytes_before(bytes, instruction::DOT);
    let rest = bytes.skip(dot + 1);
    let short = bytes.take(n);
    let count = text::usize_value(bytes.take(dot))->0;
    lemma_value_back(rest, count);
    instruction::lemma_bytes_before_is(short, instruction::DOT, dot);
    assert(short.take(dot) =~= bytes.take(dot));
    if let ElementParse::Element { value, end } = instruction::value_parse(rest, count) {
        let tail = bytes.subrange(dot + 1 + end, n);
        assert(short.skip(dot + 1) =~= rest.take(end) + tail);
        lemma_value_front(value, tail);
    }
}

/// The consumed bytes are text and hold the instruction by themselves.
pub proof fn law_parse_consumed(buf: Seq<u8>)
    ensures
        instruction::instruction_parse(buf) matches InstructionParse::Complete { consumed, .. }
            ==> {
            &&& instruction::instruction_parse(buf.take(consumed))
                == instruction::instruction_parse(buf)
            &&& valid_utf8(buf.take(consumed))
        },
{
    lemma_elements_consumed(buf);
    lemma_elements_valid(buf);
}

proof fn lemma_elements_consumed(buf: Seq<u8>)
    ensures
        instruction::elements_parse(buf) matches InstructionParse::Complete { consumed, .. }
            ==> instruction::elements_parse(buf.take(consumed))
            == instruction::elements_parse(buf),
    decreases buf.len(),
{
    if let InstructionParse::Complete { consumed, .. } = instruction::elements_parse(buf) {
        instruction::lemma_element_end(buf);
        lemma_elements_bounds(buf);
        let end = instruction::element_parse(buf)->end;
        let tail = buf.skip(end + 1);
        if buf[end] == instruction::COMMA {
            lemma_elements_bounds(tail);
            lemma_elements_consumed(tail);
            assert(buf.take(consumed).skip(end + 1) =~= tail.take(consumed - end - 1));
        }
        lemma_element_shortened(buf, consumed);
        assert(buf.take(consumed)[end] == buf[end]);
    }
}

/// Different instructions are different on the wire.
pub proof fn law_encoding_injective(a: Seq<Seq<char>>, b: Seq<Seq<char>>)
    requires
        countable(a),
        countable(b),
        instruction::instruction_text(a) == instruction::instruction_text(b),
    ensures
        a == b,
{
    let none: Seq<u8> = seq![];
    if a.len() > 0 {
        law_parse_encoded(a, none);
    } else {
        lemma_nothing_encoded(a);
    }
    if b.len() > 0 {
        law_parse_encoded(b, none);
    } else {
        lemma_nothing_encoded(b);
    }
}

/// The encoding of no elements is the bare terminator, which is no instruction.
proof fn lemma_nothing_encoded(elements: Seq<Seq<char>>)
    requires
        elements.len() == 0,
    ensures
        elements == Seq::<Seq<char>>::empty(),
        instruction::instruction_parse(wire(elements) + seq![]) is Incomplete,
{
    assert(instruction::instruction_text(elements) =~= seq![';']);
    utf8::lemma_encode_ascii(seq![';']);
    let bytes = wire(elements) + seq![];
    assert(bytes[0] == instruction::SEMICOLON);
    instruction::lemma_bytes_before_is(bytes, instruction::DOT, 1);
}

/// Every encoded instruction ends with the terminator.
pub proof fn law_encoding_terminated(elements: Seq<Seq<char>>)
    ensures
        instruction::instruction_text(elements).last() == ';',
{
}

} // verus!
