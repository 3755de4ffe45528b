//! Guacamole instructions.
//!
//! An instruction is a list of elements, separated by `,` and terminated by `;`.
//! An element is length-prefixed: `<char-count>.<value>`, where the count is that
//! of the Unicode codepoints in the value. The first element is the opcode.
//!
//! ```text
//! 6.select,3.vnc;
//! ```

use crate::text;
use crate::utf8;
use vstd::prelude::*;
use vstd::slice::*;
use vstd::utf8::*;

verus! {

/// The byte between an element's length and its value.
pub const DOT: u8 = 0x2e;

/// The byte between two elements.
pub const COMMA: u8 = 0x2c;

/// The byte after the last element.
pub const SEMICOLON: u8 = 0x3b;

/// One element on the wire: its length in codepoints, a dot, its value.
pub open spec fn element_text(value: Seq<char>) -> Seq<char> {
    text::decimal(value.len()) + seq!['.'] + value
}

/// One instruction on the wire.
pub open spec fn instruction_text(elements: Seq<Seq<char>>) -> Seq<char> {
    text::joined(elements.map_values(|value: Seq<char>| element_text(value)), seq![',']).push(';')
}

/// Encodes a single Guacamole instruction.
///
/// The first element is the opcode; the rest are arguments. The output always ends
/// with the `;` instruction terminator.
pub fn encode_instruction(elements: &[&str]) -> (r: String)
    ensures
        r@ == instruction_text(elements@.map_values(|element: &str| element@)),
{
    let ghost values = elements@.map_values(|element: &str| element@);
    let ghost parts = values.map_values(|value: Seq<char>| element_text(value));
    proof {
        reveal_strlit(",");
        reveal_strlit(".");
        reveal_strlit(";");
        assert(","@ =~= seq![',']);
        assert("."@ =~= seq!['.']);
        assert(";"@ =~= seq![';']);
    }
    let mut out = String::new();
    let mut i: usize = 0;
    while i < elements.len()
        invariant
            i <= elements.len(),
            values == elements@.map_values(|element: &str| element@),
            parts == values.map_values(|value: Seq<char>| element_text(value)),
            ","@ == seq![','],
            "."@ == seq!['.'],
            out@ == text::joined(parts.take(i as int), seq![',']),
        decreases elements.len() - i,
    {
        let ghost before = out@;
        if i > 0 {
            out.append(",");
        }
        let value = elements[i];
        let count: usize = value.unicode_len();
        out.append(text::decimal_string(count as u64).as_str());
        out.append(".");
        out.append(value);
        proof {
            let next = parts.take(i + 1);
            assert(next.drop_last() == parts.take(i as int));
            assert(parts[i as int] == element_text(value@));
            if i == 0 {
                assert(before =~= seq![]);
            }
            assert(out@ =~= text::joined(next, seq![',']));
        }
        i = i + 1;
    }
    assert(parts.take(i as int) == parts);
    out.append(";");
    out
}

/// What makes bytes no instruction.
pub enum ParseFault {
    /// The length prefix is not UTF-8.
    LengthNotUtf8,
    /// The length prefix is text, but no number.
    LengthNotInteger { prefix: Seq<char> },
    /// What follows the dot is not UTF-8.
    ValueNotUtf8 { valid_up_to: nat, error_len: nat },
    /// After an element stands neither `,` nor `;`.
    UnexpectedByte { byte: u8 },
}

/// Why [`parse_instruction`] refused its input.
#[derive(Debug)]
pub enum ParseError {
    LengthNotUtf8,
    LengthNotInteger { prefix: String },
    ValueNotUtf8 { valid_up_to: usize, error_len: usize },
    UnexpectedByte { byte: u8 },
}

impl View for ParseError {
    type V = ParseFault;

    open spec fn view(&self) -> ParseFault {
        match *self {
            ParseError::LengthNotUtf8 => ParseFault::LengthNotUtf8,
            ParseError::LengthNotInteger { prefix } => ParseFault::LengthNotInteger {
                prefix: prefix@,
            },
            ParseError::ValueNotUtf8 { valid_up_to, error_len } => ParseFault::ValueNotUtf8 {
                valid_up_to: valid_up_to as nat,
                error_len: error_len as nat,
            },
            ParseError::UnexpectedByte { byte } => ParseFault::UnexpectedByte { byte },
        }
    }
}

impl ParseFault {
    /// The message of the error.
    pub open spec fn message(self) -> Seq<char> {
        match self {
            ParseFault::LengthNotUtf8 => "instruction length prefix not utf-8"@,
            ParseFault::LengthNotInteger { prefix } => {
                "instruction length prefix not an integer: "@ + text::quoted(prefix)
            },
            ParseFault::ValueNotUtf8 { valid_up_to, error_len } => {
                "instruction value not utf-8: invalid utf-8 sequence of "@ + text::decimal(
                    error_len,
                ) + " bytes from index "@ + text::decimal(valid_up_to)
            },
            ParseFault::UnexpectedByte { byte } => {
                "expected ',' or ';' after element, got byte 0x"@ + text::hex_byte(byte)
            },
        }
    }
}

impl ParseError {
    /// The message of the error.
    pub fn message(&self) -> (r: String)
        ensures
            r@ == self@.message(),
    {
        match self {
            ParseError::LengthNotUtf8 => "instruction length prefix not utf-8".to_owned(),
            ParseError::LengthNotInteger { prefix } => {
                let mut out = "instruction length prefix not an integer: ".to_owned();
                out.append(text::quoted_string(prefix.as_str()).as_str());
                out
            },
            ParseError::ValueNotUtf8 { valid_up_to, error_len } => {
                let mut out =
                    "instruction value not utf-8: invalid utf-8 sequence of ".to_owned();
                out.append(text::decimal_string(*error_len as u64).as_str());
                out.append(" bytes from index ");
                out.append(text::decimal_string(*valid_up_to as u64).as_str());
                out
            },
            ParseError::UnexpectedByte { byte } => {
                let mut out = "expected ',' or ';' after element, got byte 0x".to_owned();
                out.append(text::hex_string(*byte).as_str());
                out
            },
        }
    }
}

/// What the bytes from the start of an element hold.
pub enum ElementParse {
    /// More bytes are needed.
    Incomplete,
    Malformed(ParseFault),
    /// An element with this value; `end` is the index of the byte after it.
    Element { value: Seq<char>, end: int },
}

/// What the bytes from the start of an instruction hold.
pub enum InstructionParse {
    /// More bytes are needed.
    Incomplete,
    Malformed(ParseFault),
    /// An instruction with these elements in the first `consumed` bytes.
    Complete { elements: Seq<Seq<char>>, consumed: int },
}

/// The number of bytes before the first `b`, or all of them where there is none.
pub open spec fn bytes_before(bytes: Seq<u8>, b: u8) -> int
    decreases bytes.len(),
{
    if bytes.len() == 0 || bytes[0] == b {
        0
    } else {
        1 + bytes_before(bytes.skip(1), b)
    }
}

/// What the bytes from the start of an element hold up to its dot.
pub enum LengthParse {
    /// There is no dot yet.
    Incomplete,
    Malformed(ParseFault),
    /// The value has `count` characters; `dot` is the index of the dot.
    Length { count: usize, dot: int },
}

/// The length prefix at the start of the bytes.
pub open spec fn length_parse(bytes: Seq<u8>) -> LengthParse {
    let dot = bytes_before(bytes, DOT);
    let prefix = bytes.take(dot);
    if dot == bytes.len() {
        LengthParse::Incomplete
    } else if !valid_utf8(prefix) {
        LengthParse::Malformed(ParseFault::LengthNotUtf8)
    } else {
        match text::usize_value(prefix) {
            None => LengthParse::Malformed(
                ParseFault::LengthNotInteger { prefix: decode_utf8(prefix) },
            ),
            Some(count) => LengthParse::Length { count, dot },
        }
    }
}

/// The value of an element: the first `count` characters of the bytes after the dot,
/// as far as these are valid. What follows them plays no part.
pub open spec fn value_parse(bytes: Seq<u8>, count: usize) -> ElementParse {
    let chars = decode_utf8(bytes.take(utf8::valid_up_to(bytes) as int));
    let value = chars.take(count as int);
    let end = encode_utf8(value).len() as int;
    if chars.len() >= count && end < bytes.len() {
        ElementParse::Element { value, end }
    } else {
        ElementParse::Incomplete
    }
}

/// The element at the start of the bytes.
pub open spec fn element_parse(bytes: Seq<u8>) -> ElementParse {
    match length_parse(bytes) {
        LengthParse::Incomplete => ElementParse::Incomplete,
        LengthParse::Malformed(fault) => ElementParse::Malformed(fault),
        LengthParse::Length { count, dot } => match value_parse(bytes.skip(dot + 1), count) {
            ElementParse::Element { value, end } => ElementParse::Element {
                value,
                end: dot + 1 + end,
            },
            other => other,
        },
    }
}

/// `rest`, which starts `offset` bytes into an instruction, with the elements
/// before it.
pub open spec fn after_elements(
    elements: Seq<Seq<char>>,
    offset: int,
    rest: InstructionParse,
) -> InstructionParse {
    match rest {
        InstructionParse::Complete { elements: more, consumed } => InstructionParse::Complete {
            elements: elements + more,
            consumed: offset + consumed,
        },
        other => other,
    }
}

/// The elements at the start of the bytes, one after the other up to the terminator.
pub open spec fn elements_parse(bytes: Seq<u8>) -> InstructionParse
    decreases bytes.len(),
{
    match element_parse(bytes) {
        ElementParse::Incomplete => InstructionParse::Incomplete,
        ElementParse::Malformed(fault) => InstructionParse::Malformed(fault),
        ElementParse::Element { value, end } => {
            proof {
                lemma_element_end(bytes);
            }
            if bytes[end] == SEMICOLON {
                InstructionParse::Complete { elements: seq![value], consumed: end + 1 }
            } else if bytes[end] == COMMA {
                after_elements(seq![value], end + 1, elements_parse(bytes.skip(end + 1)))
            } else {
                InstructionParse::Malformed(ParseFault::UnexpectedByte { byte: bytes[end] })
            }
        },
    }
}

/// What is wrong with all that follows the first dot, taken as text: it ends inside a
/// character, or it is not UTF-8.
pub open spec fn text_fault(bytes: Seq<u8>) -> Option<InstructionParse> {
    match length_parse(bytes) {
        LengthParse::Length { dot, .. } => {
            let rest = bytes.skip(dot + 1);
            if valid_utf8(rest) {
                None
            } else if utf8::incomplete_utf8(rest) {
                Some(InstructionParse::Incomplete)
            } else {
                Some(
                    InstructionParse::Malformed(
                        ParseFault::ValueNotUtf8 {
                            valid_up_to: utf8::valid_up_to(rest),
                            error_len: utf8::error_len(rest)->0,
                        },
                    ),
                )
            }
        },
        _ => None,
    }
}

/// The instruction at the start of the bytes. One that is there whole is taken,
/// whatever follows it. Where there is none, the bytes have to be text before anything
/// else is held against them.
pub open spec fn instruction_parse(bytes: Seq<u8>) -> InstructionParse {
    match elements_parse(bytes) {
        InstructionParse::Complete { elements, consumed } => InstructionParse::Complete {
            elements,
            consumed,
        },
        other => match text_fault(bytes) {
            Some(fault) => fault,
            None => other,
        },
    }
}

/// The outcome of [`parse_instruction`] in terms of the model.
pub open spec fn parse_outcome(
    r: Result<Option<(Vec<String>, usize)>, ParseError>,
) -> InstructionParse {
    match r {
        Ok(None) => InstructionParse::Incomplete,
        Ok(Some((elements, consumed))) => InstructionParse::Complete {
            elements: text::texts(elements@),
            consumed: consumed as int,
        },
        Err(err) => InstructionParse::Malformed(err@),
    }
}

/// The bounds of [`bytes_before`].
pub proof fn lemma_bytes_before(bytes: Seq<u8>, b: u8)
    ensures
        0 <= bytes_before(bytes, b) <= bytes.len(),
        bytes_before(bytes, b) < bytes.len() ==> bytes[bytes_before(bytes, b)] == b,
        forall|i: int| 0 <= i < bytes_before(bytes, b) ==> bytes[i] != b,
    decreases bytes.len(),
{
    if bytes.len() > 0 && bytes[0] != b {
        let rest = bytes.skip(1);
        lemma_bytes_before(rest, b);
        assert forall|i: int| 0 <= i < bytes_before(bytes, b) implies bytes[i] != b by {
            if i > 0 {
                assert(bytes[i] == rest[i - 1]);
            }
        }
    }
}

/// [`bytes_before`] is the index of the first `b`.
pub proof fn lemma_bytes_before_is(bytes: Seq<u8>, b: u8, at: int)
    requires
        0 <= at <= bytes.len(),
        at < bytes.len() ==> bytes[at] == b,
        forall|i: int| 0 <= i < at ==> bytes[i] != b,
    ensures
        bytes_before(bytes, b) == at,
{
    lemma_bytes_before(bytes, b);
    let found = bytes_before(bytes, b);
    if found < at {
        assert(bytes[found] != b);
    } else if at < found {
        assert(bytes[at] != b);
    }
}

/// The index of the first `b`, or the length where there is none.
fn find_byte(bytes: &[u8], b: u8) -> (r: usize)
    ensures
        r == bytes_before(bytes@, b),
{
    let mut i: usize = 0;
    while i < bytes.len() && bytes[i] != b
        invariant
            i <= bytes.len(),
            forall|j: int| 0 <= j < i ==> bytes@[j] != b,
        decreases bytes.len() - i,
    {
        i = i + 1;
    }
    proof {
        lemma_bytes_before_is(bytes@, b, i as int);
    }
    i
}

/// The outcome of [`parse_element`] in terms of the model.
spec fn element_outcome(r: Result<Option<(String, usize)>, ParseError>) -> ElementParse {
    match r {
        Ok(None) => ElementParse::Incomplete,
        Ok(Some((value, end))) => ElementParse::Element { value: value@, end: end as int },
        Err(err) => ElementParse::Malformed(err@),
    }
}

/// The outcome of [`parse_length`] in terms of the model.
spec fn length_outcome(r: Result<Option<(usize, usize)>, ParseError>) -> LengthParse {
    match r {
        Ok(None) => LengthParse::Incomplete,
        Ok(Some((count, dot))) => LengthParse::Length { count, dot: dot as int },
        Err(err) => LengthParse::Malformed(err@),
    }
}

/// Parses the length prefix at the start of the bytes: the number of characters and
/// the index of the dot.
fn parse_length(bytes: &[u8]) -> (r: Result<Option<(usize, usize)>, ParseError>)
    ensures
        length_outcome(r) == length_parse(bytes@),
        r matches Ok(Some((_, dot))) ==> dot < bytes@.len(),
{
    let dot = find_byte(bytes, DOT);
    proof {
        lemma_bytes_before(bytes@, DOT);
    }
    if dot == bytes.len() {
        return Ok(None);
    }
    let prefix = slice_subrange(bytes, 0, dot);
    assert(prefix@ == bytes@.take(dot as int));
    let prefix_text = match utf8::from_utf8(prefix) {
        Ok(s) => s,
        Err(_) => return Err(ParseError::LengthNotUtf8),
    };
    match text::parse_usize(prefix) {
        Some(count) => Ok(Some((count, dot))),
        None => Err(ParseError::LengthNotInteger { prefix: prefix_text.to_owned() }),
    }
}

/// Parses the element at the start of the bytes.
fn parse_element(bytes: &[u8]) -> (r: Result<Option<(String, usize)>, ParseError>)
    ensures
        element_outcome(r) == element_parse(bytes@),
{
    let (count, dot) = match parse_length(bytes) {
        Ok(Some(length)) => length,
        Ok(None) => return Ok(None),
        Err(err) => return Err(err),
    };
    let len: usize = bytes.len();
    let rest = slice_subrange(bytes, dot + 1, len);
    assert(rest@ == bytes@.skip(dot + 1));
    let (s, _) = utf8::decode_prefix(rest);
    if s.unicode_len() < count {
        return Ok(None);
    }
    let value = s.substring_char(0, count);
    let end: usize = value.as_bytes().len();
    assert(value@ == s@.take(count as int));
    if end >= rest.len() {
        return Ok(None);
    }
    Ok(Some((value.to_owned(), dot + 1 + end)))
}

/// An element ends inside the bytes, after its dot.
pub proof fn lemma_element_end(bytes: Seq<u8>)
    ensures
        element_parse(bytes) matches ElementParse::Element { end, .. } ==> 0 < end < bytes.len(),
{
    lemma_bytes_before(bytes, DOT);
}

/// No elements before an instruction leave it as it is.
proof fn lemma_after_none(rest: InstructionParse)
    ensures
        after_elements(seq![], 0, rest) == rest,
{
    if let InstructionParse::Complete { elements, consumed } = rest {
        assert(Seq::<Seq<char>>::empty() + elements == elements);
    }
}

/// Elements before elements.
proof fn lemma_after_after(
    a: Seq<Seq<char>>,
    i: int,
    b: Seq<Seq<char>>,
    j: int,
    rest: InstructionParse,
)
    ensures
        after_elements(a, i, after_elements(b, j, rest)) == after_elements(a + b, i + j, rest),
{
    if let InstructionParse::Complete { elements, consumed } = rest {
        assert(a + (b + elements) == a + b + elements);
    }
}

/// Parses elements up to the terminator.
fn parse_elements(buf: &[u8]) -> (r: Result<Option<(Vec<String>, usize)>, ParseError>)
    ensures
        parse_outcome(r) == elements_parse(buf@),
{
    let mut elements: Vec<String> = Vec::new();
    let mut cursor: usize = 0;
    proof {
        assert(buf@.skip(0) == buf@);
        lemma_after_none(elements_parse(buf@));
        assert(text::texts(elements@) =~= seq![]);
    }
    loop
        invariant
            cursor <= buf.len(),
            elements_parse(buf@) == after_elements(
                text::texts(elements@),
                cursor as int,
                elements_parse(buf@.skip(cursor as int)),
            ),
        decreases buf.len() - cursor,
    {
        let rest = slice_subrange(buf, cursor, buf.len());
        assert(rest@ == buf@.skip(cursor as int));
        proof {
            lemma_element_end(rest@);
        }
        match parse_element(rest) {
            Err(err) => return Err(err),
            Ok(None) => return Ok(None),
            Ok(Some((value, end))) => {
                let ghost before = text::texts(elements@);
                let ghost text = value@;
                elements.push(value);
                assert(text::texts(elements@) =~= before + seq![text]);
                let separator: u8 = rest[end];
                if separator == COMMA {
                    proof {
                        let tail = buf@.skip(cursor + end + 1);
                        assert(rest@.skip(end + 1) == tail);
                        lemma_after_after(
                            before,
                            cursor as int,
                            seq![text],
                            end + 1,
                            elements_parse(tail),
                        );
                    }
                    cursor = cursor + end + 1;
                } else if separator == SEMICOLON {
                    return Ok(Some((elements, cursor + end + 1)));
                } else {
                    return Err(ParseError::UnexpectedByte { byte: separator });
                }
            },
        }
    }
}

/// Parses a single complete instruction from `buf`. On success returns
/// `(elements, bytes_consumed)`. Returns `Ok(None)` if the buffer ends before the
/// `;` terminator (the caller should read more).
///
/// While there is no complete instruction, all that follows the first dot has to be
/// text: if it ends inside a character, more is asked for, and if it is not UTF-8,
/// that is the error.
pub fn parse_instruction(buf: &[u8]) -> (r: Result<Option<(Vec<String>, usize)>, ParseError>)
    ensures
        parse_outcome(r) == instruction_parse(buf@),
{
    let found = parse_elements(buf);
    if let Ok(Some(_)) = found {
        return found;
    }
    if let Ok(Some((_, dot))) = parse_length(buf) {
        let len: usize = buf.len();
        let rest = slice_subrange(buf, dot + 1, len);
        assert(rest@ == buf@.skip(dot + 1));
        if let Err(fault) = utf8::from_utf8(rest) {
            return match fault.error_len {
                Some(error_len) => Err(
                    ParseError::ValueNotUtf8 { valid_up_to: fault.valid_up_to, error_len },
                ),
                None => Ok(None),
            };
        }
    }
    found
}

} // verus!
