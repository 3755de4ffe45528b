//! What holds of the instructions that a reader yields from a whole stream.

use crate::instruction;
use crate::instruction::{InstructionParse, ParseError};
use crate::instruction_laws;
use crate::reader;
use crate::reader::{GuacdReader, ReadError, ReadEvent, ReadOutcome, ReadStep};
use crate::text;
use vstd::prelude::*;

verus! {

/// What comes of a step of the reader when every request to read is answered: by
/// the next of the chunks, and after the last by the end of the stream. The result
/// is what stays pending, the chunks not read, and the outcome.
pub open spec fn read_on(step: (Seq<u8>, ReadOutcome), chunks: Seq<Seq<u8>>) -> (
    Seq<u8>,
    Seq<Seq<u8>>,
    ReadOutcome,
)
    decreases chunks.len(),
{
    if !(step.1 is Read) {
        (step.0, chunks, step.1)
    } else if chunks.len() == 0 {
        let (rest, outcome) = reader::received_step(step.0, seq![]);
        (rest, chunks, outcome)
    } else {
        read_on(reader::received_step(step.0, chunks[0]), chunks.drop_first())
    }
}

/// One instruction read from a stream.
pub open spec fn read_one(pending: Seq<u8>, chunks: Seq<Seq<u8>>) -> (
    Seq<u8>,
    Seq<Seq<u8>>,
    ReadOutcome,
) {
    read_on(reader::take_instruction(pending), chunks)
}

/// The chunks that reads return before the end of the stream: none is empty.
pub open spec fn received(chunks: Seq<Seq<u8>>) -> bool {
    forall|i: int| 0 <= i < chunks.len() ==> (#[trigger] chunks[i]).len() > 0
}

/// The outcomes of `n` instructions read one after the other.
pub open spec fn read_many(pending: Seq<u8>, chunks: Seq<Seq<u8>>, n: nat) -> Seq<ReadOutcome>
    decreases n,
{
    if n == 0 {
        seq![]
    } else {
        let (rest, left, outcome) = read_one(pending, chunks);
        seq![outcome] + read_many(rest, left, (n - 1) as nat)
    }
}

/// What stays pending, and the chunks not read, after `n` instructions read one after
/// the other.
pub open spec fn left_after(pending: Seq<u8>, chunks: Seq<Seq<u8>>, n: nat) -> (
    Seq<u8>,
    Seq<Seq<u8>>,
)
    decreases n,
{
    if n == 0 {
        (pending, chunks)
    } else {
        let (rest, left, _) = read_one(pending, chunks);
        left_after(rest, left, (n - 1) as nat)
    }
}

/// The bytes of instructions sent one after the other.
pub open spec fn stream(instructions: Seq<Seq<Seq<char>>>) -> Seq<u8>
    decreases instructions.len(),
{
    if instructions.len() == 0 {
        seq![]
    } else {
        instruction_laws::wire(instructions[0]) + stream(instructions.drop_first())
    }
}

/// Instructions that can be sent: each has an opcode, and the lengths of the
/// elements are numbers of the machine.
pub open spec fn sendable(instructions: Seq<Seq<Seq<char>>>) -> bool {
    forall|i: int|
        0 <= i < instructions.len() ==> (#[trigger] instructions[i]).len() > 0
            && instruction_laws::countable(instructions[i])
}

/// The chunks after the first are as they are.
pub proof fn lemma_received_drop(chunks: Seq<Seq<u8>>)
    requires
        received(chunks),
        chunks.len() > 0,
    ensures
        received(chunks.drop_first()),
{
    let rest = chunks.drop_first();
    assert forall|i: int| 0 <= i < rest.len() implies (#[trigger] rest[i]).len() > 0 by {
        assert(rest[i] == chunks[i + 1]);
    }
}

proof fn lemma_sendable_drop(instructions: Seq<Seq<Seq<char>>>)
    requires
        sendable(instructions),
        instructions.len() > 0,
    ensures
        sendable(instructions.drop_first()),
{
    let more = instructions.drop_first();
    assert forall|i: int| 0 <= i < more.len() implies (#[trigger] more[i]).len() > 0
        && instruction_laws::countable(more[i]) by {
        assert(more[i] == instructions[i + 1]);
    }
}

/// A reader yields the instruction that comes next on the stream, however the
/// stream is cut into chunks and whatever bytes come after the instructions, and
/// keeps every byte after it.
pub proof fn law_reassembles_next(
    instructions: Seq<Seq<Seq<char>>>,
    tail: Seq<u8>,
    pending: Seq<u8>,
    chunks: Seq<Seq<u8>>,
)
    requires
        instructions.len() > 0,
        sendable(instructions),
        received(chunks),
        pending + chunks.flatten() == stream(instructions) + tail,
    ensures
        ({
            let (rest, left, outcome) = read_one(pending, chunks);
            &&& outcome == ReadOutcome::Instruction(instructions[0])
            &&& rest + left.flatten() == stream(instructions.drop_first()) + tail
            &&& received(left)
        }),
    decreases chunks.len(),
{
    let first = instructions[0];
    let front = instruction_laws::wire(first);
    let later = stream(instructions.drop_first()) + tail;
    let whole = stream(instructions) + tail;
    let k = pending.len() as int;
    assert(whole =~= front + later);
    assert(k + chunks.flatten().len() == (pending + chunks.flatten()).len());
    assert(pending =~= whole.take(k));
    if k < front.len() {
        assert(pending =~= front.take(k));
        instruction_laws::law_parse_partial(first, k);
        if chunks.len() == 0 {
            assert(pending =~= whole);
            assert(false);
        }
        assert(pending + chunks[0] + chunks.drop_first().flatten() =~= pending + chunks.flatten());
        lemma_received_drop(chunks);
        assert(chunks[0].len() > 0);
        law_reassembles_next(instructions, tail, pending + chunks[0], chunks.drop_first());
    } else {
        let rest = pending.skip(front.len() as int);
        assert(pending =~= front + rest);
        assert(later =~= whole.skip(front.len() as int));
        assert(later =~= rest + chunks.flatten());
        instruction_laws::law_parse_encoded(first, rest);
    }
}

/// The outcome of the `i`th read of a stream of these instructions that then ends.
pub open spec fn nth_outcome(instructions: Seq<Seq<Seq<char>>>, i: int) -> ReadOutcome {
    if i < instructions.len() {
        ReadOutcome::Instruction(instructions[i])
    } else {
        ReadOutcome::End
    }
}

/// A stream of instructions, cut into chunks anywhere, is read back as those
/// instructions in order, and then there is a clean end, however often one reads.
pub proof fn law_reassembles_stream(
    instructions: Seq<Seq<Seq<char>>>,
    pending: Seq<u8>,
    chunks: Seq<Seq<u8>>,
    n: nat,
)
    requires
        sendable(instructions),
        received(chunks),
        pending + chunks.flatten() == stream(instructions),
    ensures
        read_many(pending, chunks, n) == Seq::new(n, |i: int| nth_outcome(instructions, i)),
    decreases n,
{
    if n > 0 {
        let (rest, left, outcome) = read_one(pending, chunks);
        let more = if instructions.len() == 0 {
            instructions
        } else {
            instructions.drop_first()
        };
        if instructions.len() == 0 {
            lemma_nothing_left(pending, chunks);
        } else {
            let none: Seq<u8> = seq![];
            assert(stream(instructions) + none =~= stream(instructions));
            assert(stream(more) + none =~= stream(more));
            law_reassembles_next(instructions, none, pending, chunks);
            lemma_sendable_drop(instructions);
        }
        law_reassembles_stream(more, rest, left, (n - 1) as nat);
        assert(read_many(pending, chunks, n) =~= Seq::new(
            n,
            |i: int| nth_outcome(instructions, i),
        ));
    }
}

/// Whoever has read the instructions off a stream still has every byte that comes
/// after them, whatever those bytes are.
pub proof fn law_rest_kept(
    instructions: Seq<Seq<Seq<char>>>,
    tail: Seq<u8>,
    pending: Seq<u8>,
    chunks: Seq<Seq<u8>>,
)
    requires
        sendable(instructions),
        received(chunks),
        pending + chunks.flatten() == stream(instructions) + tail,
    ensures
        ({
            let (rest, left) = left_after(pending, chunks, instructions.len());
            &&& rest + left.flatten() == tail
            &&& received(left)
        }),
    decreases instructions.len(),
{
    if instructions.len() == 0 {
        assert(stream(instructions) + tail =~= tail);
    } else {
        let more = instructions.drop_first();
        law_reassembles_next(instructions, tail, pending, chunks);
        let (rest, left, _) = read_one(pending, chunks);
        lemma_sendable_drop(instructions);
        law_rest_kept(more, tail, rest, left);
    }
}

/// Nothing pending holds nothing, right or wrong.
proof fn lemma_nothing_pending(pending: Seq<u8>)
    ensures
        pending.len() == 0 ==> reader::take_instruction(pending).1 is Read,
{
    instruction::lemma_bytes_before(pending, instruction::DOT);
}

/// There will be no further instruction, for whatever reason.
pub open spec fn failed(outcome: ReadOutcome) -> bool {
    outcome is Malformed || outcome is ClosedMidInstruction
}

/// How bytes are cut into chunks, whatever bytes they are, makes no difference to
/// whether the next outcome is an instruction, and which, an end or a failure, nor to
/// the bytes that remain. Of settled bytes, it makes none to the reason of a failure
/// either.
pub proof fn law_next_ignores_chunks(pending: Seq<u8>, chunks: Seq<Seq<u8>>)
    requires
        received(chunks),
    ensures
        ({
            let (rest, left, outcome) = read_one(pending, chunks);
            let (whole_rest, _, whole_outcome) = read_one(pending + chunks.flatten(), seq![]);
            &&& outcome == whole_outcome || failed(outcome) && failed(whole_outcome)
            &&& instruction_laws::settled(pending + chunks.flatten()) ==> outcome == whole_outcome
            &&& rest + left.flatten() == whole_rest
            &&& received(left)
        }),
    decreases chunks.len(),
{
    let whole = pending + chunks.flatten();
    assert(whole.take(pending.len() as int) =~= pending);
    instruction_laws::law_parse_stable(whole, pending.len() as int);
    if reader::take_instruction(pending).1 is Read {
        if chunks.len() == 0 {
            assert(whole =~= pending);
            assert(chunks =~= seq![]);
        } else {
            lemma_received_drop(chunks);
            assert(chunks[0].len() > 0);
            assert(pending + chunks[0] + chunks.drop_first().flatten() =~= whole);
            law_next_ignores_chunks(pending + chunks[0], chunks.drop_first());
        }
    } else {
        instruction_laws::law_parse_bounds(pending);
        lemma_nothing_pending(pending);
        let (rest, _) = reader::take_instruction(pending);
        assert(rest + chunks.flatten() =~= reader::take_instruction(whole).0);
    }
}

/// How bytes are cut into chunks makes no difference to the instructions read from
/// them, nor to when reading ends or fails. As long as what is left is settled before
/// each read, it makes none to the outcomes at all.
pub proof fn law_reading_ignores_chunks(pending: Seq<u8>, chunks: Seq<Seq<u8>>, n: nat)
    requires
        received(chunks),
    ensures
        ({
            let outcomes = read_many(pending, chunks, n);
            let whole_outcomes = read_many(pending + chunks.flatten(), seq![], n);
            &&& outcomes.len() == n
            &&& whole_outcomes.len() == n
            &&& forall|i: int|
                0 <= i < n ==> (#[trigger] outcomes[i] == whole_outcomes[i] || failed(outcomes[i])
                    && failed(whole_outcomes[i]))
            &&& (forall|i: nat|
                i < n ==> instruction_laws::settled(
                    (#[trigger] left_after(pending + chunks.flatten(), seq![], i)).0,
                )) ==> outcomes == whole_outcomes
        }),
    decreases n,
{
    if n > 0 {
        let whole = pending + chunks.flatten();
        law_next_ignores_chunks(pending, chunks);
        let (rest, left, outcome) = read_one(pending, chunks);
        let (whole_rest, whole_left, whole_outcome) = read_one(whole, seq![]);
        assert(whole_left =~= seq![]);
        law_reading_ignores_chunks(rest, left, (n - 1) as nat);
        let outcomes = read_many(pending, chunks, n);
        let whole_outcomes = read_many(whole, seq![], n);
        let later = read_many(rest, left, (n - 1) as nat);
        let whole_later = read_many(whole_rest, seq![], (n - 1) as nat);
        assert forall|i: int| 0 <= i < n implies (#[trigger] outcomes[i] == whole_outcomes[i]
            || failed(outcomes[i]) && failed(whole_outcomes[i])) by {
            if i > 0 {
                assert(outcomes[i] == later[i - 1]);
                assert(whole_outcomes[i] == whole_later[i - 1]);
            }
        }
        if forall|i: nat|
            i < n ==> instruction_laws::settled((#[trigger] left_after(whole, seq![], i)).0) {
            assert(instruction_laws::settled(left_after(whole, seq![], 0).0));
            assert forall|i: nat| i < n - 1 implies instruction_laws::settled(
                (#[trigger] left_after(whole_rest, seq![], i)).0,
            ) by {
                assert(left_after(whole, seq![], i + 1) == left_after(whole_rest, seq![], i));
            }
        }
    }
}

/// How bytes are cut into chunks, whatever bytes they are, makes no difference to the
/// bytes that are left after any number of reads: an end of all that there was.
pub proof fn law_bytes_kept(pending: Seq<u8>, chunks: Seq<Seq<u8>>, n: nat)
    requires
        received(chunks),
    ensures
        ({
            let (rest, left) = left_after(pending, chunks, n);
            let (whole, _) = left_after(pending + chunks.flatten(), seq![], n);
            &&& rest + left.flatten() == whole
            &&& received(left)
            &&& whole.is_suffix_of(pending + chunks.flatten())
        }),
    decreases n,
{
    let all = pending + chunks.flatten();
    if n > 0 {
        law_next_ignores_chunks(pending, chunks);
        let (rest, left, _) = read_one(pending, chunks);
        let (whole_rest, whole_left, _) = read_one(all, seq![]);
        assert(whole_left =~= seq![]);
        law_bytes_kept(rest, left, (n - 1) as nat);
        let (whole, _) = left_after(all, seq![], n);
        instruction_laws::law_parse_bounds(all);
        assert(whole_rest =~= all.skip(all.len() - whole_rest.len()));
        assert(whole =~= whole_rest.skip(whole_rest.len() - whole.len()));
        assert(whole =~= all.skip(all.len() - whole.len()));
    }
}

/// Every byte of a read is kept until it is part of an instruction. The bytes of the
/// instruction that a call yields, if it yields one, and the bytes then pending are
/// together the bytes pending before and all of the chunk; and those of the instruction
/// are, by themselves, that instruction.
pub proof fn law_read_keeps_bytes(
    reader: &mut GuacdReader,
    chunk: Vec<u8>,
    front: &[u8],
    parsed: Result<Option<(Vec<String>, usize)>, ParseError>,
    r: Result<ReadStep, ReadError>,
)
    requires
        call_ensures(GuacdReader::next_instruction, (reader, ReadEvent::Received(chunk)), r),
        front@ + final(reader)@ == old(reader)@ + chunk@,
        call_ensures(instruction::parse_instruction, (front,), parsed),
    ensures
        r matches Ok(ReadStep::Instruction(elements)) ==> (parsed matches Ok(Some((found, size)))
            && size == front@.len() && found@.len() == elements@.len() && forall|i: int|
            0 <= i < found@.len() ==> (#[trigger] found@[i])@ == elements@[i]@),
        !(r matches Ok(ReadStep::Instruction(_))) ==> front@.len() == 0,
{
    let before = old(reader)@;
    let whole = before + chunk@;
    let rest = final(reader)@;
    assert((rest, reader::read_outcome(r)) == reader::received_step(before, chunk@));
    assert(front@.len() == whole.len() - rest.len());
    assert(instruction::parse_outcome(parsed) == instruction::instruction_parse(front@));
    if chunk@.len() == 0 {
        assert(whole =~= before);
    }
    instruction_laws::law_parse_bounds(whole);
    instruction_laws::law_parse_consumed(whole);
    if let Ok(ReadStep::Instruction(elements)) = r {
        let n = whole.len() - rest.len();
        assert(front@ =~= whole.take(n));
        if let InstructionParse::Complete { consumed, .. } = instruction::instruction_parse(whole) {
            assert(consumed == n);
        }
        if let Ok(Some((found, size))) = parsed {
            assert(text::texts(found@) == text::texts(elements@));
            assert forall|i: int| 0 <= i < found@.len() implies (#[trigger] found@[i])@
                == elements@[i]@ by {
                assert(text::texts(found@)[i] == found@[i]@);
                assert(text::texts(elements@)[i] == elements@[i]@);
            }
            assert(text::texts(found@).len() == found@.len());
            assert(text::texts(elements@).len() == elements@.len());
        }
    }
}

/// There is always such a front: what a reader keeps is an end of what it had and of all
/// that a read returned, and nothing is missing from it unless an instruction came of
/// that.
pub proof fn law_pending_is_an_end(
    reader: &mut GuacdReader,
    event: ReadEvent,
    whole: Seq<u8>,
    r: Result<ReadStep, ReadError>,
)
    requires
        whole == match event {
            ReadEvent::Resume => old(reader)@,
            ReadEvent::Received(chunk) => old(reader)@ + chunk@,
        },
        call_ensures(GuacdReader::next_instruction, (reader, event), r),
    ensures
        final(reader)@.is_suffix_of(whole),
        r matches Ok(ReadStep::Instruction(_)) ==> final(reader)@.len() < whole.len(),
        !(r matches Ok(ReadStep::Instruction(_))) ==> final(reader)@ == whole,
{
    if let ReadEvent::Received(chunk) = event {
        if chunk@.len() == 0 {
            assert(whole =~= old(reader)@);
        }
    }
    instruction_laws::law_parse_bounds(whole);
    assert(final(reader)@ =~= whole.skip(whole.len() - final(reader)@.len()));
}

/// A reader makes of its bytes what parsing makes of them: it yields an instruction as
/// soon as there is one, reads on while there is none, and fails where there will be
/// none.
pub proof fn law_read_is_parse(
    reader: &mut GuacdReader,
    event: ReadEvent,
    whole: &[u8],
    parsed: Result<Option<(Vec<String>, usize)>, ParseError>,
    r: Result<ReadStep, ReadError>,
)
    requires
        event matches ReadEvent::Received(chunk) ==> chunk@.len() > 0,
        whole@ == match event {
            ReadEvent::Resume => old(reader)@,
            ReadEvent::Received(chunk) => old(reader)@ + chunk@,
        },
        call_ensures(instruction::parse_instruction, (whole,), parsed),
        call_ensures(GuacdReader::next_instruction, (reader, event), r),
    ensures
        match parsed {
            Ok(Some((found, size))) => {
                &&& final(reader)@ == whole@.skip(size as int)
                &&& r matches Ok(ReadStep::Instruction(elements))
                &&& found@.len() == elements@.len()
                &&& forall|i: int| 0 <= i < found@.len() ==> (#[trigger] found@[i])@ == elements@[i]@
            },
            Ok(None) => r matches Ok(ReadStep::Read),
            Err(err) => r matches Err(ReadError::Malformed(same)) && match (err, same) {
                (ParseError::LengthNotUtf8, ParseError::LengthNotUtf8) => true,
                (
                    ParseError::LengthNotInteger { prefix: a },
                    ParseError::LengthNotInteger { prefix: b },
                ) => a@ == b@,
                (
                    ParseError::ValueNotUtf8 { valid_up_to: a, error_len: m },
                    ParseError::ValueNotUtf8 { valid_up_to: b, error_len: n },
                ) => a == b && m == n,
                (
                    ParseError::UnexpectedByte { byte: a },
                    ParseError::UnexpectedByte { byte: b },
                ) => a == b,
                _ => false,
            },
        },
{
    assert(instruction::parse_outcome(parsed) == instruction::instruction_parse(whole@));
    assert((final(reader)@, reader::read_outcome(r)) == reader::take_instruction(whole@));
    match parsed {
        Ok(Some((found, size))) => {
            if let Ok(ReadStep::Instruction(elements)) = r {
                assert(text::texts(found@) == text::texts(elements@));
                assert(text::texts(found@).len() == found@.len());
                assert(text::texts(elements@).len() == elements@.len());
                assert forall|i: int| 0 <= i < found@.len() implies (#[trigger] found@[i])@
                    == elements@[i]@ by {
                    assert(text::texts(found@)[i] == found@[i]@);
                    assert(text::texts(elements@)[i] == elements@[i]@);
                }
            }
        },
        Ok(None) => {},
        Err(err) => {
            if let Err(ReadError::Malformed(same)) = r {
                assert(err@ == same@);
                match (err, same) {
                    (ParseError::LengthNotUtf8, _) => {},
                    (ParseError::LengthNotInteger { .. }, _) => {},
                    (ParseError::ValueNotUtf8 { .. }, _) => {},
                    (ParseError::UnexpectedByte { .. }, _) => {},
                }
            }
        },
    }
}

/// At the end of the stream nothing pending is a clean end, and anything else is an
/// error that tells how much.
pub proof fn law_read_end(
    reader: &mut GuacdReader,
    chunk: Vec<u8>,
    r: Result<ReadStep, ReadError>,
)
    requires
        chunk@.len() == 0,
        call_ensures(GuacdReader::next_instruction, (reader, ReadEvent::Received(chunk)), r),
    ensures
        final(reader)@ == old(reader)@,
        if old(reader)@.len() == 0 {
            r matches Ok(ReadStep::End)
        } else {
            r matches Err(ReadError::ClosedMidInstruction { pending }) && pending
                == old(reader)@.len()
        },
{
    assert((final(reader)@, reader::read_outcome(r)) == reader::received_step(
        old(reader)@,
        chunk@,
    ));
}

/// Two reads give what one read of all their bytes gives, if the first asked for more.
pub proof fn law_read_in_two(
    once: &mut GuacdReader,
    first: &mut GuacdReader,
    second: &mut GuacdReader,
    whole: Vec<u8>,
    a: Vec<u8>,
    b: Vec<u8>,
    once_r: Result<ReadStep, ReadError>,
    first_r: Result<ReadStep, ReadError>,
    second_r: Result<ReadStep, ReadError>,
)
    requires
        old(once)@ == old(first)@,
        old(second)@ == final(first)@,
        whole@ == a@ + b@,
        a@.len() > 0,
        b@.len() > 0,
        call_ensures(GuacdReader::next_instruction, (once, ReadEvent::Received(whole)), once_r),
        call_ensures(GuacdReader::next_instruction, (first, ReadEvent::Received(a)), first_r),
        call_ensures(GuacdReader::next_instruction, (second, ReadEvent::Received(b)), second_r),
        first_r matches Ok(ReadStep::Read),
    ensures
        final(once)@ == final(second)@,
        reader::read_outcome(once_r) == reader::read_outcome(second_r),
{
    assert(old(once)@ + whole@ =~= old(first)@ + a@ + b@);
}

/// The step for a read is the one that the laws on streams take for its bytes.
pub proof fn law_step_of_event(pending: Seq<u8>, event: ReadEvent)
    ensures
        match event {
            ReadEvent::Resume => reader::reader_step(pending, event) == reader::take_instruction(
                pending,
            ),
            ReadEvent::Received(chunk) => reader::reader_step(pending, event)
                == reader::received_step(pending, chunk@),
        },
{
}

/// The messages of a stream that fails.
pub proof fn law_read_messages(
    err: &ReadError,
    cause: &ParseError,
    cause_text: String,
    pending: u64,
    digits: String,
    r: String,
)
    requires
        *err matches ReadError::Malformed(inner) ==> *cause == inner,
        *err matches ReadError::ClosedMidInstruction { pending: n } ==> pending == n,
        call_ensures(ParseError::message, (cause,), cause_text),
        call_ensures(text::decimal_string, (pending,), digits),
        call_ensures(ReadError::message, (err,), r),
    ensures
        match *err {
            ReadError::Malformed(_) => r@ == cause_text@,
            ReadError::ClosedMidInstruction { .. } => r@ == "guacd closed mid-instruction; "@
                + digits@ + " bytes pending"@,
        },
{
}

/// A reader starts with nothing, and hands over all that it has kept.
pub proof fn law_reader_handed_over(fresh: GuacdReader, reader: GuacdReader, r: Vec<u8>)
    requires
        call_ensures(GuacdReader::new, (), fresh),
        call_ensures(GuacdReader::into_pending, (reader,), r),
    ensures
        fresh@.len() == 0,
        r@ == reader@,
{
}

/// A stream that ends inside an instruction, however it is cut into chunks, is an
/// error that tells how many bytes were left over.
pub proof fn law_closed_mid_instruction(
    elements: Seq<Seq<char>>,
    k: int,
    pending: Seq<u8>,
    chunks: Seq<Seq<u8>>,
)
    requires
        elements.len() > 0,
        instruction_laws::countable(elements),
        0 < k < instruction_laws::wire(elements).len(),
        received(chunks),
        pending + chunks.flatten() == instruction_laws::wire(elements).take(k),
    ensures
        read_one(pending, chunks).2 == (ReadOutcome::ClosedMidInstruction { pending: k as nat }),
    decreases chunks.len(),
{
    let whole = instruction_laws::wire(elements).take(k);
    let n = pending.len() as int;
    assert(n + chunks.flatten().len() == (pending + chunks.flatten()).len());
    assert(pending =~= whole.take(n));
    assert(pending =~= instruction_laws::wire(elements).take(n));
    instruction_laws::law_parse_partial(elements, n);
    if chunks.len() == 0 {
        assert(pending =~= whole);
    } else {
        lemma_received_drop(chunks);
        assert(chunks[0].len() > 0);
        assert(pending + chunks[0] + chunks.drop_first().flatten() =~= pending + chunks.flatten());
        law_closed_mid_instruction(elements, k, pending + chunks[0], chunks.drop_first());
    }
}

/// Nothing pending and nothing to come is a clean end, and stays one.
proof fn lemma_nothing_left(pending: Seq<u8>, chunks: Seq<Seq<u8>>)
    requires
        received(chunks),
        pending + chunks.flatten() == Seq::<u8>::empty(),
    ensures
        ({
            let (rest, left, outcome) = read_one(pending, chunks);
            &&& outcome is End
            &&& rest + left.flatten() == Seq::<u8>::empty()
            &&& received(left)
        }),
{
    assert(pending.len() + chunks.flatten().len() == (pending + chunks.flatten()).len());
    instruction::lemma_bytes_before_is(pending, instruction::DOT, 0);
    if chunks.len() > 0 {
        assert(chunks.flatten() == chunks[0] + chunks.drop_first().flatten());
        assert(chunks[0].len() > 0);
    }
    let (rest, left, _) = read_one(pending, chunks);
    assert(rest + left.flatten() =~= Seq::<u8>::empty());
}

} // verus!
