//! Reassembly of instructions from the chunks that guacd sends.

use crate::instruction;
use crate::instruction::{InstructionParse, ParseError, ParseFault};
use crate::instruction_laws;
use crate::text;
use vstd::prelude::*;

verus! {

/// Yields parsed instructions one at a time. It holds the bytes received so far
/// that belong to no instruction it has yielded.
pub struct GuacdReader {
    pending: Vec<u8>,
}

impl View for GuacdReader {
    type V = Seq<u8>;

    closed spec fn view(&self) -> Seq<u8> {
        self.pending@
    }
}

/// What the owner of the connection has to tell the reader.
pub enum ReadEvent {
    /// An instruction is wanted.
    Resume,
    /// A read has returned these bytes; none at all at the end of the stream.
    Received(Vec<u8>),
}

/// What the reader has to tell the owner of the connection.
#[derive(Debug)]
pub enum ReadStep {
    /// The next instruction.
    Instruction(Vec<String>),
    /// No instruction yet: read on.
    Read,
    /// The stream has ended cleanly between instructions.
    End,
}

/// Why there will be no further instruction.
#[derive(Debug)]
pub enum ReadError {
    Malformed(ParseError),
    ClosedMidInstruction { pending: usize },
}

/// [`ReadStep`] and [`ReadError`] in terms of the model.
pub enum ReadOutcome {
    Instruction(Seq<Seq<char>>),
    Read,
    End,
    Malformed(ParseFault),
    ClosedMidInstruction { pending: nat },
}

pub open spec fn read_outcome(r: Result<ReadStep, ReadError>) -> ReadOutcome {
    match r {
        Ok(ReadStep::Instruction(elements)) => ReadOutcome::Instruction(text::texts(elements@)),
        Ok(ReadStep::Read) => ReadOutcome::Read,
        Ok(ReadStep::End) => ReadOutcome::End,
        Err(ReadError::Malformed(err)) => ReadOutcome::Malformed(err@),
        Err(ReadError::ClosedMidInstruction { pending }) => ReadOutcome::ClosedMidInstruction {
            pending: pending as nat,
        },
    }
}

/// An instruction is taken off the pending bytes as soon as they hold one.
pub open spec fn take_instruction(pending: Seq<u8>) -> (Seq<u8>, ReadOutcome) {
    match instruction::instruction_parse(pending) {
        InstructionParse::Complete { elements, consumed } => (
            pending.skip(consumed),
            ReadOutcome::Instruction(elements),
        ),
        InstructionParse::Incomplete => (pending, ReadOutcome::Read),
        InstructionParse::Malformed(fault) => (pending, ReadOutcome::Malformed(fault)),
    }
}

/// The pending bytes after an event, and the outcome.
pub open spec fn reader_step(pending: Seq<u8>, event: ReadEvent) -> (Seq<u8>, ReadOutcome) {
    match event {
        ReadEvent::Resume => take_instruction(pending),
        ReadEvent::Received(chunk) => received_step(pending, chunk@),
    }
}

/// The pending bytes after a read, and the outcome.
pub open spec fn received_step(pending: Seq<u8>, chunk: Seq<u8>) -> (Seq<u8>, ReadOutcome) {
    if chunk.len() > 0 {
        take_instruction(pending + chunk)
    } else if pending.len() == 0 {
        (pending, ReadOutcome::End)
    } else {
        (pending, ReadOutcome::ClosedMidInstruction { pending: pending.len() })
    }
}

impl GuacdReader {
    /// A reader that has received nothing yet.
    pub fn new() -> (r: GuacdReader)
        ensures
            r@ == Seq::<u8>::empty(),
    {
        GuacdReader { pending: Vec::new() }
    }

    /// Takes an event and says what comes of it: the next instruction once it is
    /// complete, a request to read more before that, or the end of the stream if
    /// it is reached cleanly between instructions.
    pub fn next_instruction(&mut self, event: ReadEvent) -> (r: Result<ReadStep, ReadError>)
        ensures
            (final(self)@, read_outcome(r)) == reader_step(old(self)@, event),
            (final(self)@, read_outcome(r)) == match event {
                ReadEvent::Resume => take_instruction(old(self)@),
                ReadEvent::Received(chunk) => received_step(old(self)@, chunk@),
            },
    {
        match event {
            ReadEvent::Resume => {},
            ReadEvent::Received(chunk) => {
                if chunk.len() == 0 {
                    let pending: usize = self.pending.len();
                    if pending == 0 {
                        return Ok(ReadStep::End);
                    }
                    return Err(ReadError::ClosedMidInstruction { pending });
                }
                let mut chunk = chunk;
                self.pending.append(&mut chunk);
            },
        }
        proof {
            instruction_laws::law_parse_bounds(self.pending@);
        }
        match instruction::parse_instruction(self.pending.as_slice()) {
            Err(err) => Err(ReadError::Malformed(err)),
            Ok(None) => Ok(ReadStep::Read),
            Ok(Some((elements, consumed))) => {
                let ghost before = self.pending@;
                let rest = self.pending.split_off(consumed);
                assert(rest@ == before.skip(consumed as int));
                self.pending = rest;
                Ok(ReadStep::Instruction(elements))
            },
        }
    }

    /// The bytes that came after the last instruction, for whoever takes over the
    /// connection.
    pub fn into_pending(self) -> (r: Vec<u8>)
        ensures
            r@ == self@,
    {
        self.pending
    }
}

impl ReadError {
    /// What [`ReadError::message`] says.
    pub open spec fn message_text(self) -> Seq<char> {
        match self {
            ReadError::Malformed(err) => err@.message(),
            ReadError::ClosedMidInstruction { pending } => {
                "guacd closed mid-instruction; "@ + text::decimal(pending as nat)
                    + " bytes pending"@
            },
        }
    }

    /// The message of the error.
    pub fn message(&self) -> (r: String)
        ensures
            r@ == self.message_text(),
    {
        match self {
            ReadError::Malformed(err) => err.message(),
            ReadError::ClosedMidInstruction { pending } => {
                let mut out = "guacd closed mid-instruction; ".to_owned();
                out.append(text::decimal_string(*pending as u64).as_str());
                out.append(" bytes pending");
                out
            },
        }
    }
}

} // verus!
