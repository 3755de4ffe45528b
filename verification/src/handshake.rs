//! The handshake with guacd.
//!
//! The bridge selects a protocol, guacd answers with the names of the arguments it
//! wants, the bridge sends the display settings and a value for each argument, and
//! guacd answers that it is ready.

use crate::instruction;
use crate::text;
use crate::token;
use crate::token::GuacConnection;
use vstd::prelude::*;

verus! {

/// Default display the bridge negotiates with guacd. The browser resizes as needed
/// once connected.
pub const DEFAULT_WIDTH: u32 = 1024;

pub const DEFAULT_HEIGHT: u32 = 768;

pub const DEFAULT_DPI: u32 = 96;

/// What the bridge waits for.
#[derive(Debug, Clone, Copy)]
pub enum HandshakePhase {
    AwaitingArgs,
    AwaitingReady,
}

/// What the bridge does next.
#[derive(Debug)]
pub enum HandshakeStep {
    /// Write these instructions in order, then wait in the phase `next`.
    Send { messages: Vec<String>, next: HandshakePhase },
    /// Wait for another instruction in the same phase.
    Skip,
    /// The connection is ready for traffic in both directions.
    Established,
}

/// Why the handshake failed.
#[derive(Debug)]
pub enum HandshakeError {
    ClosedBeforeArgs,
    ExpectedArgs { got: String },
    ClosedBeforeReady,
    Refused { instruction: Vec<String> },
}

/// [`HandshakeError`] in terms of the model.
pub enum HandshakeFault {
    ClosedBeforeArgs,
    ExpectedArgs { got: Seq<char> },
    ClosedBeforeReady,
    Refused { instruction: Seq<Seq<char>> },
}

impl View for HandshakeError {
    type V = HandshakeFault;

    open spec fn view(&self) -> HandshakeFault {
        match *self {
            HandshakeError::ClosedBeforeArgs => HandshakeFault::ClosedBeforeArgs,
            HandshakeError::ExpectedArgs { got } => HandshakeFault::ExpectedArgs { got: got@ },
            HandshakeError::ClosedBeforeReady => HandshakeFault::ClosedBeforeReady,
            HandshakeError::Refused { instruction } => HandshakeFault::Refused {
                instruction: text::texts(instruction@),
            },
        }
    }
}

/// A step of the handshake, or its failure, in terms of the model.
pub enum HandshakeOutcome {
    Send { messages: Seq<Seq<char>>, next: HandshakePhase },
    Skip,
    Established,
    Failed(HandshakeFault),
}

pub open spec fn step_outcome(step: HandshakeStep) -> HandshakeOutcome {
    match step {
        HandshakeStep::Send { messages, next } => HandshakeOutcome::Send {
            messages: text::texts(messages@),
            next,
        },
        HandshakeStep::Skip => HandshakeOutcome::Skip,
        HandshakeStep::Established => HandshakeOutcome::Established,
    }
}

pub open spec fn handshake_outcome(r: Result<HandshakeStep, HandshakeError>) -> HandshakeOutcome {
    match r {
        Ok(step) => step_outcome(step),
        Err(err) => HandshakeOutcome::Failed(err@),
    }
}

/// The text of an optional setting: empty where it is missing.
pub open spec fn or_empty(setting: Option<String>) -> Seq<char> {
    match setting {
        Some(s) => s@,
        None => Seq::empty(),
    }
}

/// The value that the bridge has for an argument. An argument that it does not
/// know gets its guacd-side default by the empty string.
pub open spec fn arg_value(name: Seq<char>, conn: GuacConnection) -> Seq<char> {
    if name == "hostname"@ {
        conn.hostname@
    } else if name == "port"@ {
        text::decimal(conn.port as nat)
    } else if name == "username"@ {
        or_empty(conn.username)
    } else if name == "password"@ {
        or_empty(conn.password)
    } else {
        Seq::empty()
    }
}

/// The instruction that selects the protocol.
pub open spec fn select_elements(conn: GuacConnection) -> Seq<Seq<char>> {
    seq!["select"@, token::protocol_text(conn.kind)]
}

pub open spec fn size_elements() -> Seq<Seq<char>> {
    seq![
        "size"@,
        text::decimal(DEFAULT_WIDTH as nat),
        text::decimal(DEFAULT_HEIGHT as nat),
        text::decimal(DEFAULT_DPI as nat),
    ]
}

pub open spec fn audio_elements() -> Seq<Seq<char>> {
    seq!["audio"@, "audio/L8"@, "audio/L16"@]
}

pub open spec fn video_elements() -> Seq<Seq<char>> {
    seq!["video"@]
}

pub open spec fn image_elements() -> Seq<Seq<char>> {
    seq!["image"@, "image/jpeg"@, "image/png"@, "image/webp"@]
}

/// The instruction that opens the connection: a value for each argument that guacd
/// named, in the order in which guacd named them.
pub open spec fn connect_elements(args: Seq<Seq<char>>, conn: GuacConnection) -> Seq<Seq<char>> {
    seq!["connect"@] + args.skip(1).map_values(|name: Seq<char>| arg_value(name, conn))
}

/// The answer to the instruction in which guacd names its arguments.
pub open spec fn settings_instructions(args: Seq<Seq<char>>, conn: GuacConnection) -> Seq<
    Seq<Seq<char>>,
> {
    seq![
        size_elements(),
        audio_elements(),
        video_elements(),
        image_elements(),
        connect_elements(args, conn),
    ]
}

/// Instructions on the wire.
pub open spec fn encoded(instructions: Seq<Seq<Seq<char>>>) -> Seq<Seq<char>> {
    instructions.map_values(|elements: Seq<Seq<char>>| instruction::instruction_text(elements))
}

/// The opcode of an instruction, or the empty string where it has none.
pub open spec fn opcode(elements: Seq<Seq<char>>) -> Seq<char> {
    if elements.len() == 0 {
        Seq::empty()
    } else {
        elements[0]
    }
}

/// What the bridge does about the instruction that guacd sent, or about guacd
/// having closed the connection.
pub open spec fn handshake_step(
    phase: HandshakePhase,
    reply: Option<Seq<Seq<char>>>,
    conn: GuacConnection,
) -> HandshakeOutcome {
    match (phase, reply) {
        (HandshakePhase::AwaitingArgs, None) => HandshakeOutcome::Failed(
            HandshakeFault::ClosedBeforeArgs,
        ),
        (HandshakePhase::AwaitingArgs, Some(args)) => if opcode(args) == "args"@ {
            HandshakeOutcome::Send {
                messages: encoded(settings_instructions(args, conn)),
                next: HandshakePhase::AwaitingReady,
            }
        } else {
            HandshakeOutcome::Failed(HandshakeFault::ExpectedArgs { got: opcode(args) })
        },
        (HandshakePhase::AwaitingReady, None) => HandshakeOutcome::Failed(
            HandshakeFault::ClosedBeforeReady,
        ),
        (HandshakePhase::AwaitingReady, Some(elements)) => if opcode(elements) == "ready"@ {
            HandshakeOutcome::Established
        } else if opcode(elements) == "error"@ {
            HandshakeOutcome::Failed(HandshakeFault::Refused { instruction: elements })
        } else {
            HandshakeOutcome::Skip
        },
    }
}

/// A received instruction in terms of the model.
pub open spec fn reply_text(reply: Option<Vec<String>>) -> Option<Seq<Seq<char>>> {
    match reply {
        Some(elements) => Some(text::texts(elements@)),
        None => None,
    }
}

fn setting_or_empty(setting: &Option<String>) -> (r: String)
    ensures
        r@ == or_empty(*setting),
{
    match setting {
        Some(s) => s.clone(),
        None => String::new(),
    }
}

/// The arguments that the bridge knows have different names.
pub proof fn lemma_arg_names()
    ensures
        "hostname"@ != "port"@,
        "hostname"@ != "username"@,
        "hostname"@ != "password"@,
        "port"@ != "username"@,
        "port"@ != "password"@,
        "username"@ != "password"@,
{
    reveal_strlit("hostname");
    reveal_strlit("port");
    reveal_strlit("username");
    reveal_strlit("password");
    assert("hostname"@[0] == 'h' && "username"@[0] == 'u' && "password"@[0] == 'p');
    assert("port"@.len() == 4 && "hostname"@.len() == 8);
    assert("username"@.len() == 8 && "password"@.len() == 8);
}

/// The value that the bridge has for an argument.
pub fn value_for_arg(name: &str, conn: &GuacConnection) -> (r: String)
    ensures
        r@ == arg_value(name@, *conn),
        name@ == "hostname"@ ==> r@ == conn.hostname@,
        name@ == "port"@ ==> r@ == text::decimal(conn.port as nat),
        name@ == "username"@ ==> match conn.username {
            Some(username) => r@ == username@,
            None => r@.len() == 0,
        },
        name@ == "password"@ ==> match conn.password {
            Some(password) => r@ == password@,
            None => r@.len() == 0,
        },
        name@ != "hostname"@ && name@ != "port"@ && name@ != "username"@ && name@ != "password"@
            ==> r@.len() == 0,
{
    proof {
        lemma_arg_names();
    }
    if text::same_text(name, "hostname") {
        conn.hostname.clone()
    } else if text::same_text(name, "port") {
        text::decimal_string(conn.port as u64)
    } else if text::same_text(name, "username") {
        setting_or_empty(&conn.username)
    } else if text::same_text(name, "password") {
        setting_or_empty(&conn.password)
    } else {
        // All other args (read-only, security, recording-path, color-depth, ...)
        // get their guacd-side default by sending the empty string.
        String::new()
    }
}

/// Encodes the instruction that opens the connection.
fn encode_connect(args: &Vec<String>, conn: &GuacConnection) -> (r: String)
    requires
        args.len() > 0,
    ensures
        r@ == instruction::instruction_text(connect_elements(text::texts(args@), *conn)),
{
    let ghost names = text::texts(args@);
    let ghost wanted = connect_elements(names, *conn);
    let mut values: Vec<String> = Vec::new();
    values.push("connect".to_owned());
    let mut i: usize = 1;
    while i < args.len()
        invariant
            1 <= i <= args.len(),
            names == text::texts(args@),
            wanted == connect_elements(names, *conn),
            values.len() == i,
            text::texts(values@) == wanted.take(i as int),
        decreases args.len() - i,
    {
        let ghost before = values@;
        values.push(value_for_arg(args[i].as_str(), conn));
        proof {
            assert(text::texts(values@) =~= text::texts(before).push(values@.last()@));
            assert(wanted[i as int] == arg_value(names.skip(1)[i - 1], *conn));
            assert(wanted.take(i + 1) =~= wanted.take(i as int).push(wanted[i as int]));
        }
        i = i + 1;
    }
    assert(wanted.take(i as int) =~= wanted);
    let mut elements: Vec<&str> = Vec::new();
    let mut j: usize = 0;
    while j < values.len()
        invariant
            j <= values.len(),
            elements.len() == j,
            forall|k: int| 0 <= k < j ==> (#[trigger] elements[k])@ == values[k]@,
        decreases values.len() - j,
    {
        elements.push(values[j].as_str());
        j = j + 1;
    }
    assert(elements@.map_values(|element: &str| element@) =~= text::texts(values@));
    instruction::encode_instruction(elements.as_slice())
}

/// Whether the opcode of an instruction is `name`.
fn has_opcode(elements: &Vec<String>, name: &str) -> (r: bool)
    requires
        name@.len() > 0,
    ensures
        r == (opcode(text::texts(elements@)) == name@),
{
    elements.len() > 0 && text::same_text(elements[0].as_str(), name)
}

/// The instructions that answer guacd's list of arguments, on the wire.
fn settings_messages(args: &Vec<String>, conn: &GuacConnection) -> (r: Vec<String>)
    requires
        args.len() > 0,
    ensures
        text::texts(r@) == encoded(settings_instructions(text::texts(args@), *conn)),
{
    let width = text::decimal_string(DEFAULT_WIDTH as u64);
    let height = text::decimal_string(DEFAULT_HEIGHT as u64);
    let dpi = text::decimal_string(DEFAULT_DPI as u64);
    let size: [&str; 4] = ["size", width.as_str(), height.as_str(), dpi.as_str()];
    let audio: [&str; 3] = ["audio", "audio/L8", "audio/L16"];
    let video: [&str; 1] = ["video"];
    let image: [&str; 4] = ["image", "image/jpeg", "image/png", "image/webp"];
    proof {
        assert(size@.map_values(|element: &str| element@) =~= size_elements());
        assert(audio@.map_values(|element: &str| element@) =~= audio_elements());
        assert(video@.map_values(|element: &str| element@) =~= video_elements());
        assert(image@.map_values(|element: &str| element@) =~= image_elements());
    }
    let mut messages: Vec<String> = Vec::new();
    messages.push(instruction::encode_instruction(&size));
    messages.push(instruction::encode_instruction(&audio));
    messages.push(instruction::encode_instruction(&video));
    messages.push(instruction::encode_instruction(&image));
    messages.push(encode_connect(args, conn));
    assert(text::texts(messages@) =~= encoded(
        settings_instructions(text::texts(args@), *conn),
    ));
    messages
}

/// The first step of the handshake for `conn`: select the protocol and wait for
/// the arguments.
pub fn open_handshake(conn: &GuacConnection) -> (r: HandshakeStep)
    ensures
        step_outcome(r) == (HandshakeOutcome::Send {
            messages: encoded(seq![select_elements(*conn)]),
            next: HandshakePhase::AwaitingArgs,
        }),
{
    let select: [&str; 2] = ["select", conn.kind.protocol_name()];
    assert(select@.map_values(|element: &str| element@) =~= select_elements(*conn));
    let mut messages: Vec<String> = Vec::new();
    messages.push(instruction::encode_instruction(&select));
    assert(text::texts(messages@) =~= encoded(seq![select_elements(*conn)]));
    HandshakeStep::Send { messages, next: HandshakePhase::AwaitingArgs }
}

/// The next step of the handshake for `conn`, once guacd has sent an instruction
/// or, where there is no `reply`, has closed the connection.
pub fn handshake(
    phase: HandshakePhase,
    reply: Option<Vec<String>>,
    conn: &GuacConnection,
) -> (r: Result<HandshakeStep, HandshakeError>)
    ensures
        handshake_outcome(r) == handshake_step(phase, reply_text(reply), *conn),
{
    proof {
        reveal_strlit("args");
        reveal_strlit("ready");
        reveal_strlit("error");
    }
    match phase {
        HandshakePhase::AwaitingArgs => match reply {
            None => Err(HandshakeError::ClosedBeforeArgs),
            Some(args) => {
                if has_opcode(&args, "args") {
                    Ok(
                        HandshakeStep::Send {
                            messages: settings_messages(&args, conn),
                            next: HandshakePhase::AwaitingReady,
                        },
                    )
                } else if args.len() > 0 {
                    Err(HandshakeError::ExpectedArgs { got: args[0].clone() })
                } else {
                    Err(HandshakeError::ExpectedArgs { got: String::new() })
                }
            },
        },
        HandshakePhase::AwaitingReady => match reply {
            None => Err(HandshakeError::ClosedBeforeReady),
            Some(instruction) => {
                if has_opcode(&instruction, "ready") {
                    Ok(HandshakeStep::Established)
                } else if has_opcode(&instruction, "error") {
                    Err(HandshakeError::Refused { instruction })
                } else {
                    // Server-initiated instructions like log or sync.
                    Ok(HandshakeStep::Skip)
                }
            },
        },
    }
}

impl HandshakeFault {
    /// The message of the error.
    pub open spec fn message(self) -> Seq<char> {
        match self {
            HandshakeFault::ClosedBeforeArgs => "guacd closed before sending args"@,
            HandshakeFault::ExpectedArgs { got } => "expected `args` from guacd, got `"@ + got
                + "`"@,
            HandshakeFault::ClosedBeforeReady => "guacd closed before sending ready"@,
            HandshakeFault::Refused { instruction } => "guacd error during handshake: "@
                + text::quoted_list(instruction),
        }
    }
}

impl HandshakeError {
    /// The message of the error.
    pub fn message(&self) -> (r: String)
        ensures
            r@ == self@.message(),
    {
        match self {
            HandshakeError::ClosedBeforeArgs => "guacd closed before sending args".to_owned(),
            HandshakeError::ExpectedArgs { got } => {
                let mut out = "expected `args` from guacd, got `".to_owned();
                out.append(got.as_str());
                out.append("`");
                out
            },
            HandshakeError::ClosedBeforeReady => "guacd closed before sending ready".to_owned(),
            HandshakeError::Refused { instruction } => {
                let mut out = "guacd error during handshake: ".to_owned();
                out.append(text::quoted_list_string(instruction).as_str());
                out
            },
        }
    }
}

} // verus!
