//! What holds of a whole handshake.

use crate::handshake;
use crate::handshake::{
    HandshakeError, HandshakeFault, HandshakeOutcome, HandshakePhase, HandshakeStep,
};
use crate::instruction;
use crate::instruction_laws;
use crate::reader_laws;
use crate::text;
use crate::text_laws;
use crate::token::GuacConnection;
use vstd::prelude::*;
use vstd::utf8::*;

verus! {

/// A handshake in which guacd sends `replies` and then closes the connection: what
/// the bridge sends in answer, and how the handshake ends.
pub open spec fn handshake_run(
    phase: HandshakePhase,
    replies: Seq<Seq<Seq<char>>>,
    conn: GuacConnection,
) -> (Seq<Seq<char>>, HandshakeOutcome)
    decreases replies.len(),
{
    if replies.len() == 0 {
        (seq![], handshake::handshake_step(phase, None, conn))
    } else {
        match handshake::handshake_step(phase, Some(replies[0]), conn) {
            HandshakeOutcome::Send { messages, next } => {
                let (more, end) = handshake_run(next, replies.drop_first(), conn);
                (messages + more, end)
            },
            HandshakeOutcome::Skip => handshake_run(phase, replies.drop_first(), conn),
            end => (seq![], end),
        }
    }
}

/// The instruction at `k` is the first from `from` on that says how the handshake
/// ends.
pub open spec fn decides(replies: Seq<Seq<Seq<char>>>, from: int, k: int) -> bool {
    &&& from <= k < replies.len()
    &&& ends_handshake(replies[k])
    &&& forall|j: int| from <= j < k ==> !ends_handshake(#[trigger] replies[j])
}

/// Whether the instruction says how the handshake ends.
pub open spec fn ends_handshake(reply: Seq<Seq<char>>) -> bool {
    handshake::opcode(reply) == "ready"@ || handshake::opcode(reply) == "error"@
}

/// Once the settings are sent, the first `ready` or `error` decides; everything
/// before it is skipped, and nothing more is sent.
pub proof fn law_first_verdict_decides(replies: Seq<Seq<Seq<char>>>, conn: GuacConnection, k: int)
    requires
        decides(replies, 0, k),
    ensures
        handshake_run(HandshakePhase::AwaitingReady, replies, conn) == (
            Seq::<Seq<char>>::empty(),
            if handshake::opcode(replies[k]) == "ready"@ {
                HandshakeOutcome::Established
            } else {
                HandshakeOutcome::Failed(HandshakeFault::Refused { instruction: replies[k] })
            },
        ),
    decreases k,
{
    if k > 0 {
        let rest = replies.drop_first();
        assert(!ends_handshake(replies[0]));
        assert(decides(rest, 0, k - 1)) by {
            assert forall|j: int| 0 <= j < k - 1 implies !ends_handshake(#[trigger] rest[j]) by {
                assert(rest[j] == replies[j + 1]);
            }
        }
        law_first_verdict_decides(rest, conn, k - 1);
    }
}

/// Without `ready` or `error` the handshake lasts until guacd closes.
pub proof fn law_no_verdict_fails(replies: Seq<Seq<Seq<char>>>, conn: GuacConnection)
    requires
        forall|j: int| 0 <= j < replies.len() ==> !ends_handshake(#[trigger] replies[j]),
    ensures
        handshake_run(HandshakePhase::AwaitingReady, replies, conn) == (
            Seq::<Seq<char>>::empty(),
            HandshakeOutcome::Failed(HandshakeFault::ClosedBeforeReady),
        ),
    decreases replies.len(),
{
    if replies.len() > 0 {
        let rest = replies.drop_first();
        assert(!ends_handshake(replies[0]));
        assert forall|j: int| 0 <= j < rest.len() implies !ends_handshake(#[trigger] rest[j]) by {
            assert(rest[j] == replies[j + 1]);
        }
        law_no_verdict_fails(rest, conn);
    }
}

/// The handshake succeeds exactly if guacd's first instruction is `args` and it
/// later sends `ready`, with no `error` in between.
pub proof fn law_handshake_succeeds(replies: Seq<Seq<Seq<char>>>, conn: GuacConnection)
    ensures
        handshake_run(HandshakePhase::AwaitingArgs, replies, conn).1 is Established <==> {
            &&& replies.len() > 0
            &&& handshake::opcode(replies[0]) == "args"@
            &&& exists|k: int|
                decides(replies, 1, k) && handshake::opcode(#[trigger] replies[k]) == "ready"@
        },
{
    reveal_strlit("ready");
    reveal_strlit("error");
    if replies.len() > 0 && handshake::opcode(replies[0]) == "args"@ {
        let rest = replies.drop_first();
        if exists|k: int| #[trigger] decides(rest, 0, k) {
            let k = choose|k: int| #[trigger] decides(rest, 0, k);
            law_first_verdict_decides(rest, conn, k);
            assert(decides(replies, 1, k + 1)) by {
                assert forall|j: int| 1 <= j < k + 1 implies !ends_handshake(#[trigger] replies[j]) by {
                    assert(replies[j] == rest[j - 1]);
                }
            }
            assert(replies[k + 1] == rest[k]);
            assert forall|m: int| decides(replies, 1, m) implies m == k + 1 by {
                if m < k + 1 {
                    assert(ends_handshake(replies[m]));
                } else if k + 1 < m {
                    assert(ends_handshake(replies[k + 1]));
                }
            }
        } else {
            lemma_none_decides(rest);
            law_no_verdict_fails(rest, conn);
            assert forall|m: int| !decides(replies, 1, m) by {
                if decides(replies, 1, m) {
                    assert(ends_handshake(rest[m - 1]));
                }
            }
        }
    }
}

/// Where no instruction is the first that decides, none decides.
proof fn lemma_none_decides(replies: Seq<Seq<Seq<char>>>)
    requires
        forall|k: int| !#[trigger] decides(replies, 0, k),
    ensures
        forall|j: int| 0 <= j < replies.len() ==> !ends_handshake(#[trigger] replies[j]),
{
    assert forall|j: int| 0 <= j < replies.len() implies !ends_handshake(#[trigger] replies[j]) by {
        lemma_none_decides_before(replies, j + 1);
    }
}

proof fn lemma_none_decides_before(replies: Seq<Seq<Seq<char>>>, n: int)
    requires
        0 <= n <= replies.len(),
        forall|k: int| !#[trigger] decides(replies, 0, k),
    ensures
        forall|j: int| 0 <= j < n ==> !ends_handshake(#[trigger] replies[j]),
    decreases n,
{
    if n > 0 {
        lemma_none_decides_before(replies, n - 1);
        assert(!decides(replies, 0, n - 1));
    }
}

/// The bridge answers guacd's list of arguments once, with the settings for it, and
/// sends nothing to a guacd that does not start with such a list.
pub proof fn law_settings_sent_once(replies: Seq<Seq<Seq<char>>>, conn: GuacConnection)
    ensures
        handshake_run(HandshakePhase::AwaitingArgs, replies, conn).0 == if replies.len() > 0
            && handshake::opcode(replies[0]) == "args"@ {
            handshake::encoded(handshake::settings_instructions(replies[0], conn))
        } else {
            seq![]
        },
{
    if replies.len() > 0 {
        lemma_ready_sends_nothing(replies.drop_first(), conn);
        let settings = handshake::encoded(handshake::settings_instructions(replies[0], conn));
        assert(settings + seq![] =~= settings);
    }
}

proof fn lemma_ready_sends_nothing(replies: Seq<Seq<Seq<char>>>, conn: GuacConnection)
    ensures
        handshake_run(HandshakePhase::AwaitingReady, replies, conn).0 == Seq::<Seq<char>>::empty(),
    decreases replies.len(),
{
    if replies.len() > 0 {
        lemma_ready_sends_nothing(replies.drop_first(), conn);
    }
}

/// The connecting instruction has a value for every argument that guacd named, in
/// guacd's order: the one of the connection for the arguments that the bridge
/// knows, and an empty one for all others.
pub proof fn law_connect_answers_every_arg(args: Seq<Seq<char>>, conn: GuacConnection)
    requires
        args.len() > 0,
    ensures
        ({
            let connect = handshake::connect_elements(args, conn);
            &&& connect.len() == args.len()
            &&& connect[0] == "connect"@
            &&& forall|i: int|
                1 <= i < args.len() ==> #[trigger] connect[i] == handshake::arg_value(args[i], conn)
        }),
{
    let connect = handshake::connect_elements(args, conn);
    assert forall|i: int| 1 <= i < args.len() implies #[trigger] connect[i]
        == handshake::arg_value(args[i], conn) by {
        assert(args.skip(1)[i - 1] == args[i]);
    }
}

/// Each argument that the bridge knows is answered from its own field alone, whatever
/// the other fields hold: the text itself, the port in decimal, and nothing where the
/// field is missing. Every other argument is answered with the empty string.
pub proof fn law_value_for_arg(
    name: &str,
    conn: &GuacConnection,
    port: u64,
    digits: String,
    r: String,
)
    requires
        port == conn.port,
        call_ensures(text::decimal_string, (port,), digits),
        call_ensures(handshake::value_for_arg, (name, conn), r),
    ensures
        name@ == "hostname"@ ==> r@ == conn.hostname@,
        name@ == "port"@ ==> r@ == digits@,
        name@ == "username"@ ==> match conn.username {
            Some(username) => r@ == username@,
            None => r@.len() == 0,
        },
        name@ == "password"@ ==> match conn.password {
            Some(password) => r@ == password@,
            None => r@.len() == 0,
        },
        name@ != "hostname"@ && name@ != "port"@ && name@ != "username"@ && name@ != "password"@
            ==> r@.len() == 0,
{
}

/// Two connections that agree in the field that an argument is about get the same
/// value for it, and two that differ there get different ones.
pub proof fn law_value_for_arg_reads_one_field(
    name: &str,
    a: &GuacConnection,
    b: &GuacConnection,
    a_value: String,
    b_value: String,
)
    requires
        call_ensures(handshake::value_for_arg, (name, a), a_value),
        call_ensures(handshake::value_for_arg, (name, b), b_value),
    ensures
        name@ == "hostname"@ ==> (a_value@ == b_value@ <==> a.hostname@ == b.hostname@),
        name@ == "port"@ ==> (a_value@ == b_value@ <==> a.port == b.port),
        name@ == "username"@ ==> match (a.username, b.username) {
            (Some(a_name), Some(b_name)) => a_value@ == b_value@ <==> a_name@ == b_name@,
            _ => true,
        },
        name@ == "password"@ ==> match (a.password, b.password) {
            (Some(a_word), Some(b_word)) => a_value@ == b_value@ <==> a_word@ == b_word@,
            _ => true,
        },
{
    if name@ == "port"@ {
        text::lemma_decimal_digits(a.port as nat);
        text::lemma_decimal_digits(b.port as nat);
    }
}

/// The handshake begins with the selection of the protocol, and then the bridge waits
/// for guacd's arguments.
pub proof fn law_opened(conn: &GuacConnection, r: HandshakeStep)
    requires
        call_ensures(handshake::open_handshake, (conn,), r),
    ensures
        r matches HandshakeStep::Send { messages, next } && next is AwaitingArgs && messages@.len()
            == 1 && messages@[0]@ == "6.select,3.vnc;"@,
{
    assert(handshake::step_outcome(r) == (HandshakeOutcome::Send {
        messages: handshake::encoded(seq![handshake::select_elements(*conn)]),
        next: HandshakePhase::AwaitingArgs,
    }));
    if let HandshakeStep::Send { messages, next } = r {
        text_laws::law_texts(messages@);
        assert(text::texts(messages@)[0] == instruction::instruction_text(
            handshake::select_elements(*conn),
        ));
        lemma_select_text(*conn);
    }
}

proof fn lemma_select_text(conn: GuacConnection)
    ensures
        instruction::instruction_text(handshake::select_elements(conn)) == "6.select,3.vnc;"@,
{
    reveal_strlit("select");
    reveal_strlit("vnc");
    reveal_strlit("6.select,3.vnc;");
    reveal_with_fuel(text::joined, 3);
    let elements = handshake::select_elements(conn);
    let parts = elements.map_values(|value: Seq<char>| instruction::element_text(value));
    assert(parts.drop_last() =~= seq![parts[0]]);
    assert(text::joined(parts.drop_last(), seq![',']) == parts[0]);
    assert(instruction::instruction_text(elements) =~= "6.select,3.vnc;"@);
}

/// Guacd's arguments are answered with the display settings, word for word, and then
/// with the instruction that connects: it holds, in guacd's order, what
/// [`handshake::value_for_arg`] gives for each argument, and nothing else.
pub proof fn law_args_answered(
    args: Vec<String>,
    conn: &GuacConnection,
    names: Seq<&str>,
    values: Seq<String>,
    elements: &[&str],
    connect: String,
    r: Result<HandshakeStep, HandshakeError>,
)
    requires
        args@.len() > 0,
        args@[0]@ == "args"@,
        names.len() == args@.len(),
        values.len() == args@.len(),
        elements@.len() == args@.len(),
        elements@[0]@ == "connect"@,
        forall|i: int|
            1 <= i < args@.len() ==> (#[trigger] names[i])@ == args@[i]@ && call_ensures(
                handshake::value_for_arg,
                (names[i], conn),
                values[i],
            ) && elements@[i]@ == values[i]@,
        call_ensures(instruction::encode_instruction, (elements,), connect),
        call_ensures(
            handshake::handshake,
            (HandshakePhase::AwaitingArgs, Some(args), conn),
            r,
        ),
    ensures
        r matches Ok(HandshakeStep::Send { messages, next }) && {
            &&& next is AwaitingReady
            &&& messages@.len() == 5
            &&& messages@[0]@ == "4.size,4.1024,3.768,2.96;"@
            &&& messages@[1]@ == "5.audio,8.audio/L8,9.audio/L16;"@
            &&& messages@[2]@ == "5.video;"@
            &&& messages@[3]@ == "5.image,10.image/jpeg,9.image/png,10.image/webp;"@
            &&& messages@[4]@ == connect@
        },
{
    let names_text = text::texts(args@);
    let wanted = handshake::connect_elements(names_text, *conn);
    let given = elements@.map_values(|element: &str| element@);
    assert(handshake::handshake_outcome(r) == handshake::handshake_step(
        HandshakePhase::AwaitingArgs,
        Some(names_text),
        *conn,
    ));
    assert(names_text[0] == "args"@);
    assert(given =~= wanted) by {
        assert forall|i: int| 0 <= i < given.len() implies given[i] == wanted[i] by {
            if i > 0 {
                assert(names[i]@ == args@[i]@);
                assert(values[i]@ == handshake::arg_value(names[i]@, *conn));
                assert(names_text.skip(1)[i - 1] == args@[i]@);
            }
        }
    }
    lemma_size_text();
    lemma_audio_text();
    lemma_video_text();
    lemma_image_text();
    if let Ok(HandshakeStep::Send { messages, next }) = r {
        let sent = handshake::encoded(handshake::settings_instructions(names_text, *conn));
        assert(text::texts(messages@) == sent);
        text_laws::law_texts(messages@);
        assert(messages@.len() == 5);
        assert(messages@[0]@ == sent[0]);
        assert(messages@[1]@ == sent[1]);
        assert(messages@[2]@ == sent[2]);
        assert(messages@[3]@ == sent[3]);
        assert(messages@[4]@ == sent[4]);
    }
}

/// The text of four elements.
proof fn lemma_text_of_four(elements: Seq<Seq<char>>)
    requires
        elements.len() == 4,
    ensures
        instruction::instruction_text(elements) == instruction::element_text(elements[0]) + seq![',']
            + instruction::element_text(elements[1]) + seq![','] + instruction::element_text(
            elements[2],
        ) + seq![','] + instruction::element_text(elements[3]) + seq![';'],
{
    let parts = elements.map_values(|value: Seq<char>| instruction::element_text(value));
    let three = parts.drop_last();
    let two = three.drop_last();
    let one = two.drop_last();
    assert(text::joined(one, seq![',']) == parts[0]);
    assert(text::joined(two, seq![',']) == parts[0] + seq![','] + parts[1]);
    assert(text::joined(three, seq![',']) == parts[0] + seq![','] + parts[1] + seq![',']
        + parts[2]);
    assert(instruction::instruction_text(elements) =~= instruction::element_text(elements[0])
        + seq![','] + instruction::element_text(elements[1]) + seq![',']
        + instruction::element_text(elements[2]) + seq![','] + instruction::element_text(
        elements[3],
    ) + seq![';']);
}

proof fn lemma_size_text()
    ensures
        instruction::instruction_text(handshake::size_elements()) == "4.size,4.1024,3.768,2.96;"@,
{
    reveal_strlit("size");
    reveal_strlit("4.size,4.1024,3.768,2.96;");
    reveal_with_fuel(text::decimal, 5);
    assert(text::decimal(1024) =~= seq!['1', '0', '2', '4']);
    assert(text::decimal(768) =~= seq!['7', '6', '8']);
    assert(text::decimal(96) =~= seq!['9', '6']);
    lemma_text_of_four(handshake::size_elements());
    assert(instruction::instruction_text(handshake::size_elements())
        =~= "4.size,4.1024,3.768,2.96;"@);
}

proof fn lemma_audio_text()
    ensures
        instruction::instruction_text(handshake::audio_elements())
            == "5.audio,8.audio/L8,9.audio/L16;"@,
{
    reveal_strlit("audio");
    reveal_strlit("audio/L8");
    reveal_strlit("audio/L16");
    reveal_strlit("5.audio,8.audio/L8,9.audio/L16;");
    let elements = handshake::audio_elements();
    let parts = elements.map_values(|value: Seq<char>| instruction::element_text(value));
    let two = parts.drop_last();
    let one = two.drop_last();
    assert(text::joined(one, seq![',']) == parts[0]);
    assert(text::joined(two, seq![',']) == parts[0] + seq![','] + parts[1]);
    assert(instruction::instruction_text(elements) =~= "5.audio,8.audio/L8,9.audio/L16;"@);
}

proof fn lemma_video_text()
    ensures
        instruction::instruction_text(handshake::video_elements()) == "5.video;"@,
{
    reveal_strlit("video");
    reveal_strlit("5.video;");
    assert(instruction::instruction_text(handshake::video_elements()) =~= "5.video;"@);
}

proof fn lemma_image_text()
    ensures
        instruction::instruction_text(handshake::image_elements())
            == "5.image,10.image/jpeg,9.image/png,10.image/webp;"@,
{
    reveal_strlit("image");
    reveal_strlit("image/jpeg");
    reveal_strlit("image/png");
    reveal_strlit("image/webp");
    reveal_strlit("5.image,10.image/jpeg,9.image/png,10.image/webp;");
    reveal_with_fuel(text::decimal, 3);
    assert(text::decimal(10) =~= seq!['1', '0']);
    lemma_text_of_four(handshake::image_elements());
    assert(instruction::instruction_text(handshake::image_elements())
        =~= "5.image,10.image/jpeg,9.image/png,10.image/webp;"@);
}

/// What does not begin with `args` ends the handshake, and so does a guacd that closes
/// first; the error tells the opcode, character for character.
pub proof fn law_no_args(
    reply: Option<Vec<String>>,
    conn: &GuacConnection,
    r: Result<HandshakeStep, HandshakeError>,
)
    requires
        reply matches Some(args) ==> args@.len() == 0 || args@[0]@ != "args"@,
        call_ensures(handshake::handshake, (HandshakePhase::AwaitingArgs, reply, conn), r),
    ensures
        match reply {
            None => r matches Err(err) && err is ClosedBeforeArgs,
            Some(args) => r matches Err(HandshakeError::ExpectedArgs { got }) && if args@.len()
                == 0 {
                got@.len() == 0
            } else {
                got@ == args@[0]@
            },
        },
{
    reveal_strlit("args");
    assert("args"@.len() == 4);
    assert(handshake::handshake_outcome(r) == handshake::handshake_step(
        HandshakePhase::AwaitingArgs,
        handshake::reply_text(reply),
        *conn,
    ));
    if let Some(args) = reply {
        text_laws::law_texts(args@);
        assert(args@.len() > 0 ==> text::texts(args@)[0] == args@[0]@);
    } else {
        assert(handshake::handshake_outcome(r) == HandshakeOutcome::Failed(
            HandshakeFault::ClosedBeforeArgs,
        ));
        lemma_fault_known(r);
    }
}

/// Once the settings are sent, `ready` is success, `error` is a failure that holds all
/// that guacd sent, everything else is waited over, and a guacd that closes is a
/// failure.
pub proof fn law_verdict(
    reply: Option<Vec<String>>,
    conn: &GuacConnection,
    r: Result<HandshakeStep, HandshakeError>,
)
    requires
        call_ensures(handshake::handshake, (HandshakePhase::AwaitingReady, reply, conn), r),
    ensures
        match reply {
            None => r matches Err(err) && err is ClosedBeforeReady,
            Some(elements) => if elements@.len() > 0 && elements@[0]@ == "ready"@ {
                r matches Ok(step) && step is Established
            } else if elements@.len() > 0 && elements@[0]@ == "error"@ {
                r matches Err(HandshakeError::Refused { instruction }) && instruction@.len()
                    == elements@.len() && forall|i: int|
                    0 <= i < elements@.len() ==> (#[trigger] instruction@[i])@ == elements@[i]@
            } else {
                r matches Ok(step) && step is Skip
            },
        },
{
    reveal_strlit("ready");
    reveal_strlit("error");
    assert("ready"@.len() == 5 && "error"@.len() == 5);
    assert("ready"@[0] == 'r' && "error"@[0] == 'e');
    assert(handshake::handshake_outcome(r) == handshake::handshake_step(
        HandshakePhase::AwaitingReady,
        handshake::reply_text(reply),
        *conn,
    ));
    if let Some(elements) = reply {
        text_laws::law_texts(elements@);
        assert(elements@.len() > 0 ==> text::texts(elements@)[0] == elements@[0]@);
        if let Err(HandshakeError::Refused { instruction }) = r {
            text_laws::law_texts(instruction@);
            assert(text::texts(instruction@) == text::texts(elements@));
            assert forall|i: int| 0 <= i < elements@.len() implies (#[trigger] instruction@[i])@
                == elements@[i]@ by {
                assert(text::texts(instruction@)[i] == text::texts(elements@)[i]);
            }
        }
    } else {
        assert(handshake::handshake_outcome(r) == HandshakeOutcome::Failed(
            HandshakeFault::ClosedBeforeReady,
        ));
        lemma_fault_known(r);
    }
}

/// The model of a failure tells the error.
proof fn lemma_fault_known(r: Result<HandshakeStep, HandshakeError>)
    ensures
        handshake::handshake_outcome(r) matches HandshakeOutcome::Failed(fault) ==> match fault {
            HandshakeFault::ClosedBeforeArgs => r matches Err(err) && err is ClosedBeforeArgs,
            HandshakeFault::ClosedBeforeReady => r matches Err(err) && err is ClosedBeforeReady,
            _ => r is Err,
        },
{
    match r {
        Ok(step) => {},
        Err(err) => match err {
            HandshakeError::ClosedBeforeArgs => {},
            HandshakeError::ExpectedArgs { got } => {},
            HandshakeError::ClosedBeforeReady => {},
            HandshakeError::Refused { instruction } => {},
        },
    }
}

/// The messages of a failed handshake.
pub proof fn law_error_messages(
    err: &HandshakeError,
    items: &Vec<String>,
    list: String,
    r: String,
)
    requires
        *err matches HandshakeError::Refused { instruction } ==> *items == instruction,
        call_ensures(text::quoted_list_string, (items,), list),
        call_ensures(HandshakeError::message, (err,), r),
    ensures
        match *err {
            HandshakeError::ClosedBeforeArgs => r@ == "guacd closed before sending args"@,
            HandshakeError::ExpectedArgs { got } => r@ == "expected `args` from guacd, got `"@
                + got@ + "`"@,
            HandshakeError::ClosedBeforeReady => r@ == "guacd closed before sending ready"@,
            HandshakeError::Refused { instruction } => r@ == "guacd error during handshake: "@
                + list@,
        },
{
    assert(r@ == err@.message());
}

/// The bytes of messages sent one after the other.
pub open spec fn message_bytes(messages: Seq<Seq<char>>) -> Seq<u8>
    decreases messages.len(),
{
    if messages.len() == 0 {
        seq![]
    } else {
        encode_utf8(messages[0]) + message_bytes(messages.drop_first())
    }
}

/// Encoded instructions sent one after the other are their stream.
proof fn lemma_encoded_stream(instructions: Seq<Seq<Seq<char>>>)
    ensures
        message_bytes(handshake::encoded(instructions)) == reader_laws::stream(instructions),
    decreases instructions.len(),
{
    if instructions.len() > 0 {
        lemma_encoded_stream(instructions.drop_first());
        assert(handshake::encoded(instructions).drop_first() =~= handshake::encoded(
            instructions.drop_first(),
        ));
    }
}

/// Whoever reads encoded instructions off the connection, in chunks of any size,
/// reads those instructions and then the end, however often.
pub proof fn law_messages_read_back(
    instructions: Seq<Seq<Seq<char>>>,
    chunks: Seq<Seq<u8>>,
    n: nat,
)
    requires
        reader_laws::sendable(instructions),
        reader_laws::received(chunks),
        chunks.flatten() == message_bytes(handshake::encoded(instructions)),
    ensures
        reader_laws::read_many(seq![], chunks, n) == Seq::new(
            n,
            |i: int| reader_laws::nth_outcome(instructions, i),
        ),
{
    lemma_encoded_stream(instructions);
    assert(Seq::<u8>::empty() + chunks.flatten() =~= reader_laws::stream(instructions));
    reader_laws::law_reassembles_stream(instructions, seq![], chunks, n);
}

/// All that the bridge sends in a handshake is read back as it was meant, however it
/// is cut into chunks: the selection of the protocol, then the settings, the last of
/// them with the values of the connection character for character.
pub proof fn law_handshake_read_back(
    args: Seq<Seq<char>>,
    conn: GuacConnection,
    chunks: Seq<Seq<u8>>,
    n: nat,
)
    requires
        instruction_laws::countable(handshake::connect_elements(args, conn)),
        reader_laws::received(chunks),
        chunks.flatten() == message_bytes(handshake::encoded(handshake_instructions(args, conn))),
    ensures
        reader_laws::read_many(seq![], chunks, n) == Seq::new(
            n,
            |i: int| reader_laws::nth_outcome(handshake_instructions(args, conn), i),
        ),
{
    let instructions = handshake_instructions(args, conn);
    lemma_settings_countable(conn);
    assert(reader_laws::sendable(instructions)) by {
        assert forall|i: int| 0 <= i < instructions.len() implies (#[trigger] instructions[i]).len()
            > 0 && instruction_laws::countable(instructions[i]) by {}
    }
    law_messages_read_back(instructions, chunks, n);
}

/// The instructions of the bridge in a handshake in which guacd sends `args`.
pub open spec fn handshake_instructions(args: Seq<Seq<char>>, conn: GuacConnection) -> Seq<
    Seq<Seq<char>>,
> {
    seq![handshake::select_elements(conn)] + handshake::settings_instructions(args, conn)
}

/// The fixed elements are short.
proof fn lemma_settings_countable(conn: GuacConnection)
    ensures
        instruction_laws::countable(handshake::select_elements(conn)),
        instruction_laws::countable(handshake::size_elements()),
        instruction_laws::countable(handshake::audio_elements()),
        instruction_laws::countable(handshake::video_elements()),
        instruction_laws::countable(handshake::image_elements()),
{
    reveal_strlit("select");
    reveal_strlit("vnc");
    reveal_strlit("size");
    reveal_strlit("audio");
    reveal_strlit("audio/L8");
    reveal_strlit("audio/L16");
    reveal_strlit("video");
    reveal_strlit("image");
    reveal_strlit("image/jpeg");
    reveal_strlit("image/png");
    reveal_strlit("image/webp");
    reveal_with_fuel(text::decimal, 5);
}

} // verus!
