use flowcase_guac::handshake::{
    handshake, open_handshake, value_for_arg, HandshakeError, HandshakePhase, HandshakeStep,
};
use flowcase_guac::reader::{GuacdReader, ReadEvent, ReadStep};
use flowcase_guac::token::{ConnectionKind, GuacConnection};

fn vnc_conn() -> GuacConnection {
    GuacConnection {
        kind: ConnectionKind::Vnc,
        hostname: "10.0.0.42".to_string(),
        port: 5901,
        username: Some("kasm_user".to_string()),
        password: Some("secret".to_string()),
    }
}

fn reply(elements: &[&str]) -> Option<Vec<String>> {
    Some(elements.iter().map(|e| e.to_string()).collect())
}

#[test]
fn value_for_arg_picks_known_keys() {
    let conn = vnc_conn();
    assert_eq!(value_for_arg("hostname", &conn), "10.0.0.42");
    assert_eq!(value_for_arg("port", &conn), "5901");
    assert_eq!(value_for_arg("username", &conn), "kasm_user");
    assert_eq!(value_for_arg("password", &conn), "secret");
    assert_eq!(value_for_arg("color-depth", &conn), "");
}

#[test]
fn missing_settings_are_empty() {
    let conn = GuacConnection {
        username: None,
        password: None,
        ..vnc_conn()
    };
    assert_eq!(value_for_arg("username", &conn), "");
    assert_eq!(value_for_arg("password", &conn), "");
    assert_eq!(value_for_arg("Hostname", &conn), "");
    assert_eq!(value_for_arg("", &conn), "");
}

#[test]
fn handshake_starts_with_select() {
    match open_handshake(&vnc_conn()) {
        HandshakeStep::Send { messages, next } => {
            assert_eq!(messages, vec!["6.select,3.vnc;"]);
            assert!(matches!(next, HandshakePhase::AwaitingArgs));
        }
        other => panic!("{other:?}"),
    }
}

#[test]
fn args_are_answered_in_order() {
    let args = reply(&["args", "VERSION_1_5_0", "password", "hostname", "port", "read-only"]);
    match handshake(HandshakePhase::AwaitingArgs, args, &vnc_conn()).unwrap() {
        HandshakeStep::Send { messages, next } => {
            assert_eq!(
                messages,
                vec![
                    "4.size,4.1024,3.768,2.96;",
                    "5.audio,8.audio/L8,9.audio/L16;",
                    "5.video;",
                    "5.image,10.image/jpeg,9.image/png,10.image/webp;",
                    "7.connect,0.,6.secret,9.10.0.0.42,4.5901,0.;",
                ]
            );
            assert!(matches!(next, HandshakePhase::AwaitingReady));
        }
        other => panic!("{other:?}"),
    }
}

#[test]
fn args_without_names_are_answered_without_values() {
    match handshake(HandshakePhase::AwaitingArgs, reply(&["args"]), &vnc_conn()).unwrap() {
        HandshakeStep::Send { messages, .. } => assert_eq!(messages[4], "7.connect;"),
        other => panic!("{other:?}"),
    }
}

#[test]
fn something_else_than_args_is_an_error() {
    let conn = vnc_conn();
    let err = handshake(HandshakePhase::AwaitingArgs, reply(&["ready", "x"]), &conn).unwrap_err();
    assert_eq!(err.message(), "expected `args` from guacd, got `ready`");
    let err = handshake(HandshakePhase::AwaitingArgs, reply(&[]), &conn).unwrap_err();
    assert_eq!(err.message(), "expected `args` from guacd, got ``");
    let err = handshake(HandshakePhase::AwaitingArgs, None, &conn).unwrap_err();
    assert!(matches!(err, HandshakeError::ClosedBeforeArgs));
    assert_eq!(err.message(), "guacd closed before sending args");
}

#[test]
fn handshake_waits_for_ready() {
    let conn = vnc_conn();
    for skipped in [&["log", "hello"][..], &["sync", "1"], &["args"], &[]] {
        let step = handshake(HandshakePhase::AwaitingReady, reply(skipped), &conn).unwrap();
        assert!(matches!(step, HandshakeStep::Skip));
    }
    let step = handshake(HandshakePhase::AwaitingReady, reply(&["ready", "$id"]), &conn).unwrap();
    assert!(matches!(step, HandshakeStep::Established));
}

#[test]
fn error_and_close_before_ready_fail_the_handshake() {
    let conn = vnc_conn();
    let err =
        handshake(HandshakePhase::AwaitingReady, reply(&["error", "no \"x\"", "519"]), &conn)
            .unwrap_err();
    assert!(matches!(err, HandshakeError::Refused { .. }));
    assert_eq!(
        err.message(),
        "guacd error during handshake: [\"error\", \"no \\\"x\\\"\", \"519\"]"
    );
    let err = handshake(HandshakePhase::AwaitingReady, None, &conn).unwrap_err();
    assert!(matches!(err, HandshakeError::ClosedBeforeReady));
    assert_eq!(err.message(), "guacd closed before sending ready");
}

/// Runs a handshake against the replies: what is sent in answer, and how it ends.
fn run(replies: &[&[&str]]) -> (Vec<String>, Result<(), HandshakeError>) {
    let conn = vnc_conn();
    let mut sent = Vec::new();
    let mut phase = HandshakePhase::AwaitingArgs;
    let mut replies = replies.iter();
    loop {
        let reply = replies.next().and_then(|elements| reply(elements));
        match handshake(phase, reply, &conn) {
            Ok(HandshakeStep::Send { messages, next }) => {
                sent.extend(messages);
                phase = next;
            }
            Ok(HandshakeStep::Skip) => {}
            Ok(HandshakeStep::Established) => return (sent, Ok(())),
            Err(err) => return (sent, Err(err)),
        }
    }
}

#[test]
fn handshake_succeeds_with_args_and_then_ready() {
    let (sent, end) = run(&[&["args", "port"], &["log"], &["sync", "1"], &["ready"], &["error"]]);
    assert!(end.is_ok());
    assert_eq!(sent.len(), 5);
    assert_eq!(sent[4], "7.connect,4.5901;");
}

#[test]
fn first_verdict_decides() {
    let (sent, end) = run(&[&["args"], &["log"], &["error", "x"], &["ready"]]);
    assert_eq!(sent.len(), 5);
    assert!(matches!(end, Err(HandshakeError::Refused { .. })));
}

#[test]
fn handshake_without_verdict_fails_at_the_end() {
    let (sent, end) = run(&[&["args"], &["args"], &["log"]]);
    assert_eq!(sent.len(), 5);
    assert!(matches!(end, Err(HandshakeError::ClosedBeforeReady)));
}

#[test]
fn nothing_is_sent_without_args() {
    let (sent, end) = run(&[&["log"], &["args"], &["ready"]]);
    assert!(sent.is_empty());
    assert!(matches!(end, Err(HandshakeError::ExpectedArgs { .. })));
    let (sent, end) = run(&[]);
    assert!(sent.is_empty());
    assert!(matches!(end, Err(HandshakeError::ClosedBeforeArgs)));
}

#[test]
fn settings_are_read_back_from_any_chunks() {
    let conn = GuacConnection {
        hostname: "hôte;1.x,".to_string(),
        ..vnc_conn()
    };
    let args = reply(&["args", "hostname", "color-depth", "password"]);
    let messages = match handshake(HandshakePhase::AwaitingArgs, args, &conn).unwrap() {
        HandshakeStep::Send { messages, .. } => messages,
        other => panic!("{other:?}"),
    };
    let raw = messages.concat().into_bytes();
    for size in 1..=raw.len() {
        let mut reader = GuacdReader::new();
        let mut read = Vec::new();
        let mut chunks = raw.chunks(size);
        let mut event = ReadEvent::Resume;
        loop {
            event = match reader.next_instruction(event).unwrap() {
                ReadStep::Instruction(elements) => {
                    read.push(elements);
                    ReadEvent::Resume
                }
                ReadStep::Read => {
                    ReadEvent::Received(chunks.next().map(|c| c.to_vec()).unwrap_or_default())
                }
                ReadStep::End => break,
            };
        }
        assert_eq!(read.len(), 5);
        assert_eq!(read[0], vec!["size", "1024", "768", "96"]);
        assert_eq!(read[4], vec!["connect", "hôte;1.x,", "", "secret"]);
    }
}
