use flowcase_guac::bridge::{
    handle_token, handle_vnc_html, relay_to_guacd, serve_vnc_html, BrowserAction, BrowserEvent,
    GuacdAction, GuacdEvent, GuacdText, TokenAction, TokenQuery, VncHtmlAction,
};
use flowcase_guac::reader::{GuacdReader, ReadEvent, ReadStep};
use flowcase_guac::settings::{guacd_addr, EnvVar, SettingsError, LISTEN_ADDR};
use flowcase_guac::token::{ConnectionKind, GuacConnection, TokenError};

#[test]
fn plain_get_serves_vnc_html() {
    assert!(matches!(handle_vnc_html(false, None), VncHtmlAction::ServePage));
    let resp = serve_vnc_html(Some(b"<html>OK</html>".to_vec()));
    assert_eq!(resp.status, 200);
    assert_eq!(resp.content_type, "text/html; charset=utf-8");
    assert_eq!(resp.body, b"<html>OK</html>");
}

#[test]
fn missing_vnc_html_returns_404() {
    let resp = serve_vnc_html(None);
    assert_eq!(resp.status, 404);
    assert_eq!(resp.content_type, "text/plain; charset=utf-8");
    assert_eq!(resp.body, b"vnc.html not found");
}

#[test]
fn plain_get_with_a_token_serves_the_page_too() {
    let query = Some(TokenQuery { token: "abc".to_string() });
    assert!(matches!(handle_vnc_html(false, query), VncHtmlAction::ServePage));
}

#[test]
fn upgrade_without_token_is_closed() {
    match handle_vnc_html(true, None) {
        VncHtmlAction::Close(close) => {
            assert_eq!(close.code, 4002);
            assert_eq!(close.reason, "Missing token");
        }
        other => panic!("{other:?}"),
    }
}

#[test]
fn upgrade_with_token_is_decrypted() {
    match handle_vnc_html(true, Some(TokenQuery { token: "abc".to_string() })) {
        VncHtmlAction::Decrypt(token) => assert_eq!(token, "abc"),
        other => panic!("{other:?}"),
    }
}

#[test]
fn invalid_token_is_closed() {
    match handle_token(Err(TokenError::Undecryptable)) {
        TokenAction::Close(close) => {
            assert_eq!(close.code, 4002);
            assert_eq!(close.reason, "Invalid Token");
        }
        other => panic!("{other:?}"),
    }
}

#[test]
fn valid_token_is_bridged() {
    let conn = GuacConnection {
        kind: ConnectionKind::Vnc,
        hostname: "vnc-smoke".to_string(),
        port: 5901,
        username: None,
        password: Some("vncpassword".to_string()),
    };
    match handle_token(Ok(conn)) {
        TokenAction::Bridge(conn) => {
            assert_eq!(conn.hostname, "vnc-smoke");
            assert_eq!(conn.port, 5901);
        }
        other => panic!("{other:?}"),
    }
}

#[test]
fn browser_payloads_become_bytes() {
    match relay_to_guacd(BrowserEvent::Text("4.sync,1.é;".to_string())) {
        GuacdAction::Write(bytes) => assert_eq!(bytes, "4.sync,1.é;".as_bytes()),
        other => panic!("{other:?}"),
    }
    match relay_to_guacd(BrowserEvent::Binary(vec![0, 0xff])) {
        GuacdAction::Write(bytes) => assert_eq!(bytes, vec![0, 0xff]),
        other => panic!("{other:?}"),
    }
}

#[test]
fn browser_half_goes_on_or_ends() {
    for event in [BrowserEvent::Control, BrowserEvent::Written] {
        assert!(matches!(relay_to_guacd(event), GuacdAction::Receive));
    }
    for event in [
        BrowserEvent::Close,
        BrowserEvent::Failed,
        BrowserEvent::Ended,
        BrowserEvent::WriteFailed,
    ] {
        assert!(matches!(relay_to_guacd(event), GuacdAction::Shutdown));
    }
}

/// The messages that the browser gets when guacd sends the chunks, the first along
/// with the handshake, and then closes.
fn relayed(chunks: &[&[u8]]) -> Vec<String> {
    let mut relay = GuacdText::new();
    let mut chunks = chunks.iter();
    let mut sent = Vec::new();
    let started = chunks.next().map_or(Vec::new(), |chunk| chunk.to_vec());
    let mut action = relay.relay_to_browser(GuacdEvent::Started(started));
    loop {
        let event = match action {
            BrowserAction::SendText(text) => {
                sent.push(text);
                GuacdEvent::Sent
            }
            BrowserAction::SendLast(text) => {
                sent.push(text);
                return sent;
            }
            BrowserAction::Read => {
                GuacdEvent::Received(chunks.next().map_or(Vec::new(), |chunk| chunk.to_vec()))
            }
            BrowserAction::Close => return sent,
        };
        action = relay.relay_to_browser(event);
    }
}

#[test]
fn guacd_bytes_become_text() {
    let mut relay = GuacdText::new();
    match relay.relay_to_browser(GuacdEvent::Received("4.sync,1.é;".as_bytes().to_vec())) {
        BrowserAction::SendText(text) => assert_eq!(text, "4.sync,1.é;"),
        other => panic!("{other:?}"),
    }
    assert_eq!(relayed(&[b"1.a;", b"1.b;"]), vec!["1.a;", "1.b;"]);
    assert_eq!(relayed(&[b"", b"1.b;"]), vec!["1.b;"]);
    assert!(relayed(&[]).is_empty());
}

#[test]
fn character_cut_by_two_reads_waits_for_its_end() {
    assert_eq!(relayed(&[b"a\xc3", b"\xa9b"]), vec!["a", "éb"]);
    assert_eq!(relayed(&[b"\xc3", b"\xa9\xc3", b"\xa9\xc3", b"\xa9"]), vec!["é", "é", "é"]);
    assert_eq!(relayed(&[b"\xf0", b"\x9f", b"\x98", b"\x80!"]), vec!["\u{1f600}!"]);
}

#[test]
fn bytes_that_can_never_be_valid_become_lossy_text() {
    assert_eq!(relayed(&[b"a\xffb"]), vec!["a\u{fffd}b"]);
    assert_eq!(relayed(&[b"\xe2\x82", b"x"]), vec!["\u{fffd}x"]);
    // A character that has begun after them still waits for its end.
    assert_eq!(relayed(&[b"\xff\xc3", b"\xa9"]), vec!["\u{fffd}", "é"]);
    assert_eq!(relayed(&[b"\xffa\xf0\x9f\x98", b"\x80"]), vec!["\u{fffd}a", "\u{1f600}"]);
    assert_eq!(relayed(&[b"\xff\x82\x82", b"a"]), vec!["\u{fffd}\u{fffd}\u{fffd}", "a"]);
}

#[test]
fn character_that_never_ends_is_sent_last() {
    assert_eq!(relayed(&[b"caf\xc3"]), vec!["caf", "\u{fffd}"]);
    let mut relay = GuacdText::new();
    assert!(matches!(
        relay.relay_to_browser(GuacdEvent::Received(b"\xe2\x82".to_vec())),
        BrowserAction::Read
    ));
    match relay.relay_to_browser(GuacdEvent::Failed) {
        BrowserAction::SendLast(text) => assert_eq!(text, "\u{fffd}"),
        other => panic!("{other:?}"),
    }
    assert!(matches!(relay.relay_to_browser(GuacdEvent::Failed), BrowserAction::Close));
}

#[test]
fn guacd_half_goes_on_or_ends() {
    assert!(matches!(GuacdText::new().relay_to_browser(GuacdEvent::Sent), BrowserAction::Read));
    for event in [GuacdEvent::Received(Vec::new()), GuacdEvent::Failed, GuacdEvent::SendFailed] {
        assert!(matches!(GuacdText::new().relay_to_browser(event), BrowserAction::Close));
    }
}

#[test]
fn guacd_is_co_located_by_default() {
    assert_eq!(LISTEN_ADDR, "0.0.0.0:8080");
    assert_eq!(guacd_addr(EnvVar::Unset).unwrap(), "127.0.0.1:4822");
    let configured = EnvVar::Text("10.1.2.3:14822".to_string());
    assert_eq!(guacd_addr(configured).unwrap(), "10.1.2.3:14822");
    assert_eq!(guacd_addr(EnvVar::Text(String::new())).unwrap(), "");
}

#[test]
fn guacd_address_must_be_text() {
    let err = guacd_addr(EnvVar::NotUnicode).unwrap_err();
    assert_eq!(err, SettingsError::GuacdAddr);
    assert_eq!(err.message(), "FLOWCASE_GUACD_ADDR must be an addr:port");
}

#[test]
fn payloads_reach_guacd_in_order_until_the_end() {
    let events = vec![
        BrowserEvent::Text("1.a;".to_string()),
        BrowserEvent::Control,
        BrowserEvent::Binary(vec![0xc3]),
        BrowserEvent::Binary(vec![0xa9]),
        BrowserEvent::Close,
        BrowserEvent::Text("1.b;".to_string()),
    ];
    let mut written = Vec::new();
    for event in events {
        match relay_to_guacd(event) {
            GuacdAction::Write(bytes) => written.extend(bytes),
            GuacdAction::Receive => {}
            GuacdAction::Shutdown => break,
        }
    }
    assert_eq!(written, b"1.a;\xc3\xa9");
}

#[test]
fn valid_text_reaches_the_browser_byte_for_byte() {
    let raw = "5.ready,1.é;4.name,3.a€\u{1f600};".as_bytes();
    for size in 1..=raw.len() {
        let chunks: Vec<&[u8]> = raw.chunks(size).collect();
        assert_eq!(relayed(&chunks).concat().as_bytes(), raw, "chunks of {size}");
    }
}

#[test]
fn cuts_make_no_difference_to_lossy_text() {
    let raw = b"a\xc3\xa9\xff\xe2\x82x\xf0\x9f\x98\xf0\x9f\x98\x80\xed\xa0\x80\xc3\xe2\x82\xac\x80\xf4";
    let whole = String::from_utf8_lossy(raw);
    for size in 1..=raw.len() {
        let chunks: Vec<&[u8]> = raw.chunks(size).collect();
        assert_eq!(relayed(&chunks).concat(), whole, "chunks of {size}");
    }
    for first in 0..raw.len() {
        for second in first..raw.len() {
            let mut cuts = vec![&raw[..first]];
            cuts.extend([&raw[first..second], &raw[second..]].into_iter().filter(|c| !c.is_empty()));
            assert_eq!(relayed(&cuts).concat(), whole, "cut at {first} and {second}");
        }
    }
}

#[test]
fn bytes_after_the_handshake_reach_the_browser() {
    let raw = "5.ready,1.x;4.name,2.é€;".as_bytes();
    for size in 1..=raw.len() {
        let mut chunks = raw.chunks(size);
        let mut reader = GuacdReader::new();
        let mut event = ReadEvent::Resume;
        while let ReadStep::Read = reader.next_instruction(event).unwrap() {
            event = ReadEvent::Received(chunks.next().unwrap().to_vec());
        }
        let pending = reader.into_pending();
        let mut later: Vec<&[u8]> = vec![&pending];
        later.extend(chunks);
        assert_eq!(relayed(&later).concat(), "4.name,2.é€;", "chunks of {size}");
    }
}

#[test]
fn reads_that_end_with_instructions_give_messages_that_do() {
    let sent = relayed(&["4.sync,1.0;".as_bytes(), "3.png,1.é;4.sync,1.1;".as_bytes(), b";"]);
    assert_eq!(sent, vec!["4.sync,1.0;", "3.png,1.é;4.sync,1.1;", ";"]);
    assert!(sent.iter().all(|text| text.ends_with(';')));
}
