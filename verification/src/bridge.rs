//! The bridge between a browser's WebSocket and guacd.
//!
//! A request for the viewer page is answered with the page itself, or, if it asks
//! for a WebSocket, by relaying between that socket and guacd.

use crate::token::{GuacConnection, TokenError};
use crate::utf8;
use vstd::prelude::*;
use vstd::slice::*;
use vstd::utf8::*;

verus! {

/// The query of a request for a WebSocket.
#[derive(Debug)]
pub struct TokenQuery {
    pub token: String,
}

/// The close code for a request without a usable token.
pub const BAD_TOKEN_CODE: u16 = 4002;

/// Why the bridge closes a socket.
#[derive(Debug)]
pub struct CloseReason {
    pub code: u16,
    pub reason: &'static str,
}

/// What a request for the viewer page comes to.
#[derive(Debug)]
pub enum VncHtmlAction {
    /// Serve the page.
    ServePage,
    /// Accept the socket and close it.
    Close(CloseReason),
    /// Decrypt this token.
    Decrypt(String),
}

/// Handles a request for the viewer page. Branches on whether the request carries
/// WebSocket upgrade headers: without them the page is served, with them a token
/// is needed.
pub fn handle_vnc_html(upgrade: bool, query: Option<TokenQuery>) -> (r: VncHtmlAction)
    ensures
        match (upgrade, query) {
            (false, _) => r is ServePage,
            (true, None) => r matches VncHtmlAction::Close(close) && close.code == 4002
                && close.reason@ == "Missing token"@,
            (true, Some(query)) => r == VncHtmlAction::Decrypt(query.token),
        },
{
    if !upgrade {
        return VncHtmlAction::ServePage;
    }
    match query {
        Some(query) => VncHtmlAction::Decrypt(query.token),
        None => VncHtmlAction::Close(
            CloseReason { code: BAD_TOKEN_CODE, reason: "Missing token" },
        ),
    }
}

/// What a decrypted token comes to.
#[derive(Debug)]
pub enum TokenAction {
    /// Accept the socket and close it.
    Close(CloseReason),
    /// Accept the socket and bridge it to this connection.
    Bridge(GuacConnection),
}

/// Admits a request whose token could be decrypted, and no other.
pub fn handle_token(decrypted: Result<GuacConnection, TokenError>) -> (r: TokenAction)
    ensures
        match decrypted {
            Ok(conn) => r == TokenAction::Bridge(conn),
            Err(_) => r matches TokenAction::Close(close) && close.code == 4002 && close.reason@
                == "Invalid Token"@,
        },
{
    match decrypted {
        Ok(conn) => TokenAction::Bridge(conn),
        Err(_) => TokenAction::Close(
            CloseReason { code: BAD_TOKEN_CODE, reason: "Invalid Token" },
        ),
    }
}

/// The response to a request for the viewer page.
#[derive(Debug)]
pub struct PageResponse {
    pub status: u16,
    pub content_type: &'static str,
    pub body: Vec<u8>,
}

/// Serves the viewer page: the bytes of its file, or, if it could not be read, that
/// it was not found.
pub fn serve_vnc_html(file: Option<Vec<u8>>) -> (r: PageResponse)
    ensures
        match file {
            Some(bytes) => {
                &&& r.status == 200
                &&& r.content_type@ == "text/html; charset=utf-8"@
                &&& r.body == bytes
            },
            None => {
                &&& r.status == 404
                &&& r.content_type@ == "text/plain; charset=utf-8"@
                &&& r.body@ == encode_utf8("vnc.html not found"@)
            },
        },
{
    match file {
        Some(bytes) => PageResponse {
            status: 200,
            content_type: "text/html; charset=utf-8",
            body: bytes,
        },
        None => PageResponse {
            status: 404,
            content_type: "text/plain; charset=utf-8",
            body: slice_to_vec("vnc.html not found".as_bytes()),
        },
    }
}

/// What happens on the way from the browser to guacd.
#[derive(Debug)]
pub enum BrowserEvent {
    /// A text message has arrived.
    Text(String),
    /// A binary message has arrived.
    Binary(Vec<u8>),
    /// A ping or pong has arrived, and has been dealt with.
    Control,
    /// The browser closes the socket.
    Close,
    /// The socket has failed.
    Failed,
    /// The socket has ended.
    Ended,
    /// The last bytes have been written to guacd.
    Written,
    /// The last bytes could not be written to guacd.
    WriteFailed,
}

/// What to do next on the way from the browser to guacd.
#[derive(Debug)]
pub enum GuacdAction {
    /// Write these bytes to guacd.
    Write(Vec<u8>),
    /// Wait for the next message.
    Receive,
    /// Shut down the connection to guacd: this half is done.
    Shutdown,
}

/// The bytes that a message carries to guacd.
pub open spec fn payload(event: BrowserEvent) -> Option<Seq<u8>> {
    match event {
        BrowserEvent::Text(text) => Some(encode_utf8(text@)),
        BrowserEvent::Binary(bytes) => Some(bytes@),
        _ => None,
    }
}

/// Whether the event ends the way from the browser to guacd.
pub open spec fn ends_upstream(event: BrowserEvent) -> bool {
    event is Close || event is Failed || event is Ended || event is WriteFailed
}

/// Relays the browser's messages: text and binary payloads alike are bytes for
/// guacd.
pub fn relay_to_guacd(event: BrowserEvent) -> (r: GuacdAction)
    ensures
        match payload(event) {
            Some(bytes) => r matches GuacdAction::Write(written) && written@ == bytes,
            None => if ends_upstream(event) {
                r is Shutdown
            } else {
                r is Receive
            },
        },
        match event {
            BrowserEvent::Text(text) => r matches GuacdAction::Write(written) && written@
                == encode_utf8(text@),
            BrowserEvent::Binary(bytes) => r matches GuacdAction::Write(written) && written@
                == bytes@,
            BrowserEvent::Control | BrowserEvent::Written => r is Receive,
            BrowserEvent::Close
            | BrowserEvent::Failed
            | BrowserEvent::Ended
            | BrowserEvent::WriteFailed => r is Shutdown,
        },
{
    match event {
        BrowserEvent::Text(text) => GuacdAction::Write(slice_to_vec(text.as_str().as_bytes())),
        BrowserEvent::Binary(bytes) => GuacdAction::Write(bytes),
        BrowserEvent::Control => GuacdAction::Receive,
        BrowserEvent::Written => GuacdAction::Receive,
        BrowserEvent::Close => GuacdAction::Shutdown,
        BrowserEvent::Failed => GuacdAction::Shutdown,
        BrowserEvent::Ended => GuacdAction::Shutdown,
        BrowserEvent::WriteFailed => GuacdAction::Shutdown,
    }
}

/// What happens on the way from guacd to the browser.
#[derive(Debug)]
pub enum GuacdEvent {
    /// The way is open; these bytes have come with the handshake, after its last
    /// instruction.
    Started(Vec<u8>),
    /// A read has returned these bytes; none at all at the end of the stream.
    Received(Vec<u8>),
    /// The connection to guacd has failed.
    Failed,
    /// The last message has been sent to the browser.
    Sent,
    /// The last message could not be sent to the browser.
    SendFailed,
}

/// What to do next on the way from guacd to the browser.
#[derive(Debug)]
pub enum BrowserAction {
    /// Send this text to the browser.
    SendText(String),
    /// Send this text to the browser, then close the socket: this half is done.
    SendLast(String),
    /// Read from guacd.
    Read,
    /// Close the socket: this half is done.
    Close,
}

/// [`BrowserAction`] in terms of the model.
pub enum BrowserOutcome {
    SendText(Seq<char>),
    SendLast(Seq<char>),
    Read,
    Close,
}

pub open spec fn browser_outcome(r: BrowserAction) -> BrowserOutcome {
    match r {
        BrowserAction::SendText(text) => BrowserOutcome::SendText(text@),
        BrowserAction::SendLast(text) => BrowserOutcome::SendLast(text@),
        BrowserAction::Read => BrowserOutcome::Read,
        BrowserAction::Close => BrowserOutcome::Close,
    }
}

/// The text that can be made of bytes from guacd, if any, and the bytes that wait for
/// more: those of a character that has not ended yet. Bytes that can never be valid
/// become lossy text.
pub open spec fn take_text(bytes: Seq<u8>) -> (Seq<u8>, Option<Seq<char>>) {
    if bytes.len() == 0 {
        (bytes, None)
    } else if valid_utf8(bytes) {
        (seq![], Some(decode_utf8(bytes)))
    } else if utf8::incomplete_utf8(bytes) {
        let n = utf8::valid_up_to(bytes) as int;
        (
            bytes.skip(n),
            if n == 0 {
                None
            } else {
                Some(decode_utf8(bytes.take(n)))
            },
        )
    } else {
        let n = bytes.len() - utf8::unfinished_len(bytes);
        (bytes.skip(n), Some(utf8::lossy_text(bytes.take(n))))
    }
}

/// What waits, and what to do, once these bytes are there to be sent.
pub open spec fn arrived_step(bytes: Seq<u8>) -> (Seq<u8>, BrowserOutcome) {
    let (carry, text) = take_text(bytes);
    (
        carry,
        match text {
            Some(text) => BrowserOutcome::SendText(text),
            None => BrowserOutcome::Read,
        },
    )
}

/// What to do when nothing comes any more: what still waits is sent as lossy text.
pub open spec fn ended_step(carry: Seq<u8>) -> (Seq<u8>, BrowserOutcome) {
    (
        seq![],
        if carry.len() == 0 {
            BrowserOutcome::Close
        } else {
            BrowserOutcome::SendLast(utf8::lossy_text(carry))
        },
    )
}

/// The bytes that wait after a read, and what to do.
pub open spec fn received_step(carry: Seq<u8>, chunk: Seq<u8>) -> (Seq<u8>, BrowserOutcome) {
    if chunk.len() > 0 {
        arrived_step(carry + chunk)
    } else {
        ended_step(carry)
    }
}

/// The bytes that wait after an event, and what to do.
pub open spec fn relay_step(carry: Seq<u8>, event: GuacdEvent) -> (Seq<u8>, BrowserOutcome) {
    match event {
        GuacdEvent::Started(bytes) => arrived_step(carry + bytes@),
        GuacdEvent::Received(bytes) => received_step(carry, bytes@),
        GuacdEvent::Failed => ended_step(carry),
        GuacdEvent::Sent => (carry, BrowserOutcome::Read),
        GuacdEvent::SendFailed => (carry, BrowserOutcome::Close),
    }
}

/// The bytes of at most one character that has not ended yet.
pub open spec fn unfinished(carry: Seq<u8>) -> bool {
    carry.len() == 0 || utf8::incomplete_utf8(carry) && utf8::valid_up_to(carry) == 0
}

/// Makes text messages of the bytes of guacd. Where a read ends inside a character,
/// the bytes of that character wait for the next one.
pub struct GuacdText {
    carry: Vec<u8>,
}

impl View for GuacdText {
    type V = Seq<u8>;

    closed spec fn view(&self) -> Seq<u8> {
        self.carry@
    }
}

impl GuacdText {
    /// Only a character that has not ended yet waits.
    pub open spec fn wf(&self) -> bool {
        unfinished(self@)
    }

    /// A relay in which nothing waits.
    pub fn new() -> (r: GuacdText)
        ensures
            r@ == Seq::<u8>::empty(),
            r.wf(),
    {
        GuacdText { carry: Vec::new() }
    }

    /// Relays the bytes of guacd as text messages.
    pub fn relay_to_browser(&mut self, event: GuacdEvent) -> (r: BrowserAction)
        ensures
            (final(self)@, browser_outcome(r)) == relay_step(old(self)@, event),
            (final(self)@, browser_outcome(r)) == match event {
                GuacdEvent::Started(bytes) => arrived_step(old(self)@ + bytes@),
                GuacdEvent::Received(bytes) => received_step(old(self)@, bytes@),
                GuacdEvent::Failed => ended_step(old(self)@),
                GuacdEvent::Sent => (old(self)@, BrowserOutcome::Read),
                GuacdEvent::SendFailed => (old(self)@, BrowserOutcome::Close),
            },
            old(self).wf() ==> final(self).wf(),
    {
        match event {
            GuacdEvent::Started(bytes) => self.arrived(bytes),
            GuacdEvent::Received(bytes) => {
                if bytes.len() == 0 {
                    self.ended()
                } else {
                    self.arrived(bytes)
                }
            },
            GuacdEvent::Failed => self.ended(),
            GuacdEvent::Sent => BrowserAction::Read,
            GuacdEvent::SendFailed => BrowserAction::Close,
        }
    }

    /// Sends what can be made of the bytes that wait and of those that have arrived.
    fn arrived(&mut self, bytes: Vec<u8>) -> (r: BrowserAction)
        ensures
            (final(self)@, browser_outcome(r)) == arrived_step(old(self)@ + bytes@),
            final(self).wf(),
    {
        let mut bytes = bytes;
        self.carry.append(&mut bytes);
        let ghost whole = self.carry@;
        proof {
            lemma_take_text(whole);
            utf8::lemma_valid_up_to(whole);
            utf8::lemma_unfinished(whole);
            assert(whole.skip(0) =~= whole);
            assert(whole.take(whole.len() as int) =~= whole);
        }
        if self.carry.len() == 0 {
            return BrowserAction::Read;
        }
        let (text, fault) = utf8::decode_prefix(self.carry.as_slice());
        match fault {
            None => {
                let text = text.to_owned();
                self.carry = Vec::new();
                BrowserAction::SendText(text)
            },
            Some(fault) => {
                let n: usize = if fault.error_len.is_none() {
                    fault.valid_up_to
                } else {
                    self.carry.len() - utf8::count_unfinished(self.carry.as_slice())
                };
                let text = if fault.error_len.is_none() {
                    text.to_owned()
                } else {
                    utf8::from_utf8_lossy(slice_subrange(self.carry.as_slice(), 0, n))
                };
                let rest = self.carry.split_off(n);
                assert(rest@ =~= whole.skip(n as int));
                self.carry = rest;
                if n == 0 {
                    BrowserAction::Read
                } else {
                    BrowserAction::SendText(text)
                }
            },
        }
    }

    /// Sends what still waits when nothing comes any more.
    fn ended(&mut self) -> (r: BrowserAction)
        ensures
            (final(self)@, browser_outcome(r)) == ended_step(old(self)@),
            final(self).wf(),
    {
        if self.carry.len() == 0 {
            BrowserAction::Close
        } else {
            let text = utf8::from_utf8_lossy(self.carry.as_slice());
            self.carry = Vec::new();
            BrowserAction::SendLast(text)
        }
    }
}

/// What waits is a character that has not ended yet.
pub proof fn lemma_take_text(bytes: Seq<u8>)
    ensures
        unfinished(take_text(bytes).0),
{
    if utf8::incomplete_utf8(bytes) {
        utf8::lemma_incomplete_short(bytes);
    } else {
        utf8::lemma_unfinished(bytes);
    }
}

} // verus!
