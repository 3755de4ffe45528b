//! What holds of relaying whole streams.

use crate::bridge;
use crate::bridge::{
    BrowserAction, BrowserEvent, BrowserOutcome, GuacdAction, GuacdEvent, GuacdText, PageResponse,
    TokenAction, TokenQuery, VncHtmlAction,
};
use crate::instruction;
use crate::reader_laws;
use crate::token::{GuacConnection, TokenError};
use crate::utf8;
use vstd::prelude::*;
use vstd::seq_lib::*;
use vstd::utf8::*;

verus! {

/// The bytes that reach guacd from the browser's events, up to the first that ends
/// the way to guacd.
pub open spec fn written_to_guacd(events: Seq<BrowserEvent>) -> Seq<u8>
    decreases events.len(),
{
    if events.len() == 0 || bridge::ends_upstream(events[0]) {
        seq![]
    } else {
        (match bridge::payload(events[0]) {
            Some(bytes) => bytes,
            None => seq![],
        }) + written_to_guacd(events.drop_first())
    }
}

/// The payloads among the events, in order.
pub open spec fn payloads(events: Seq<BrowserEvent>) -> Seq<Seq<u8>> {
    events.filter_map(|event: BrowserEvent| bridge::payload(event))
}

/// The text that goes to the browser for an outcome, if any.
pub open spec fn sent(outcome: BrowserOutcome) -> Seq<Seq<char>> {
    match outcome {
        BrowserOutcome::SendText(text) => seq![text],
        BrowserOutcome::SendLast(text) => seq![text],
        BrowserOutcome::Read => seq![],
        BrowserOutcome::Close => seq![],
    }
}

/// The texts that the browser gets when guacd sends the chunks and then closes, and
/// `carry` waits from before.
pub open spec fn sent_to_browser(carry: Seq<u8>, chunks: Seq<Seq<u8>>) -> Seq<Seq<char>>
    decreases chunks.len(),
{
    if chunks.len() == 0 {
        sent(bridge::ended_step(carry).1)
    } else {
        let (rest, outcome) = bridge::received_step(carry, chunks[0]);
        sent(outcome) + sent_to_browser(rest, chunks.drop_first())
    }
}

/// The texts that the browser gets from a relay that starts with bytes that have come
/// with the handshake.
pub open spec fn session_texts(pending: Seq<u8>, chunks: Seq<Seq<u8>>) -> Seq<Seq<char>> {
    let (carry, outcome) = bridge::arrived_step(pending);
    sent(outcome) + sent_to_browser(carry, chunks)
}

/// What has been written after the first `i` events.
proof fn lemma_written_so_far(events: Seq<BrowserEvent>, i: int)
    requires
        0 <= i <= events.len(),
        forall|j: int| 0 <= j < i ==> !bridge::ends_upstream(#[trigger] events[j]),
    ensures
        written_to_guacd(events) == payloads(events.take(i)).flatten() + written_to_guacd(
            events.skip(i),
        ),
    decreases i,
{
    let f = |event: BrowserEvent| bridge::payload(event);
    if i == 0 {
        assert(events.skip(0) =~= events);
        assert(payloads(events.take(0)).flatten() =~= seq![]);
    } else {
        lemma_written_so_far(events, i - 1);
        events.lemma_filter_map_take_succ(f, i - 1);
        let before = payloads(events.take(i - 1));
        assert(events.skip(i - 1).drop_first() =~= events.skip(i));
        assert(!bridge::ends_upstream(events[i - 1]));
        if let Some(bytes) = bridge::payload(events[i - 1]) {
            before.lemma_flatten_push(bytes);
            assert(payloads(events.take(i)) =~= before.push(bytes));
        } else {
            assert(payloads(events.take(i)) =~= before);
        }
        assert(written_to_guacd(events) =~= payloads(events.take(i)).flatten() + written_to_guacd(
            events.skip(i),
        ));
    }
}

/// Until the first event that ends it, the way to guacd carries the payloads of the
/// browser's messages, all of them, in order and byte for byte; after that event it
/// carries nothing.
pub proof fn law_payloads_kept(events: Seq<BrowserEvent>, k: int)
    requires
        0 <= k <= events.len(),
        forall|j: int| 0 <= j < k ==> !bridge::ends_upstream(#[trigger] events[j]),
        k < events.len() ==> bridge::ends_upstream(events[k]),
    ensures
        written_to_guacd(events) == payloads(events.take(k)).flatten(),
{
    lemma_written_so_far(events, k);
    assert(written_to_guacd(events.skip(k)) =~= seq![]);
    assert(written_to_guacd(events) =~= payloads(events.take(k)).flatten());
}

/// Less than a character ever waits to be sent.
pub proof fn law_little_waits(carry: Seq<u8>)
    requires
        bridge::unfinished(carry),
    ensures
        carry.len() <= 3,
{
    if carry.len() > 0 {
        utf8::lemma_incomplete_short(carry);
    }
}

/// What is sent when bytes arrive, and the text of what waits and of all that comes
/// later, are together the text of them all.
proof fn lemma_arrived(bytes: Seq<u8>, later: Seq<u8>)
    ensures
        ({
            let (carry, outcome) = bridge::arrived_step(bytes);
            utf8::lossy_text(bytes + later) == sent(outcome).flatten() + utf8::lossy_text(
                carry + later,
            )
        }),
{
    let (carry, outcome) = bridge::arrived_step(bytes);
    let head = bytes.take(bytes.len() - carry.len());
    utf8::lemma_valid_up_to(bytes);
    utf8::lemma_unfinished(bytes);
    assert(carry =~= bytes.skip(bytes.len() - carry.len()));
    assert(bytes + later =~= head + (carry + later));
    assert(sent(outcome).flatten() =~= utf8::lossy_text(head)) by {
        if let BrowserOutcome::SendText(text) = outcome {
            assert(sent(outcome).drop_first().flatten() =~= seq![]);
            assert(valid_utf8(bytes) ==> head =~= bytes);
        } else {
            assert(head =~= seq![]);
        }
    }
    if carry.len() == 0 {
        assert(head =~= bytes);
    } else {
        bridge::lemma_take_text(bytes);
        utf8::lemma_unfinished_start(carry);
        assert((carry + later)[0] == carry[0]);
    }
    utf8::lemma_lossy_concat(head, carry + later);
}

/// The texts of a relay in which bytes wait.
proof fn lemma_stream_text(carry: Seq<u8>, chunks: Seq<Seq<u8>>)
    requires
        reader_laws::received(chunks),
    ensures
        sent_to_browser(carry, chunks).flatten() == utf8::lossy_text(carry + chunks.flatten()),
    decreases chunks.len(),
{
    if chunks.len() == 0 {
        assert(carry + chunks.flatten() =~= carry);
        if carry.len() > 0 {
            assert(sent_to_browser(carry, chunks).drop_first().flatten() =~= seq![]);
        }
        assert(sent_to_browser(carry, chunks).flatten() =~= utf8::lossy_text(carry));
    } else {
        let whole = carry + chunks[0];
        let later = chunks.drop_first();
        let (rest, outcome) = bridge::arrived_step(whole);
        assert(chunks[0].len() > 0);
        assert(carry + chunks.flatten() =~= whole + later.flatten());
        lemma_arrived(whole, later.flatten());
        reader_laws::lemma_received_drop(chunks);
        lemma_stream_text(rest, later);
        lemma_flatten_concat(sent(outcome), sent_to_browser(rest, later));
    }
}

/// What the browser gets is the text of the bytes that guacd sends, whatever they are
/// and wherever the reads cut them, from what has come with the handshake on.
pub proof fn law_session_text(pending: Seq<u8>, chunks: Seq<Seq<u8>>)
    requires
        reader_laws::received(chunks),
    ensures
        session_texts(pending, chunks).flatten() == utf8::lossy_text(pending + chunks.flatten()),
{
    let (carry, outcome) = bridge::arrived_step(pending);
    lemma_arrived(pending, chunks.flatten());
    lemma_stream_text(carry, chunks);
    lemma_flatten_concat(sent(outcome), sent_to_browser(carry, chunks));
}

/// What is sent of bytes that arrive, and what then waits, are together all that waited
/// before and all of the bytes, as long as these are text or end inside a character:
/// valid text is sent whole, and only the start of a character waits.
pub proof fn law_arrival(
    relay: &mut GuacdText,
    event: GuacdEvent,
    whole: Seq<u8>,
    r: BrowserAction,
)
    requires
        match event {
            GuacdEvent::Started(bytes) => whole == old(relay)@ + bytes@,
            GuacdEvent::Received(bytes) => bytes@.len() > 0 && whole == old(relay)@ + bytes@,
            _ => false,
        },
        call_ensures(GuacdText::relay_to_browser, (relay, event), r),
    ensures
        r is SendText || r is Read,
        whole.len() == 0 ==> r is Read && final(relay)@.len() == 0,
        whole.len() > 0 && valid_utf8(whole) ==> (r matches BrowserAction::SendText(text)
            && encode_utf8(text@) == whole && final(relay)@.len() == 0),
        (!valid_utf8(whole) && exists|tail: Seq<u8>| valid_utf8(#[trigger] (whole + tail))) ==> {
            &&& 1 <= final(relay)@.len() <= 3
            &&& match r {
                BrowserAction::SendText(text) => text@.len() > 0 && whole == encode_utf8(text@)
                    + final(relay)@,
                _ => final(relay)@ == whole,
            }
        },
        final(relay)@.len() <= 3,
{
    assert((final(relay)@, bridge::browser_outcome(r)) == bridge::arrived_step(whole));
    bridge::lemma_take_text(whole);
    law_little_waits(final(relay)@);
    utf8::lemma_valid_up_to(whole);
    if valid_utf8(whole) {
        decode_utf8_encode_utf8(whole);
    } else if utf8::incomplete_utf8(whole) {
        let n = utf8::valid_up_to(whole) as int;
        utf8::lemma_incomplete_short(whole);
        decode_utf8_encode_utf8(whole.take(n));
        assert(whole.take(n) + whole.skip(n) =~= whole);
        if n > 0 {
            let chars = decode_utf8(whole.take(n));
            if chars.len() == 0 {
                assert(encode_utf8(chars) =~= seq![]);
            }
        } else {
            assert(whole.skip(0) =~= whole);
        }
    }
}

/// Whatever bytes arrive, what is sent of them and the text of what waits and of all
/// that comes later are together the text of them all.
pub proof fn law_arrival_text(
    relay: &mut GuacdText,
    event: GuacdEvent,
    whole: Seq<u8>,
    later: Seq<u8>,
    r: BrowserAction,
)
    requires
        match event {
            GuacdEvent::Started(bytes) => whole == old(relay)@ + bytes@,
            GuacdEvent::Received(bytes) => bytes@.len() > 0 && whole == old(relay)@ + bytes@,
            _ => false,
        },
        call_ensures(GuacdText::relay_to_browser, (relay, event), r),
    ensures
        match r {
            BrowserAction::SendText(text) => utf8::lossy_text(whole + later) == text@
                + utf8::lossy_text(final(relay)@ + later),
            _ => final(relay)@ == whole,
        },
{
    assert((final(relay)@, bridge::browser_outcome(r)) == bridge::arrived_step(whole));
    lemma_arrived(whole, later);
    if let BrowserAction::SendText(text) = r {
        let texts = sent(bridge::browser_outcome(r));
        assert(texts.drop_first().flatten() =~= seq![]);
        assert(texts.flatten() =~= text@);
    } else {
        assert(whole.skip(0) =~= whole);
    }
}

/// When nothing comes any more, what waits is sent as lossy text, and then, or if
/// nothing waits, the socket is closed.
pub proof fn law_arrivals_end(relay: &mut GuacdText, event: GuacdEvent, r: BrowserAction)
    requires
        match event {
            GuacdEvent::Received(bytes) => bytes@.len() == 0,
            GuacdEvent::Failed => true,
            _ => false,
        },
        call_ensures(GuacdText::relay_to_browser, (relay, event), r),
    ensures
        final(relay)@.len() == 0,
        if old(relay)@.len() == 0 {
            r is Close
        } else {
            r matches BrowserAction::SendLast(text) && text@ == utf8::lossy_text(old(relay)@)
        },
{
    assert((final(relay)@, bridge::browser_outcome(r)) == bridge::ended_step(old(relay)@));
}

/// Once a message is out, more is read; if it could not be sent, the socket is closed.
/// What waits is not touched.
pub proof fn law_after_sending(relay: &mut GuacdText, event: GuacdEvent, r: BrowserAction)
    requires
        event is Sent || event is SendFailed,
        call_ensures(GuacdText::relay_to_browser, (relay, event), r),
    ensures
        final(relay)@ == old(relay)@,
        event is Sent ==> r is Read,
        event is SendFailed ==> r is Close,
{
}

/// A request without a socket gets the page, whatever else it carries. One with a socket
/// and a token has that token decrypted, character for character, and one without a
/// token is closed.
pub proof fn law_request(upgrade: bool, query: Option<TokenQuery>, r: VncHtmlAction)
    requires
        call_ensures(bridge::handle_vnc_html, (upgrade, query), r),
    ensures
        !upgrade <==> r is ServePage,
        upgrade ==> match query {
            Some(query) => r matches VncHtmlAction::Decrypt(token) && token@ == query.token@,
            None => r matches VncHtmlAction::Close(close) && close.code == 4002 && close.reason@
                == "Missing token"@,
        },
{
}

/// A socket is bridged exactly if its token was decrypted, and to the connection in it;
/// every other is closed with the same reason, whatever was wrong with the token.
pub proof fn law_admission(decrypted: Result<GuacConnection, TokenError>, r: TokenAction)
    requires
        call_ensures(bridge::handle_token, (decrypted,), r),
    ensures
        decrypted is Ok <==> r is Bridge,
        decrypted matches Ok(conn) ==> r == TokenAction::Bridge(conn),
        r matches TokenAction::Close(close) ==> close.code == 4002 && close.reason@
            == "Invalid Token"@,
{
}

/// The page is served byte for byte as it was read; if it could not be read, that is
/// the answer.
pub proof fn law_page(file: Option<Vec<u8>>, r: PageResponse)
    requires
        call_ensures(bridge::serve_vnc_html, (file,), r),
    ensures
        match file {
            Some(bytes) => r.status == 200 && r.content_type@ == "text/html; charset=utf-8"@
                && r.body@ == bytes@,
            None => r.status == 404 && r.content_type@ == "text/plain; charset=utf-8"@
                && decode_utf8(r.body@) == "vnc.html not found"@,
        },
{
    encode_utf8_decode_utf8("vnc.html not found"@);
}

/// Every message of the browser is written whole: the bytes of a text, and a binary
/// message as it is. Control messages and finished writes are followed by the next
/// message, and everything else ends the way to guacd.
pub proof fn law_message_written(event: BrowserEvent, r: GuacdAction)
    requires
        call_ensures(bridge::relay_to_guacd, (event,), r),
    ensures
        match event {
            BrowserEvent::Text(text) => r matches GuacdAction::Write(written) && written@
                == encode_utf8(text@) && decode_utf8(written@) == text@,
            BrowserEvent::Binary(bytes) => r matches GuacdAction::Write(written) && written@
                == bytes@,
            BrowserEvent::Control | BrowserEvent::Written => r is Receive,
            BrowserEvent::Close
            | BrowserEvent::Failed
            | BrowserEvent::Ended
            | BrowserEvent::WriteFailed => r is Shutdown,
        },
{
    if let BrowserEvent::Text(text) = event {
        encode_utf8_decode_utf8(text@);
    }
}

/// The bytes that the laws on streams count as written are those of the messages.
pub proof fn law_payload(event: BrowserEvent)
    ensures
        match event {
            BrowserEvent::Text(text) => bridge::payload(event) == Some(encode_utf8(text@)),
            BrowserEvent::Binary(bytes) => bridge::payload(event) == Some(bytes@),
            _ => bridge::payload(event) is None,
        },
        bridge::ends_upstream(event) <==> event is Close || event is Failed || event is Ended
            || event is WriteFailed,
{
}

/// The texts that the browser gets for a row of events, one step of the relay after the
/// other.
pub open spec fn relayed(carry: Seq<u8>, events: Seq<GuacdEvent>) -> Seq<Seq<char>>
    decreases events.len(),
{
    if events.len() == 0 {
        seq![]
    } else {
        let (rest, outcome) = bridge::relay_step(carry, events[0]);
        sent(outcome) + relayed(rest, events.drop_first())
    }
}

/// What the relay makes of reads, each of them whole, and of the end after them, is the
/// text of all their bytes: of the bytes themselves where they are valid.
pub proof fn law_relayed_text(
    carry: Seq<u8>,
    reads: Seq<Vec<u8>>,
    end: GuacdEvent,
    events: Seq<GuacdEvent>,
    bytes: Seq<u8>,
)
    requires
        forall|i: int| 0 <= i < reads.len() ==> (#[trigger] reads[i])@.len() > 0,
        end matches GuacdEvent::Received(none) ==> none@.len() == 0,
        end is Received || end is Failed,
        events == reads.map_values(|read: Vec<u8>| GuacdEvent::Received(read)).push(end),
        bytes == carry + reads.map_values(|read: Vec<u8>| read@).flatten(),
    ensures
        relayed(carry, events).flatten() == utf8::lossy_text(bytes),
        valid_utf8(bytes) ==> encode_utf8(relayed(carry, events).flatten()) == bytes,
    decreases reads.len(),
{
    let event = |read: Vec<u8>| GuacdEvent::Received(read);
    let view = |read: Vec<u8>| read@;
    let (rest, outcome) = bridge::relay_step(carry, events[0]);
    if reads.len() == 0 {
        assert(bytes =~= carry);
        assert(events.drop_first() =~= seq![]);
        assert((rest, outcome) == bridge::ended_step(carry));
        if carry.len() > 0 {
            assert(sent(outcome).drop_first().flatten() =~= seq![]);
        }
        assert(relayed(rest, events.drop_first()) =~= seq![]);
        assert(relayed(carry, events) =~= sent(outcome));
        assert(relayed(carry, events).flatten() =~= utf8::lossy_text(bytes));
    } else {
        let later = reads.drop_first();
        let whole = carry + reads[0]@;
        let more = rest + later.map_values(view).flatten();
        assert(events[0] == event(reads[0]));
        assert((rest, outcome) == bridge::arrived_step(whole));
        assert(events.drop_first() =~= later.map_values(event).push(end));
        assert(reads.map_values(view).drop_first() =~= later.map_values(view));
        assert(bytes =~= whole + later.map_values(view).flatten());
        assert forall|i: int| 0 <= i < later.len() implies (#[trigger] later[i])@.len() > 0 by {
            assert(later[i] == reads[i + 1]);
        }
        lemma_arrived(whole, later.map_values(view).flatten());
        law_relayed_text(rest, later, end, events.drop_first(), more);
        lemma_flatten_concat(sent(outcome), relayed(rest, events.drop_first()));
    }
    if valid_utf8(bytes) {
        decode_utf8_encode_utf8(bytes);
    }
}

/// Valid text from guacd reaches the browser byte for byte and in order, wherever the
/// reads cut it.
pub proof fn law_valid_stream_kept(chunks: Seq<Seq<u8>>)
    requires
        reader_laws::received(chunks),
        valid_utf8(chunks.flatten()),
    ensures
        encode_utf8(sent_to_browser(seq![], chunks).flatten()) == chunks.flatten(),
{
    let none: Seq<u8> = seq![];
    assert(none + chunks.flatten() =~= chunks.flatten());
    lemma_stream_text(none, chunks);
    decode_utf8_encode_utf8(chunks.flatten());
}

/// Once any number of instructions have been read, exactly what guacd sends after
/// them reaches the browser, whatever it sends and however the stream is cut into
/// chunks: valid text byte for byte, other bytes as their lossy text.
pub proof fn law_splice_after_reads(chunks: Seq<Seq<u8>>, n: nat)
    requires
        reader_laws::received(chunks),
    ensures
        ({
            let (pending, left) = reader_laws::left_after(seq![], chunks, n);
            let (tail, _) = reader_laws::left_after(chunks.flatten(), seq![], n);
            &&& session_texts(pending, left).flatten() == utf8::lossy_text(tail)
            &&& valid_utf8(tail) ==> encode_utf8(session_texts(pending, left).flatten()) == tail
            &&& tail.is_suffix_of(chunks.flatten())
        }),
{
    let none: Seq<u8> = seq![];
    assert(none + chunks.flatten() =~= chunks.flatten());
    reader_laws::law_bytes_kept(none, chunks, n);
    let (pending, left) = reader_laws::left_after(none, chunks, n);
    let (tail, _) = reader_laws::left_after(chunks.flatten(), seq![], n);
    law_session_text(pending, left);
    if valid_utf8(tail) {
        decode_utf8_encode_utf8(tail);
    }
}

/// After the instructions of a handshake, what comes after them is what reaches the
/// browser.
pub proof fn law_handshake_then_splice(
    instructions: Seq<Seq<Seq<char>>>,
    tail: Seq<u8>,
    chunks: Seq<Seq<u8>>,
)
    requires
        reader_laws::sendable(instructions),
        reader_laws::received(chunks),
        chunks.flatten() == reader_laws::stream(instructions) + tail,
    ensures
        ({
            let (pending, left) = reader_laws::left_after(seq![], chunks, instructions.len());
            &&& session_texts(pending, left).flatten() == utf8::lossy_text(tail)
            &&& valid_utf8(tail) ==> encode_utf8(session_texts(pending, left).flatten()) == tail
        }),
{
    let none: Seq<u8> = seq![];
    assert(none + chunks.flatten() =~= chunks.flatten());
    reader_laws::law_rest_kept(instructions, tail, none, chunks);
    reader_laws::law_bytes_kept(none, chunks, instructions.len());
    law_splice_after_reads(chunks, instructions.len());
}

/// Valid text whose last byte is the terminator.
pub open spec fn terminated(chunk: Seq<u8>) -> bool {
    valid_utf8(chunk) && chunk.len() > 0 && chunk.last() == instruction::SEMICOLON
}

/// Such text ends with the terminator as a character.
proof fn lemma_terminated(chunk: Seq<u8>)
    requires
        terminated(chunk),
    ensures
        decode_utf8(chunk).len() > 0,
        decode_utf8(chunk).last() == ';',
{
    let at = chunk.len() - 1;
    let end: Seq<char> = seq![';'];
    is_char_boundary_iff_is_leading_byte(chunk, at);
    valid_utf8_split(chunk, at);
    utf8::lemma_encode_ascii(end);
    assert(encode_utf8(end) =~= chunk.subrange(at, chunk.len() as int));
    encode_utf8_decode_utf8(end);
    assert(chunk =~= chunk.subrange(0, at) + chunk.subrange(at, chunk.len() as int));
    utf8::lemma_decode_concat(chunk.subrange(0, at), chunk.subrange(at, chunk.len() as int));
}

/// Where guacd's reads end with instructions, so do the messages to the browser: every
/// one ends with the terminator.
pub proof fn law_messages_terminated(chunks: Seq<Seq<u8>>)
    requires
        forall|i: int| 0 <= i < chunks.len() ==> terminated(#[trigger] chunks[i]),
    ensures
        forall|i: int|
            0 <= i < sent_to_browser(seq![], chunks).len() ==> (#[trigger] sent_to_browser(
                seq![],
                chunks,
            )[i]).len() > 0 && sent_to_browser(seq![], chunks)[i].last() == ';',
    decreases chunks.len(),
{
    let none: Seq<u8> = seq![];
    if chunks.len() > 0 {
        let later = chunks.drop_first();
        assert(terminated(chunks[0]));
        lemma_terminated(chunks[0]);
        assert(none + chunks[0] =~= chunks[0]);
        assert forall|i: int| 0 <= i < later.len() implies terminated(#[trigger] later[i]) by {
            assert(later[i] == chunks[i + 1]);
        }
        law_messages_terminated(later);
        let texts = sent_to_browser(none, chunks);
        let more = sent_to_browser(none, later);
        assert(texts =~= seq![decode_utf8(chunks[0])] + more);
        assert forall|i: int| 0 <= i < texts.len() implies (#[trigger] texts[i]).len() > 0
            && texts[i].last() == ';' by {
            if i > 0 {
                assert(texts[i] == more[i - 1]);
            }
        }
    }
}

} // verus!
