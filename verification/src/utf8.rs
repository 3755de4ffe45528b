//! UTF-8 decoding as the standard library does it, and facts about the prefixes
//! of encoded text.

use vstd::prelude::*;
use vstd::slice::*;
use vstd::utf8::*;

verus! {

/// The bytes are not valid, but more bytes can make them so: they end inside a
/// character.
pub open spec fn incomplete_utf8(bytes: Seq<u8>) -> bool {
    !valid_utf8(bytes) && exists|tail: Seq<u8>| valid_utf8(#[trigger] (bytes + tail))
}

/// The largest index up to `limit` such that the bytes before it are valid.
pub open spec fn longest_valid_prefix(bytes: Seq<u8>, limit: nat) -> nat
    decreases limit,
{
    if limit == 0 || valid_utf8(bytes.take(limit as int)) {
        limit
    } else {
        longest_valid_prefix(bytes, (limit - 1) as nat)
    }
}

/// The largest index such that the bytes before it are valid.
pub open spec fn valid_up_to(bytes: Seq<u8>) -> nat {
    longest_valid_prefix(bytes, bytes.len())
}

/// The length of the invalid sequence at the start of bytes that no further bytes can
/// make valid: as much of it as could still have been the start of a character, and
/// at least one byte.
pub open spec fn invalid_len(bytes: Seq<u8>) -> nat {
    if bytes.len() >= 3 && incomplete_utf8(bytes.take(3)) {
        3
    } else if bytes.len() >= 2 && incomplete_utf8(bytes.take(2)) {
        2
    } else {
        1
    }
}

/// The length of the first invalid sequence, or none where the bytes only end inside
/// a character.
pub open spec fn error_len(bytes: Seq<u8>) -> Option<nat> {
    if incomplete_utf8(bytes) {
        None
    } else {
        Some(invalid_len(bytes.skip(valid_up_to(bytes) as int)))
    }
}

/// Where decoding goes on after the first invalid sequence.
pub open spec fn fault_end(bytes: Seq<u8>) -> int {
    match error_len(bytes) {
        Some(len) => (valid_up_to(bytes) + len) as int,
        None => bytes.len() as int,
    }
}

/// How many bytes at the end are the start of a character that has not ended yet.
pub open spec fn unfinished_len(bytes: Seq<u8>) -> nat {
    let n = bytes.len();
    if n >= 1 && incomplete_utf8(bytes.skip(n - 1)) {
        1
    } else if n >= 2 && incomplete_utf8(bytes.skip(n - 2)) {
        2
    } else if n >= 3 && incomplete_utf8(bytes.skip(n - 3)) {
        3
    } else {
        0
    }
}

/// The text of bytes that may not be valid: U+FFFD stands in place of each invalid
/// sequence, and of a character that the bytes end inside of.
pub open spec fn lossy_text(bytes: Seq<u8>) -> Seq<char>
    decreases bytes.len(),
{
    if valid_utf8(bytes) {
        decode_utf8(bytes)
    } else {
        proof {
            lemma_fault_end(bytes);
        }
        decode_utf8(bytes.take(valid_up_to(bytes) as int)) + seq!['\u{fffd}'] + lossy_text(
            bytes.skip(fault_end(bytes)),
        )
    }
}

/// Where and how decoding failed.
pub struct Utf8Fault {
    pub valid_up_to: usize,
    pub error_len: Option<usize>,
}

/// `std::str::from_utf8`.
///
/// It succeeds exactly on valid bytes and gives the text that they encode. Its
/// error tells up to where the bytes are valid and how long the invalid sequence
/// after that is; there is no such length exactly where the input ends inside a
/// character.
#[verifier::external_body]
pub(crate) fn from_utf8(bytes: &[u8]) -> (r: Result<&str, Utf8Fault>)
    ensures
        r is Ok <==> valid_utf8(bytes@),
        r matches Ok(s) ==> s@ == decode_utf8(bytes@),
        r matches Err(fault) ==> {
            &&& fault.valid_up_to == valid_up_to(bytes@)
            &&& match fault.error_len {
                Some(n) => error_len(bytes@) == Some(n as nat),
                None => error_len(bytes@) is None,
            }
        },
{
    match std::str::from_utf8(bytes) {
        Ok(s) => Ok(s),
        Err(err) => Err(
            Utf8Fault { valid_up_to: err.valid_up_to(), error_len: err.error_len() },
        ),
    }
}

/// `String::from_utf8_lossy`.
///
/// It decodes what is valid, puts one U+FFFD in place of each invalid sequence (the
/// one whose length the error of `std::str::from_utf8` tells, or the cut-off
/// character at the end), and goes on after it.
#[verifier::external_body]
pub(crate) fn from_utf8_lossy(bytes: &[u8]) -> (r: String)
    ensures
        r@ == lossy_text(bytes@),
{
    String::from_utf8_lossy(bytes).into_owned()
}

/// Decodes the longest valid prefix, and says what is wrong with the bytes after it,
/// if anything.
pub(crate) fn decode_prefix(bytes: &[u8]) -> (r: (&str, Option<Utf8Fault>))
    ensures
        r.0@ == decode_utf8(bytes@.take(valid_up_to(bytes@) as int)),
        r.1 is None <==> valid_utf8(bytes@),
        r.1 matches Some(fault) ==> {
            &&& fault.valid_up_to == valid_up_to(bytes@)
            &&& match fault.error_len {
                Some(n) => error_len(bytes@) == Some(n as nat),
                None => error_len(bytes@) is None,
            }
        },
{
    proof {
        lemma_valid_up_to(bytes@);
    }
    match from_utf8(bytes) {
        Ok(s) => {
            assert(bytes@.take(bytes@.len() as int) == bytes@);
            (s, None)
        },
        Err(fault) => {
            let prefix = slice_subrange(bytes, 0, fault.valid_up_to);
            assert(prefix@ == bytes@.take(fault.valid_up_to as int));
            match from_utf8(prefix) {
                Ok(s) => (s, Some(fault)),
                Err(_) => {
                    assert(false);
                    ("", Some(fault))
                },
            }
        },
    }
}

/// Tells whether the bytes end inside a character and are valid up to there.
fn is_incomplete(bytes: &[u8]) -> (r: bool)
    ensures
        r == incomplete_utf8(bytes@),
{
    match from_utf8(bytes) {
        Ok(_) => false,
        Err(fault) => fault.error_len.is_none(),
    }
}

/// Counts the bytes at the end that are the start of a character that has not ended
/// yet.
pub(crate) fn count_unfinished(bytes: &[u8]) -> (r: usize)
    ensures
        r == unfinished_len(bytes@),
{
    let n: usize = bytes.len();
    let mut count: usize = 1;
    while count <= 3 && count <= n
        invariant
            n == bytes@.len(),
            1 <= count <= 4,
            forall|j: int|
                1 <= j < count ==> !incomplete_utf8(bytes@.skip(#[trigger] (n - j))),
        decreases 4 - count,
    {
        let end = slice_subrange(bytes, n - count, n);
        assert(end@ == bytes@.skip(n - count));
        if is_incomplete(end) {
            assert(1 < count ==> !incomplete_utf8(bytes@.skip(n - 1)));
            assert(2 < count ==> !incomplete_utf8(bytes@.skip(n - 2)));
            return count;
        }
        count = count + 1;
    }
    assert(1 < count ==> !incomplete_utf8(bytes@.skip(n - 1)));
    assert(2 < count ==> !incomplete_utf8(bytes@.skip(n - 2)));
    assert(3 < count ==> !incomplete_utf8(bytes@.skip(n - 3)));
    0
}

proof fn lemma_longest_valid_prefix(bytes: Seq<u8>, limit: nat)
    requires
        limit <= bytes.len(),
    ensures
        longest_valid_prefix(bytes, limit) <= limit,
        valid_utf8(bytes.take(longest_valid_prefix(bytes, limit) as int)),
        forall|j: int|
            longest_valid_prefix(bytes, limit) < j <= limit ==> !valid_utf8(#[trigger] bytes.take(j)),
    decreases limit,
{
    if limit > 0 && !valid_utf8(bytes.take(limit as int)) {
        lemma_longest_valid_prefix(bytes, (limit - 1) as nat);
    }
}

/// [`valid_up_to`] is the length of a valid prefix, and of the longest one.
pub proof fn lemma_valid_up_to(bytes: Seq<u8>)
    ensures
        valid_up_to(bytes) <= bytes.len(),
        valid_utf8(bytes.take(valid_up_to(bytes) as int)),
        forall|j: int|
            valid_up_to(bytes) < j <= bytes.len() ==> !valid_utf8(#[trigger] bytes.take(j)),
        valid_utf8(bytes) ==> valid_up_to(bytes) == bytes.len(),
{
    lemma_longest_valid_prefix(bytes, bytes.len());
    assert(bytes.take(bytes.len() as int) == bytes);
}

/// An invalid sequence holds at least one byte.
pub proof fn lemma_fault_end(bytes: Seq<u8>)
    requires
        !valid_utf8(bytes),
    ensures
        valid_up_to(bytes) < fault_end(bytes) <= bytes.len(),
{
    lemma_valid_up_to(bytes);
    assert(bytes.take(bytes.len() as int) =~= bytes);
    assert(bytes.skip(valid_up_to(bytes) as int).len() == bytes.len() - valid_up_to(bytes));
}

/// The longest valid prefix is unique.
pub proof fn lemma_valid_up_to_is(bytes: Seq<u8>, n: int)
    requires
        0 <= n <= bytes.len(),
        valid_utf8(bytes.take(n)),
        forall|j: int| n < j <= bytes.len() ==> !valid_utf8(#[trigger] bytes.take(j)),
    ensures
        valid_up_to(bytes) == n,
{
    lemma_valid_up_to(bytes);
    let m = valid_up_to(bytes) as int;
    if n < m {
        assert(!valid_utf8(bytes.take(m)));
    } else if m < n {
        assert(!valid_utf8(bytes.take(n)));
    }
}

/// After valid bytes, the longest valid prefix goes on into what follows.
pub proof fn lemma_valid_up_to_concat(a: Seq<u8>, b: Seq<u8>)
    requires
        valid_utf8(a),
    ensures
        valid_up_to(a + b) == a.len() + valid_up_to(b),
        (a + b).take((a.len() + valid_up_to(b)) as int) == a + b.take(valid_up_to(b) as int),
{
    let n = valid_up_to(b) as int;
    lemma_valid_up_to(b);
    assert((a + b).take(a.len() + n) =~= a + b.take(n));
    lemma_after_valid(a, b.take(n));
    assert forall|j: int| a.len() + n < j <= (a + b).len() implies !valid_utf8(
        #[trigger] (a + b).take(j),
    ) by {
        let i = j - a.len();
        assert((a + b).take(j) =~= a + b.take(i));
        lemma_after_valid(a, b.take(i));
    }
    lemma_valid_up_to_is(a + b, a.len() + n);
}

/// Bytes that can never be valid stay so, whatever follows them, and for the same
/// reason.
pub proof fn lemma_invalid_extended(bytes: Seq<u8>, more: Seq<u8>)
    requires
        !valid_utf8(bytes),
        !incomplete_utf8(bytes),
    ensures
        !valid_utf8(bytes + more),
        !incomplete_utf8(bytes + more),
        valid_up_to(bytes + more) == valid_up_to(bytes),
        error_len(bytes + more) == error_len(bytes),
{
    let whole = bytes + more;
    let n = valid_up_to(bytes) as int;
    lemma_invalid_for_good(bytes, more);
    lemma_valid_up_to(bytes);
    assert(whole.take(n) =~= bytes.take(n));
    assert forall|j: int| n < j <= whole.len() implies !valid_utf8(#[trigger] whole.take(j)) by {
        if j <= bytes.len() {
            assert(whole.take(j) =~= bytes.take(j));
        } else {
            assert(whole.take(j) =~= bytes + more.take(j - bytes.len()));
            lemma_invalid_for_good(bytes, more.take(j - bytes.len()));
        }
    }
    lemma_valid_up_to_is(whole, n);
    let bad = bytes.skip(n);
    assert(bytes =~= bytes.take(n) + bad);
    lemma_after_valid(bytes.take(n), bad);
    assert(whole.skip(n) =~= bad + more);
    lemma_invalid_len_extended(bad, more, 2);
    lemma_invalid_len_extended(bad, more, 3);
}

proof fn lemma_invalid_for_good(bytes: Seq<u8>, more: Seq<u8>)
    requires
        !valid_utf8(bytes),
        !incomplete_utf8(bytes),
    ensures
        !valid_utf8(bytes + more),
        !incomplete_utf8(bytes + more),
{
    if incomplete_utf8(bytes + more) {
        let tail = choose|tail: Seq<u8>| valid_utf8(#[trigger] (bytes + more + tail));
        assert(bytes + more + tail == bytes + (more + tail));
    }
}

proof fn lemma_invalid_len_extended(bad: Seq<u8>, more: Seq<u8>, n: int)
    requires
        !valid_utf8(bad),
        !incomplete_utf8(bad),
        n > 0,
    ensures
        ((bad + more).len() >= n && incomplete_utf8((bad + more).take(n))) == (bad.len() >= n
            && incomplete_utf8(bad.take(n))),
{
    if bad.len() >= n {
        assert((bad + more).take(n) =~= bad.take(n));
    } else if (bad + more).len() >= n {
        assert((bad + more).take(n) =~= bad + more.take(n - bad.len()));
        lemma_invalid_for_good(bad, more.take(n - bad.len()));
    }
}

/// Bytes that end inside a character hold less than four bytes of it.
pub proof fn lemma_incomplete_short(bytes: Seq<u8>)
    requires
        incomplete_utf8(bytes),
    ensures
        valid_up_to(bytes) < bytes.len() <= valid_up_to(bytes) + 3,
        incomplete_utf8(bytes.skip(valid_up_to(bytes) as int)),
        valid_up_to(bytes.skip(valid_up_to(bytes) as int)) == 0,
{
    let n = valid_up_to(bytes) as int;
    let head = bytes.take(n);
    let rest = bytes.skip(n);
    lemma_valid_up_to(bytes);
    assert(head + rest =~= bytes);
    lemma_after_valid(head, rest);
    lemma_valid_up_to_concat(head, rest);
    assert(rest.len() > 0);
    let tail = choose|tail: Seq<u8>| valid_utf8(#[trigger] (rest + tail));
    let whole = rest + tail;
    let len = length_of_first_scalar(whole);
    if len <= rest.len() {
        let first = rest.take(len);
        reveal_with_fuel(is_char_boundary, 2);
        assert(is_char_boundary(whole, len));
        valid_utf8_split(whole, len);
        assert(whole.subrange(0, len) =~= first);
        valid_utf8_concat(head, first);
        assert(head + first =~= bytes.take(n + len));
    }
}

/// What [`unfinished_len`] counts is one character that has not ended yet.
pub proof fn lemma_unfinished(bytes: Seq<u8>)
    ensures
        unfinished_len(bytes) <= bytes.len(),
        unfinished_len(bytes) > 0 ==> {
            let end = bytes.skip(bytes.len() - unfinished_len(bytes));
            incomplete_utf8(end) && valid_up_to(end) == 0
        },
{
    let count = unfinished_len(bytes) as int;
    if count > 0 {
        let end = bytes.skip(bytes.len() - count);
        lemma_incomplete_short(end);
        let n = valid_up_to(end) as int;
        assert(end.skip(n) =~= bytes.skip(bytes.len() - (count - n)));
    }
}

/// After a character that has not ended, a byte that does not continue it makes the
/// bytes invalid for good.
proof fn lemma_broken(bad: Seq<u8>, more: Seq<u8>)
    requires
        incomplete_utf8(bad),
        valid_up_to(bad) == 0,
        more.len() > 0,
        !is_continuation_byte(more[0]),
    ensures
        !valid_utf8(bad + more),
{
    let whole = bad + more;
    lemma_incomplete_short(bad);
    lemma_valid_up_to(bad);
    if valid_utf8(whole) {
        let len = length_of_first_scalar(whole);
        assert(whole[bad.len() as int] == more[0]);
        if len <= bad.len() {
            reveal_with_fuel(is_char_boundary, 2);
            assert(is_char_boundary(whole, len));
            valid_utf8_split(whole, len);
            assert(whole.subrange(0, len) =~= bad.take(len));
        }
    }
}

/// A character that has not ended begins with a byte that continues none.
pub proof fn lemma_unfinished_start(bytes: Seq<u8>)
    requires
        incomplete_utf8(bytes),
    ensures
        bytes.len() > 0,
        !is_continuation_byte(bytes[0]),
{
    let tail = choose|tail: Seq<u8>| valid_utf8(#[trigger] (bytes + tail));
    lemma_incomplete_short(bytes);
    assert((bytes + tail)[0] == bytes[0]);
}

/// After a character that has not ended, and whatever does not continue it, the
/// invalid sequence is that character.
proof fn lemma_broken_fault(bad: Seq<u8>, more: Seq<u8>)
    requires
        incomplete_utf8(bad),
        valid_up_to(bad) == 0,
        more.len() > 0,
        !is_continuation_byte(more[0]),
    ensures
        !valid_utf8(bad + more),
        valid_up_to(bad + more) == 0,
        error_len(bad + more) == Some(bad.len()),
{
    let whole = bad + more;
    lemma_incomplete_short(bad);
    lemma_valid_up_to(bad);
    lemma_broken(bad, more);
    assert forall|j: int| 0 < j <= whole.len() implies !valid_utf8(#[trigger] whole.take(j)) by {
        if j <= bad.len() {
            assert(whole.take(j) =~= bad.take(j));
        } else {
            assert(whole.take(j) =~= bad + more.take(j - bad.len()));
            lemma_broken(bad, more.take(j - bad.len()));
        }
    }
    assert(valid_utf8(whole.take(0)));
    lemma_valid_up_to_is(whole, 0);
    assert forall|j: int| bad.len() < j <= whole.len() implies !incomplete_utf8(
        #[trigger] whole.take(j),
    ) by {
        let part = whole.take(j);
        if incomplete_utf8(part) {
            let tail = choose|tail: Seq<u8>| valid_utf8(#[trigger] (part + tail));
            assert(part + tail =~= bad + (more.take(j - bad.len()) + tail));
            lemma_broken(bad, more.take(j - bad.len()) + tail);
        }
    }
    assert(whole.take(whole.len() as int) =~= whole);
    assert(whole.skip(0) =~= whole);
    assert(whole.take(bad.len() as int) =~= bad);
}

/// The lossy text of valid bytes in front of others begins with their text.
proof fn lemma_lossy_after_valid(a: Seq<u8>, b: Seq<u8>)
    requires
        valid_utf8(a),
    ensures
        lossy_text(a + b) == decode_utf8(a) + lossy_text(b),
{
    lemma_after_valid(a, b);
    if valid_utf8(b) {
        lemma_decode_concat(a, b);
    } else {
        let n = valid_up_to(b) as int;
        lemma_valid_up_to(b);
        lemma_valid_up_to_concat(a, b);
        lemma_decode_concat(a, b.take(n));
        lemma_fault_end(b);
        assert((a + b).skip(a.len() + n) =~= b.skip(n));
        assert(fault_end(a + b) == a.len() + fault_end(b));
        assert((a + b).skip(a.len() + fault_end(b)) =~= b.skip(fault_end(b)));
        assert(lossy_text(a + b) =~= decode_utf8(a) + lossy_text(b));
    }
}

/// Lossy text is the text of what is valid, with one U+FFFD for a byte that can be part of
/// no text, and one for a character that has not ended, however many bytes of it there
/// are, where something else or nothing follows.
pub proof fn law_lossy_text(front: Seq<u8>, bad: Seq<u8>, rest: Seq<u8>)
    requires
        valid_utf8(front),
        !valid_utf8(bad),
        incomplete_utf8(bad) ==> valid_up_to(bad) == 0 && (rest.len() == 0
            || !is_continuation_byte(rest[0])),
        !incomplete_utf8(bad) ==> bad.len() == 1,
    ensures
        lossy_text(front) == decode_utf8(front),
        lossy_text(front + (bad + rest)) == decode_utf8(front) + seq!['\u{fffd}'] + lossy_text(rest),
{
    lemma_lossy_after_valid(front, bad + rest);
    assert(decode_utf8((bad + rest).take(0)) =~= seq![]);
    assert((bad + rest).skip(bad.len() as int) =~= rest);
    if !incomplete_utf8(bad) {
        lemma_valid_up_to(bad);
        lemma_fault_end(bad);
        lemma_invalid_extended(bad, rest);
        assert(fault_end(bad) == 1);
    } else if rest.len() > 0 {
        lemma_broken_fault(bad, rest);
    } else {
        assert(bad + rest =~= bad);
        assert(rest =~= bad.skip(bad.len() as int));
    }
    assert(lossy_text(bad + rest) =~= seq!['\u{fffd}'] + lossy_text(rest));
    assert(lossy_text(front + (bad + rest)) =~= decode_utf8(front) + seq!['\u{fffd}'] + lossy_text(
        rest,
    ));
}

/// Lossy text can be made piece by piece, wherever no character is cut.
pub proof fn lemma_lossy_concat(a: Seq<u8>, b: Seq<u8>)
    requires
        valid_utf8(a) || unfinished_len(a) == 0 || b.len() == 0 || !is_continuation_byte(b[0]),
    ensures
        lossy_text(a + b) == lossy_text(a) + lossy_text(b),
    decreases a.len(),
{
    if valid_utf8(a) {
        lemma_lossy_after_valid(a, b);
    } else if b.len() == 0 {
        assert(a + b =~= a);
        assert(lossy_text(a) + lossy_text(b) =~= lossy_text(a));
    } else {
        if incomplete_utf8(a) {
            lemma_lossy_broken(a, b);
        } else {
            let n = valid_up_to(a) as int;
            let next = fault_end(a);
            let rest = a.skip(next);
            lemma_fault_end(a);
            lemma_invalid_extended(a, b);
            assert((a + b).take(n) =~= a.take(n));
            assert((a + b).skip(next) =~= rest + b);
            if unfinished_len(a) == 0 {
                lemma_unfinished_suffix(a, next);
            }
            lemma_lossy_concat(rest, b);
            assert(lossy_text(a + b) =~= lossy_text(a) + lossy_text(b));
        }
    }
}

/// The lossy text of bytes that end inside a character, in front of others that do not
/// continue it.
proof fn lemma_lossy_broken(a: Seq<u8>, b: Seq<u8>)
    requires
        incomplete_utf8(a),
        b.len() > 0,
        unfinished_len(a) == 0 || !is_continuation_byte(b[0]),
    ensures
        lossy_text(a + b) == lossy_text(a) + lossy_text(b),
{
    let n = valid_up_to(a) as int;
    let head = a.take(n);
    let bad = a.skip(n);
    lemma_valid_up_to(a);
    lemma_incomplete_short(a);
    assert(bad =~= a.skip(a.len() - bad.len()));
    lemma_broken_fault(bad, b);
    assert(a + b =~= head + (bad + b));
    lemma_lossy_after_valid(head, bad + b);
    assert((bad + b).skip(bad.len() as int) =~= b);
    assert(decode_utf8((bad + b).take(0)) =~= seq![]);
    assert(lossy_text(bad + b) =~= seq!['\u{fffd}'] + lossy_text(b));
    assert(lossy_text(a.skip(a.len() as int)) =~= seq![]);
    assert(lossy_text(a) =~= decode_utf8(head) + seq!['\u{fffd}']);
    assert(lossy_text(a + b) =~= lossy_text(a) + lossy_text(b));
}

/// Where no character is cut at the end of bytes, none is at the end of a suffix.
proof fn lemma_unfinished_suffix(bytes: Seq<u8>, k: int)
    requires
        0 <= k <= bytes.len(),
        unfinished_len(bytes) == 0,
    ensures
        unfinished_len(bytes.skip(k)) == 0,
{
    let rest = bytes.skip(k);
    assert forall|j: int| 1 <= j <= rest.len() implies #[trigger] rest.skip(rest.len() - j)
        == bytes.skip(bytes.len() - j) by {
        assert(rest.skip(rest.len() - j) =~= bytes.skip(bytes.len() - j));
    }
}

/// The encoding of a concatenation is the concatenation of the encodings.
pub proof fn lemma_encode_concat(a: Seq<char>, b: Seq<char>)
    ensures
        encode_utf8(a + b) == encode_utf8(a) + encode_utf8(b),
    decreases a.len(),
{
    if a.len() == 0 {
        assert(a + b == b);
    } else {
        lemma_encode_concat(a.drop_first(), b);
        assert((a + b).drop_first() == a.drop_first() + b);
        assert(encode_utf8(a + b) =~= encode_utf8(a) + encode_utf8(b));
    }
}

/// Valid bytes after valid bytes are decoded on their own.
pub proof fn lemma_decode_concat(a: Seq<u8>, b: Seq<u8>)
    requires
        valid_utf8(a),
        valid_utf8(b),
    ensures
        valid_utf8(a + b),
        decode_utf8(a + b) == decode_utf8(a) + decode_utf8(b),
{
    valid_utf8_concat(a, b);
    lemma_encode_concat(decode_utf8(a), decode_utf8(b));
    decode_utf8_encode_utf8(a);
    decode_utf8_encode_utf8(b);
    encode_utf8_decode_utf8(decode_utf8(a) + decode_utf8(b));
}

/// What follows valid bytes decides how the whole stands: valid, incomplete, or
/// neither.
pub proof fn lemma_after_valid(a: Seq<u8>, b: Seq<u8>)
    requires
        valid_utf8(a),
    ensures
        valid_utf8(a + b) <==> valid_utf8(b),
        incomplete_utf8(a + b) <==> incomplete_utf8(b),
{
    lemma_after_valid_valid(a, b);
    if incomplete_utf8(a + b) {
        let tail = choose|tail: Seq<u8>| valid_utf8(#[trigger] (a + b + tail));
        assert(a + b + tail == a + (b + tail));
        lemma_after_valid_valid(a, b + tail);
    }
    if incomplete_utf8(b) {
        let tail = choose|tail: Seq<u8>| valid_utf8(#[trigger] (b + tail));
        assert(a + b + tail == a + (b + tail));
        lemma_after_valid_valid(a, b + tail);
    }
}

proof fn lemma_after_valid_valid(a: Seq<u8>, b: Seq<u8>)
    requires
        valid_utf8(a),
    ensures
        valid_utf8(a + b) <==> valid_utf8(b),
{
    let whole = a + b;
    assert(whole.subrange(0, a.len() as int) == a);
    assert(whole.subrange(a.len() as int, whole.len() as int) == b);
    if valid_utf8(b) {
        valid_utf8_concat(a, b);
    } else {
        partial_valid_partial_invalid_utf8(whole, a.len() as int);
    }
}

/// The encoding of ASCII text holds one byte for each character.
pub proof fn lemma_encode_ascii(chars: Seq<char>)
    requires
        is_ascii_chars(chars),
    ensures
        encode_utf8(chars).len() == chars.len(),
        forall|i: int| 0 <= i < chars.len() ==> #[trigger] encode_utf8(chars)[i] == chars[i] as u8,
{
    is_ascii_chars_encode_utf8(chars);
}

} // verus!
