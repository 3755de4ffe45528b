//! What holds of calls that open tokens.

use crate::cli::AES_KEY_LEN;
use crate::token;
use crate::token::{ConnectionKind, TokenEnvelope, TokenError, IV_LEN};
use vstd::prelude::*;

verus! {

/// A token comes to exactly the bytes that its base64 text stands for, whatever their
/// number, and one that is no base64 is refused.
pub proof fn law_token_decoded(token: &str, r: Result<Vec<u8>, TokenError>)
    requires
        call_ensures(token::decode_token, (token,), r),
    ensures
        match token::base64_decoded(token@) {
            Some(bytes) => r matches Ok(decoded) && decoded@ == bytes,
            None => r == Err::<Vec<u8>, TokenError>(TokenError::TokenNotBase64),
        },
{
}

/// An envelope comes to exactly what its value is the ciphertext of, whatever its
/// length. It is refused if its vector is no base64, else if that is not one block
/// long, else if its value is no base64, else if the value cannot be decrypted.
pub proof fn law_envelope_decrypted(
    envelope: &TokenEnvelope,
    key: &[u8; AES_KEY_LEN],
    r: Result<Vec<u8>, TokenError>,
)
    requires
        call_ensures(token::decrypt_envelope, (envelope, key), r),
    ensures
        match (token::base64_decoded(envelope.iv@), token::base64_decoded(envelope.value@)) {
            (None, _) => r == Err::<Vec<u8>, TokenError>(TokenError::IvNotBase64),
            (Some(iv), value) => if iv.len() != 16 {
                r matches Err(TokenError::IvLength { got }) && got == iv.len() as usize
            } else {
                match value {
                    None => r == Err::<Vec<u8>, TokenError>(TokenError::ValueNotBase64),
                    Some(value) => match token::cbc_plaintext(key@, iv, value) {
                        Some(plaintext) => r matches Ok(decrypted) && decrypted@ == plaintext,
                        None => r == Err::<Vec<u8>, TokenError>(TokenError::Undecryptable),
                    },
                }
            },
        },
{
    assert(token::bytes_or_error(r) == token::envelope_plaintext(*envelope, key@));
}

/// The parts of an envelope are handed on as they are, or the first that is unfit is
/// told.
pub proof fn law_envelope_checked(
    iv: Option<Vec<u8>>,
    value: Option<Vec<u8>>,
    r: Result<([u8; IV_LEN], Vec<u8>), TokenError>,
)
    requires
        call_ensures(token::check_envelope, (iv, value), r),
    ensures
        match (iv, value) {
            (None, _) => r matches Err(err) && err is IvNotBase64,
            (Some(iv), value) => if iv@.len() != 16 {
                r matches Err(TokenError::IvLength { got }) && got == iv@.len()
            } else {
                match value {
                    None => r matches Err(err) && err is ValueNotBase64,
                    Some(value) => r matches Ok((fixed, ciphertext)) && fixed@ == iv@
                        && ciphertext@ == value@,
                }
            },
        },
{
    assert(iv is Some ==> token::optional_bytes(iv) == Some(iv->0@));
    assert(iv matches Some(iv) ==> iv@.len() <= usize::MAX) by {
        if let Some(iv) = iv {
            vstd::std_specs::vec::axiom_spec_len(&iv);
        }
    }
}

/// The protocol has one name, and nothing else names it.
pub proof fn law_kind_names(kind: &ConnectionKind, name: &str, text: &str, r: Option<ConnectionKind>)
    requires
        call_ensures(ConnectionKind::protocol_name, (kind,), text),
        call_ensures(ConnectionKind::from_name, (name,), r),
    ensures
        text@ == "vnc"@,
        r is Some <==> name@ == "vnc"@,
        name@ == text@ ==> r == Some(*kind),
{
    assert(text@ == token::protocol_text(*kind));
    if r is None {
        assert(name@ != token::protocol_text(*kind));
    }
}

} // verus!
