//! Connection tokens.
//!
//! A token is the base64 form of a JSON envelope `{"iv", "value"}`, both in base64;
//! the value is AES-256-CBC ciphertext with PKCS #7 padding, and its plaintext
//! describes the connection. The JSON in between is read by the program.

use crate::cli::AES_KEY_LEN;
use crate::text;
use aes::cipher::{block_padding::Pkcs7, BlockDecryptMut, KeyIvInit};
use base64::Engine;
use vstd::prelude::*;

verus! {

/// The protocol of a remote desktop.
#[derive(Debug, Clone, Copy, PartialEq, Eq)]
pub enum ConnectionKind {
    Vnc,
}

/// The name of the protocol on the wire.
pub open spec fn protocol_text(kind: ConnectionKind) -> Seq<char> {
    match kind {
        ConnectionKind::Vnc => "vnc"@,
    }
}

impl ConnectionKind {
    /// The name by which guacd selects the protocol.
    pub fn protocol_name(&self) -> (r: &'static str)
        ensures
            r@ == protocol_text(*self),
    {
        match self {
            ConnectionKind::Vnc => "vnc",
        }
    }

    /// The protocol with this name.
    pub fn from_name(name: &str) -> (r: Option<ConnectionKind>)
        ensures
            match r {
                Some(kind) => name@ == protocol_text(kind),
                None => forall|kind: ConnectionKind|
                    #![trigger protocol_text(kind)]
                    name@ != protocol_text(kind),
            },
            r is Some <==> name@ == "vnc"@,
    {
        if text::same_text(name, "vnc") {
            Some(ConnectionKind::Vnc)
        } else {
            None
        }
    }
}

/// The remote desktop that a browser asks for.
#[derive(Debug)]
pub struct GuacConnection {
    pub kind: ConnectionKind,
    pub hostname: String,
    pub port: u16,
    pub username: Option<String>,
    pub password: Option<String>,
}

/// Length of the initialisation vector.
pub const IV_LEN: usize = 16;

/// The envelope inside a token.
#[derive(Debug)]
pub struct TokenEnvelope {
    pub iv: String,
    pub value: String,
}

/// Why a token is refused.
#[derive(Debug, Clone, Copy, PartialEq, Eq)]
pub enum TokenError {
    TokenNotBase64,
    EnvelopeMalformed,
    IvNotBase64,
    IvLength { got: usize },
    ValueNotBase64,
    Undecryptable,
    ClaimsMalformed,
    UnknownKind,
}

/// What the standard base64 alphabet with padding makes of the text, if it is
/// base64.
pub uninterp spec fn base64_decoded(text: Seq<char>) -> Option<Seq<u8>>;

/// The plaintext of AES-256-CBC ciphertext after PKCS #7 padding is taken off, if it
/// is well padded.
pub uninterp spec fn cbc_plaintext(key: Seq<u8>, iv: Seq<u8>, ciphertext: Seq<u8>) -> Option<
    Seq<u8>,
>;

/// Optional bytes in terms of the model.
pub open spec fn optional_bytes(r: Option<Vec<u8>>) -> Option<Seq<u8>> {
    match r {
        Some(bytes) => Some(bytes@),
        None => None,
    }
}

/// `decode` of `base64::engine::general_purpose::STANDARD`.
///
/// The result depends on the text alone and is named [`base64_decoded`]; the
/// alphabet is left to the crate.
#[verifier::external_body]
fn decode_base64(text: &str) -> (r: Option<Vec<u8>>)
    ensures
        optional_bytes(r) == base64_decoded(text@),
{
    base64::engine::general_purpose::STANDARD.decode(text).ok()
}

/// `decrypt_padded_vec_mut` of `cbc::Decryptor<aes::Aes256>` with `Pkcs7`.
///
/// The result depends on key, vector and ciphertext alone and is named
/// [`cbc_plaintext`]; there is none where the length of the ciphertext is not a
/// multiple of the block size. The cipher is left to the crates.
#[verifier::external_body]
fn decrypt_cbc(key: &[u8; AES_KEY_LEN], iv: &[u8; IV_LEN], ciphertext: &[u8]) -> (r: Option<
    Vec<u8>,
>)
    ensures
        optional_bytes(r) == cbc_plaintext(key@, iv@, ciphertext@),
        ciphertext@.len() % 16 != 0 ==> r is None,
{
    cbc::Decryptor::<aes::Aes256>::new(key.into(), iv.into()).decrypt_padded_vec_mut::<Pkcs7>(
        ciphertext,
    ).ok()
}

/// Bytes or a refusal in terms of the model.
pub open spec fn bytes_or_error(r: Result<Vec<u8>, TokenError>) -> Result<Seq<u8>, TokenError> {
    match r {
        Ok(bytes) => Ok(bytes@),
        Err(err) => Err(err),
    }
}

/// The JSON text of the envelope in a token.
pub fn decode_token(token: &str) -> (r: Result<Vec<u8>, TokenError>)
    ensures
        bytes_or_error(r) == match base64_decoded(token@) {
            Some(bytes) => Ok::<Seq<u8>, TokenError>(bytes),
            None => Err(TokenError::TokenNotBase64),
        },
{
    match decode_base64(token) {
        Some(bytes) => Ok(bytes),
        None => Err(TokenError::TokenNotBase64),
    }
}

/// Why the decoded parts of an envelope cannot be decrypted, if so.
pub open spec fn envelope_fault(iv: Option<Seq<u8>>, value: Option<Seq<u8>>) -> Option<TokenError> {
    match (iv, value) {
        (None, _) => Some(TokenError::IvNotBase64),
        (Some(iv), _) if iv.len() != IV_LEN => Some(TokenError::IvLength { got: iv.len() as usize }),
        (Some(_), None) => Some(TokenError::ValueNotBase64),
        (Some(_), Some(_)) => None,
    }
}

/// Checks the decoded parts of an envelope and gives the vector its fixed length.
pub fn check_envelope(iv: Option<Vec<u8>>, value: Option<Vec<u8>>) -> (r: Result<
    ([u8; IV_LEN], Vec<u8>),
    TokenError,
>)
    ensures
        match envelope_fault(optional_bytes(iv), optional_bytes(value)) {
            Some(fault) => r == Err::<([u8; IV_LEN], Vec<u8>), TokenError>(fault),
            None => r matches Ok((fixed, ciphertext)) && fixed@ == iv->0@ && ciphertext == value->0,
        },
{
    let iv = match iv {
        Some(iv) => iv,
        None => return Err(TokenError::IvNotBase64),
    };
    if iv.len() != IV_LEN {
        return Err(TokenError::IvLength { got: iv.len() });
    }
    let value = match value {
        Some(value) => value,
        None => return Err(TokenError::ValueNotBase64),
    };
    let mut fixed: [u8; IV_LEN] = [0u8; IV_LEN];
    let mut i: usize = 0;
    while i < IV_LEN
        invariant
            i <= IV_LEN,
            iv@.len() == IV_LEN,
            forall|j: int| 0 <= j < i ==> fixed@[j] == iv@[j],
        decreases IV_LEN - i,
    {
        fixed[i] = iv[i];
        i = i + 1;
    }
    assert(fixed@ =~= iv@);
    Ok((fixed, value))
}

/// What the envelope holds under the key.
pub open spec fn envelope_plaintext(envelope: TokenEnvelope, key: Seq<u8>) -> Result<
    Seq<u8>,
    TokenError,
> {
    let iv = base64_decoded(envelope.iv@);
    let value = base64_decoded(envelope.value@);
    match envelope_fault(iv, value) {
        Some(fault) => Err(fault),
        None => match cbc_plaintext(key, iv->0, value->0) {
            Some(plaintext) => Ok(plaintext),
            None => Err(TokenError::Undecryptable),
        },
    }
}

/// The JSON text of the connection in an envelope.
pub fn decrypt_envelope(envelope: &TokenEnvelope, key: &[u8; AES_KEY_LEN]) -> (r: Result<
    Vec<u8>,
    TokenError,
>)
    ensures
        bytes_or_error(r) == envelope_plaintext(*envelope, key@),
        match (base64_decoded(envelope.iv@), base64_decoded(envelope.value@)) {
            (Some(iv), Some(value)) => iv.len() == 16 ==> match cbc_plaintext(key@, iv, value) {
                Some(plaintext) => r matches Ok(decrypted) && decrypted@ == plaintext,
                None => r == Err::<Vec<u8>, TokenError>(TokenError::Undecryptable),
            },
            _ => r is Err,
        },
        base64_decoded(envelope.value@) matches Some(value) && value.len() % 16 != 0 ==> r is Err,
{
    let iv = decode_base64(envelope.iv.as_str());
    let value = decode_base64(envelope.value.as_str());
    match check_envelope(iv, value) {
        Err(err) => Err(err),
        Ok((iv, ciphertext)) => match decrypt_cbc(key, &iv, ciphertext.as_slice()) {
            Some(plaintext) => Ok(plaintext),
            None => Err(TokenError::Undecryptable),
        },
    }
}

} // verus!
