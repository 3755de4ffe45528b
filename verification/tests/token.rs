use aes::cipher::{block_padding::Pkcs7, BlockEncryptMut, KeyIvInit};
use aes::Aes256;
use base64::engine::general_purpose::STANDARD as B64;
use base64::Engine as _;
use flowcase_guac::token::{
    check_envelope, decode_token, decrypt_envelope, ConnectionKind, TokenEnvelope, TokenError,
};

const KEY: [u8; 32] = *b"this-is-a-32-byte-test-key!12345";
const IV: [u8; 16] = *b"AAAAAAAAAAAAAAAA";

fn envelope(plaintext: &[u8]) -> TokenEnvelope {
    let ciphertext = cbc::Encryptor::<Aes256>::new(&KEY.into(), &IV.into())
        .encrypt_padded_vec_mut::<Pkcs7>(plaintext);
    TokenEnvelope {
        iv: B64.encode(IV),
        value: B64.encode(&ciphertext),
    }
}

#[test]
fn token_is_unwrapped_to_its_envelope() {
    let inner = b"{\"iv\":\"aXY=\",\"value\":\"djE=\"}";
    assert_eq!(decode_token(&B64.encode(inner)).unwrap(), inner);
    assert!(matches!(decode_token("not base64!"), Err(TokenError::TokenNotBase64)));
}

#[test]
fn envelope_is_decrypted_under_its_key() {
    let plaintext = b"{\"connection\":{\"type\":\"vnc\"}}";
    let envelope = envelope(plaintext);
    assert_eq!(decrypt_envelope(&envelope, &KEY).unwrap(), plaintext);
}

#[test]
fn foreign_ciphertext_is_refused() {
    let mut odd = envelope(b"x");
    odd.value = B64.encode([0u8; 15]);
    assert!(matches!(decrypt_envelope(&odd, &KEY), Err(TokenError::Undecryptable)));
    odd.value = String::new();
    assert!(matches!(decrypt_envelope(&odd, &KEY), Err(TokenError::Undecryptable)));
}

#[test]
fn envelope_parts_are_checked() {
    let bad = |iv: &str, value: &str| {
        let envelope = TokenEnvelope {
            iv: iv.to_string(),
            value: value.to_string(),
        };
        decrypt_envelope(&envelope, &KEY).unwrap_err()
    };
    assert_eq!(bad("%", "AAAA"), TokenError::IvNotBase64);
    assert_eq!(bad("AAAA", "AAAA"), TokenError::IvLength { got: 3 });
    assert_eq!(bad(&B64.encode(IV), "%"), TokenError::ValueNotBase64);
}

#[test]
fn checked_vector_has_its_fixed_length() {
    let (iv, value) = check_envelope(Some(IV.to_vec()), Some(vec![1, 2])).unwrap();
    assert_eq!(iv, IV);
    assert_eq!(value, vec![1, 2]);
    assert_eq!(check_envelope(None, None).unwrap_err(), TokenError::IvNotBase64);
    assert_eq!(
        check_envelope(Some(vec![0; 17]), None).unwrap_err(),
        TokenError::IvLength { got: 17 }
    );
    assert_eq!(
        check_envelope(Some(vec![0; 16]), None).unwrap_err(),
        TokenError::ValueNotBase64
    );
}

#[test]
fn protocol_names_are_read_back() {
    assert_eq!(ConnectionKind::Vnc.protocol_name(), "vnc");
    assert_eq!(ConnectionKind::from_name("vnc"), Some(ConnectionKind::Vnc));
    assert_eq!(ConnectionKind::from_name("VNC"), None);
}
