use flowcase_guac::cli::{Cli, AES_KEY_LEN};

#[test]
fn key_bytes_returns_32() {
    let cli = Cli {
        key: "0123456789abcdef0123456789abcdef".to_string(),
    };
    let bytes = cli.key_bytes().expect("32-byte key fits");
    assert_eq!(bytes.len(), 32);
    assert_eq!(&bytes[..], cli.key.as_bytes());
    assert_eq!(AES_KEY_LEN, 32);
}

#[test]
fn short_key_rejected() {
    let cli = Cli {
        key: "tooshort".to_string(),
    };
    let err = cli.key_bytes().unwrap_err();
    assert_eq!(err.got, 8);
    assert_eq!(err.expected, 32);
    assert_eq!(err.message(), "AES key must be 32 bytes, got 8");
}

#[test]
fn key_length_is_counted_in_bytes() {
    let cli = Cli { key: "é".repeat(16) };
    assert!(cli.key_bytes().is_ok());
    let cli = Cli { key: "é".repeat(32) };
    assert_eq!(cli.key_bytes().unwrap_err().got, 64);
}

#[test]
fn command_line_can_be_cloned() {
    let cli = Cli { key: "k".to_string() };
    assert_eq!(cli.clone().key, cli.key);
}
