//! The command line's key.

use crate::text;
use vstd::prelude::*;
use vstd::utf8::*;

verus! {

/// Length of the AES-256-CBC key used to encrypt connection tokens.
pub const AES_KEY_LEN: usize = 32;

/// What the command line gives.
#[derive(Debug, Clone)]
pub struct Cli {
    /// 32-byte AES-256-CBC key, the same as the orchestrator's.
    pub key: String,
}

/// The key does not have the right length.
#[derive(Debug)]
pub struct KeyLenError {
    pub got: usize,
    pub expected: usize,
}

impl Cli {
    /// Coerces the key to a fixed 32-byte array, if it has exactly the right length
    /// in bytes.
    pub fn key_bytes(&self) -> (r: Result<[u8; AES_KEY_LEN], KeyLenError>)
        ensures
            r is Ok <==> encode_utf8(self.key@).len() == AES_KEY_LEN,
            match r {
                Ok(bytes) => bytes@ == encode_utf8(self.key@),
                Err(err) => {
                    &&& err.got == encode_utf8(self.key@).len()
                    &&& err.expected == AES_KEY_LEN
                },
            },
    {
        let bytes = self.key.as_str().as_bytes();
        if bytes.len() != AES_KEY_LEN {
            return Err(KeyLenError { got: bytes.len(), expected: AES_KEY_LEN });
        }
        let mut out: [u8; AES_KEY_LEN] = [0u8; AES_KEY_LEN];
        let mut i: usize = 0;
        while i < AES_KEY_LEN
            invariant
                i <= AES_KEY_LEN,
                bytes@.len() == AES_KEY_LEN,
                forall|j: int| 0 <= j < i ==> out@[j] == bytes@[j],
            decreases AES_KEY_LEN - i,
        {
            out[i] = bytes[i];
            i = i + 1;
        }
        assert(out@ =~= bytes@);
        Ok(out)
    }
}

impl KeyLenError {
    /// The message of the error.
    pub fn message(&self) -> (r: String)
        ensures
            r@ == "AES key must be "@ + text::decimal(self.expected as nat) + " bytes, got "@
                + text::decimal(self.got as nat),
    {
        let mut out = "AES key must be ".to_owned();
        out.append(text::decimal_string(self.expected as u64).as_str());
        out.append(" bytes, got ");
        out.append(text::decimal_string(self.got as u64).as_str());
        out
    }
}

/// A key of the right length is kept byte for byte, so that it can be read back and no
/// two keys become one; any other is refused with its length.
pub proof fn law_key_bytes(cli: &Cli, r: Result<[u8; AES_KEY_LEN], KeyLenError>)
    requires
        call_ensures(Cli::key_bytes, (cli,), r),
    ensures
        match r {
            Ok(bytes) => decode_utf8(bytes@) == cli.key@ && bytes@.len() == 32,
            Err(err) => err.got != 32 && err.expected == 32 && err.got == encode_utf8(
                cli.key@,
            ).len(),
        },
        encode_utf8(cli.key@).len() == 32 ==> r is Ok,
{
    encode_utf8_decode_utf8(cli.key@);
}

/// The message tells both lengths.
pub proof fn law_key_message(
    err: &KeyLenError,
    expected: u64,
    got: u64,
    expected_digits: String,
    got_digits: String,
    r: String,
)
    requires
        expected == err.expected,
        got == err.got,
        call_ensures(text::decimal_string, (expected,), expected_digits),
        call_ensures(text::decimal_string, (got,), got_digits),
        call_ensures(KeyLenError::message, (err,), r),
    ensures
        r@ == "AES key must be "@ + expected_digits@ + " bytes, got "@ + got_digits@,
{
}

} // verus!
