//! Where the program listens and where it finds its peers.

use vstd::prelude::*;

verus! {

/// The address on which the bridge listens.
pub const LISTEN_ADDR: &'static str = "0.0.0.0:8080";

/// The address of a co-located guacd.
pub const DEFAULT_GUACD_ADDR: &'static str = "127.0.0.1:4822";

/// The directory of the static files, next to the working directory.
pub const DEFAULT_PUBLIC_DIR: &'static str = "public";

/// What an environment variable holds.
#[derive(Debug)]
pub enum EnvVar {
    /// It is not set.
    Unset,
    /// It is set to this text.
    Text(String),
    /// It is set, but not to Unicode text.
    NotUnicode,
}

/// A setting that cannot be used.
#[derive(Debug, PartialEq, Eq)]
pub enum SettingsError {
    /// The configured address of guacd is none.
    GuacdAddr,
}

impl SettingsError {
    /// The message of the error.
    pub fn message(&self) -> (r: String)
        ensures
            r@ == match *self {
                SettingsError::GuacdAddr => "FLOWCASE_GUACD_ADDR must be an addr:port"@,
            },
    {
        match self {
            SettingsError::GuacdAddr => "FLOWCASE_GUACD_ADDR must be an addr:port".to_owned(),
        }
    }
}

/// The address of guacd: the configured one, or that of a co-located guacd where
/// none is configured. One that is configured but is no text is an error.
pub fn guacd_addr(configured: EnvVar) -> (r: Result<String, SettingsError>)
    ensures
        match configured {
            EnvVar::Unset => r matches Ok(addr) && addr@ == "127.0.0.1:4822"@,
            EnvVar::Text(text) => r matches Ok(addr) && addr@ == text@,
            EnvVar::NotUnicode => r matches Err(err) && err is GuacdAddr,
        },
{
    match configured {
        EnvVar::Unset => Ok(DEFAULT_GUACD_ADDR.to_owned()),
        EnvVar::Text(text) => Ok(text),
        EnvVar::NotUnicode => Err(SettingsError::GuacdAddr),
    }
}

/// What is configured is used as it is, even if it is empty; the default is for what is
/// not configured, and for nothing else.
pub proof fn law_guacd_addr(
    configured: EnvVar,
    err: &SettingsError,
    message: String,
    r: Result<String, SettingsError>,
)
    requires
        call_ensures(guacd_addr, (configured,), r),
        call_ensures(SettingsError::message, (err,), message),
    ensures
        configured matches EnvVar::Text(text) ==> (r matches Ok(addr) && addr@ == text@),
        configured is Unset ==> (r matches Ok(addr) && addr@ == "127.0.0.1:4822"@),
        configured is NotUnicode <==> r is Err,
        message@ == "FLOWCASE_GUACD_ADDR must be an addr:port"@,
{
}

} // verus!
