//! The errors of the library.
use vstd::prelude::*;

verus! {

/// The ciphertext is not authentic: a fragment failed to open.
#[derive(Clone, Copy, Debug, PartialEq, Eq, Structural)]
pub struct NotAuthentic;

impl NotAuthentic {
    pub fn description() -> (r: &'static str)
        ensures
            r@ == "data is not authentic"@,
    {
        "data is not authentic"
    }
}

/// A channel ran out of fragment numbers.
#[derive(Clone, Copy, Debug, PartialEq, Eq, Structural)]
pub struct Exceeded;

impl Exceeded {
    pub fn description() -> (r: &'static str)
        ensures
            r@ == "data limit exceeded"@,
    {
        "data limit exceeded"
    }
}

/// A parameter that a channel was built with is not acceptable.
#[derive(Clone, Copy, Debug, PartialEq, Eq, Structural)]
pub enum Invalid {
    Key,
    Nonce,
    BufSize,
}

impl Invalid {
    pub fn description(&self) -> (r: &'static str)
        ensures
            *self == Invalid::Key ==> r@ == "sio::Invalid::Key"@,
            *self == Invalid::Nonce ==> r@ == "sio::Invalid::Nonce"@,
            *self == Invalid::BufSize ==> r@ == "sio::Invalid::BufSize"@,
    {
        match self {
            Invalid::Key => "sio::Invalid::Key",
            Invalid::Nonce => "sio::Invalid::Nonce",
            Invalid::BufSize => "sio::Invalid::BufSize",
        }
    }
}

#[verifier::external_type_specification]
#[verifier::external_body]
pub struct ExIoError(std::io::Error);

/// What a sink operation can fail with.
#[derive(Debug)]
pub enum Error {
    /// A fragment did not open under the channel's key, nonce and
    /// associated data.
    NotAuthentic,
    /// The fragment counter ran out.
    Exceeded,
    /// Sealing refused its input.
    Invalid(Invalid),
    /// The channel failed before, or was closed, and does no more work.
    AfterError,
    /// The downstream sink failed; its error is passed on as it came.
    Io(std::io::Error),
}

} // verus!
