//! The library's error type.
//!
//! Datagram decode failures are silent drops, so they are reported as a
//! [`crate::datagram::DropReason`] and not here. Only the control stream and the
//! keymap tables surface errors.

use vstd::prelude::*;

verus! {

/// Errors produced by the control-stream and keymap paths.
#[derive(Debug)]
pub enum Error {
    /// A control frame violated the framing or envelope rules.
    ProtocolViolation,
    /// A keymap row could not be parsed.
    Keymap(String),
}

/// Convenience alias for fallible control and keymap operations.
pub type Result<T> = std::result::Result<T, Error>;

/// What `Error::message` returns.
pub open spec fn message_of(e: Error) -> Seq<char> {
    match e {
        Error::ProtocolViolation => "protocol violation"@,
        Error::Keymap(detail) => "keymap parse error: "@ + detail@,
    }
}

impl Error {
    /// The error in words.
    pub fn message(&self) -> (r: String)
        ensures
            r@ == message_of(*self),
    {
        match self {
            Error::ProtocolViolation => "protocol violation".to_string(),
            Error::Keymap(detail) => {
                let mut text: String = "keymap parse error: ".to_string();
                text.append(detail.as_str());
                text
            },
        }
    }
}

} // verus!
