//! Protocol error codes.
//!
//! The integers are used both as the `code` of an ERROR message body and as QUIC
//! application close codes.

use vstd::prelude::*;

verus! {

/// Clean close (after BYE).
pub const NONE: u64 = 0x00;

/// HELLO `protocol_version` not acceptable.
pub const VERSION_UNSUPPORTED: u64 = 0x01;

/// Host already has an active session.
pub const BUSY: u64 = 0x02;

/// Client offered no codec the host can encode.
pub const NO_COMMON_CODEC: u64 = 0x03;

/// Framing or state-machine violation.
pub const PROTOCOL_VIOLATION: u64 = 0x04;

/// Peer lacks QUIC datagram support.
pub const DATAGRAM_UNSUPPORTED: u64 = 0x05;

/// Certificate not pinned, or pairing required.
pub const AUTH_FAILED: u64 = 0x06;

/// Unrecoverable local error.
pub const INTERNAL: u64 = 0x07;

/// The name that stands for `code`; every unregistered code reads as INTERNAL.
pub open spec fn name_of(code: u64) -> Seq<char> {
    if code == NONE {
        "NONE"@
    } else if code == VERSION_UNSUPPORTED {
        "VERSION_UNSUPPORTED"@
    } else if code == BUSY {
        "BUSY"@
    } else if code == NO_COMMON_CODEC {
        "NO_COMMON_CODEC"@
    } else if code == PROTOCOL_VIOLATION {
        "PROTOCOL_VIOLATION"@
    } else if code == DATAGRAM_UNSUPPORTED {
        "DATAGRAM_UNSUPPORTED"@
    } else if code == AUTH_FAILED {
        "AUTH_FAILED"@
    } else {
        "INTERNAL"@
    }
}

/// The stable name for a code, for logs and user interfaces. Unknown codes read
/// as `INTERNAL`.
pub fn name(code: u64) -> (r: &'static str)
    ensures
        r@ == name_of(code),
{
    match code {
        NONE => "NONE",
        VERSION_UNSUPPORTED => "VERSION_UNSUPPORTED",
        BUSY => "BUSY",
        NO_COMMON_CODEC => "NO_COMMON_CODEC",
        PROTOCOL_VIOLATION => "PROTOCOL_VIOLATION",
        DATAGRAM_UNSUPPORTED => "DATAGRAM_UNSUPPORTED",
        AUTH_FAILED => "AUTH_FAILED",
        _ => "INTERNAL",
    }
}

} // verus!
