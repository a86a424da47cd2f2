//! What the operations are for.
//!
//! Each law relates what goes in to what comes out, and is stated apart from the definitions
//! that the contracts use.

pub mod capture;
pub mod cbor;
pub mod clock;
pub mod conn;
pub mod control;
pub mod datagram;
pub mod encoding;
pub mod floats;
pub mod media;
pub mod messages;
pub mod pattern;
pub mod pixels;
pub mod reassembly;
pub mod session;
pub mod streams;
pub mod text;
pub mod vectors;
