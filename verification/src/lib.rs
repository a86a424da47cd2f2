//! Loom: a verified core for low-latency display streaming.
//!
//! The wire protocol (datagram framing, canonical CBOR control frames, client
//! reassembly, clock synchronisation, keymaps), the host session state machine,
//! the media loop's decisions, capture conversions and encoder bookkeeping, with
//! their contracts proved by Verus. I/O, threads, codecs and the network live in
//! the application around this library.
#![allow(unused_imports)]

use vstd::prelude::*;

pub mod annexb;
pub mod be;
pub mod capture;
pub mod cases;
pub mod cbor;
pub mod clocksync;
pub mod conn;
pub mod constraints;
pub mod control;
pub mod convert;
pub mod datagram;
pub mod encode;
pub mod error;
pub mod errors;
pub mod frame;
pub mod ieee;
pub mod keymap;
pub mod laws;
pub mod media;
pub mod nv12;
pub mod order;
pub mod reassembly;
pub mod session;
pub mod streams;
pub mod testpattern;
pub mod text;
pub mod vectors;

verus! {

/// The protocol version this crate speaks (HELLO key 0).
pub const PROTOCOL_VERSION: u64 = 1;

} // verus!
