//! The stream-shape constraints, in exactly one place.
//!
//! Both the encoder configuration and what checks the bitstream read these values, so what
//! the encoder was told and what is expected of it cannot drift.

use vstd::prelude::*;
use crate::encode::EncoderConfig;

verus! {

/// Max consecutive B-frames: none.
pub const BFRAMES: u32 = 0;

/// Max reference frames: a single one.
pub const MAX_REF: u32 = 1;

/// Intra period. The largest value gives an infinite GOP: IDRs only at start and on request,
/// never periodically.
pub const KEYINT_MAX: i32 = 0x7fff_ffff;

/// Repeat the parameter sets with every IDR.
pub const REPEAT_HEADERS: bool = true;

/// Scene-cut-triggered I-frames: off.
pub const SCENECUT: bool = false;

/// Build the conforming encoder configuration for the given stream parameters.
pub fn encoder_config(width: u32, height: u32, fps: u32, bitrate_kbps: u32) -> (r: EncoderConfig)
    ensures
        r == (EncoderConfig {
            width,
            height,
            fps_num: fps,
            fps_den: 1,
            bitrate_kbps,
            bframes: BFRAMES,
            max_ref: MAX_REF,
            keyint_max: KEYINT_MAX,
            repeat_headers: REPEAT_HEADERS,
            scenecut: SCENECUT,
        }),
{
    EncoderConfig {
        width,
        height,
        fps_num: fps,
        fps_den: 1,
        bitrate_kbps,
        bframes: BFRAMES,
        max_ref: MAX_REF,
        keyint_max: KEYINT_MAX,
        repeat_headers: REPEAT_HEADERS,
        scenecut: SCENECUT,
    }
}

} // verus!
