//! Encoder configuration, and the decisions around the video encoders.
//!
//! The codecs themselves are driven by the application. What is here is what they are told,
//! and what is made of what they answer.

use vstd::prelude::*;
use vstd::string::StringExecFns;
use crate::annexb::{append, push_nal, start_code, walked};
use crate::frame::{signed32, to_signed32};
use crate::text::{push_signed, signed_decimal};

verus! {

broadcast use vstd::std_specs::vec::group_vec_axioms;

/// Errors from the encoder.
#[derive(Debug)]
pub enum EncodeError {
    /// Parameter allocation or setup failed.
    Param,
    /// The requested preset or tune was rejected.
    Preset(String),
    /// The encoder could not be opened.
    Open,
    /// The software encoder returned a negative status.
    Encode(i32),
    /// The encoder's output is malformed.
    Bitstream(&'static str),
    /// The hardware encoder is not there.
    EncoderUnavailable,
    /// A libav call returned a negative status.
    Av(i32),
    /// A VideoToolbox call failed.
    VideoToolbox(i32),
    /// A VideoToolbox property was rejected.
    VideoToolboxProperty {
        /// The property.
        key: &'static str,
        /// What the call returned.
        status: i32,
    },
}

/// What `EncodeError::message` returns.
pub open spec fn message_of(e: EncodeError) -> Seq<char> {
    match e {
        EncodeError::Param => "x265 parameter allocation/setup failed"@,
        EncodeError::Preset(name) => "x265 preset '"@ + name@ + "' rejected"@,
        EncodeError::Open => "x265_encoder_open failed"@,
        EncodeError::Encode(status) => "x265_encoder_encode returned "@ + signed_decimal(
            status as int,
        ),
        EncodeError::Bitstream(what) => "malformed bitstream: "@ + what@,
        EncodeError::EncoderUnavailable => "hevc_nvenc encoder not available"@,
        EncodeError::Av(status) => "libav call returned "@ + signed_decimal(status as int),
        EncodeError::VideoToolbox(status) => "VideoToolbox call returned "@ + signed_decimal(
            status as int,
        ),
        EncodeError::VideoToolboxProperty { key, status } => "VideoToolbox property "@ + key@
            + " returned "@ + signed_decimal(status as int),
    }
}

impl EncodeError {
    /// The error in words.
    pub fn message(&self) -> (r: String)
        ensures
            r@ == message_of(*self),
    {
        match self {
            EncodeError::Param => "x265 parameter allocation/setup failed".to_string(),
            EncodeError::Preset(name) => {
                let mut out: String = "x265 preset '".to_string();
                out.append(name.as_str());
                out.append("' rejected");
                out
            },
            EncodeError::Open => "x265_encoder_open failed".to_string(),
            EncodeError::Encode(status) => {
                let mut out: String = "x265_encoder_encode returned ".to_string();
                push_signed(&mut out, *status as i128);
                out
            },
            EncodeError::Bitstream(what) => {
                let mut out: String = "malformed bitstream: ".to_string();
                out.append(what);
                out
            },
            EncodeError::EncoderUnavailable => "hevc_nvenc encoder not available".to_string(),
            EncodeError::Av(status) => {
                let mut out: String = "libav call returned ".to_string();
                push_signed(&mut out, *status as i128);
                out
            },
            EncodeError::VideoToolbox(status) => {
                let mut out: String = "VideoToolbox call returned ".to_string();
                push_signed(&mut out, *status as i128);
                out
            },
            EncodeError::VideoToolboxProperty { key, status } => {
                let mut out: String = "VideoToolbox property ".to_string();
                out.append(key);
                out.append(" returned ");
                push_signed(&mut out, *status as i128);
                out
            },
        }
    }
}

/// Encoder configuration. The stream-shape knobs are explicit, so the policy lives with the
/// caller.
#[derive(Clone, Copy, Debug, PartialEq, Eq)]
pub struct EncoderConfig {
    /// Frame width in pixels.
    pub width: u32,
    /// Frame height in pixels.
    pub height: u32,
    /// Frame-rate numerator (for example 72).
    pub fps_num: u32,
    /// Frame-rate denominator (for example 1).
    pub fps_den: u32,
    /// Target bitrate, kbit/s.
    pub bitrate_kbps: u32,
    /// Max consecutive B-frames.
    pub bframes: u32,
    /// Max reference frames.
    pub max_ref: u32,
    /// Max intra period; a huge value gives an infinite GOP.
    pub keyint_max: i32,
    /// Emit the parameter sets with every IDR.
    pub repeat_headers: bool,
    /// Allow scene-cut-triggered I-frames.
    pub scenecut: bool,
}

/// One encoded HEVC access unit (Annex-B, start codes included).
#[derive(Debug)]
pub struct AccessUnit {
    /// True if this unit is an IDR (carries the parameter sets and resets the chain).
    pub keyframe: bool,
    /// The Annex-B byte stream for exactly one frame.
    pub data: Vec<u8>,
}

/// What an access unit holds.
pub struct Unit {
    pub keyframe: bool,
    pub data: Seq<u8>,
}

impl View for AccessUnit {
    type V = Unit;

    open spec fn view(&self) -> Unit {
        Unit { keyframe: self.keyframe, data: self.data@ }
    }
}

impl Clone for AccessUnit {
    fn clone(&self) -> (r: Self)
        ensures
            r@ == self@,
    {
        let data: Vec<u8> = self.data.clone();
        assert(data@ =~= self.data@);
        AccessUnit { keyframe: self.keyframe, data }
    }
}

/// The lesser bound of a rate term.
pub open spec fn at_least_one(v: u32) -> u32 {
    if v == 0 {
        1
    } else {
        v
    }
}

// --- software encoder ---

/// What the software encoder is told, beyond its low-latency preset: no output of its own,
/// I420 input, closed GOPs, an Annex-B stream and average-bitrate rate control are fixed.
#[derive(Clone, Copy, Debug, PartialEq, Eq)]
pub struct X265Settings {
    pub source_width: i32,
    pub source_height: i32,
    pub fps_num: u32,
    pub fps_denom: u32,
    /// Consecutive B-frames.
    pub bframes: i32,
    pub max_num_references: i32,
    pub keyframe_max: i32,
    pub keyframe_min: i32,
    pub scenecut_threshold: i32,
    pub repeat_headers: i32,
    /// Target bitrate, kbit/s.
    pub bitrate: i32,
    pub vbv_max_bitrate: i32,
    /// About one frame's worth of kbit.
    pub vbv_buffer_size: i32,
}

/// The kbit of one frame are in range: the product that they are taken from fits 32 bits, and
/// so does its quotient.
pub open spec fn rate_in_range(cfg: EncoderConfig) -> bool {
    let product = signed32(cfg.bitrate_kbps as int) * signed32(at_least_one(cfg.fps_den) as int);
    let by = signed32(at_least_one(cfg.fps_num) as int);
    i32::MIN <= product <= i32::MAX && !(product == i32::MIN && by == -1)
}

/// Whether the kbit of one frame are in range.
pub fn rate_fits(cfg: &EncoderConfig) -> (r: bool)
    ensures
        r == rate_in_range(*cfg),
{
    let den: i32 = to_signed32(
        if cfg.fps_den == 0 {
            1
        } else {
            cfg.fps_den
        },
    );
    let num: i32 = to_signed32(
        if cfg.fps_num == 0 {
            1
        } else {
            cfg.fps_num
        },
    );
    match to_signed32(cfg.bitrate_kbps).checked_mul(den) {
        Some(product) => !(product == i32::MIN && num == -1),
        None => false,
    }
}

/// The kbit of one frame, rounded toward zero, and at least one.
pub open spec fn frame_kbit(cfg: EncoderConfig) -> int {
    let product = signed32(cfg.bitrate_kbps as int) * signed32(at_least_one(cfg.fps_den) as int);
    let by = signed32(at_least_one(cfg.fps_num) as int);
    let quotient = if product > 0 && by > 0 {
        product / by
    } else if product < 0 && by < 0 {
        (-product) / (-by)
    } else {
        0
    };
    if quotient < 1 {
        1
    } else {
        quotient
    }
}

/// The settings that a configuration asks for. Sizes and counts are carried in 32 bits.
pub open spec fn x265_settings_of(cfg: EncoderConfig) -> X265Settings {
    X265Settings {
        source_width: signed32(cfg.width as int) as i32,
        source_height: signed32(cfg.height as int) as i32,
        fps_num: cfg.fps_num,
        fps_denom: cfg.fps_den,
        bframes: signed32(cfg.bframes as int) as i32,
        max_num_references: signed32(cfg.max_ref as int) as i32,
        keyframe_max: cfg.keyint_max,
        keyframe_min: cfg.keyint_max,
        scenecut_threshold: if cfg.scenecut {
            40
        } else {
            0
        },
        repeat_headers: if cfg.repeat_headers {
            1
        } else {
            0
        },
        bitrate: signed32(cfg.bitrate_kbps as int) as i32,
        vbv_max_bitrate: signed32(cfg.bitrate_kbps as int) as i32,
        vbv_buffer_size: frame_kbit(cfg) as i32,
    }
}

/// The settings of the software encoder.
pub fn x265_settings(cfg: EncoderConfig) -> (r: X265Settings)
    requires
        rate_in_range(cfg),
    ensures
        r == x265_settings_of(cfg),
{
    let bitrate: i32 = to_signed32(cfg.bitrate_kbps);
    let den: i32 = to_signed32(
        if cfg.fps_den == 0 {
            1
        } else {
            cfg.fps_den
        },
    );
    let num: i32 = to_signed32(
        if cfg.fps_num == 0 {
            1
        } else {
            cfg.fps_num
        },
    );
    let product: i32 = bitrate * den;
    let vbv: i32 = if product > 0 && num > 0 {
        let q: u32 = product as u32 / num as u32;
        proof {
            lemma_quotient_bound(product as int, num as int);
        }
        if q < 1 {
            1
        } else {
            q as i32
        }
    } else if product < 0 && num < 0 {
        let q: u64 = (-(product as i64)) as u64 / (-(num as i64)) as u64;
        proof {
            lemma_quotient_bound(-(product as int), -(num as int));
            if num < -1 {
                lemma_quotient_half(-(product as int), -(num as int));
            }
        }
        if q < 1 {
            1
        } else {
            q as i32
        }
    } else {
        1
    };
    X265Settings {
        source_width: to_signed32(cfg.width),
        source_height: to_signed32(cfg.height),
        fps_num: cfg.fps_num,
        fps_denom: cfg.fps_den,
        bframes: to_signed32(cfg.bframes),
        max_num_references: to_signed32(cfg.max_ref),
        keyframe_max: cfg.keyint_max,
        keyframe_min: cfg.keyint_max,
        scenecut_threshold: if cfg.scenecut {
            40
        } else {
            0
        },
        repeat_headers: if cfg.repeat_headers {
            1
        } else {
            0
        },
        bitrate,
        vbv_max_bitrate: bitrate,
        vbv_buffer_size: vbv,
    }
}

proof fn lemma_quotient_bound(a: int, b: int)
    requires
        0 < a,
        0 < b,
    ensures
        0 <= a / b <= a,
{
    assert(0 <= a / b <= a) by (nonlinear_arith)
        requires
            0 < a,
            0 < b,
    ;
}

proof fn lemma_quotient_half(a: int, b: int)
    requires
        0 < a,
        2 <= b,
    ensures
        2 * (a / b) <= a,
{
    assert(2 * (a / b) <= a) by (nonlinear_arith)
        requires
            0 < a,
            2 <= b,
    ;
}

/// How a frame is to be coded.
#[derive(Clone, Copy, Debug, PartialEq, Eq, Structural)]
pub enum SliceType {
    /// An IDR: decodable by itself.
    Idr,
    /// Predicted from the frame before it.
    P,
}

/// The chain of frames: whether it has been started.
#[derive(Clone, Copy, Debug, PartialEq, Eq)]
pub struct FrameChain {
    pub started: bool,
}

/// One more frame of a chain: the chain with it, and how the frame is coded.
pub open spec fn chained(c: FrameChain, force_idr: bool) -> (FrameChain, SliceType) {
    (
        FrameChain { started: true },
        if force_idr || !c.started {
            SliceType::Idr
        } else {
            SliceType::P
        },
    )
}

impl FrameChain {
    /// A chain without frames.
    pub fn new() -> (r: Self)
        ensures
            !r.started,
    {
        FrameChain { started: false }
    }

    /// How the next frame is coded: the first frame and every forced one as an IDR, all others
    /// predicted.
    pub fn next(&mut self, force_idr: bool) -> (r: SliceType)
        ensures
            r == if force_idr || !old(self).started {
                SliceType::Idr
            } else {
                SliceType::P
            },
            final(self).started,
            (*final(self), r) == chained(*old(self), force_idr),
    {
        let slice: SliceType = if force_idr || !self.started {
            SliceType::Idr
        } else {
            SliceType::P
        };
        self.started = true;
        slice
    }
}

/// One NAL unit as the software encoder hands it out, start code included.
#[derive(Debug)]
pub struct NalUnit {
    /// The NAL unit type.
    pub kind: u32,
    /// The bytes.
    pub payload: Vec<u8>,
}

/// The type is that of an IDR slice.
pub open spec fn idr_kind(kind: u32) -> bool {
    kind == crate::annexb::NAL_IDR_W_RADL || kind == crate::annexb::NAL_IDR_N_LP
}

/// The bytes of a run of NAL units, one after the other.
pub open spec fn payloads(s: Seq<NalUnit>) -> Seq<u8>
    decreases s.len(),
{
    if s.len() == 0 {
        Seq::empty()
    } else {
        payloads(s.drop_last()) + s.last().payload@
    }
}

/// The access unit that a run of NAL units makes up: a keyframe exactly if one of them is an
/// IDR slice.
pub open spec fn collected(s: Seq<NalUnit>) -> Unit {
    Unit {
        keyframe: exists|i: int| 0 <= i < s.len() && idr_kind((#[trigger] s[i]).kind),
        data: payloads(s),
    }
}

/// What one call of the software encoder amounts to.
pub open spec fn call_returned(ret: i32, nals: Seq<NalUnit>) -> core::result::Result<
    Option<Unit>,
    EncodeError,
> {
    if ret < 0 {
        Err(EncodeError::Encode(ret))
    } else if ret == 0 || nals.len() == 0 {
        Ok(None)
    } else {
        Ok(Some(collected(nals)))
    }
}

/// What becomes of one call of the software encoder: a negative status is an error, nothing
/// comes out while it warms up, and otherwise the NAL units make up an access unit.
pub fn x265_outcome(ret: i32, nals: &[NalUnit]) -> (r: core::result::Result<
    Option<AccessUnit>,
    EncodeError,
>)
    ensures
        ret < 0 ==> r == Err::<Option<AccessUnit>, EncodeError>(EncodeError::Encode(ret)),
        ret >= 0 && (ret == 0 || nals@.len() == 0) ==> r == Ok::<Option<AccessUnit>, EncodeError>(
            None,
        ),
        ret > 0 && nals@.len() > 0 ==> r is Ok && r->Ok_0 is Some && r->Ok_0->0@ == collected(
            nals@,
        ),
        match call_returned(ret, nals@) {
            Err(e) => r == Err::<Option<AccessUnit>, EncodeError>(e),
            Ok(None) => r == Ok::<Option<AccessUnit>, EncodeError>(None),
            Ok(Some(u)) => r is Ok && r->Ok_0 is Some && r->Ok_0->0@ == u,
        },
{
    if ret < 0 {
        return Err(EncodeError::Encode(ret));
    }
    if ret == 0 || nals.len() == 0 {
        return Ok(None);
    }
    let mut data: Vec<u8> = Vec::new();
    let mut keyframe: bool = false;
    let mut i: usize = 0;
    assert(nals@.take(0) =~= Seq::empty());
    while i < nals.len()
        invariant
            i <= nals@.len(),
            data@ == payloads(nals@.take(i as int)),
            keyframe == exists|k: int| 0 <= k < i && idr_kind((#[trigger] nals@[k]).kind),
        decreases nals@.len() - i,
    {
        let kind: u32 = nals[i].kind;
        if kind == 19 || kind == 20 {
            assert(idr_kind(nals@[i as int].kind));
            keyframe = true;
        }
        data.extend_from_slice(nals[i].payload.as_slice());
        proof {
            assert(nals@.take(i + 1).drop_last() =~= nals@.take(i as int));
            assert(nals@.take(i + 1).last() == nals@[i as int]);
            assert(data@ =~= payloads(nals@.take(i + 1)));
        }
        i += 1;
    }
    assert(nals@.take(i as int) =~= nals@);
    Ok(Some(AccessUnit { keyframe, data }))
}

// --- libav hardware encoder ---

/// `AVERROR(EAGAIN)`: the frame was accepted, but there is no packet yet.
pub const AVERROR_EAGAIN: i32 = -11;

/// What the libav encoder is told, beyond planar 4:2:0 input. The time base is the inverse of
/// the frame rate.
#[derive(Clone, Copy, Debug, PartialEq, Eq)]
pub struct NvencSettings {
    pub width: i32,
    pub height: i32,
    pub fps_num: i32,
    pub fps_den: i32,
    pub gop_size: i32,
    /// Consecutive B-frames.
    pub max_b_frames: i32,
    pub refs: i32,
    /// Average, maximum and minimum rate in bit/s.
    pub bit_rate: i64,
    /// One frame's worth of bits.
    pub rc_buffer_size: i32,
}

/// A private option of the libav encoder.
#[derive(Clone, Copy, Debug, PartialEq, Eq)]
pub enum OptionValue {
    Text(&'static str),
    Number(i64),
}

/// The bits of one frame are in range.
pub open spec fn frame_bits_in_range(cfg: EncoderConfig) -> bool {
    cfg.bitrate_kbps * 1000 * at_least_one(cfg.fps_den) <= i64::MAX
}

/// Whether the bits of one frame are in range.
pub fn frame_bits_fit(cfg: &EncoderConfig) -> (r: bool)
    ensures
        r == frame_bits_in_range(*cfg),
{
    let den: u32 = if cfg.fps_den == 0 {
        1
    } else {
        cfg.fps_den
    };
    let bits: u64 = cfg.bitrate_kbps as u64 * 1000;
    match bits.checked_mul(den as u64) {
        Some(product) => product <= 0x7fff_ffff_ffff_ffff,
        None => false,
    }
}

/// The settings that a configuration asks for.
pub open spec fn nvenc_settings_of(cfg: EncoderConfig) -> NvencSettings {
    let bits = cfg.bitrate_kbps * 1000 * at_least_one(cfg.fps_den) / at_least_one(
        cfg.fps_num,
    ) as int;
    NvencSettings {
        width: signed32(cfg.width as int) as i32,
        height: signed32(cfg.height as int) as i32,
        fps_num: signed32(cfg.fps_num as int) as i32,
        fps_den: signed32(cfg.fps_den as int) as i32,
        gop_size: cfg.keyint_max,
        max_b_frames: signed32(cfg.bframes as int) as i32,
        refs: signed32(cfg.max_ref as int) as i32,
        bit_rate: (cfg.bitrate_kbps * 1000) as i64,
        rc_buffer_size: signed32(bits % 0x1_0000_0000) as i32,
    }
}

/// The settings of the libav encoder.
pub fn nvenc_settings(cfg: EncoderConfig) -> (r: NvencSettings)
    requires
        frame_bits_in_range(cfg),
    ensures
        r == nvenc_settings_of(cfg),
{
    let bit_rate: u64 = cfg.bitrate_kbps as u64 * 1000;
    let den: u64 = if cfg.fps_den == 0 {
        1
    } else {
        cfg.fps_den as u64
    };
    let num: u64 = if cfg.fps_num == 0 {
        1
    } else {
        cfg.fps_num as u64
    };
    assert(0 <= bit_rate * den) by (nonlinear_arith);
    let per_frame: u64 = bit_rate * den / num;
    NvencSettings {
        width: to_signed32(cfg.width),
        height: to_signed32(cfg.height),
        fps_num: to_signed32(cfg.fps_num),
        fps_den: to_signed32(cfg.fps_den),
        gop_size: cfg.keyint_max,
        max_b_frames: to_signed32(cfg.bframes),
        refs: to_signed32(cfg.max_ref),
        bit_rate: bit_rate as i64,
        rc_buffer_size: to_signed32((per_frame % 0x1_0000_0000) as u32),
    }
}

/// The private options, in the order in which they are set: low latency, constant bitrate,
/// HEVC Main, a forced I-frame is an IDR, and every frame comes out at once.
pub fn nvenc_options() -> (r: [(&'static str, OptionValue); 6])
    ensures
        r@ == seq![
            ("preset", OptionValue::Text("p4")),
            ("tune", OptionValue::Text("ull")),
            ("rc", OptionValue::Text("cbr")),
            ("profile", OptionValue::Text("main")),
            ("forced-idr", OptionValue::Number(1)),
            ("delay", OptionValue::Number(0)),
        ],
{
    let all: [(&'static str, OptionValue); 6] = [
        ("preset", OptionValue::Text("p4")),
        ("tune", OptionValue::Text("ull")),
        ("rc", OptionValue::Text("cbr")),
        ("profile", OptionValue::Text("main")),
        ("forced-idr", OptionValue::Number(1)),
        ("delay", OptionValue::Number(0)),
    ];
    assert(all@ =~= seq![
        ("preset", OptionValue::Text("p4")),
        ("tune", OptionValue::Text("ull")),
        ("rc", OptionValue::Text("cbr")),
        ("profile", OptionValue::Text("main")),
        ("forced-idr", OptionValue::Number(1)),
        ("delay", OptionValue::Number(0)),
    ]);
    all
}

/// A libav status: negative is an error.
pub fn av_status(ret: i32) -> (r: core::result::Result<(), EncodeError>)
    ensures
        r == if ret < 0 {
            Err::<(), EncodeError>(EncodeError::Av(ret))
        } else {
            Ok(())
        },
{
    if ret < 0 {
        Err(EncodeError::Av(ret))
    } else {
        Ok(())
    }
}

/// What a packet that was received, or was not, amounts to.
pub open spec fn packet_received(ret: i32, flags: i32, data: Vec<u8>) -> core::result::Result<
    Option<AccessUnit>,
    EncodeError,
> {
    if ret == AVERROR_EAGAIN {
        Ok(None)
    } else if ret < 0 {
        Err(EncodeError::Av(ret))
    } else {
        Ok(Some(AccessUnit { keyframe: flags & 1 != 0, data }))
    }
}

/// What becomes of the attempt to receive a packet: no packet yet is no error, any other
/// negative status is one, and a packet is an access unit, a keyframe if its key flag (bit 0)
/// is set.
pub fn nvenc_received(ret: i32, flags: i32, data: Vec<u8>) -> (r: core::result::Result<
    Option<AccessUnit>,
    EncodeError,
>)
    ensures
        ret == AVERROR_EAGAIN ==> r == Ok::<Option<AccessUnit>, EncodeError>(None),
        ret < 0 && ret != AVERROR_EAGAIN ==> r == Err::<Option<AccessUnit>, EncodeError>(
            EncodeError::Av(ret),
        ),
        ret >= 0 ==> r == Ok::<Option<AccessUnit>, EncodeError>(
            Some(AccessUnit { keyframe: flags & 1 != 0, data }),
        ),
        r == packet_received(ret, flags, data),
{
    if ret == AVERROR_EAGAIN {
        Ok(None)
    } else if ret < 0 {
        Err(EncodeError::Av(ret))
    } else {
        Ok(Some(AccessUnit { keyframe: flags & 1 != 0, data }))
    }
}

// --- VideoToolbox hardware encoder ---

/// `kVTPropertyNotSupportedErr`: the encoder does not implement the key at all (as opposed to
/// rejecting the value).
pub const K_VT_PROPERTY_NOT_SUPPORTED: i32 = -12900;

/// A property value. Rates that are no integers are left as fractions.
#[derive(Clone, Copy, Debug, PartialEq, Eq)]
pub enum PropertyValue {
    Bool(bool),
    Int(i32),
    /// A ratio of two integers.
    Ratio(u32, u32),
    /// The HEVC Main profile at an automatic level.
    MainAutoLevel,
}

/// One property of a compression session.
#[derive(Clone, Copy, Debug, PartialEq, Eq)]
pub struct Property {
    pub name: &'static str,
    /// A hint tunes how a conformant stream is reached; anything else defines the stream.
    pub hint: bool,
    pub value: PropertyValue,
}

/// The target bitrate in bit/s, up to the largest signed 32-bit number.
pub open spec fn average_bit_rate(kbps: u32) -> i32 {
    if kbps * 1000 > i32::MAX {
        i32::MAX
    } else {
        (kbps * 1000) as i32
    }
}

/// The properties that a configuration asks for, in the order in which they are set. The
/// low-latency hints come first. Then: HEVC Main, no frame reordering without B-frames, the
/// reference limit, predicted frames allowed, no periodic keyframe by count or by time, and
/// the bitrate.
pub open spec fn properties_of(cfg: EncoderConfig) -> Seq<Property> {
    seq![
        Property { name: "RealTime", hint: true, value: PropertyValue::Bool(true) },
        Property {
            name: "PrioritizeEncodingSpeedOverQuality",
            hint: true,
            value: PropertyValue::Bool(true),
        },
        Property {
            name: "ExpectedFrameRate",
            hint: true,
            value: PropertyValue::Ratio(cfg.fps_num, at_least_one(cfg.fps_den)),
        },
        Property { name: "ProfileLevel", hint: false, value: PropertyValue::MainAutoLevel },
        Property {
            name: "AllowFrameReordering",
            hint: false,
            value: PropertyValue::Bool(cfg.bframes > 0),
        },
        Property {
            name: "ReferenceBufferCount",
            hint: false,
            value: PropertyValue::Int(signed32(cfg.max_ref as int) as i32),
        },
        Property {
            name: "AllowTemporalCompression",
            hint: false,
            value: PropertyValue::Bool(true),
        },
        Property {
            name: "MaxKeyFrameInterval",
            hint: false,
            value: PropertyValue::Int(cfg.keyint_max),
        },
        Property {
            name: "MaxKeyFrameIntervalDuration",
            hint: false,
            value: PropertyValue::Ratio(0, 1),
        },
        Property {
            name: "AverageBitRate",
            hint: false,
            value: PropertyValue::Int(average_bit_rate(cfg.bitrate_kbps)),
        },
    ]
}

/// The properties of a compression session.
pub fn properties(cfg: &EncoderConfig) -> (r: Vec<Property>)
    ensures
        r@ == properties_of(*cfg),
{
    let den: u32 = if cfg.fps_den == 0 {
        1
    } else {
        cfg.fps_den
    };
    let bits: u64 = cfg.bitrate_kbps as u64 * 1000;
    let rate: i32 = if bits > 0x7fff_ffff {
        0x7fff_ffff
    } else {
        bits as i32
    };
    let mut out: Vec<Property> = Vec::new();
    out.push(Property { name: "RealTime", hint: true, value: PropertyValue::Bool(true) });
    out.push(
        Property {
            name: "PrioritizeEncodingSpeedOverQuality",
            hint: true,
            value: PropertyValue::Bool(true),
        },
    );
    out.push(
        Property {
            name: "ExpectedFrameRate",
            hint: true,
            value: PropertyValue::Ratio(cfg.fps_num, den),
        },
    );
    out.push(Property { name: "ProfileLevel", hint: false, value: PropertyValue::MainAutoLevel });
    out.push(
        Property {
            name: "AllowFrameReordering",
            hint: false,
            value: PropertyValue::Bool(cfg.bframes > 0),
        },
    );
    out.push(
        Property {
            name: "ReferenceBufferCount",
            hint: false,
            value: PropertyValue::Int(to_signed32(cfg.max_ref)),
        },
    );
    out.push(
        Property {
            name: "AllowTemporalCompression",
            hint: false,
            value: PropertyValue::Bool(true),
        },
    );
    out.push(
        Property {
            name: "MaxKeyFrameInterval",
            hint: false,
            value: PropertyValue::Int(cfg.keyint_max),
        },
    );
    out.push(
        Property {
            name: "MaxKeyFrameIntervalDuration",
            hint: false,
            value: PropertyValue::Ratio(0, 1),
        },
    );
    out.push(
        Property { name: "AverageBitRate", hint: false, value: PropertyValue::Int(rate) },
    );
    assert(out@ =~= properties_of(*cfg));
    out
}

/// The status of setting a property is no failure.
pub open spec fn tolerated(hint: bool, status: i32) -> bool {
    status == 0 || (hint && status == K_VT_PROPERTY_NOT_SUPPORTED)
}

/// The status of setting a property. Where the stream depends on it every failure is fatal; a
/// hint that the encoder does not implement is not missed.
pub fn property_status(p: &Property, status: i32) -> (r: core::result::Result<(), EncodeError>)
    ensures
        r == if status == 0 || (p.hint && status == K_VT_PROPERTY_NOT_SUPPORTED) {
            Ok::<(), EncodeError>(())
        } else {
            Err(EncodeError::VideoToolboxProperty { key: p.name, status })
        },
        r is Ok <==> tolerated(p.hint, status),
{
    if status == 0 || (p.hint && status == K_VT_PROPERTY_NOT_SUPPORTED) {
        Ok(())
    } else {
        Err(EncodeError::VideoToolboxProperty { key: p.name, status })
    }
}

/// A VideoToolbox status: anything but zero is an error.
pub fn vt_status(status: i32) -> (r: core::result::Result<(), EncodeError>)
    ensures
        r == if status == 0 {
            Ok::<(), EncodeError>(())
        } else {
            Err(EncodeError::VideoToolbox(status))
        },
{
    if status == 0 {
        Ok(())
    } else {
        Err(EncodeError::VideoToolbox(status))
    }
}

/// Parameter sets, each behind a start code.
pub open spec fn sets_started(sets: Seq<Vec<u8>>) -> Seq<u8>
    decreases sets.len(),
{
    if sets.len() == 0 {
        Seq::empty()
    } else {
        sets_started(sets.drop_last()) + (start_code() + sets.last()@)
    }
}

/// A length-prefix width as an index: a negative one wraps round.
pub open spec fn width_of(n: i32) -> nat {
    if n < 0 {
        (usize::MAX + 1 + n) as nat
    } else {
        n as nat
    }
}

/// The outcome of turning one encoded sample into an access unit: the NALs become Annex-B, and
/// where it is an IDR and headers are repeated, the parameter sets lead it, so that a client
/// can join or recover mid-stream. The parameter sets are asked for only then.
pub open spec fn converted(
    src: Seq<u8>,
    nal_length_size: i32,
    sets: core::result::Result<Vec<Vec<u8>>, i32>,
    repeat_headers: bool,
    r: core::result::Result<AccessUnit, EncodeError>,
) -> bool {
    let (body, verdict) = walked(src, width_of(nal_length_size));
    match verdict {
        Err(text) => r is Err && r->Err_0 is Bitstream && r->Err_0->Bitstream_0@ == text,
        Ok(keyframe) => if keyframe && repeat_headers {
            match sets {
                Err(status) => r == Err::<AccessUnit, EncodeError>(
                    EncodeError::VideoToolbox(status),
                ),
                Ok(list) => r is Ok && r->Ok_0@ == (Unit {
                    keyframe,
                    data: sets_started(list@) + body,
                }),
            }
        } else {
            r is Ok && r->Ok_0@ == (Unit { keyframe, data: body })
        },
    }
}

/// Turn one encoded sample into an Annex-B access unit. `sets` are the parameter sets, or the
/// status with which fetching them failed.
pub fn convert(
    src: &[u8],
    nal_length_size: i32,
    sets: core::result::Result<Vec<Vec<u8>>, i32>,
    repeat_headers: bool,
) -> (r: core::result::Result<AccessUnit, EncodeError>)
    ensures
        converted(src@, nal_length_size, sets, repeat_headers, r),
{
    let width: usize = if nal_length_size < 0 {
        usize::MAX - (-1 - nal_length_size) as usize
    } else {
        nal_length_size as usize
    };
    let mut body: Vec<u8> = Vec::new();
    let ghost whole = walked(src@, width as nat);
    let keyframe: bool = match append(src, width, &mut body) {
        Ok(keyframe) => keyframe,
        Err(e) => return Err(e),
    };
    assert(body@ =~= whole.0);
    if !(keyframe && repeat_headers) {
        return Ok(AccessUnit { keyframe, data: body });
    }
    match sets {
        Err(status) => Err(EncodeError::VideoToolbox(status)),
        Ok(list) => {
            let mut data: Vec<u8> = Vec::new();
            let mut i: usize = 0;
            assert(list@.take(0) =~= Seq::empty());
            while i < list.len()
                invariant
                    i <= list@.len(),
                    data@ == sets_started(list@.take(i as int)),
                decreases list@.len() - i,
            {
                push_nal(list[i].as_slice(), &mut data);
                proof {
                    assert(list@.take(i + 1).drop_last() =~= list@.take(i as int));
                    assert(list@.take(i + 1).last() == list@[i as int]);
                }
                i += 1;
            }
            assert(list@.take(i as int) =~= list@);
            data.extend_from_slice(body.as_slice());
            assert(data@ =~= sets_started(list@) + body@);
            Ok(AccessUnit { keyframe, data })
        },
    }
}

/// Where the output callback leaves the encoded frame for the encoder to pick up.
#[derive(Debug)]
pub struct Sink {
    /// The latest access unit that has not been taken.
    pub au: Option<AccessUnit>,
    /// First failing status seen, reported by the next frame.
    pub error: Option<i32>,
    /// Whether to prepend the parameter sets to IDRs.
    pub repeat_headers: bool,
}

/// The first failing status is kept.
pub open spec fn first_error(error: Option<i32>, status: i32) -> Option<i32> {
    if error is Some {
        error
    } else {
        Some(status)
    }
}

/// The status that stands for a conversion error.
pub open spec fn status_of(e: EncodeError) -> i32 {
    match e {
        EncodeError::VideoToolbox(status) => status,
        _ => -1i32,
    }
}

/// The sink once the encoder has called back: the newest unit is kept, and of the failures the
/// first.
pub open spec fn noted(
    s: Sink,
    status: i32,
    sample: Option<core::result::Result<AccessUnit, EncodeError>>,
) -> Sink {
    if status != 0 {
        Sink { error: first_error(s.error, status), ..s }
    } else {
        match sample {
            None => s,
            Some(Ok(au)) => Sink { au: Some(au), ..s },
            Some(Err(e)) => Sink { error: first_error(s.error, status_of(e)), ..s },
        }
    }
}

/// The sink once its result was picked up, and the result.
pub open spec fn picked(s: Sink) -> (
    Sink,
    core::result::Result<Option<AccessUnit>, EncodeError>,
) {
    match s.error {
        Some(status) => (Sink { error: None, ..s }, Err(EncodeError::VideoToolbox(status))),
        None => (Sink { au: None, ..s }, Ok(s.au)),
    }
}

impl Sink {
    /// An empty sink.
    pub fn new(repeat_headers: bool) -> (r: Self)
        ensures
            r.au is None,
            r.error is None,
            r.repeat_headers == repeat_headers,
    {
        Sink { au: None, error: None, repeat_headers }
    }

    /// The encoder called back: with a status and, unless the frame was dropped, what its
    /// sample was converted to. A dropped frame is no error.
    pub fn on_output(
        &mut self,
        status: i32,
        sample: Option<core::result::Result<AccessUnit, EncodeError>>,
    )
        ensures
            final(self).repeat_headers == old(self).repeat_headers,
            final(self).au == if status == 0 && sample is Some && sample->0 is Ok {
                Some(sample->0->Ok_0)
            } else {
                old(self).au
            },
            final(self).error == if status != 0 {
                first_error(old(self).error, status)
            } else if sample is Some && sample->0 is Err {
                first_error(old(self).error, status_of(sample->0->Err_0))
            } else {
                old(self).error
            },
            *final(self) == noted(*old(self), status, sample),
    {
        if status != 0 {
            self.keep_error(status);
            return;
        }
        match sample {
            None => {},
            Some(Ok(au)) => {
                self.au = Some(au);
            },
            Some(Err(e)) => match e {
                EncodeError::VideoToolbox(status) => self.keep_error(status),
                _ => self.keep_error(-1),
            },
        }
    }

    fn keep_error(&mut self, status: i32)
        ensures
            *final(self) == (Sink {
                error: first_error(old(self).error, status),
                ..*old(self)
            }),
    {
        if self.error.is_none() {
            self.error = Some(status);
        }
    }

    /// Pick up the result of a flushed frame: the first error if there was one, and otherwise
    /// the access unit, if any.
    pub fn take(&mut self) -> (r: core::result::Result<Option<AccessUnit>, EncodeError>)
        ensures
            final(self).repeat_headers == old(self).repeat_headers,
            final(self).error is None,
            match old(self).error {
                Some(status) => r == Err::<Option<AccessUnit>, EncodeError>(
                    EncodeError::VideoToolbox(status),
                ) && final(self).au == old(self).au,
                None => r == Ok::<Option<AccessUnit>, EncodeError>(old(self).au)
                    && final(self).au is None,
            },
            (*final(self), r) == picked(*old(self)),
    {
        match self.error.take() {
            Some(status) => Err(EncodeError::VideoToolbox(status)),
            None => Ok(self.au.take()),
        }
    }
}

} // verus!
