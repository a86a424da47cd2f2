//! Host session state machine.
//!
//! It takes decoded control frames in and produces [`Output`]s. It owns no sockets, spawns
//! no tasks and reads no clock; the driver around it moves bytes, and all protocol
//! decisions are here.
//!
//! ```text
//! WaitHello --HELLO--> (WELCOME, CONFIG) --> WaitConfigAck
//!   WaitConfigAck --CONFIG_ACK(gen)--> (START) --> Streaming
//!   any --BYE--> Closed (clean)
//!   any invalid ordering / bad frame --> ERROR(PROTOCOL_VIOLATION) + close
//!   HELLO wrong version --> ERROR(VERSION_UNSUPPORTED) + close
//!   HELLO no common codec --> ERROR(NO_COMMON_CODEC) + close
//! ```

use vstd::prelude::*;
use vstd::std_specs::cmp::PartialEqSpecImpl;
use crate::cbor::{
    Node, Value, entries, lemma_view_array, lemma_view_map, nodes, readable, settled_entries,
    settled_node, two64,
};
use crate::control;
use crate::control::{Decoded, clone_entries, envelope, intact};
use crate::errors;
use crate::ieee::{equal_bits, equal_numbers};
use crate::PROTOCOL_VERSION;

verus! {

broadcast use vstd::std_specs::vec::group_vec_axioms;

/// The one codec the host can encode (1 = HEVC).
pub const CODEC_HEVC: u64 = 1;

/// Host encode and capture ceiling for a VIEWPORT request.
pub const HOST_MAX_WIDTH: u64 = 3840;

/// Host encode and capture ceiling for a VIEWPORT request.
pub const HOST_MAX_HEIGHT: u64 = 2160;

/// Floor for a clamped VIEWPORT dimension, so that a degenerate request cannot ask for a
/// stream of a few pixels. Dimensions are also forced even (4:2:0 encoders).
pub const MIN_DIM: u64 = 640;

/// HELLO key 5 feature bit 1: the client can fan in concurrent video streams. Bit 0 (audio)
/// is independent of it.
pub const FEATURE_MULTI_DISPLAY: u64 = 2;

/// Media parameters the host advertises in CONFIG.
#[derive(Clone, Copy, Debug, PartialEq)]
pub struct MediaParams {
    /// Chosen video codec (1 = HEVC).
    pub codec: u64,
    /// Frame width in pixels.
    pub width: u64,
    /// Frame height in pixels.
    pub height: u64,
    /// Refresh rate in Hz.
    pub refresh: u64,
    /// Audio mode (0 = disabled, 1 = Opus).
    pub audio: u64,
    /// Initial video bitrate in kbit/s (informative).
    pub bitrate_kbps: u64,
}

impl Default for MediaParams {
    /// 2560x1440 at 72 Hz, HEVC, 60 Mbit/s.
    fn default() -> (r: Self)
        ensures
            r == (MediaParams {
                codec: CODEC_HEVC,
                width: 2560,
                height: 1440,
                refresh: 72,
                audio: 0,
                bitrate_kbps: 60_000,
            }),
    {
        MediaParams {
            codec: CODEC_HEVC,
            width: 2560,
            height: 1440,
            refresh: 72,
            audio: 0,
            bitrate_kbps: 60_000,
        }
    }
}

/// One additional video stream the host offers beyond the primary (stream_id 0): the
/// protocol view of a display, carried in CONFIG key 6.
#[derive(Clone, Copy, Debug, PartialEq)]
pub struct StreamConfig {
    /// Datagram stream_id (at least 2, unique) this display streams on.
    pub stream_id: u16,
    /// Per-stream media parameters (its own native size, refresh, bitrate).
    pub params: MediaParams,
    /// This display's left edge in the host's global layout (main display at the origin).
    pub x: i32,
    /// This display's top edge in the host's global layout.
    pub y: i32,
}

/// A parsed client STATS report.
#[derive(Clone, Copy, Debug)]
pub struct StatsReport {
    /// Video frames fully received.
    pub frames_received: i64,
    /// Video frames dropped (any fragment lost or stale).
    pub frames_dropped: i64,
    /// Datagrams received.
    pub datagrams: i64,
    /// Inter-arrival jitter estimate in milliseconds, as the bits of a 64-bit float.
    pub jitter_ms: u64,
    /// Mean decode time in microseconds.
    pub decode_us: i64,
    /// Current round-trip estimate in microseconds.
    pub rtt_us: i64,
    /// Mean end-to-end video latency in microseconds (absent before the first clock sample).
    pub e2e_us: Option<i64>,
    /// The video stream_id these counters describe (default 0).
    pub stream_id: u16,
}

impl PartialEqSpecImpl for StatsReport {
    open spec fn obeys_eq_spec() -> bool {
        true
    }

    open spec fn eq_spec(&self, other: &StatsReport) -> bool {
        (StatsReport { jitter_ms: other.jitter_ms, ..*self }) == *other && equal_bits(
            self.jitter_ms,
            other.jitter_ms,
        )
    }
}

impl PartialEq for StatsReport {
    /// The jitter compares as a number: a NaN equals nothing, and the two zeros are equal.
    fn eq(&self, other: &StatsReport) -> (r: bool) {
        let e2e: bool = match (self.e2e_us, other.e2e_us) {
            (Some(a), Some(b)) => a == b,
            (None, None) => true,
            _ => false,
        };
        self.frames_received == other.frames_received && self.frames_dropped
            == other.frames_dropped && self.datagrams == other.datagrams && equal_numbers(
            self.jitter_ms,
            other.jitter_ms,
        ) && self.decode_us == other.decode_us && self.rtt_us == other.rtt_us && e2e
            && self.stream_id == other.stream_id
    }
}

/// Session phase.
#[derive(Clone, Copy, Debug, PartialEq, Eq, Structural)]
pub enum State {
    /// Awaiting the client's HELLO (must be the first message).
    WaitHello,
    /// WELCOME and CONFIG sent; awaiting CONFIG_ACK.
    WaitConfigAck,
    /// START sent; media flows.
    Streaming,
    /// Terminal: no further frames are processed.
    Closed,
}

/// An instruction from the state machine to its driver, in order.
#[derive(Debug, PartialEq)]
pub enum Output {
    /// Encode and send this control message on the control stream.
    Send {
        /// Message type.
        msg_type: u64,
        /// Body entries.
        body: Vec<(Value, Value)>,
    },
    /// START has been emitted; media may begin.
    StartMedia {
        /// Whether the extra streams (CONFIG key 6) are active this session.
        multi: bool,
    },
    /// The client asked for a fresh IDR on a video stream.
    RequestIdr {
        /// The video stream to refresh (0 = primary display).
        stream_id: u16,
    },
    /// A resolution change was acknowledged: reconfigure the running media.
    Reconfigure {
        /// The new media parameters (already clamped).
        params: MediaParams,
    },
    /// Reply to a CLOCK_PING: echo `t0`; the driver stamps host times.
    ClockPong {
        /// The client send timestamp to echo.
        t0: i64,
    },
    /// A client STATS report for the host-side log.
    Stats(StatsReport),
    /// Flush pending sends, then close the connection with `code`.
    Close {
        /// Application close code.
        code: u64,
    },
}

/// What an [`Output`] asks for.
pub enum Act {
    Send { msg_type: u64, body: Seq<(Node, Node)> },
    StartMedia { multi: bool },
    RequestIdr { stream_id: u16 },
    Reconfigure { params: MediaParams },
    ClockPong { t0: i64 },
    Stats(StatsReport),
    Close { code: u64 },
}

impl View for Output {
    type V = Act;

    open spec fn view(&self) -> Act {
        match *self {
            Output::Send { msg_type, body } => Act::Send { msg_type, body: entries(body@) },
            Output::StartMedia { multi } => Act::StartMedia { multi },
            Output::RequestIdr { stream_id } => Act::RequestIdr { stream_id },
            Output::Reconfigure { params } => Act::Reconfigure { params },
            Output::ClockPong { t0 } => Act::ClockPong { t0 },
            Output::Stats(report) => Act::Stats(report),
            Output::Close { code } => Act::Close { code },
        }
    }
}

/// What a run of outputs asks for.
pub open spec fn acts(s: Seq<Output>) -> Seq<Act> {
    Seq::new(s.len(), |i: int| s[i]@)
}

impl Clone for Output {
    fn clone(&self) -> (r: Self)
        ensures
            r@ == self@,
    {
        match self {
            Output::Send { msg_type, body } => Output::Send {
                msg_type: *msg_type,
                body: clone_entries(body.as_slice()),
            },
            Output::StartMedia { multi } => Output::StartMedia { multi: *multi },
            Output::RequestIdr { stream_id } => Output::RequestIdr { stream_id: *stream_id },
            Output::Reconfigure { params } => Output::Reconfigure { params: *params },
            Output::ClockPong { t0 } => Output::ClockPong { t0: *t0 },
            Output::Stats(report) => Output::Stats(*report),
            Output::Close { code } => Output::Close { code: *code },
        }
    }
}

/// The low 64 bits of an integer.
pub open spec fn low64(v: int) -> u64 {
    (v % two64()) as u64
}

/// The low 64 bits of an integer, read as a signed number.
pub open spec fn signed64(v: int) -> i64 {
    let u = v % two64();
    (if u < 0x8000_0000_0000_0000 {
        u
    } else {
        u - two64()
    }) as i64
}

/// The low 16 bits of an integer.
pub open spec fn low16(v: int) -> u16 {
    (v % 0x1_0000) as u16
}

/// `x`, or `0` where there is none.
pub open spec fn or_zero(x: Option<int>) -> int {
    match x {
        Some(v) => v,
        None => 0,
    }
}

/// The first integer that stands under the integer key `key`.
pub open spec fn int_under(body: Seq<(Node, Node)>, key: int) -> Option<int>
    decreases body.len(),
{
    if body.len() == 0 {
        None
    } else if body.first().0 == Node::Int(key) && body.first().1 is Int {
        Some(body.first().1->Int_0)
    } else {
        int_under(body.drop_first(), key)
    }
}

/// The first integer that stands at place `idx` of an array under the integer key `key`.
pub open spec fn elem_under(body: Seq<(Node, Node)>, key: int, idx: int) -> Option<int>
    decreases body.len(),
{
    if body.len() == 0 {
        None
    } else if body.first().0 == Node::Int(key) && is_int_at(body.first().1, idx) {
        Some(body.first().1->Array_0[idx]->Int_0)
    } else {
        elem_under(body.drop_first(), key, idx)
    }
}

/// `n` is an array with an integer at place `idx`.
pub open spec fn is_int_at(n: Node, idx: int) -> bool {
    n is Array && 0 <= idx < n->Array_0.len() && n->Array_0[idx] is Int
}

/// The first float that stands under the integer key `key`, by its bits.
pub open spec fn float_under(body: Seq<(Node, Node)>, key: int) -> Option<u64>
    decreases body.len(),
{
    if body.len() == 0 {
        None
    } else if body.first().0 == Node::Int(key) && body.first().1 is Float {
        Some(body.first().1->Float_0)
    } else {
        float_under(body.drop_first(), key)
    }
}

/// An entry of a codec list (key 2) that names `codec`.
pub open spec fn lists_codec(e: (Node, Node), codec: u64) -> bool {
    e.0 == Node::Int(2) && e.1 is Array && e.1->Array_0.contains(Node::Int(codec as int))
}

/// The body offers `codec` in a codec list.
pub open spec fn offers(body: Seq<(Node, Node)>, codec: u64) -> bool {
    exists|i: int| 0 <= i < body.len() && lists_codec(#[trigger] body[i], codec)
}

/// The report that a STATS body gives; what is absent counts as zero.
pub open spec fn stats_of(body: Seq<(Node, Node)>) -> StatsReport {
    StatsReport {
        frames_received: signed64(or_zero(int_under(body, 0))),
        frames_dropped: signed64(or_zero(int_under(body, 1))),
        datagrams: signed64(or_zero(int_under(body, 2))),
        jitter_ms: match float_under(body, 3) {
            Some(f) => f,
            None => 0,
        },
        decode_us: signed64(or_zero(int_under(body, 4))),
        rtt_us: signed64(or_zero(int_under(body, 5))),
        e2e_us: match int_under(body, 6) {
            Some(v) => Some(signed64(v)),
            None => None,
        },
        stream_id: low16(or_zero(int_under(body, 7))),
    }
}

/// The state of a session.
pub struct Session {
    pub state: State,
    pub host_name: Seq<char>,
    pub session_id: Seq<u8>,
    pub params: MediaParams,
    /// CONFIG generation: 0 before HELLO, 1 with the first CONFIG, one more per CONFIG.
    pub generation: nat,
    pub client_max_width: u64,
    pub client_max_height: u64,
    /// The generation of a reconfiguration that is not acknowledged yet.
    pub pending: Option<nat>,
    pub extras: Seq<StreamConfig>,
    pub multi: bool,
}

/// A session awaiting HELLO.
pub open spec fn awaiting(
    host_name: Seq<char>,
    session_id: Seq<u8>,
    params: MediaParams,
    extras: Seq<StreamConfig>,
) -> Session {
    Session {
        state: State::WaitHello,
        host_name,
        session_id,
        params,
        generation: 0,
        client_max_width: params.width,
        client_max_height: params.height,
        pending: None,
        extras,
        multi: false,
    }
}

/// One entry with an integer value.
pub open spec fn int_entry(key: int, v: int) -> (Node, Node) {
    (Node::Int(key), Node::Int(v))
}

/// An array of two integers.
pub open spec fn two_ints(a: int, b: int) -> Node {
    Node::Array(seq![Node::Int(a), Node::Int(b)])
}

/// The WELCOME body: version, host name, session id, and the active features if any.
pub open spec fn welcome(m: Session) -> Seq<(Node, Node)> {
    let base = seq![
        int_entry(0, PROTOCOL_VERSION as int),
        (Node::Int(1), Node::Text(m.host_name)),
        (Node::Int(2), Node::Bytes(m.session_id)),
    ];
    if m.multi {
        base.push(int_entry(3, FEATURE_MULTI_DISPLAY as int))
    } else {
        base
    }
}

/// The description of an extra stream in CONFIG key 6.
pub open spec fn stream_entry(s: StreamConfig) -> Node {
    Node::Pairs(
        seq![
            int_entry(0, s.stream_id as int),
            (Node::Int(1), two_ints(s.params.width as int, s.params.height as int)),
            int_entry(2, s.params.refresh as int),
            int_entry(3, s.params.bitrate_kbps as int),
            (Node::Int(4), two_ints(s.x as int, s.y as int)),
        ],
    )
}

/// The CONFIG body: generation and the primary stream, and the extra streams where
/// multi-display is active.
pub open spec fn config(m: Session) -> Seq<(Node, Node)> {
    let p = m.params;
    let base = seq![
        int_entry(0, m.generation as int),
        int_entry(1, p.codec as int),
        (Node::Int(2), two_ints(p.width as int, p.height as int)),
        int_entry(3, p.refresh as int),
        int_entry(4, p.audio as int),
        int_entry(5, p.bitrate_kbps as int),
    ];
    if m.multi {
        base.push(
            (
                Node::Int(6),
                Node::Array(Seq::new(m.extras.len(), |i: int| stream_entry(m.extras[i]))),
            ),
        )
    } else {
        base
    }
}

/// The ERROR body.
pub open spec fn error_entries(code: u64, detail: Seq<char>) -> Seq<(Node, Node)> {
    seq![int_entry(0, code as int), (Node::Int(1), Node::Text(detail))]
}

/// Refuse: an ERROR message, then a close with the same code.
pub open spec fn refused(m: Session, code: u64, detail: Seq<char>) -> (Session, Seq<Act>) {
    (
        Session { state: State::Closed, ..m },
        seq![
            Act::Send { msg_type: control::ERROR, body: error_entries(code, detail) },
            Act::Close { code },
        ],
    )
}

/// Refuse a message that is out of order.
pub open spec fn violation(m: Session) -> (Session, Seq<Act>) {
    refused(m, errors::PROTOCOL_VIOLATION, "unexpected message for state"@)
}

/// A requested dimension brought between the floor and the limit: the limit is the lesser of the
/// two, but never below the floor.
pub open spec fn bounded(v: u64, ceiling: u64, client_max: u64) -> u64 {
    let low = if ceiling <= client_max {
        ceiling
    } else {
        client_max
    };
    let hi = if low < MIN_DIM {
        MIN_DIM
    } else {
        low
    };
    if v < MIN_DIM {
        MIN_DIM
    } else if v > hi {
        hi
    } else {
        v
    }
}

/// A requested dimension within bounds, made even.
pub open spec fn clamped(v: u64, ceiling: u64, client_max: u64) -> u64 {
    let c = bounded(v, ceiling, client_max);
    (c - c % 2) as u64
}

/// A HELLO is due.
pub open spec fn greeted(m: Session, msg_type: u64, body: Seq<(Node, Node)>) -> (Session, Seq<Act>) {
    if msg_type != control::HELLO {
        violation(m)
    } else if int_under(body, 0) != Some(PROTOCOL_VERSION as int) {
        refused(m, errors::VERSION_UNSUPPORTED, "unsupported protocol_version"@)
    } else if !offers(body, CODEC_HEVC) {
        refused(m, errors::NO_COMMON_CODEC, "no common codec (host: HEVC)"@)
    } else {
        let w = elem_under(body, 3, 0);
        let h = elem_under(body, 3, 1);
        let sized = w is Some && h is Some;
        let next = Session {
            state: State::WaitConfigAck,
            generation: 1,
            client_max_width: if sized {
                low64(w->0)
            } else {
                m.client_max_width
            },
            client_max_height: if sized {
                low64(h->0)
            } else {
                m.client_max_height
            },
            multi: low64(or_zero(int_under(body, 5))) / 2 % 2 == 1 && m.extras.len() > 0,
            ..m
        };
        (
            next,
            seq![
                Act::Send { msg_type: control::WELCOME, body: welcome(next) },
                Act::Send { msg_type: control::CONFIG, body: config(next) },
            ],
        )
    }
}

/// The acknowledgement of the first CONFIG is due.
pub open spec fn acknowledged(m: Session, msg_type: u64, body: Seq<(Node, Node)>) -> (
    Session,
    Seq<Act>,
) {
    if msg_type != control::CONFIG_ACK || int_under(body, 0) != Some(m.generation as int) {
        violation(m)
    } else {
        (
            Session { state: State::Streaming, ..m },
            seq![
                Act::Send { msg_type: control::START, body: Seq::empty() },
                Act::StartMedia { multi: m.multi },
            ],
        )
    }
}

/// A VIEWPORT request: a best-effort wish for a size. A malformed one, one for the current
/// size, and one that comes while a reconfiguration is pending are ignored.
pub open spec fn viewed(m: Session, body: Seq<(Node, Node)>) -> (Session, Seq<Act>) {
    let w = elem_under(body, 0, 0);
    let h = elem_under(body, 0, 1);
    let cw = clamped(low64(w->0), HOST_MAX_WIDTH, m.client_max_width);
    let ch = clamped(low64(h->0), HOST_MAX_HEIGHT, m.client_max_height);
    if w is None || h is None || m.pending is Some || (cw == m.params.width && ch
        == m.params.height) {
        (m, Seq::empty())
    } else {
        let next = Session {
            params: MediaParams { width: cw, height: ch, ..m.params },
            generation: m.generation + 1,
            pending: Some(m.generation + 1),
            ..m
        };
        (next, seq![Act::Send { msg_type: control::CONFIG, body: config(next) }])
    }
}

/// A message while media flows.
pub open spec fn streamed(m: Session, msg_type: u64, body: Seq<(Node, Node)>) -> (
    Session,
    Seq<Act>,
) {
    if msg_type == control::IDR_REQUEST {
        (m, seq![Act::RequestIdr { stream_id: low16(or_zero(int_under(body, 1))) }])
    } else if msg_type == control::STATS {
        (m, seq![Act::Stats(stats_of(body))])
    } else if msg_type == control::VIEWPORT {
        viewed(m, body)
    } else if msg_type == control::CONFIG_ACK {
        if m.pending is Some && int_under(body, 0) == Some(m.pending->0 as int) {
            (
                Session { pending: None, ..m },
                seq![Act::Reconfigure { params: m.params }],
            )
        } else {
            violation(m)
        }
    } else if msg_type == control::INPUT {
        (m, Seq::empty())
    } else {
        violation(m)
    }
}

/// One registered message arrives.
pub open spec fn handled(m: Session, msg_type: u64, body: Seq<(Node, Node)>) -> (
    Session,
    Seq<Act>,
) {
    if m.state is Closed {
        (m, Seq::empty())
    } else if msg_type == control::BYE {
        (Session { state: State::Closed, ..m }, seq![Act::Close { code: errors::NONE }])
    } else if msg_type == control::CLOCK_PING {
        (m, seq![Act::ClockPong { t0: signed64(or_zero(int_under(body, 0))) }])
    } else {
        match m.state {
            State::WaitHello => greeted(m, msg_type, body),
            State::WaitConfigAck => acknowledged(m, msg_type, body),
            State::Streaming => streamed(m, msg_type, body),
            State::Closed => (m, Seq::empty()),
        }
    }
}

/// One decoded frame arrives; an unregistered message is ignored.
pub open spec fn next(m: Session, d: Decoded) -> (Session, Seq<Act>) {
    match d {
        Decoded::Message { msg_type, body } => handled(m, msg_type, entries(body@)),
        Decoded::Ignored => (m, Seq::empty()),
    }
}

/// The low 64 bits of an integer.
fn take_low64(v: i128) -> (r: u64)
    ensures
        r == low64(v as int),
{
    if v >= 0 {
        (v as u128 % 0x1_0000_0000_0000_0000) as u64
    } else {
        let m: u64 = ((-1 - v) as u128 % 0x1_0000_0000_0000_0000) as u64;
        proof {
            let k = -1 - v;
            let q = k / two64();
            assert(k == q * two64() + m) by {
                vstd::arithmetic::div_mod::lemma_fundamental_div_mod(k as int, two64());
                vstd::arithmetic::mul::lemma_mul_is_commutative(two64(), q);
            }
            let r = 0xffff_ffff_ffff_ffff - m;
            assert(v == (-1 - q) * two64() + r) by (nonlinear_arith)
                requires
                    -1 - v == q * 0x1_0000_0000_0000_0000 + m,
                    r == 0xffff_ffff_ffff_ffff - m,
                    two64() == 0x1_0000_0000_0000_0000,
            ;
            vstd::arithmetic::div_mod::lemma_fundamental_div_mod_converse(
                v as int,
                two64(),
                -1 - q,
                r,
            );
        }
        0xffff_ffff_ffff_ffff - m
    }
}

/// The low 64 bits of an integer, read as a signed number.
fn take_signed64(v: i128) -> (r: i64)
    ensures
        r == signed64(v as int),
{
    let u: u64 = take_low64(v);
    if u < 0x8000_0000_0000_0000 {
        u as i64
    } else {
        -1 - (0xffff_ffff_ffff_ffff - u) as i64
    }
}

/// The low 16 bits of an integer.
fn take_low16(v: i128) -> (r: u16)
    ensures
        r == low16(v as int),
{
    let u: u64 = take_low64(v);
    proof {
        vstd::arithmetic::div_mod::lemma_mod_mod(v as int, 0x1_0000, 0x1_0000_0000_0000);
    }
    (u % 0x1_0000) as u16
}

/// Look up an integer body value by key.
pub fn int_key(body: &[(Value, Value)], key: i128) -> (r: Option<i128>)
    ensures
        match int_under(entries(body@), key as int) {
            Some(v) => r is Some && r->0 == v,
            None => r is None,
        },
{
    let ghost all = entries(body@);
    let mut i: usize = 0;
    assert(all.skip(0) =~= all);
    while i < body.len()
        invariant
            i <= body@.len(),
            all == entries(body@),
            int_under(all, key as int) == int_under(all.skip(i as int), key as int),
        decreases body@.len() - i,
    {
        let ghost rest = all.skip(i as int);
        assert(rest.first() == (body@[i as int].0@, body@[i as int].1@));
        assert(rest.drop_first() =~= all.skip(i + 1));
        match (&body[i].0, &body[i].1) {
            (Value::Int(k), Value::Int(v)) => {
                if *k == key {
                    return Some(*v);
                }
            },
            _ => {},
        }
        i += 1;
    }
    None
}

/// Element `idx` of an array body value (such as `[width, height]`).
pub fn pair_elem(body: &[(Value, Value)], key: i128, idx: usize) -> (r: Option<i128>)
    ensures
        match elem_under(entries(body@), key as int, idx as int) {
            Some(v) => r is Some && r->0 == v,
            None => r is None,
        },
{
    let ghost all = entries(body@);
    let mut i: usize = 0;
    assert(all.skip(0) =~= all);
    while i < body.len()
        invariant
            i <= body@.len(),
            all == entries(body@),
            elem_under(all, key as int, idx as int) == elem_under(
                all.skip(i as int),
                key as int,
                idx as int,
            ),
        decreases body@.len() - i,
    {
        let ghost rest = all.skip(i as int);
        assert(rest.first() == (body@[i as int].0@, body@[i as int].1@));
        assert(rest.drop_first() =~= all.skip(i + 1));
        match (&body[i].0, &body[i].1) {
            (Value::Int(k), Value::Array(items)) => {
                proof {
                    lemma_view_array(*items);
                }
                if *k == key && idx < items.len() {
                    assert(rest.first().1->Array_0[idx as int] == items@[idx as int]@);
                    if let Value::Int(v) = &items[idx] {
                        return Some(*v);
                    }
                }
            },
            _ => {},
        }
        i += 1;
    }
    None
}

/// Look up a floating-point body value by key.
fn float_key(body: &[(Value, Value)], key: i128) -> (r: Option<u64>)
    ensures
        r == float_under(entries(body@), key as int),
{
    let ghost all = entries(body@);
    let mut i: usize = 0;
    assert(all.skip(0) =~= all);
    while i < body.len()
        invariant
            i <= body@.len(),
            all == entries(body@),
            float_under(all, key as int) == float_under(all.skip(i as int), key as int),
        decreases body@.len() - i,
    {
        let ghost rest = all.skip(i as int);
        assert(rest.first() == (body@[i as int].0@, body@[i as int].1@));
        assert(rest.drop_first() =~= all.skip(i + 1));
        match (&body[i].0, &body[i].1) {
            (Value::Int(k), Value::Float(f)) => {
                if *k == key {
                    return Some(*f);
                }
            },
            _ => {},
        }
        i += 1;
    }
    None
}

/// Whether a list of values holds the integer `n`.
fn lists_int(items: &Vec<Value>, n: i128) -> (r: bool)
    ensures
        r == nodes(items@).contains(Node::Int(n as int)),
{
    let mut i: usize = 0;
    while i < items.len()
        invariant
            i <= items@.len(),
            forall|j: int| 0 <= j < i ==> (#[trigger] nodes(items@)[j]) != Node::Int(n as int),
        decreases items@.len() - i,
    {
        assert(nodes(items@)[i as int] == items@[i as int]@);
        if let Value::Int(v) = &items[i] {
            if *v == n {
                return true;
            }
        }
        i += 1;
    }
    false
}

/// Whether HELLO key 2 (codec list) contains `codec`.
fn offers_codec(body: &[(Value, Value)], codec: u64) -> (r: bool)
    ensures
        r == offers(entries(body@), codec),
{
    let ghost all = entries(body@);
    let mut i: usize = 0;
    while i < body.len()
        invariant
            i <= body@.len(),
            all == entries(body@),
            forall|j: int| 0 <= j < i ==> !lists_codec(#[trigger] all[j], codec),
        decreases body@.len() - i,
    {
        assert(all[i as int] == (body@[i as int].0@, body@[i as int].1@));
        match (&body[i].0, &body[i].1) {
            (Value::Int(k), Value::Array(items)) => {
                proof {
                    lemma_view_array(*items);
                }
                if *k == 2 && lists_int(items, codec as i128) {
                    assert(lists_codec(all[i as int], codec));
                    return true;
                }
            },
            _ => {},
        }
        i += 1;
    }
    false
}

impl StatsReport {
    /// Read a STATS body.
    pub fn from_body(body: &[(Value, Value)]) -> (r: Self)
        ensures
            r == stats_of(entries(body@)),
    {
        StatsReport {
            frames_received: take_signed64(int_key_or_zero(body, 0)),
            frames_dropped: take_signed64(int_key_or_zero(body, 1)),
            datagrams: take_signed64(int_key_or_zero(body, 2)),
            jitter_ms: match float_key(body, 3) {
                Some(f) => f,
                None => 0,
            },
            decode_us: take_signed64(int_key_or_zero(body, 4)),
            rtt_us: take_signed64(int_key_or_zero(body, 5)),
            e2e_us: match int_key(body, 6) {
                Some(v) => Some(take_signed64(v)),
                None => None,
            },
            stream_id: take_low16(int_key_or_zero(body, 7)),
        }
    }
}

/// The integer under `key`, or zero.
fn int_key_or_zero(body: &[(Value, Value)], key: i128) -> (r: i128)
    ensures
        r == or_zero(int_under(entries(body@), key as int)),
{
    match int_key(body, key) {
        Some(v) => v,
        None => 0,
    }
}

/// Append one entry.
pub(crate) fn put(body: &mut Vec<(Value, Value)>, key: i128, v: Value)
    ensures
        entries(final(body)@) == entries(old(body)@).push((Node::Int(key as int), v@)),
{
    let ghost before = entries(body@);
    body.push((Value::Int(key), v));
    assert(entries(body@) =~= before.push((Node::Int(key as int), v@)));
}

/// An array of two integers.
fn int_pair(a: i128, b: i128) -> (r: Value)
    ensures
        r@ == two_ints(a as int, b as int),
{
    let mut items: Vec<Value> = Vec::new();
    items.push(Value::Int(a));
    items.push(Value::Int(b));
    proof {
        lemma_view_array(items);
        assert(nodes(items@) =~= seq![Node::Int(a as int), Node::Int(b as int)]);
    }
    Value::Array(items)
}

/// The description of an extra stream.
fn describe_stream(s: &StreamConfig) -> (r: Value)
    ensures
        r@ == stream_entry(*s),
{
    let mut body: Vec<(Value, Value)> = Vec::new();
    put(&mut body, 0, Value::Int(s.stream_id as i128));
    put(&mut body, 1, int_pair(s.params.width as i128, s.params.height as i128));
    put(&mut body, 2, Value::Int(s.params.refresh as i128));
    put(&mut body, 3, Value::Int(s.params.bitrate_kbps as i128));
    // Display position in the host's global layout.
    put(&mut body, 4, int_pair(s.x as i128, s.y as i128));
    proof {
        lemma_view_map(body);
        assert(entries(body@) =~= stream_entry(*s)->Pairs_0);
    }
    Value::Pairs(body)
}

/// An ERROR body.
pub fn error_body(code: u64, detail: &str) -> (r: Vec<(Value, Value)>)
    ensures
        entries(r@) == error_entries(code, detail@),
{
    let mut body: Vec<(Value, Value)> = Vec::new();
    put(&mut body, 0, Value::Int(code as i128));
    put(&mut body, 1, Value::Text(detail.to_owned()));
    assert(entries(body@) =~= error_entries(code, detail@));
    body
}

/// Clamp one requested dimension.
fn clamp_dim(v: u64, ceiling: u64, client_max: u64) -> (r: u64)
    ensures
        r == clamped(v, ceiling, client_max),
{
    let low: u64 = if ceiling <= client_max {
        ceiling
    } else {
        client_max
    };
    let hi: u64 = if low < MIN_DIM {
        MIN_DIM
    } else {
        low
    };
    let c: u64 = if v < MIN_DIM {
        MIN_DIM
    } else if v > hi {
        hi
    } else {
        v
    };
    c - c % 2
}

/// The host side of one session.
pub struct HostSession {
    state: State,
    host_name: String,
    session_id: [u8; 16],
    params: MediaParams,
    /// CONFIG generation, starts at 1, increments per CONFIG.
    generation: u64,
    /// Client's max decodable size, the ceiling for a VIEWPORT clamp.
    client_max_width: u64,
    client_max_height: u64,
    /// The generation of a mid-session reconfiguration whose CONFIG_ACK is still awaited.
    /// While set, media continues at the old resolution and further VIEWPORT requests are
    /// ignored.
    pending_generation: Option<u64>,
    /// Additional displays the host is configured to serve beyond the primary. Advertised
    /// only once multi-display is active.
    extra_streams: Vec<StreamConfig>,
    /// Whether multi-display was negotiated. Decided at HELLO and fixed for the session.
    multi_active: bool,
}

impl View for HostSession {
    type V = Session;

    closed spec fn view(&self) -> Session {
        Session {
            state: self.state,
            host_name: self.host_name@,
            session_id: self.session_id@,
            params: self.params,
            generation: self.generation as nat,
            client_max_width: self.client_max_width,
            client_max_height: self.client_max_height,
            pending: match self.pending_generation {
                Some(g) => Some(g as nat),
                None => None,
            },
            extras: self.extra_streams@,
            multi: self.multi_active,
        }
    }
}

impl HostSession {
    /// A fresh session awaiting HELLO. `session_id` is for logs and user interfaces only.
    /// `extra_streams` are the additional displays this host would serve if the client
    /// negotiates multi-display; empty for a single-display host.
    pub fn new(
        host_name: &str,
        session_id: [u8; 16],
        params: MediaParams,
        extra_streams: Vec<StreamConfig>,
    ) -> (r: Self)
        ensures
            r@ == awaiting(host_name@, session_id@, params, extra_streams@),
    {
        HostSession {
            state: State::WaitHello,
            host_name: host_name.to_owned(),
            session_id,
            params,
            generation: 0,
            client_max_width: params.width,
            client_max_height: params.height,
            pending_generation: None,
            extra_streams,
            multi_active: false,
        }
    }

    /// Current phase.
    pub fn state(&self) -> (r: State)
        ensures
            r == self@.state,
    {
        self.state
    }

    /// Feed one decoded control frame. Returns the outputs it triggers, in order. An
    /// unknown message type is a no-op.
    pub fn on_frame(&mut self, decoded: Decoded) -> (r: Vec<Output>)
        requires
            next(old(self)@, decoded).0.generation <= u64::MAX,
        ensures
            (final(self)@, acts(r@)) == next(old(self)@, decoded),
    {
        let (msg_type, body): (u64, Vec<(Value, Value)>) = match decoded {
            Decoded::Message { msg_type, body } => (msg_type, body),
            Decoded::Ignored => {
                let none: Vec<Output> = Vec::new();
                assert(acts(none@) =~= Seq::empty());
                return none;
            },
        };
        let mut out: Vec<Output> = Vec::new();
        assert(acts(out@) =~= Seq::empty());
        if self.state == State::Closed {
            return out;
        }
        // BYE is a clean close in any phase and is never an error.
        if msg_type == control::BYE {
            self.state = State::Closed;
            out.push(Output::Close { code: errors::NONE });
            assert(acts(out@) =~= seq![Act::Close { code: errors::NONE }]);
            return out;
        }
        // CLOCK_PING is valid in any phase.
        if msg_type == control::CLOCK_PING {
            let t0: i64 = take_signed64(int_key_or_zero(body.as_slice(), 0));
            out.push(Output::ClockPong { t0 });
            assert(acts(out@) =~= seq![Act::ClockPong { t0 }]);
            return out;
        }
        match self.state {
            State::WaitHello => self.on_hello(msg_type, body.as_slice()),
            State::WaitConfigAck => self.on_config_ack(msg_type, body.as_slice()),
            State::Streaming => self.on_streaming(msg_type, body.as_slice()),
            State::Closed => out,
        }
    }

    /// Streaming-phase messages from the client.
    fn on_streaming(&mut self, msg_type: u64, body: &[(Value, Value)]) -> (r: Vec<Output>)
        requires
            streamed(old(self)@, msg_type, entries(body@)).0.generation <= u64::MAX,
        ensures
            (final(self)@, acts(r@)) == streamed(old(self)@, msg_type, entries(body@)),
    {
        let mut out: Vec<Output> = Vec::new();
        match msg_type {
            control::IDR_REQUEST => {
                // Key 1 (default 0) selects the video stream to refresh.
                let stream_id: u16 = take_low16(int_key_or_zero(body, 1));
                out.push(Output::RequestIdr { stream_id });
                assert(acts(out@) =~= seq![Act::RequestIdr { stream_id }]);
                out
            },
            control::STATS => {
                let report = StatsReport::from_body(body);
                out.push(Output::Stats(report));
                assert(acts(out@) =~= seq![Act::Stats(report)]);
                out
            },
            control::VIEWPORT => self.on_viewport(body),
            // A CONFIG_ACK here closes the mid-session reconfiguration gate.
            control::CONFIG_ACK => self.on_reconfig_ack(body),
            // INPUT is a valid streaming message that is not acted on.
            control::INPUT => {
                assert(acts(out@) =~= Seq::empty());
                out
            },
            _ => self.protocol_violation(),
        }
    }

    /// VIEWPORT: a best-effort request to stream at the client's window size. Clamp it to
    /// the host's and the client's limits; if it names a new size and no reconfiguration is
    /// in flight, raise the generation and send the new CONFIG. Media keeps flowing at the
    /// old size until the ACK.
    fn on_viewport(&mut self, body: &[(Value, Value)]) -> (r: Vec<Output>)
        requires
            viewed(old(self)@, entries(body@)).0.generation <= u64::MAX,
        ensures
            (final(self)@, acts(r@)) == viewed(old(self)@, entries(body@)),
    {
        let ghost m = self@;
        let mut out: Vec<Output> = Vec::new();
        assert(acts(out@) =~= Seq::empty());
        let (rw, rh): (u64, u64) = match (pair_elem(body, 0, 0), pair_elem(body, 0, 1)) {
            (Some(w), Some(h)) => (take_low64(w), take_low64(h)),
            // Malformed: the request is best-effort, so ignore it.
            _ => return out,
        };
        let (w, h): (u64, u64) = self.clamp_viewport(rw, rh);
        if self.pending_generation.is_some() || (w == self.params.width && h
            == self.params.height) {
            return out;
        }
        self.params.width = w;
        self.params.height = h;
        self.generation += 1;
        self.pending_generation = Some(self.generation);
        out.push(Output::Send { msg_type: control::CONFIG, body: self.config_body() });
        assert(self@ == viewed(m, entries(body@)).0);
        assert(acts(out@) =~= viewed(m, entries(body@)).1);
        out
    }

    /// CONFIG_ACK while streaming: completes a pending reconfiguration. Only the pending
    /// generation is valid; anything else is a violation.
    fn on_reconfig_ack(&mut self, body: &[(Value, Value)]) -> (r: Vec<Output>)
        ensures
            (final(self)@, acts(r@)) == streamed(
                old(self)@,
                control::CONFIG_ACK,
                entries(body@),
            ),
    {
        match (int_key(body, 0), self.pending_generation) {
            (Some(g), Some(pending)) => {
                if g == pending as i128 {
                    self.pending_generation = None;
                    let mut out: Vec<Output> = Vec::new();
                    out.push(Output::Reconfigure { params: self.params });
                    assert(acts(out@) =~= seq![Act::Reconfigure { params: self@.params }]);
                    return out;
                }
            },
            _ => {},
        }
        self.protocol_violation()
    }

    /// Clamp a requested VIEWPORT size to the host ceiling and the client's HELLO maximum,
    /// with a floor, and force even dimensions for 4:2:0: each is the largest even number that
    /// does not exceed the wish within its bounds, and a size clamped once stays as it is.
    pub fn clamp_viewport(&self, w: u64, h: u64) -> (r: (u64, u64))
        ensures
            r.0 == clamped(w, HOST_MAX_WIDTH, self@.client_max_width),
            r.1 == clamped(h, HOST_MAX_HEIGHT, self@.client_max_height),
            largest_even(r.0, w, HOST_MAX_WIDTH, self@.client_max_width),
            largest_even(r.1, h, HOST_MAX_HEIGHT, self@.client_max_height),
            clamped(r.0, HOST_MAX_WIDTH, self@.client_max_width) == r.0,
            clamped(r.1, HOST_MAX_HEIGHT, self@.client_max_height) == r.1,
    {
        proof {
            clamp_is_largest_even(w, HOST_MAX_WIDTH, self@.client_max_width);
            clamp_is_largest_even(h, HOST_MAX_HEIGHT, self@.client_max_height);
        }
        (
            clamp_dim(w, HOST_MAX_WIDTH, self.client_max_width),
            clamp_dim(h, HOST_MAX_HEIGHT, self.client_max_height),
        )
    }

    /// HELLO handling. Anything else here is a violation.
    fn on_hello(&mut self, msg_type: u64, body: &[(Value, Value)]) -> (r: Vec<Output>)
        ensures
            (final(self)@, acts(r@)) == greeted(old(self)@, msg_type, entries(body@)),
    {
        let ghost m = self@;
        if msg_type != control::HELLO {
            return self.protocol_violation();
        }
        // Key 0: protocol_version.
        let version: bool = match int_key(body, 0) {
            Some(v) => v == PROTOCOL_VERSION as i128,
            None => false,
        };
        if !version {
            return self.fatal(errors::VERSION_UNSUPPORTED, "unsupported protocol_version");
        }
        // Key 2: preference-ordered codec list.
        if !offers_codec(body, CODEC_HEVC) {
            return self.fatal(errors::NO_COMMON_CODEC, "no common codec (host: HEVC)");
        }
        // Key 3: client's max decodable [width, height], the ceiling for a later VIEWPORT
        // request. Absent: keep the defaults.
        match (pair_elem(body, 3, 0), pair_elem(body, 3, 1)) {
            (Some(w), Some(h)) => {
                self.client_max_width = take_low64(w);
                self.client_max_height = take_low64(h);
            },
            _ => {},
        }
        // Key 5: feature bitmask. Multi-display activates only if the client can fan in
        // concurrent streams and the host has extra displays to serve.
        let client_features: u64 = take_low64(int_key_or_zero(body, 5));
        let client_multi: bool = client_features / FEATURE_MULTI_DISPLAY % 2 == 1;
        self.multi_active = client_multi && self.extra_streams.len() > 0;
        self.generation = 1;
        self.state = State::WaitConfigAck;
        let mut out: Vec<Output> = Vec::new();
        out.push(Output::Send { msg_type: control::WELCOME, body: self.welcome_body() });
        out.push(Output::Send { msg_type: control::CONFIG, body: self.config_body() });
        assert(self@ == greeted(m, msg_type, entries(body@)).0);
        assert(acts(out@) =~= greeted(m, msg_type, entries(body@)).1);
        out
    }

    /// CONFIG_ACK handling. It must carry the current generation.
    fn on_config_ack(&mut self, msg_type: u64, body: &[(Value, Value)]) -> (r: Vec<Output>)
        ensures
            (final(self)@, acts(r@)) == acknowledged(old(self)@, msg_type, entries(body@)),
    {
        if msg_type != control::CONFIG_ACK {
            return self.protocol_violation();
        }
        let current: bool = match int_key(body, 0) {
            Some(g) => g == self.generation as i128,
            None => false,
        };
        if !current {
            return self.protocol_violation();
        }
        self.state = State::Streaming;
        let none: Vec<(Value, Value)> = Vec::new();
        assert(entries(none@) =~= Seq::empty());
        let mut out: Vec<Output> = Vec::new();
        out.push(Output::Send { msg_type: control::START, body: none });
        out.push(Output::StartMedia { multi: self.multi_active });
        assert(acts(out@) =~= acknowledged(old(self)@, msg_type, entries(body@)).1);
        out
    }

    fn welcome_body(&self) -> (r: Vec<(Value, Value)>)
        ensures
            entries(r@) == welcome(self@),
    {
        let mut body: Vec<(Value, Value)> = Vec::new();
        put(&mut body, 0, Value::Int(PROTOCOL_VERSION as i128));
        put(&mut body, 1, Value::Text(self.host_name.clone()));
        let mut id: Vec<u8> = Vec::new();
        id.extend_from_slice(self.session_id.as_slice());
        assert(id@ =~= self.session_id@);
        put(&mut body, 2, Value::Bytes(id));
        // Key 3: active feature bitmask, only when a feature is active, so a single-display
        // session's WELCOME stays as it is.
        if self.multi_active {
            put(&mut body, 3, Value::Int(FEATURE_MULTI_DISPLAY as i128));
        }
        assert(entries(body@) =~= welcome(self@));
        body
    }

    fn config_body(&self) -> (r: Vec<(Value, Value)>)
        ensures
            entries(r@) == config(self@),
    {
        let p = self.params;
        let mut body: Vec<(Value, Value)> = Vec::new();
        put(&mut body, 0, Value::Int(self.generation as i128));
        put(&mut body, 1, Value::Int(p.codec as i128));
        put(&mut body, 2, int_pair(p.width as i128, p.height as i128));
        put(&mut body, 3, Value::Int(p.refresh as i128));
        put(&mut body, 4, Value::Int(p.audio as i128));
        put(&mut body, 5, Value::Int(p.bitrate_kbps as i128));
        // Key 6: additional video streams, only when multi-display is active.
        if self.multi_active {
            let ghost all = Seq::new(
                self@.extras.len(),
                |i: int| stream_entry(self@.extras[i]),
            );
            let mut streams: Vec<Value> = Vec::new();
            let mut i: usize = 0;
            while i < self.extra_streams.len()
                invariant
                    i <= self.extra_streams@.len(),
                    self@.extras == self.extra_streams@,
                    all == Seq::new(self@.extras.len(), |k: int| stream_entry(self@.extras[k])),
                    streams@.len() == i,
                    nodes(streams@) == all.take(i as int),
                decreases self.extra_streams@.len() - i,
            {
                streams.push(describe_stream(&self.extra_streams[i]));
                assert(nodes(streams@) =~= all.take(i + 1));
                i += 1;
            }
            proof {
                lemma_view_array(streams);
                assert(nodes(streams@) =~= all);
            }
            put(&mut body, 6, Value::Array(streams));
        }
        assert(entries(body@) =~= config(self@));
        body
    }

    /// ERROR and close for an ordering violation.
    fn protocol_violation(&mut self) -> (r: Vec<Output>)
        ensures
            (final(self)@, acts(r@)) == violation(old(self)@),
    {
        self.fatal(errors::PROTOCOL_VIOLATION, "unexpected message for state")
    }

    /// ERROR followed by a matching connection close.
    fn fatal(&mut self, code: u64, detail: &str) -> (r: Vec<Output>)
        ensures
            (final(self)@, acts(r@)) == refused(old(self)@, code, detail@),
    {
        self.state = State::Closed;
        let mut out: Vec<Output> = Vec::new();
        out.push(Output::Send { msg_type: control::ERROR, body: error_body(code, detail) });
        out.push(Output::Close { code });
        assert(acts(out@) =~= refused(old(self)@, code, detail@).1);
        out
    }
}

/// What every reachable session keeps: no CONFIG before HELLO, the first CONFIG while its
/// acknowledgement is awaited, and a pending reconfiguration only behind START and always
/// for the current generation.
pub open spec fn sound(m: Session) -> bool {
    &&& m.state is WaitHello ==> m.generation == 0 && m.pending is None && !m.multi
    &&& m.state is WaitConfigAck ==> m.generation == 1 && m.pending is None
    &&& m.state is Streaming ==> m.generation >= 1
    &&& m.pending is Some ==> m.pending->0 == m.generation && m.generation >= 2
    &&& m.multi ==> m.extras.len() > 0
}

/// How far a phase is along.
pub open spec fn rank(s: State) -> int {
    match s {
        State::WaitHello => 0,
        State::WaitConfigAck => 1,
        State::Streaming => 2,
        State::Closed => 3,
    }
}

/// A fresh session is sound.
pub proof fn awaiting_sound(
    host_name: Seq<char>,
    session_id: Seq<u8>,
    params: MediaParams,
    extras: Seq<StreamConfig>,
)
    ensures
        sound(awaiting(host_name, session_id, params, extras)),
{
}

/// Every frame keeps a session sound.
pub proof fn next_sound(m: Session, d: Decoded)
    requires
        sound(m),
    ensures
        sound(next(m, d).0),
{
}

/// Phases only go forward, and one frame passes at most one of the three open phases.
pub proof fn phases_advance(m: Session, d: Decoded)
    ensures
        rank(m.state) <= rank(next(m, d).0.state),
        next(m, d).0.state is Closed || rank(next(m, d).0.state) <= rank(m.state) + 1,
{
}

/// A closed session does nothing more.
pub proof fn closed_is_final(m: Session, d: Decoded)
    requires
        m.state is Closed,
    ensures
        next(m, d) == (m, Seq::<Act>::empty()),
{
}

/// A session closes in one of two ways. BYE closes it cleanly, with nothing sent. Otherwise
/// the client is told why: an ERROR message with the code, and then the close with that
/// same code, which is not the clean one.
pub proof fn closing_is_answered(m: Session, d: Decoded)
    requires
        !(m.state is Closed),
        next(m, d).0.state is Closed,
    ensures
        d is Message,
        if d->msg_type == control::BYE {
            next(m, d).1 == seq![Act::Close { code: errors::NONE }]
        } else {
            exists|code: u64, detail: Seq<char>|
                code != errors::NONE && next(m, d).1 == #[trigger] refused(m, code, detail).1
        },
{
    if d->msg_type != control::BYE {
        let body = entries(d->body@);
        let t = d->msg_type;
        if m.state is WaitHello && t == control::HELLO {
            if int_under(body, 0) != Some(PROTOCOL_VERSION as int) {
                assert(next(m, d).1 == refused(
                    m,
                    errors::VERSION_UNSUPPORTED,
                    "unsupported protocol_version"@,
                ).1);
            } else {
                assert(next(m, d).1 == refused(
                    m,
                    errors::NO_COMMON_CODEC,
                    "no common codec (host: HEVC)"@,
                ).1);
            }
        } else {
            assert(next(m, d).1 == refused(
                m,
                errors::PROTOCOL_VIOLATION,
                "unexpected message for state"@,
            ).1);
        }
    }
}

/// While a session stays open nothing is closed and no ERROR is sent.
pub proof fn open_is_quiet(m: Session, d: Decoded, i: int)
    requires
        !(next(m, d).0.state is Closed),
        0 <= i < next(m, d).1.len(),
    ensures
        !(next(m, d).1[i] is Close),
        next(m, d).1[i] is Send ==> next(m, d).1[i]->msg_type != control::ERROR,
{
}

/// Media starts in exactly one step: where the acknowledgement of the first CONFIG takes the
/// session to streaming, right behind START, and with what HELLO settled about the extra
/// streams.
pub proof fn media_starts_once(m: Session, d: Decoded)
    ensures
        (m.state is WaitConfigAck && next(m, d).0.state is Streaming) ==> next(m, d).1 == seq![
            Act::Send { msg_type: control::START, body: Seq::empty() },
            Act::StartMedia { multi: m.multi },
        ],
        !(m.state is WaitConfigAck && next(m, d).0.state is Streaming) ==> forall|i: int|
            0 <= i < next(m, d).1.len() ==> !(#[trigger] next(m, d).1[i] is StartMedia),
        !(m.state is WaitHello) ==> next(m, d).0.multi == m.multi,
{
}

/// The generation counts the CONFIGs: it stays where none is sent, grows by one where one
/// is, and that CONFIG carries the new generation under key 0.
pub proof fn generation_counts_configs(m: Session, d: Decoded, i: int)
    requires
        sound(m),
        0 <= i < next(m, d).1.len(),
        next(m, d).1[i] is Send,
        next(m, d).1[i]->msg_type == control::CONFIG,
    ensures
        next(m, d).0.generation == m.generation + 1,
        int_under(next(m, d).1[i]->body, 0) == Some(next(m, d).0.generation as int),
{
    let body = next(m, d).1[i]->body;
    assert(body == config(next(m, d).0));
    assert(body.first() == int_entry(0, next(m, d).0.generation as int));
}

/// Where no CONFIG is sent, the generation and the advertised parameters stay.
pub proof fn generation_stays(m: Session, d: Decoded)
    requires
        sound(m),
        forall|i: int|
            0 <= i < next(m, d).1.len() ==> !(#[trigger] next(m, d).1[i] is Send && next(
                m,
                d,
            ).1[i]->msg_type == control::CONFIG),
    ensures
        next(m, d).0.generation == m.generation,
        next(m, d).0.params == m.params,
{
    if next(m, d).1.len() > 0 {
        assert(!(next(m, d).1[0] is Send && next(m, d).1[0]->msg_type == control::CONFIG));
    }
    if next(m, d).1.len() > 1 {
        assert(!(next(m, d).1[1] is Send && next(m, d).1[1]->msg_type == control::CONFIG));
    }
}

/// `c` is the largest even number that does not exceed the bounded wish (the next one would), and
/// not below the floor.
pub open spec fn largest_even(c: u64, v: u64, ceiling: u64, client_max: u64) -> bool {
    &&& c % 2 == 0
    &&& MIN_DIM <= c <= bounded(v, ceiling, client_max)
    &&& bounded(v, ceiling, client_max) < c + 2
}

/// A clamped dimension is the largest even number that does not exceed the bounded wish, and
/// clamping it again changes nothing, also where a limit is below the floor.
pub proof fn clamp_is_largest_even(v: u64, ceiling: u64, client_max: u64)
    ensures
        largest_even(clamped(v, ceiling, client_max), v, ceiling, client_max),
        clamped(clamped(v, ceiling, client_max), ceiling, client_max) == clamped(
            v,
            ceiling,
            client_max,
        ),
{
}

/// A clamped dimension is even, at least 640, and at most both limits where these allow 640.
pub proof fn clamp_bounds(v: u64, ceiling: u64, client_max: u64)
    ensures
        clamped(v, ceiling, client_max) % 2 == 0,
        clamped(v, ceiling, client_max) >= MIN_DIM,
        ceiling >= MIN_DIM ==> clamped(v, ceiling, client_max) <= ceiling,
        client_max >= MIN_DIM ==> clamped(v, ceiling, client_max) <= client_max,
        MIN_DIM <= v <= ceiling && v <= client_max && v % 2 == 0 ==> clamped(
            v,
            ceiling,
            client_max,
        ) == v,
{
}

/// The message acknowledges the reconfiguration that is pending.
pub open spec fn acknowledges(m: Session, d: Decoded) -> bool {
    &&& m.state is Streaming
    &&& m.pending is Some
    &&& d is Message
    &&& d->msg_type == control::CONFIG_ACK
    &&& int_under(entries(d->body@), 0) == Some(m.generation as int)
}

/// Only an acknowledged size takes effect: a reconfiguration is ordered exactly when the
/// pending generation is acknowledged, and with the parameters that CONFIG advertised.
pub proof fn reconfigure_when_acknowledged(m: Session, d: Decoded)
    requires
        sound(m),
    ensures
        acknowledges(m, d) ==> next(m, d) == (
            Session { pending: None, ..m },
            seq![Act::Reconfigure { params: m.params }],
        ),
        !acknowledges(m, d) ==> forall|i: int|
            0 <= i < next(m, d).1.len() ==> !(#[trigger] next(m, d).1[i] is Reconfigure),
{
}

/// A whole run of frames: the session after it, and everything that was put out.
pub open spec fn run(m: Session, frames: Seq<Decoded>) -> (Session, Seq<Act>)
    decreases frames.len(),
{
    if frames.len() == 0 {
        (m, Seq::empty())
    } else {
        let (before, out) = run(m, frames.drop_last());
        let (after, more) = next(before, frames.last());
        (after, out + more)
    }
}

/// How often media is started.
pub open spec fn starts(out: Seq<Act>) -> nat
    decreases out.len(),
{
    if out.len() == 0 {
        0
    } else if out.last() is StartMedia {
        starts(out.drop_last()) + 1
    } else {
        starts(out.drop_last())
    }
}

proof fn lemma_starts_add(a: Seq<Act>, b: Seq<Act>)
    ensures
        starts(a + b) == starts(a) + starts(b),
    decreases b.len(),
{
    if b.len() == 0 {
        assert(a + b =~= a);
    } else {
        assert((a + b).drop_last() =~= a + b.drop_last());
        lemma_starts_add(a, b.drop_last());
    }
}

proof fn lemma_no_starts(out: Seq<Act>)
    requires
        forall|i: int| 0 <= i < out.len() ==> !(#[trigger] out[i] is StartMedia),
    ensures
        starts(out) == 0,
    decreases out.len(),
{
    if out.len() > 0 {
        lemma_no_starts(out.drop_last());
    }
}

/// Whatever frames arrive, a session stays sound.
pub proof fn run_sound(m: Session, frames: Seq<Decoded>)
    requires
        sound(m),
    ensures
        sound(run(m, frames).0),
    decreases frames.len(),
{
    if frames.len() > 0 {
        run_sound(m, frames.drop_last());
        next_sound(run(m, frames.drop_last()).0, frames.last());
    }
}

/// Whatever frames arrive, media is started at most once in a session: not before it streams,
/// and exactly once by the time it does.
pub proof fn media_starts_at_most_once(
    host_name: Seq<char>,
    session_id: Seq<u8>,
    params: MediaParams,
    extras: Seq<StreamConfig>,
    frames: Seq<Decoded>,
)
    ensures
        ({
            let (m, out) = run(awaiting(host_name, session_id, params, extras), frames);
            &&& starts(out) <= 1
            &&& m.state is WaitHello || m.state is WaitConfigAck ==> starts(out) == 0
            &&& m.state is Streaming ==> starts(out) == 1
        }),
    decreases frames.len(),
{
    if frames.len() > 0 {
        let fresh = awaiting(host_name, session_id, params, extras);
        let (before, out) = run(fresh, frames.drop_last());
        let d = frames.last();
        let (after, more) = next(before, d);
        media_starts_at_most_once(host_name, session_id, params, extras, frames.drop_last());
        lemma_starts_add(out, more);
        media_starts_once(before, d);
        phases_advance(before, d);
        if before.state is WaitConfigAck && after.state is Streaming {
            reveal_with_fuel(starts, 3);
            assert(more.drop_last().drop_last() =~= Seq::empty());
        } else {
            lemma_no_starts(more);
        }
    }
}

/// Whatever frames arrive, the connection is closed at most once, and then nothing more is put
/// out: an open session has closed nothing, and of a closed one the close is the last output.
pub proof fn close_ends_the_session(
    host_name: Seq<char>,
    session_id: Seq<u8>,
    params: MediaParams,
    extras: Seq<StreamConfig>,
    frames: Seq<Decoded>,
)
    ensures
        ({
            let (m, out) = run(awaiting(host_name, session_id, params, extras), frames);
            &&& m.state is Closed ==> out.len() > 0 && out.last() is Close
            &&& forall|i: int|
                0 <= i < out.len() && #[trigger] out[i] is Close ==> m.state is Closed && i
                    == out.len() - 1
        }),
    decreases frames.len(),
{
    if frames.len() > 0 {
        let fresh = awaiting(host_name, session_id, params, extras);
        let (before, out) = run(fresh, frames.drop_last());
        let d = frames.last();
        let (after, more) = next(before, d);
        close_ends_the_session(host_name, session_id, params, extras, frames.drop_last());
        if before.state is Closed {
            closed_is_final(before, d);
            assert(out + more =~= out);
        } else if after.state is Closed {
            closing_is_answered(before, d);
            assert(more.last() is Close);
            assert forall|i: int| 0 <= i < more.len() - 1 implies !(#[trigger] more[i] is Close) by {
                if d->msg_type != control::BYE {
                    let (code, detail) = choose|code: u64, detail: Seq<char>|
                        code != errors::NONE && next(before, d).1 == #[trigger] refused(
                            before,
                            code,
                            detail,
                        ).1;
                }
            }
            assert forall|i: int| 0 <= i < (out + more).len() && #[trigger] (out + more)[i] is Close implies i
                == (out + more).len() - 1 by {
                if i < out.len() {
                    assert(out[i] is Close);
                } else {
                    assert(more[i - out.len()] is Close);
                }
            }
        } else {
            assert forall|i: int| 0 <= i < (out + more).len() implies !(
            #[trigger] (out + more)[i] is Close) by {
                if i < out.len() {
                    assert((out + more)[i] == out[i]);
                } else {
                    open_is_quiet(before, d, i - out.len());
                    assert((out + more)[i] == more[i - out.len()]);
                }
            }
        }
    }
}

/// A session without multi-display announces no features and no extra streams.
pub proof fn single_display_announces_nothing(m: Session)
    requires
        !m.multi,
    ensures
        int_under(welcome(m), 3) is None,
        forall|i: int| 0 <= i < config(m).len() ==> (#[trigger] config(m)[i]).0 != Node::Int(6),
{
    let w = welcome(m);
    reveal_with_fuel(int_under, 5);
    assert(w.drop_first().drop_first().drop_first() =~= Seq::empty());
    assert(w.drop_first().first() == w[1]);
    assert(w.drop_first().drop_first().first() == w[2]);
}

/// A HELLO for this version that offers HEVC, and the acknowledgement of the CONFIG that answers
/// it, are all it takes: the host sends WELCOME, CONFIG and START, and media starts.
pub proof fn handshake_starts_media(m: Session, hello: Decoded, ack: Decoded)
    requires
        m.state is WaitHello,
        hello is Message && hello->msg_type == control::HELLO,
        int_under(entries(hello->body@), 0) == Some(PROTOCOL_VERSION as int),
        offers(entries(hello->body@), CODEC_HEVC),
        ack is Message && ack->msg_type == control::CONFIG_ACK,
        int_under(entries(ack->body@), 0) == Some(1int),
    ensures
        ({
            let (after, out) = run(m, seq![hello, ack]);
            &&& after.state is Streaming
            &&& out.len() == 4
            &&& out[0] is Send && out[0]->msg_type == control::WELCOME
            &&& out[1] is Send && out[1]->msg_type == control::CONFIG
            &&& int_under(out[1]->body, 0) == Some(1int)
            &&& out[2] == (Act::Send { msg_type: control::START, body: Seq::empty() })
            &&& out[3] == (Act::StartMedia { multi: after.multi })
        }),
{
    let both = seq![hello, ack];
    assert(both.drop_last() =~= seq![hello]);
    assert(seq![hello].drop_last() =~= Seq::empty());
    reveal_with_fuel(run, 3);
    let c = config(next(m, hello).0);
    assert(c.first() == int_entry(0, 1));
}

/// A VIEWPORT for a new size, once its CONFIG is acknowledged, reconfigures the media to the
/// clamped size, and to nothing else but the size.
pub proof fn viewport_reconfigures(m: Session, viewport: Decoded, ack: Decoded, w: int, h: int)
    requires
        m.state is Streaming,
        m.pending is None,
        viewport is Message && viewport->msg_type == control::VIEWPORT,
        elem_under(entries(viewport->body@), 0, 0) == Some(w),
        elem_under(entries(viewport->body@), 0, 1) == Some(h),
        m.params.width != clamped(low64(w), HOST_MAX_WIDTH, m.client_max_width)
            || m.params.height != clamped(low64(h), HOST_MAX_HEIGHT, m.client_max_height),
        ack is Message && ack->msg_type == control::CONFIG_ACK,
        int_under(entries(ack->body@), 0) == Some(m.generation + 1int),
    ensures
        ({
            let (after, out) = run(m, seq![viewport, ack]);
            let params = MediaParams {
                width: clamped(low64(w), HOST_MAX_WIDTH, m.client_max_width),
                height: clamped(low64(h), HOST_MAX_HEIGHT, m.client_max_height),
                ..m.params
            };
            &&& after == (Session { params, generation: m.generation + 1, ..m })
            &&& out.len() == 2
            &&& out[0] is Send && out[0]->msg_type == control::CONFIG
            &&& out[1] == (Act::Reconfigure { params })
        }),
{
    let both = seq![viewport, ack];
    assert(both.drop_last() =~= seq![viewport]);
    assert(seq![viewport].drop_last() =~= Seq::empty());
    reveal_with_fuel(run, 3);
}

/// Two acts that differ at most in the jitter of a report.
pub open spec fn alike(a: Act, b: Act) -> bool {
    match (a, b) {
        (Act::Stats(x), Act::Stats(y)) => (StatsReport { jitter_ms: y.jitter_ms, ..x }) == y,
        _ => a == b,
    }
}

proof fn lemma_ints_settled(body: Seq<(Node, Node)>, key: int, idx: int)
    ensures
        int_under(settled_entries(body), key) == int_under(body, key),
        elem_under(settled_entries(body), key, idx) == elem_under(body, key, idx),
    decreases body.len(),
{
    if body.len() > 0 {
        let s = settled_entries(body);
        assert(s.drop_first() =~= settled_entries(body.drop_first()));
        lemma_ints_settled(body.drop_first(), key, idx);
        let v = body.first().1;
        if v is Array && 0 <= idx < v->Array_0.len() {
            assert(settled_node(v)->Array_0[idx] == settled_node(v->Array_0[idx]));
        }
    }
}

proof fn lemma_offers_settled(body: Seq<(Node, Node)>, codec: u64)
    ensures
        offers(settled_entries(body), codec) == offers(body, codec),
{
    let s = settled_entries(body);
    let wanted = Node::Int(codec as int);
    assert forall|i: int| 0 <= i < body.len() implies lists_codec(s[i], codec) == lists_codec(
        #[trigger] body[i],
        codec,
    ) by {
        let v = body[i].1;
        if v is Array {
            let a = v->Array_0;
            let b = settled_node(v)->Array_0;
            if a.contains(wanted) {
                let k = choose|k: int| 0 <= k < a.len() && a[k] == wanted;
                assert(b[k] == settled_node(a[k]));
                assert(b[k] == wanted);
            }
            if b.contains(wanted) {
                let k = choose|k: int| 0 <= k < b.len() && b[k] == wanted;
                assert(b[k] == settled_node(a[k]));
                assert(a[k] == wanted);
            }
        }
    }
    if offers(body, codec) {
        let i = choose|i: int| 0 <= i < body.len() && lists_codec(#[trigger] body[i], codec);
        assert(lists_codec(s[i], codec));
    }
    if offers(s, codec) {
        let i = choose|i: int| 0 <= i < s.len() && lists_codec(#[trigger] s[i], codec);
        assert(lists_codec(body[i], codec));
    }
}

/// A NaN in a message makes no difference but to the jitter of a report.
pub proof fn nan_shows_in_jitter_alone(m: Session, msg_type: u64, body: Seq<(Node, Node)>)
    ensures
        ({
            let a = handled(m, msg_type, body);
            let b = handled(m, msg_type, settled_entries(body));
            &&& a.0 == b.0
            &&& a.1.len() == b.1.len()
            &&& forall|i: int| 0 <= i < a.1.len() ==> alike(#[trigger] a.1[i], b.1[i])
        }),
{
    assert forall|key: int, idx: int|
        #![trigger elem_under(body, key, idx)]
        elem_under(settled_entries(body), key, idx) == elem_under(body, key, idx) by {
        lemma_ints_settled(body, key, idx);
    }
    assert forall|key: int|
        #![trigger int_under(body, key)]
        int_under(settled_entries(body), key) == int_under(body, key) by {
        lemma_ints_settled(body, key, 0);
    }
    lemma_offers_settled(body, CODEC_HEVC);
}

/// What the host says of itself fits CBOR's 64-bit heads, and so does the next generation.
pub open spec fn tellable(m: Session) -> bool {
    &&& vstd::utf8::encode_utf8(m.host_name).len() < two64()
    &&& m.session_id.len() < two64()
    &&& m.extras.len() < two64()
    &&& m.generation + 1 < two64()
}

/// Whatever message a session sends, its reader gets back whole.
pub proof fn sent_is_intact(m: Session, d: Decoded, i: int)
    requires
        tellable(m),
        0 <= i < next(m, d).1.len(),
        next(m, d).1[i] is Send,
    ensures
        intact(next(m, d).1[i]->msg_type, next(m, d).1[i]->body),
{
    let a = next(m, d);
    let msg_type = a.1[i]->msg_type;
    let body = a.1[i]->body;
    if msg_type == control::ERROR {
        reveal_strlit("unexpected message for state");
        reveal_strlit("unsupported protocol_version");
        reveal_strlit("no common codec (host: HEVC)");
        let code = body[0].1->Int_0 as u64;
        let detail = body[1].1->Text_0;
        error_is_intact(code, detail);
    } else if msg_type == control::START {
        lemma_body_readable(body);
    } else if msg_type == control::WELCOME {
        lemma_body_readable(body);
    } else {
        lemma_config_readable(a.0);
    }
}

/// An ERROR with a detail of a length that fits is intact.
pub proof fn error_is_intact(code: u64, detail: Seq<char>)
    requires
        4 * detail.len() < two64(),
    ensures
        intact(control::ERROR, error_entries(code, detail)),
{
    crate::cbor::lemma_text_len(detail);
    lemma_body_readable(error_entries(code, detail));
}

/// A body of readable entries makes a readable message.
pub proof fn lemma_body_readable(body: Seq<(Node, Node)>)
    requires
        body.len() < two64(),
        forall|k: int|
            0 <= k < body.len() ==> readable((#[trigger] body[k]).0, 254) && readable(
                body[k].1,
                254,
            ),
    ensures
        forall|t: u64| readable(#[trigger] envelope(t, body), 256),
{
    assert forall|t: u64| readable(#[trigger] envelope(t, body), 256) by {
        let pair = seq![Node::Int(t as int), Node::Pairs(body)];
        assert(readable(Node::Pairs(body), 255));
        assert forall|k: int| 0 <= k < pair.len() implies readable(#[trigger] pair[k], 255) by {
            if k == 0 {
                assert(pair[k] == Node::Int(t as int));
            } else {
                assert(pair[k] == Node::Pairs(body));
            }
        }
    }
}

proof fn lemma_two_ints_readable(a: int, b: int, depth: nat)
    requires
        depth > 0,
        -two64() <= a < two64(),
        -two64() <= b < two64(),
    ensures
        readable(two_ints(a, b), depth),
{
    let pair = seq![Node::Int(a), Node::Int(b)];
    assert forall|k: int| 0 <= k < pair.len() implies readable(
        #[trigger] pair[k],
        (depth - 1) as nat,
    ) by {
        assert(pair[k] == Node::Int(a) || pair[k] == Node::Int(b));
    }
}

proof fn lemma_stream_readable(s: StreamConfig)
    ensures
        readable(stream_entry(s), 253),
{
    lemma_two_ints_readable(s.params.width as int, s.params.height as int, 252);
    lemma_two_ints_readable(s.x as int, s.y as int, 252);
    let m = stream_entry(s)->Pairs_0;
    assert forall|k: int| 0 <= k < m.len() implies readable((#[trigger] m[k]).0, 252) && readable(
        m[k].1,
        252,
    ) by {
        assert(k == 0 || k == 1 || k == 2 || k == 3 || k == 4);
    }
}

proof fn lemma_config_readable(m: Session)
    requires
        m.generation < two64(),
        m.extras.len() < two64(),
    ensures
        intact(control::CONFIG, config(m)),
{
    let body = config(m);
    lemma_two_ints_readable(m.params.width as int, m.params.height as int, 254);
    if m.multi {
        let streams = Seq::new(m.extras.len(), |i: int| stream_entry(m.extras[i]));
        assert forall|k: int| 0 <= k < streams.len() implies readable(
            #[trigger] streams[k],
            253,
        ) by {
            lemma_stream_readable(m.extras[k]);
        }
        assert(readable(Node::Array(streams), 254));
    }
    lemma_body_readable(body);
}

} // verus!
