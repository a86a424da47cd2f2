//! The media loop's decisions.
//!
//! One pipeline per video stream: produce a frame, encode it, fragment it, send it. The
//! application runs the loop (capture, encoder, connection, sleeping); what happens in each
//! tick is decided here.

use vstd::prelude::*;
use crate::be::{be, push_be};
use crate::constraints::{BFRAMES, KEYINT_MAX, MAX_REF, REPEAT_HEADERS, SCENECUT, encoder_config};
use crate::datagram::{datagrams, fragment, fragment_count};
use crate::encode::{AccessUnit, EncoderConfig};
use crate::session::MediaParams;

verus! {

broadcast use vstd::std_specs::vec::group_vec_axioms;

/// Which frame source a pipeline encodes. The client sees the same wire output either way.
#[derive(Clone, Copy, Debug, PartialEq, Eq, Structural)]
pub enum CaptureSource {
    /// The synthetic test pattern.
    Synthetic,
    /// Desktop capture through the desktop portal.
    Portal,
    /// Desktop capture through ScreenCaptureKit.
    Sck,
}

/// Which HEVC encoder is used.
#[derive(Clone, Copy, Debug, PartialEq, Eq, Structural)]
pub enum EncoderKind {
    /// Software encoding.
    X265,
    /// Hardware encoding through libav.
    Nvenc,
    /// Hardware encoding through VideoToolbox.
    VideoToolbox,
}

/// The seed of the loss injector.
pub const DROP_SEED: u64 = 0x9E37_79B9_7F4A_7C15;

/// One step of a 64-bit xorshift generator.
pub open spec fn xorshift(x: u64) -> u64 {
    let a = x ^ (x << 13u64);
    let b = a ^ (a >> 7u64);
    b ^ (b << 17u64)
}

/// Deterministic per-datagram loss injector. A fixed seed keeps loss reproducible across runs.
#[derive(Clone, Copy, Debug, PartialEq, Eq)]
pub struct DropInjector {
    /// Generator state.
    pub state: u64,
    /// Percentage of datagrams to drop.
    pub percent: u32,
}

impl DropInjector {
    /// An injector for `percent` per cent of all datagrams.
    pub fn new(percent: u32) -> (r: Self)
        ensures
            r == injector(percent),
    {
        DropInjector { state: DROP_SEED, percent }
    }

    /// Whether to drop the next datagram. At zero per cent nothing is drawn.
    pub fn should_drop(&mut self) -> (r: bool)
        ensures
            (*final(self), r) == drawn(*old(self)),
    {
        if self.percent == 0 {
            return false;
        }
        let mut x: u64 = self.state;
        x = x ^ (x << 13u64);
        x = x ^ (x >> 7u64);
        x = x ^ (x << 17u64);
        self.state = x;
        x % 100 < self.percent as u64
    }
}

/// One draw: the injector after it, and whether to drop. At zero per cent nothing is drawn.
pub open spec fn drawn(d: DropInjector) -> (DropInjector, bool) {
    if d.percent == 0 {
        (d, false)
    } else {
        let x = xorshift(d.state);
        (DropInjector { state: x, ..d }, x % 100 < d.percent)
    }
}

/// An injector for `percent` per cent of all datagrams.
pub open spec fn injector(percent: u32) -> DropInjector {
    DropInjector { state: DROP_SEED, percent }
}

/// The injector after `n` draws.
pub open spec fn drawn_on(d: DropInjector, n: nat) -> DropInjector
    decreases n,
{
    if n == 0 {
        d
    } else {
        drawn(drawn_on(d, (n - 1) as nat)).0
    }
}

/// How many of the first `n` draws drop.
pub open spec fn dropped(d: DropInjector, n: nat) -> nat
    decreases n,
{
    if n == 0 {
        0
    } else if drawn(drawn_on(d, (n - 1) as nat)).1 {
        dropped(d, (n - 1) as nat) + 1
    } else {
        dropped(d, (n - 1) as nat)
    }
}

/// At zero per cent no draw drops, and from a hundred on every draw does.
pub proof fn loss_at_the_ends(percent: u32, n: nat)
    ensures
        percent == 0 ==> !drawn(drawn_on(injector(percent), n)).1,
        percent >= 100 ==> drawn(drawn_on(injector(percent), n)).1,
        drawn_on(injector(percent), n).percent == percent,
    decreases n,
{
    if n > 0 {
        loss_at_the_ends(percent, (n - 1) as nat);
    }
}

/// The state after `n` steps.
spec fn stepped(x: u64, n: u64) -> u64
    decreases n,
{
    if n == 0 {
        x
    } else {
        stepped(xorshift(x), (n - 1) as u64)
    }
}

/// How many of the next `n` states drop at ten per cent.
spec fn hits(x: u64, n: u64) -> u64
    decreases n,
{
    if n == 0 {
        0
    } else {
        let y = xorshift(x);
        let rest = hits(y, (n - 1) as u64);
        if y % 100 < 10 {
            (rest + 1) as u64
        } else {
            rest
        }
    }
}

/// How many of the next `k` thousand states drop at ten per cent.
spec fn thousands(x: u64, k: u64) -> u64
    decreases k,
{
    if k == 0 {
        0
    } else {
        (hits(x, 1000) + thousands(stepped(x, 1000), (k - 1) as u64)) as u64
    }
}

proof fn lemma_stepped_add(x: u64, a: u64, b: u64)
    requires
        a + b <= 1_000_000,
    ensures
        stepped(x, (a + b) as u64) == stepped(stepped(x, a), b),
        hits(x, (a + b) as u64) == hits(x, a) + hits(stepped(x, a), b),
        hits(x, a) <= a,
        hits(stepped(x, a), b) <= b,
    decreases a, b,
{
    if a > 0 {
        lemma_stepped_add(xorshift(x), (a - 1) as u64, b);
    } else if b > 0 {
        lemma_stepped_add(xorshift(x), 0, (b - 1) as u64);
    }
}

proof fn lemma_thousands(x: u64, k: u64)
    requires
        k <= 1000,
    ensures
        thousands(x, k) == hits(x, (1000 * k) as u64),
    decreases k,
{
    if k > 0 {
        lemma_thousands(stepped(x, 1000), (k - 1) as u64);
        lemma_stepped_add(x, 1000, (1000 * (k - 1)) as u64);
    }
}

proof fn lemma_dropped_is_hits(n: u64)
    requires
        n <= 1_000_000,
    ensures
        drawn_on(injector(10), n as nat) == (DropInjector {
            state: stepped(DROP_SEED, n),
            percent: 10,
        }),
        dropped(injector(10), n as nat) == hits(DROP_SEED, n),
    decreases n,
{
    if n > 0 {
        let m = (n - 1) as u64;
        lemma_dropped_is_hits(m);
        lemma_stepped_add(DROP_SEED, m, 1);
        reveal_with_fuel(stepped, 2);
        reveal_with_fuel(hits, 2);
    }
}

/// At ten per cent about a tenth is lost: of the first ten thousand draws at least 500 and fewer
/// than 1500 drop.
pub proof fn a_tenth_is_lost()
    ensures
        500 <= dropped(injector(10), 10_000) < 1500,
{
    assert(thousands(0x9E37_79B9_7F4A_7C15, 10) == 998u64) by (bit_vector);
    lemma_thousands(DROP_SEED, 10);
    lemma_dropped_is_hits(10_000);
}

/// The generator never reaches zero, where it would stay: loss goes on for ever.
pub proof fn xorshift_stays_alive(x: u64)
    requires
        x != 0,
    ensures
        xorshift(x) != 0,
{
    assert(x != 0 ==> xorshift(x) != 0) by (bit_vector);
}

/// Two states that differ stay different, so the generator loses none.
pub proof fn xorshift_injective(x: u64, y: u64)
    requires
        xorshift(x) == xorshift(y),
    ensures
        x == y,
{
    let a = x ^ (x << 13u64);
    let c = y ^ (y << 13u64);
    let b = a ^ (a >> 7u64);
    let d = c ^ (c >> 7u64);
    assert(b ^ (b << 17u64) == d ^ (d << 17u64) ==> b == d) by (bit_vector);
    assert(a ^ (a >> 7u64) == c ^ (c >> 7u64) ==> a == c) by (bit_vector);
    assert(x ^ (x << 13u64) == y ^ (y << 13u64) ==> x == y) by (bit_vector);
}

/// The low 32 bits of a parameter.
pub open spec fn low32(v: u64) -> u32 {
    (v % 0x1_0000_0000) as u32
}

/// The low 32 bits of a parameter.
pub fn take_low32(v: u64) -> (r: u32)
    ensures
        r == low32(v),
{
    (v % 0x1_0000_0000) as u32
}

/// The encoder configuration of a stream: its size, rate and bitrate (32 bits each) under the
/// stream-shape constraints.
pub open spec fn config_of(p: MediaParams) -> EncoderConfig {
    EncoderConfig {
        width: low32(p.width),
        height: low32(p.height),
        fps_num: low32(p.refresh),
        fps_den: 1,
        bitrate_kbps: low32(p.bitrate_kbps),
        bframes: BFRAMES,
        max_ref: MAX_REF,
        keyint_max: KEYINT_MAX,
        repeat_headers: REPEAT_HEADERS,
        scenecut: SCENECUT,
    }
}

/// The encoder configuration of a stream.
pub fn stream_config(p: &MediaParams) -> (r: EncoderConfig)
    ensures
        r == config_of(*p),
{
    encoder_config(
        take_low32(p.width),
        take_low32(p.height),
        take_low32(p.refresh),
        take_low32(p.bitrate_kbps),
    )
}

/// What a tick begins with.
#[derive(Clone, Copy, Debug, PartialEq)]
pub enum TickAction {
    /// End the pipeline.
    Stop,
    /// Open capture and encoder anew with these parameters, then report how that went.
    Reopen(MediaParams),
    /// Take the pending IDR requests, and report how many there were.
    Poll,
    /// Produce a frame.
    Produce,
}

/// What is done with the frame of a tick.
#[derive(Clone, Copy, Debug, PartialEq, Eq)]
pub enum FrameAction {
    /// There is no frame yet: wait for the next tick.
    Wait,
    /// Encode the held frame.
    Encode {
        /// Presentation timestamp.
        pts: i64,
        /// Code it as an IDR.
        force_idr: bool,
    },
}

/// The state of one video pipeline.
#[derive(Clone, Copy, Debug, PartialEq)]
pub struct Pipeline {
    /// The datagram stream it sends on (0 = primary).
    pub stream_id: u16,
    /// Where its frames come from.
    pub source: CaptureSource,
    /// What it streams.
    pub params: MediaParams,
    /// Number of the next frame. It goes on across reconfigurations.
    pub frame_seq: u32,
    /// A frame of the current source has arrived.
    pub have: bool,
    /// The next frame to be encoded is to be an IDR.
    pub force_idr: bool,
}

/// A pipeline that has sent nothing.
pub open spec fn idle(stream_id: u16, source: CaptureSource, params: MediaParams) -> Pipeline {
    Pipeline { stream_id, source, params, frame_seq: 0, have: false, force_idr: false }
}

/// The frame number after `n`.
pub open spec fn seq_after(n: u32) -> u32 {
    if n == u32::MAX {
        0
    } else {
        (n + 1) as u32
    }
}

/// The pipeline once a frame was sent: the next number is due.
pub open spec fn advanced(p: Pipeline) -> Pipeline {
    Pipeline { frame_seq: seq_after(p.frame_seq), ..p }
}

/// The body of a video frame: the capture time, and the access unit.
pub open spec fn frame_body(capture_ts: u64, data: Seq<u8>) -> Seq<u8> {
    be(capture_ts as nat, 8) + data
}

/// The pipeline once an access unit was sent, and the datagrams that it was sent in: the body of
/// the frame under the number that was due.
pub open spec fn packetized(p: Pipeline, capture_ts: u64, keyframe: bool, data: Seq<u8>) -> (
    Pipeline,
    Seq<Seq<u8>>,
) {
    (
        advanced(p),
        datagrams(p.stream_id, p.frame_seq, keyframe, frame_body(capture_ts, data)),
    )
}

/// The beginning of a tick: the end of the connection comes first, then the newest of the
/// reconfigurations, then the IDR requests.
pub open spec fn begun(closed: bool, reconfigs: Seq<MediaParams>) -> TickAction {
    if closed {
        TickAction::Stop
    } else if reconfigs.len() > 0 {
        TickAction::Reopen(reconfigs.last())
    } else {
        TickAction::Poll
    }
}

/// The pipeline once it is known how many IDR requests were pending. An IDR that is owed already
/// stays owed.
pub open spec fn polled_with(p: Pipeline, idr_requests: nat) -> Pipeline {
    Pipeline { force_idr: p.force_idr || idr_requests > 0, ..p }
}

/// The outcome of opening capture and encoder anew.
pub open spec fn reopened_with(p: Pipeline, params: MediaParams, opened: bool) -> (
    Pipeline,
    TickAction,
) {
    if opened {
        (Pipeline { params, have: false, force_idr: true, ..p }, TickAction::Produce)
    } else {
        (p, TickAction::Stop)
    }
}

/// What is done once a frame was asked of the source. A frame that is encoded pays the IDR that
/// was owed.
pub open spec fn readied(p: Pipeline, filled: bool) -> (Pipeline, FrameAction) {
    if p.source is Synthetic || p.have || filled {
        (
            Pipeline { have: p.have || filled, force_idr: false, ..p },
            FrameAction::Encode { pts: p.frame_seq as i64, force_idr: p.force_idr },
        )
    } else {
        (p, FrameAction::Wait)
    }
}

/// The frame of a tick in which IDR requests were pending is coded as an IDR, however many there
/// were; without any, only where one is owed already. Where there is no frame yet the IDR stays
/// owed, and once it is coded none is.
pub proof fn idr_request_answered(p: Pipeline, idr_requests: nat, filled: bool)
    ensures
        ({
            let (after, next) = readied(polled_with(p, idr_requests), filled);
            let owed = p.force_idr || idr_requests > 0;
            &&& next is Encode ==> next->force_idr == owed && !after.force_idr
            &&& next is Wait ==> after.force_idr == owed
        }),
{
}

/// A reconfiguration takes the newest of the sizes asked for; a frame of the same tick is coded
/// as an IDR and carries the number that was due, and where there is none yet the IDR stays owed.
/// The IDR requests are left pending for the next tick.
pub proof fn reconfiguration_leads_with_idr(
    p: Pipeline,
    reconfigs: Seq<MediaParams>,
    filled: bool,
)
    requires
        reconfigs.len() > 0,
    ensures
        ({
            let action = begun(false, reconfigs);
            let (r, then) = reopened_with(p, action->Reopen_0, true);
            let (after, next) = readied(r, filled);
            &&& action == TickAction::Reopen(reconfigs.last())
            &&& then == TickAction::Produce
            &&& r.params == reconfigs.last()
            &&& r.frame_seq == p.frame_seq
            &&& next is Encode ==> next->force_idr && next->pts == p.frame_seq
            &&& next is Wait ==> after.force_idr
        }),
{
}

/// A frame once held is sent in every tick until the source is opened anew.
pub proof fn held_frame_repeats(p: Pipeline, filled: bool, idr_requests: nat)
    requires
        readied(p, filled).1 is Encode,
    ensures
        readied(polled_with(readied(p, filled).0, idr_requests), false).1 is Encode,
{
}

/// An access unit, and when its frame was captured.
pub struct Unit {
    pub capture_ts: u64,
    pub keyframe: bool,
    pub data: Seq<u8>,
}

/// What the encoder makes of a frame.
pub enum Encoded {
    Unit(Unit),
    /// Nothing came out yet.
    Nothing,
    /// It failed, which ends the pipeline.
    Failed,
}

/// What the world has in store for one tick.
pub struct Tick {
    /// The connection is closed.
    pub closed: bool,
    /// The reconfigurations that have come in since the last tick, oldest first.
    pub reconfigs: Seq<MediaParams>,
    /// How opening capture and encoder anew goes, if it comes to that.
    pub opened: bool,
    /// How many IDR requests have come in since the last tick.
    pub asked: nat,
    /// A new frame is there.
    pub filled: bool,
    /// What the encoder makes of the frame, if it is given one.
    pub encoded: Encoded,
}

/// A pipeline after some ticks, and what it has done.
pub struct Run {
    pub pipeline: Pipeline,
    pub stopped: bool,
    /// The IDR requests that were not taken yet.
    pub pending: nat,
    /// What was done with the frame of each tick.
    pub frames: Seq<FrameAction>,
    /// The access units that came out of the encoder.
    pub units: Seq<Unit>,
    /// The datagrams.
    pub sent: Seq<Seq<u8>>,
}

/// The datagrams of the `k`-th access unit: numbers count from zero and wrap at 32 bits.
pub open spec fn unit_datagrams(stream_id: u16, k: int, u: Unit) -> Seq<Seq<u8>> {
    datagrams(
        stream_id,
        (k % 0x1_0000_0000) as u32,
        u.keyframe,
        frame_body(u.capture_ts, u.data),
    )
}

/// The datagrams of a run of access units, each under its place in the run.
pub open spec fn numbered(stream_id: u16, units: Seq<Unit>) -> Seq<Seq<u8>>
    decreases units.len(),
{
    if units.len() == 0 {
        Seq::empty()
    } else {
        numbered(stream_id, units.drop_last()) + unit_datagrams(
            stream_id,
            units.len() - 1,
            units.last(),
        )
    }
}

/// The beginning of a tick, with the outcome of what it asks for: the pipeline, the IDR requests
/// that are left, and whether to produce a frame.
pub open spec fn opened_tick(r: Run, t: Tick) -> (Pipeline, nat, bool) {
    match begun(t.closed, t.reconfigs) {
        TickAction::Reopen(params) => {
            let (p, then) = reopened_with(r.pipeline, params, t.opened);
            (p, r.pending + t.asked, then == TickAction::Produce)
        },
        TickAction::Poll => (polled_with(r.pipeline, r.pending + t.asked), 0, true),
        _ => (r.pipeline, r.pending + t.asked, false),
    }
}

/// One tick.
pub open spec fn ticked(r: Run, t: Tick) -> Run {
    let (p, pending, produce) = opened_tick(r, t);
    if r.stopped {
        r
    } else if !produce {
        Run { pipeline: p, stopped: true, pending, ..r }
    } else {
        let (q, action) = readied(p, t.filled);
        let s = Run { pipeline: q, pending, frames: r.frames.push(action), ..r };
        match (action, t.encoded) {
            (FrameAction::Wait, _) => s,
            (_, Encoded::Unit(u)) => {
                let (next, out) = packetized(q, u.capture_ts, u.keyframe, u.data);
                Run { pipeline: next, units: r.units.push(u), sent: r.sent + out, ..s }
            },
            (_, Encoded::Nothing) => s,
            (_, Encoded::Failed) => Run { stopped: true, ..s },
        }
    }
}

/// A pipeline after a run of ticks, from nothing sent.
pub open spec fn ran(p: Pipeline, ticks: Seq<Tick>) -> Run
    decreases ticks.len(),
{
    if ticks.len() == 0 {
        Run {
            pipeline: p,
            stopped: false,
            pending: 0,
            frames: Seq::empty(),
            units: Seq::empty(),
            sent: Seq::empty(),
        }
    } else {
        ticked(ran(p, ticks.drop_last()), ticks.last())
    }
}

/// The IDR requests that are due in the last tick: those that have come in since the tick before
/// and, where that one was a reconfiguration, which takes none, those that were due in it.
pub open spec fn due(ticks: Seq<Tick>) -> nat
    decreases ticks.len(),
{
    if ticks.len() == 0 {
        0
    } else {
        let before = ticks.drop_last();
        ticks.last().asked + if before.len() > 0 && before.last().reconfigs.len() > 0 {
            due(before)
        } else {
            0
        }
    }
}

/// Over any run of ticks the access units go out in order, the `k`-th under number `k`, each as
/// the fragments of its body on the pipeline's stream; reconfigurations make no difference.
pub proof fn run_numbers_units(
    stream_id: u16,
    source: CaptureSource,
    params: MediaParams,
    ticks: Seq<Tick>,
)
    ensures
        ({
            let r = ran(idle(stream_id, source, params), ticks);
            &&& r.sent == numbered(stream_id, r.units)
            &&& r.pipeline.frame_seq == r.units.len() % 0x1_0000_0000
            &&& r.pipeline.stream_id == stream_id
            &&& r.pipeline.source == source
        }),
    decreases ticks.len(),
{
    if ticks.len() > 0 {
        let p = idle(stream_id, source, params);
        let before = ran(p, ticks.drop_last());
        let r = ran(p, ticks);
        run_numbers_units(stream_id, source, params, ticks.drop_last());
        if r.units.len() > before.units.len() {
            assert(r.units.drop_last() =~= before.units);
        }
    }
}

/// An IDR is owed in the last tick: it brings a reconfiguration, IDR requests are due in it, or
/// one was owed in the tick before, which had no frame to encode.
pub open spec fn owed(p: Pipeline, ticks: Seq<Tick>) -> bool
    decreases ticks.len(),
{
    if ticks.len() == 0 {
        false
    } else {
        let before = ticks.drop_last();
        ||| ticks.last().reconfigs.len() > 0
        ||| due(ticks) > 0
        ||| before.len() > 0 && owed(p, before) && ran(p, before).frames.last() is Wait
    }
}

/// While a pipeline runs, every tick decides on one frame, which a synthetic source always has.
/// A frame that is encoded is timed by the number of access units before it, and forced to be an
/// IDR exactly where one is owed.
pub proof fn run_forces_idrs(
    stream_id: u16,
    source: CaptureSource,
    params: MediaParams,
    ticks: Seq<Tick>,
    i: int,
)
    requires
        !ran(idle(stream_id, source, params), ticks).stopped,
        0 <= i < ticks.len(),
    ensures
        ({
            let p = idle(stream_id, source, params);
            let frames = ran(p, ticks).frames;
            &&& frames.len() == ticks.len()
            &&& frames.take(i) == ran(p, ticks.take(i)).frames
            &&& source is Synthetic ==> frames[i] is Encode
            &&& frames[i] is Encode ==> {
                &&& frames[i]->force_idr == owed(p, ticks.take(i + 1))
                &&& frames[i]->pts == ran(p, ticks.take(i)).units.len() % 0x1_0000_0000
            }
        }),
    decreases ticks.len(),
{
    let p = idle(stream_id, source, params);
    let before = ticks.drop_last();
    lemma_pending(p, ticks);
    lemma_owed(p, ticks);
    run_numbers_units(stream_id, source, params, before);
    if i < before.len() {
        run_forces_idrs(stream_id, source, params, before, i);
        assert(before.take(i + 1) =~= ticks.take(i + 1));
        assert(before.take(i) =~= ticks.take(i));
        assert(ran(p, ticks).frames.take(i) =~= ran(p, before).frames.take(i));
    } else {
        if before.len() > 0 {
            run_forces_idrs(stream_id, source, params, before, 0);
        }
        assert(ticks.take(i) =~= before);
        assert(ticks.take(i + 1) =~= ticks);
        assert(ran(p, ticks).frames.take(i) =~= ran(p, before).frames);
    }
}

/// The first frame that is encoded after a reconfiguration, or once IDR requests are due, is an
/// IDR, however long the source takes to have one.
pub proof fn first_frame_is_idr(
    stream_id: u16,
    source: CaptureSource,
    params: MediaParams,
    ticks: Seq<Tick>,
    i: int,
    j: int,
)
    requires
        !ran(idle(stream_id, source, params), ticks).stopped,
        0 <= i <= j < ticks.len(),
        ticks[i].reconfigs.len() > 0 || due(ticks.take(i + 1)) > 0,
        forall|k: int|
            i <= k < j ==> #[trigger] ran(idle(stream_id, source, params), ticks).frames[k] is Wait,
        ran(idle(stream_id, source, params), ticks).frames[j] is Encode,
    ensures
        ran(idle(stream_id, source, params), ticks).frames[j]->force_idr,
{
    lemma_stays_owed(stream_id, source, params, ticks, i, j);
    run_forces_idrs(stream_id, source, params, ticks, j);
}

proof fn lemma_stays_owed(
    stream_id: u16,
    source: CaptureSource,
    params: MediaParams,
    ticks: Seq<Tick>,
    i: int,
    j: int,
)
    requires
        !ran(idle(stream_id, source, params), ticks).stopped,
        0 <= i <= j < ticks.len(),
        ticks[i].reconfigs.len() > 0 || due(ticks.take(i + 1)) > 0,
        forall|k: int|
            i <= k < j ==> #[trigger] ran(idle(stream_id, source, params), ticks).frames[k] is Wait,
    ensures
        owed(idle(stream_id, source, params), ticks.take(j + 1)),
    decreases j - i,
{
    let p = idle(stream_id, source, params);
    let t = ticks.take(j + 1);
    assert(t.last() == ticks[j]);
    if i < j {
        lemma_stays_owed(stream_id, source, params, ticks, i, j - 1);
        assert(t.drop_last() =~= ticks.take(j));
        run_forces_idrs(stream_id, source, params, ticks, j);
        let frames = ran(p, ticks).frames;
        assert(frames[j - 1] is Wait);
        assert(ran(p, ticks.take(j)).frames.last() == frames[j - 1]);
    }
}

/// A running pipeline remembers exactly the IDR that it could not code.
proof fn lemma_owed(p: Pipeline, ticks: Seq<Tick>)
    requires
        !p.force_idr,
        !ran(p, ticks).stopped,
    ensures
        ran(p, ticks).frames.len() == ticks.len(),
        ran(p, ticks).pipeline.force_idr == (ticks.len() > 0 && owed(p, ticks) && ran(
            p,
            ticks,
        ).frames.last() is Wait),
        ticks.len() > 0 && ran(p, ticks).frames.last() is Encode ==> ran(
            p,
            ticks,
        ).frames.last()->force_idr == owed(p, ticks),
    decreases ticks.len(),
{
    if ticks.len() > 0 {
        lemma_pending(p, ticks);
        lemma_owed(p, ticks.drop_last());
    }
}

/// What a running pipeline has not taken of the IDR requests is what a reconfiguration left.
proof fn lemma_pending(p: Pipeline, ticks: Seq<Tick>)
    requires
        !ran(p, ticks).stopped,
    ensures
        ran(p, ticks).pending == if ticks.len() > 0 && ticks.last().reconfigs.len() > 0 {
            due(ticks)
        } else {
            0
        },
        ticks.len() > 0 ==> !ran(p, ticks.drop_last()).stopped && ran(p, ticks.drop_last()).pending
            + ticks.last().asked == due(ticks),
    decreases ticks.len(),
{
    if ticks.len() > 0 {
        lemma_pending(p, ticks.drop_last());
    }
}

impl Pipeline {
    /// A pipeline that has sent nothing.
    pub fn new(stream_id: u16, source: CaptureSource, params: MediaParams) -> (r: Self)
        ensures
            r == idle(stream_id, source, params),
    {
        Pipeline { stream_id, source, params, frame_seq: 0, have: false, force_idr: false }
    }

    /// Begin a tick. `reconfigs` are the reconfigurations that have come in since the last one,
    /// oldest first: only the newest counts.
    pub fn begin_tick(&self, closed: bool, reconfigs: &[MediaParams]) -> (r: TickAction)
        ensures
            r == begun(closed, reconfigs@),
    {
        if closed {
            TickAction::Stop
        } else if reconfigs.len() > 0 {
            TickAction::Reopen(reconfigs[reconfigs.len() - 1])
        } else {
            TickAction::Poll
        }
    }

    /// The pending IDR requests were taken: they are answered by one IDR, the next frame that is
    /// encoded.
    pub fn polled(&mut self, idr_requests: usize) -> (r: TickAction)
        ensures
            *final(self) == polled_with(*old(self), idr_requests as nat),
            r == TickAction::Produce,
    {
        if idr_requests > 0 {
            self.force_idr = true;
        }
        TickAction::Produce
    }

    /// Capture and encoder were opened anew with `params`, or could not be, which ends the
    /// pipeline. The next frame is an IDR, since new parameter sets lead; the frame number goes
    /// on.
    pub fn reopened(&mut self, params: MediaParams, opened: bool) -> (r: TickAction)
        ensures
            (*final(self), r) == reopened_with(*old(self), params, opened),
    {
        if !opened {
            return TickAction::Stop;
        }
        self.params = params;
        self.have = false;
        self.force_idr = true;
        TickAction::Produce
    }

    /// A frame was asked of the source; `filled` says whether a new one came. Synthetic frames
    /// are always there. A captured frame is held and repeats while nothing new arrives; before
    /// the first one there is nothing to send.
    pub fn frame_ready(&mut self, filled: bool) -> (r: FrameAction)
        ensures
            (*final(self), r) == readied(*old(self), filled),
    {
        if filled {
            self.have = true;
        }
        if self.source == CaptureSource::Synthetic || self.have {
            let force_idr: bool = self.force_idr;
            self.force_idr = false;
            FrameAction::Encode { pts: self.frame_seq as i64, force_idr }
        } else {
            FrameAction::Wait
        }
    }

    /// An access unit came out of the encoder: the datagrams to send for it. Each carries the
    /// current frame number, which then moves on.
    pub fn packetize(&mut self, capture_ts: u64, au: &AccessUnit) -> (r: Vec<Vec<u8>>)
        ensures
            *final(self) == advanced(*old(self)),
            r@.len() == fragment_count(frame_body(capture_ts, au.data@).len()),
            forall|i: int|
                0 <= i < r@.len() ==> (#[trigger] r@[i])@ == datagrams(
                    old(self).stream_id,
                    old(self).frame_seq,
                    au.keyframe,
                    frame_body(capture_ts, au.data@),
                )[i],
            ({
                let (next, out) = packetized(*old(self), capture_ts, au.keyframe, au.data@);
                &&& *final(self) == next
                &&& r@.len() == out.len()
                &&& forall|i: int| 0 <= i < out.len() ==> (#[trigger] r@[i])@ == out[i]
            }),
    {
        let mut body: Vec<u8> = Vec::new();
        push_be(&mut body, capture_ts, 8);
        body.extend_from_slice(au.data.as_slice());
        assert(body@ =~= frame_body(capture_ts, au.data@));
        let out: Vec<Vec<u8>> = fragment(
            self.stream_id,
            self.frame_seq,
            au.keyframe,
            body.as_slice(),
        );
        self.frame_seq = if self.frame_seq == u32::MAX {
            0
        } else {
            self.frame_seq + 1
        };
        out
    }
}

/// The next frame deadline, and how long to sleep until it: who has fallen behind gets no
/// sleep, and the debt is dropped.
pub open spec fn paced(next: int, interval: int, now: int) -> (int, int) {
    if next + interval > now {
        (next + interval, next + interval - now)
    } else {
        (now, 0)
    }
}

/// Whoever sleeps as told wakes at the deadline. It is never behind the clock and, where the
/// one before has passed, at most one interval ahead of it.
pub proof fn pace_meets_deadline(next: int, interval: int, now: int)
    requires
        0 <= interval,
    ensures
        now + paced(next, interval, now).1 == paced(next, interval, now).0,
        paced(next, interval, now).0 >= now,
        next <= now ==> paced(next, interval, now).0 <= now + interval,
{
}

/// The next frame deadline, and how long to sleep until it. Times count in one unit from one
/// origin.
pub fn pace(next: u64, interval: u64, now: u64) -> (r: (u64, u64))
    requires
        next + interval <= u64::MAX,
    ensures
        (r.0 as int, r.1 as int) == paced(next as int, interval as int, now as int),
{
    let due: u64 = next + interval;
    if due > now {
        (due, due - now)
    } else {
        (now, 0)
    }
}

/// The encoder is told the same stream shape whatever it is: no B-frames, one reference, no
/// periodic keyframe, repeated headers, no scene-cut keyframes.
pub proof fn config_conforms(p: MediaParams)
    ensures
        ({
            let c = config_of(p);
            let x = crate::encode::x265_settings_of(c);
            let n = crate::encode::nvenc_settings_of(c);
            let v = crate::encode::properties_of(c);
            &&& c.bframes == 0 && c.max_ref == 1 && c.repeat_headers && !c.scenecut
            &&& x.bframes == 0 && x.max_num_references == 1 && x.keyframe_max == i32::MAX
            &&& x.keyframe_min == i32::MAX && x.scenecut_threshold == 0 && x.repeat_headers == 1
            &&& n.max_b_frames == 0 && n.refs == 1 && n.gop_size == i32::MAX
            &&& v[4].value == crate::encode::PropertyValue::Bool(false)
            &&& v[5].value == crate::encode::PropertyValue::Int(1)
            &&& v[7].value == crate::encode::PropertyValue::Int(i32::MAX)
        }),
{
}

} // verus!
