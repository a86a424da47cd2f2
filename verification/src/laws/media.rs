//! What a pipeline does in a tick, and what it sends.

use vstd::prelude::*;
use crate::be::be;
use crate::datagram::{chunk, fragment_count};
use crate::laws::datagram::{datagram_says_its_place, u16_at, u32_at};
use crate::media::{
    DropInjector, FrameAction, Pipeline, TickAction, begun, config_of, drawn, frame_body, idle,
    injector, packetized, paced, polled_with, readied, reopened_with, seq_after, xorshift,
};
use crate::session::MediaParams;

verus! {

/// A frame starts with its capture time, eight bytes and the most significant first, and all that
/// follows is the access unit.
pub proof fn frame_leads_with_its_time(capture_ts: u64, data: Seq<u8>)
    ensures
        ({
            let body = frame_body(capture_ts, data);
            &&& body.len() == 8 + data.len()
            &&& body.skip(8) == data
            &&& body[7] == capture_ts % 0x100
            &&& body[6] == capture_ts / 0x100 % 0x100
            &&& body[5] == capture_ts / 0x1_0000 % 0x100
            &&& body[4] == capture_ts / 0x100_0000 % 0x100
            &&& body[3] == capture_ts / 0x1_0000_0000 % 0x100
            &&& body[2] == capture_ts / 0x100_0000_0000 % 0x100
            &&& body[1] == capture_ts / 0x1_0000_0000_0000 % 0x100
            &&& body[0] == capture_ts / 0x100_0000_0000_0000
        }),
{
    let body = frame_body(capture_ts, data);
    crate::be::lemma_be_len(capture_ts as nat, 8);
    assert(body.skip(8) =~= data);
    reveal_with_fuel(be, 9);
    let t = capture_ts as int;
    assert(t / 256 / 256 == t / 0x1_0000);
    assert(t / 256 / 256 / 256 == t / 0x100_0000);
    assert(t / 256 / 256 / 256 / 256 == t / 0x1_0000_0000);
    assert(t / 256 / 256 / 256 / 256 / 256 == t / 0x100_0000_0000);
    assert(t / 256 / 256 / 256 / 256 / 256 / 256 == t / 0x1_0000_0000_0000);
    assert(t / 256 / 256 / 256 / 256 / 256 / 256 / 256 == t / 0x100_0000_0000_0000);
}

/// An access unit goes out under the number that was due, on the pipeline's stream, marked as a
/// keyframe if and only if it is one, in the pieces of its frame; and the next number is due then.
pub proof fn unit_goes_out_under_its_number(
    p: Pipeline,
    capture_ts: u64,
    keyframe: bool,
    data: Seq<u8>,
    i: int,
)
    requires
        0 <= i < fragment_count(8 + data.len()) <= 0xffff,
    ensures
        ({
            let (q, out) = packetized(p, capture_ts, keyframe, data);
            let b = out[i];
            &&& q == (Pipeline { frame_seq: q.frame_seq, ..p })
            &&& p.frame_seq < 0xffff_ffff ==> q.frame_seq == p.frame_seq + 1
            &&& p.frame_seq == 0xffff_ffff ==> q.frame_seq == 0
            &&& out.len() == fragment_count(8 + data.len())
            &&& b.skip(12) == chunk(frame_body(capture_ts, data), i)
            &&& (b[1] % 2 == 1) == keyframe
            &&& u16_at(b, 2) == p.stream_id
            &&& u32_at(b, 4) == p.frame_seq
            &&& u16_at(b, 8) == i
            &&& u16_at(b, 10) == out.len()
        }),
{
    let body = frame_body(capture_ts, data);
    crate::be::lemma_be_len(capture_ts as nat, 8);
    datagram_says_its_place(p.stream_id, p.frame_seq, keyframe, body, i);
}

/// Frames count up by one, and after the last number from zero again.
pub proof fn frames_count_up(n: u32)
    ensures
        n < 0xffff_ffff ==> seq_after(n) == n + 1,
        n == 0xffff_ffff ==> seq_after(n) == 0,
{
}

/// The encoder gets the stream's size, rate and bitrate, in 32 bits, and a shape that suits a
/// lossy link: no B-frames, one reference, no periodic keyframes, headers with every keyframe, no
/// scene cuts.
pub proof fn encoder_gets_the_stream_parameters(p: MediaParams)
    ensures
        ({
            let c = config_of(p);
            &&& (p.width - c.width) % 0x1_0000_0000 == 0
            &&& (p.height - c.height) % 0x1_0000_0000 == 0
            &&& (p.refresh - c.fps_num) % 0x1_0000_0000 == 0
            &&& c.fps_den == 1
            &&& (p.bitrate_kbps - c.bitrate_kbps) % 0x1_0000_0000 == 0
            &&& p.width <= 0xffff_ffff ==> c.width == p.width
            &&& p.height <= 0xffff_ffff ==> c.height == p.height
            &&& p.refresh <= 0xffff_ffff ==> c.fps_num == p.refresh
            &&& p.bitrate_kbps <= 0xffff_ffff ==> c.bitrate_kbps == p.bitrate_kbps
            &&& c.bframes == 0
            &&& c.max_ref == 1
            &&& c.keyint_max == 0x7fff_ffff
            &&& c.repeat_headers
            &&& !c.scenecut
        }),
{
}

/// A new pipeline has sent nothing, holds no frame and owes no IDR.
pub proof fn pipeline_starts_from_nothing(
    stream_id: u16,
    source: crate::media::CaptureSource,
    params: MediaParams,
)
    ensures
        ({
            let p = idle(stream_id, source, params);
            &&& p.stream_id == stream_id
            &&& p.source == source
            &&& p.params == params
            &&& p.frame_seq == 0
            &&& !p.have
            &&& !p.force_idr
        }),
{
}

/// A closed connection stops the pipeline, whatever else is pending; the last reconfiguration
/// counts, and with none the pipeline goes on.
pub proof fn tick_begins(closed: bool, reconfigs: Seq<MediaParams>, p: MediaParams)
    ensures
        begun(true, reconfigs) == TickAction::Stop,
        begun(false, reconfigs.push(p)) == TickAction::Reopen(p),
        begun(false, Seq::empty()) == TickAction::Poll,
{
}

/// Reopening takes the new parameters, forgets the held frame, and owes an IDR under the number
/// that was due; where it fails, the pipeline stops as it was.
pub proof fn reopening_starts_over(p: Pipeline, params: MediaParams)
    ensures
        reopened_with(p, params, false) == (p, TickAction::Stop),
        ({
            let (q, then) = reopened_with(p, params, true);
            &&& then == TickAction::Produce
            &&& q.params == params
            &&& !q.have
            &&& q.force_idr
            &&& q.frame_seq == p.frame_seq
            &&& q.stream_id == p.stream_id
            &&& q.source == p.source
        }),
{
}

/// Any number of requests owes one IDR, and none owes nothing new.
pub proof fn requests_owe_an_idr(p: Pipeline, n: nat)
    ensures
        n > 0 ==> polled_with(p, n).force_idr,
        n == 0 ==> polled_with(p, n) == p,
        polled_with(p, n).frame_seq == p.frame_seq,
        polled_with(p, n).have == p.have,
        polled_with(p, n).params == p.params,
{
}

/// A pipeline waits exactly while its source is a capture that has not given a frame yet. From
/// the first on every tick has one to encode, timed by its number; the IDR that was owed is paid
/// by it, and waiting changes nothing.
pub proof fn frame_is_encoded_once_there_is_one(p: Pipeline, filled: bool)
    ensures
        ({
            let (q, action) = readied(p, filled);
            &&& action is Wait <==> !(p.source is Synthetic) && !p.have && !filled
            &&& action is Wait ==> q == p
            &&& action is Encode ==> action == (FrameAction::Encode {
                pts: p.frame_seq as i64,
                force_idr: p.force_idr,
            }) && !q.force_idr && q.frame_seq == p.frame_seq
            &&& filled ==> q.have && action is Encode
            &&& p.have ==> q.have
            &&& q.params == p.params && q.stream_id == p.stream_id && q.source == p.source
        }),
{
}

/// Who is on time moves the deadline by one interval, exactly, and sleeps until then; who is late
/// goes on at once, from now.
pub proof fn deadlines_are_one_interval_apart(next: int, interval: int, now: int)
    ensures
        now < next + interval ==> paced(next, interval, now).0 - next == interval && now + paced(
            next,
            interval,
            now,
        ).1 == next + interval,
        now >= next + interval ==> paced(next, interval, now) == (now, 0int),
{
}

/// Every injector starts from the same state, so the same datagrams are lost in every run.
pub proof fn injectors_start_alike(percent: u32, other: u32)
    ensures
        injector(percent).state == 0x9e37_79b9_7f4a_7c15,
        injector(percent).state == injector(other).state,
        injector(percent).percent == percent,
{
}

/// A draw comes down on one of a hundred, which the state alone decides: what is dropped are the
/// percentages above it, so whatever is dropped at one percentage is dropped at every higher one.
/// Drawing changes the state in the same way at every percentage but zero, which draws nothing.
pub proof fn draw_is_one_of_a_hundred(state: u64) -> (r: u32)
    ensures
        r < 100,
        forall|percent: u32|
            (#[trigger] drawn(DropInjector { state, percent })).1 <==> r < percent,
        forall|percent: u32|
            percent > 0 ==> (#[trigger] drawn(DropInjector { state, percent })).0 == (DropInjector {
                state: xorshift(state),
                percent,
            }),
        forall|percent: u32|
            percent == 0 ==> (#[trigger] drawn(DropInjector { state, percent })).0
                == (DropInjector { state, percent }),
        r == xorshift(state) % 100,
{
    (xorshift(state) % 100) as u32
}

/// The state before a step, from the one after it: the shifts by 17, 7 and 13 are undone, the
/// last first.
pub open spec fn unstepped(y: u64) -> u64 {
    let b = y ^ (y << 17u64) ^ (y << 34u64) ^ (y << 51u64);
    let c = b ^ (b >> 7u64);
    let d = c ^ (c >> 14u64);
    let e = d ^ (d >> 28u64);
    let a = e ^ (e >> 56u64);
    a ^ (a << 13u64) ^ (a << 26u64) ^ (a << 39u64) ^ (a << 52u64)
}

/// A step of the generator can be undone.
pub proof fn step_is_undone(x: u64)
    ensures
        unstepped(xorshift(x)) == x,
{
    let y = xorshift(x);
    assert(y == ({
        let a = x ^ (x << 13u64);
        let b = a ^ (a >> 7u64);
        b ^ (b << 17u64)
    }));
    assert(({
        let b = y ^ (y << 17u64) ^ (y << 34u64) ^ (y << 51u64);
        let c = b ^ (b >> 7u64);
        let d = c ^ (c >> 14u64);
        let e = d ^ (d >> 28u64);
        let a = e ^ (e >> 56u64);
        a ^ (a << 13u64) ^ (a << 26u64) ^ (a << 39u64) ^ (a << 52u64)
    }) == x) by (bit_vector)
        requires
            y == ({
                let a = x ^ (x << 13u64);
                let b = a ^ (a >> 7u64);
                b ^ (b << 17u64)
            }),
    ;
}

} // verus!
