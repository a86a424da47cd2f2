//! What the encoders are told, and what is made of what they hand out.

use vstd::prelude::*;
use crate::annexb::{append_converts, is_idr, prefixed, started, any_idr, walked};
use crate::be::{be, be_round_trip, lemma_be_len, pow256};
use crate::encode::{
    AccessUnit, EncodeError, EncoderConfig, FrameChain, NalUnit, Property, PropertyValue, Sink,
    SliceType, call_returned, chained, collected, converted, first_error, frame_bits_in_range,
    frame_kbit, noted, nvenc_settings_of, packet_received, payloads, picked, properties_of,
    rate_in_range, sets_started, status_of, tolerated, x265_settings_of,
};

verus! {

/// A NAL is an IDR slice exactly if its type, the six bits below the top bit of its first byte,
/// is 19 or 20.
pub proof fn idr_slices_have_their_types(nal: Seq<u8>)
    requires
        nal.len() > 0,
    ensures
        is_idr(nal) <==> 38 <= nal[0] < 42 || 166 <= nal[0] < 170,
{
}

/// The NALs of a stream: each behind three zero bytes and a one.
pub open spec fn stream_of(nals: Seq<Seq<u8>>) -> Seq<u8>
    decreases nals.len(),
{
    if nals.len() == 0 {
        Seq::empty()
    } else {
        stream_of(nals.drop_last()) + seq![0u8, 0u8, 0u8, 1u8] + nals.last()
    }
}

/// The NALs have a byte at least, and a length that `size` bytes can say.
pub open spec fn sized_nals(nals: Seq<Seq<u8>>, size: nat) -> bool {
    forall|i: int|
        0 <= i < nals.len() ==> 0 < (#[trigger] nals[i]).len() < pow256(size) && nals[i].len()
            <= usize::MAX
}

/// Some NAL has type 19 or 20.
pub open spec fn has_key_slice(nals: Seq<Seq<u8>>) -> bool {
    exists|i: int|
        0 <= i < nals.len() && {
            let kind = (#[trigger] nals[i])[0] % 128 / 2;
            kind == 19 || kind == 20
        }
}

proof fn lemma_stream_front(nals: Seq<Seq<u8>>)
    requires
        nals.len() > 0,
    ensures
        stream_of(nals) == seq![0u8, 0u8, 0u8, 1u8] + nals.first() + stream_of(nals.drop_first()),
    decreases nals.len(),
{
    let t = nals.drop_first();
    if t.len() == 0 {
        assert(nals.drop_last() =~= t);
        assert(nals.last() == nals.first());
        assert(stream_of(t) =~= Seq::empty());
        assert(stream_of(nals) =~= seq![0u8, 0u8, 0u8, 1u8] + nals.first() + stream_of(t));
    } else {
        let d = nals.drop_last();
        lemma_stream_front(d);
        assert(d.drop_first() =~= t.drop_last());
        assert(d.first() == nals.first());
        assert(t.last() == nals.last());
        assert(stream_of(nals) =~= seq![0u8, 0u8, 0u8, 1u8] + nals.first() + stream_of(t));
    }
}

proof fn lemma_started(nals: Seq<Seq<u8>>)
    ensures
        started(nals) == stream_of(nals),
    decreases nals.len(),
{
    if nals.len() > 0 {
        lemma_stream_front(nals);
        lemma_started(nals.drop_first());
        assert(started(nals) =~= stream_of(nals));
    }
}

proof fn lemma_key(nals: Seq<Seq<u8>>)
    requires
        forall|i: int| 0 <= i < nals.len() ==> 0 < (#[trigger] nals[i]).len(),
    ensures
        any_idr(nals) == has_key_slice(nals),
{
    if any_idr(nals) {
        let i = choose|i: int| 0 <= i < nals.len() && is_idr(#[trigger] nals[i]);
        idr_slices_have_their_types(nals[i]);
    }
    if has_key_slice(nals) {
        let i = choose|i: int|
            0 <= i < nals.len() && {
                let kind = (#[trigger] nals[i])[0] % 128 / 2;
                kind == 19 || kind == 20
            };
        idr_slices_have_their_types(nals[i]);
        assert(is_idr(nals[i]));
    }
}

/// A well-formed sample becomes a stream of the same NALs, and is a keyframe exactly if one of
/// them is an IDR slice.
pub proof fn sample_becomes_a_stream(nals: Seq<Seq<u8>>, size: nat)
    requires
        1 <= size,
        sized_nals(nals, size),
    ensures
        walked(prefixed(nals, size), size).0 == stream_of(nals),
        walked(prefixed(nals, size), size).1 == Ok::<bool, Seq<char>>(has_key_slice(nals)),
{
    append_converts(nals, size);
    lemma_started(nals);
    lemma_key(nals);
}

/// What comes behind whole NALs is taken by itself: its fault is the sample's, whatever the NALs
/// before it, which are written out up to there.
pub proof fn fault_behind_whole_nals(nals: Seq<Seq<u8>>, size: nat, tail: Seq<u8>)
    requires
        1 <= size,
        sized_nals(nals, size),
    ensures
        walked(prefixed(nals, size) + tail, size).0 == stream_of(nals) + walked(tail, size).0,
        walked(tail, size).1 is Err ==> walked(prefixed(nals, size) + tail, size).1 == walked(
            tail,
            size,
        ).1,
        walked(tail, size).1 is Ok ==> walked(prefixed(nals, size) + tail, size).1 == Ok::<
            bool,
            Seq<char>,
        >(has_key_slice(nals) || walked(tail, size).1->Ok_0),
    decreases nals.len(),
{
    if nals.len() == 0 {
        assert(prefixed(nals, size) + tail =~= tail);
        assert(stream_of(nals) + walked(tail, size).0 =~= walked(tail, size).0);
    } else {
        let nal = nals.first();
        let more = nals.drop_first();
        let src = prefixed(nals, size) + tail;
        assert(nal == nals[0]);
        assert forall|i: int| 0 <= i < more.len() implies 0 < (#[trigger] more[i]).len() < pow256(
            size,
        ) && more[i].len() <= usize::MAX by {
            assert(more[i] == nals[i + 1]);
        }
        fault_behind_whole_nals(more, size, tail);
        lemma_be_len(nal.len(), size);
        be_round_trip(nal.len(), size);
        vstd::arithmetic::div_mod::lemma_small_mod(nal.len(), pow256(size));
        vstd::arithmetic::div_mod::lemma_small_mod(nal.len(), (usize::MAX + 1) as nat);
        assert(src.take(size as int) =~= be(nal.len(), size));
        let rest = src.skip(size as int);
        assert(rest =~= nal + (prefixed(more, size) + tail));
        assert(rest.take(nal.len() as int) =~= nal);
        assert(rest.skip(nal.len() as int) =~= prefixed(more, size) + tail);
        assert(rest[0] == nal[0]);
        lemma_stream_front(nals);
        assert(walked(src, size).0 =~= stream_of(nals) + walked(tail, size).0);
        assert(has_key_slice(nals) == (is_idr(nal) || has_key_slice(more))) by {
            lemma_key(nals);
            lemma_key(more);
            if any_idr(more) {
                let i = choose|i: int| 0 <= i < more.len() && is_idr(#[trigger] more[i]);
                assert(is_idr(nals[i + 1]));
            }
            if any_idr(nals) {
                let i = choose|i: int| 0 <= i < nals.len() && is_idr(#[trigger] nals[i]);
                if i > 0 {
                    assert(is_idr(more[i - 1]));
                }
            }
        }
        assert(is_idr(rest) == is_idr(nal));
    }
}

/// The faults: bytes too few for a length, a length beyond the bytes there are, and a length of
/// zero.
pub proof fn faults_have_their_names(part: Seq<u8>, length: nat, rest: Seq<u8>, size: nat)
    requires
        1 <= size,
        0 < part.len() < size,
        length < pow256(size),
        length <= usize::MAX,
    ensures
        walked(part, size).1 == Err::<bool, Seq<char>>("truncated NAL length prefix"@),
        length > rest.len() ==> walked(be(length, size) + rest, size).1 == Err::<bool, Seq<char>>(
            "NAL length exceeds the access unit"@,
        ),
        length == 0 ==> walked(be(length, size) + rest, size).1 == Err::<bool, Seq<char>>(
            "zero-length NAL"@,
        ),
{
    let src = be(length, size) + rest;
    lemma_be_len(length, size);
    be_round_trip(length, size);
    vstd::arithmetic::div_mod::lemma_small_mod(length, pow256(size));
    vstd::arithmetic::div_mod::lemma_small_mod(length, (usize::MAX + 1) as nat);
    assert(src.take(size as int) =~= be(length, size));
    assert(src.skip(size as int) =~= rest);
}

/// What the views of the sets hold.
pub open spec fn set_bytes(sets: Seq<Vec<u8>>) -> Seq<Seq<u8>> {
    Seq::new(sets.len(), |i: int| sets[i]@)
}

proof fn lemma_sets(sets: Seq<Vec<u8>>)
    ensures
        sets_started(sets) == stream_of(set_bytes(sets)),
    decreases sets.len(),
{
    if sets.len() > 0 {
        lemma_sets(sets.drop_last());
        assert(set_bytes(sets).drop_last() =~= set_bytes(sets.drop_last()));
        assert(sets_started(sets) =~= stream_of(set_bytes(sets)));
    }
}

/// The access unit of a well-formed sample: the NALs as a stream and, where it is a keyframe and
/// headers are repeated, the parameter sets before them; and no parameter sets anywhere else.
pub proof fn keyframes_lead_with_their_headers(
    nals: Seq<Seq<u8>>,
    size: i32,
    sets: Vec<Vec<u8>>,
    repeat_headers: bool,
    r: core::result::Result<AccessUnit, EncodeError>,
)
    requires
        1 <= size,
        sized_nals(nals, size as nat),
        converted(prefixed(nals, size as nat), size, Ok(sets), repeat_headers, r),
    ensures
        r is Ok,
        r->Ok_0.keyframe == has_key_slice(nals),
        has_key_slice(nals) && repeat_headers ==> r->Ok_0.data@ == stream_of(
            set_bytes(sets@) + nals,
        ),
        !(has_key_slice(nals) && repeat_headers) ==> r->Ok_0.data@ == stream_of(nals),
{
    sample_becomes_a_stream(nals, size as nat);
    lemma_sets(sets@);
    lemma_stream_adds(set_bytes(sets@), nals);
    assert(r->Ok_0@.data == r->Ok_0.data@);
}

proof fn lemma_stream_adds(a: Seq<Seq<u8>>, b: Seq<Seq<u8>>)
    ensures
        stream_of(a + b) == stream_of(a) + stream_of(b),
    decreases b.len(),
{
    if b.len() == 0 {
        assert(a + b =~= a);
        assert(stream_of(a) + stream_of(b) =~= stream_of(a));
    } else {
        lemma_stream_adds(a, b.drop_last());
        assert((a + b).drop_last() =~= a + b.drop_last());
        assert(stream_of(a + b) =~= stream_of(a) + stream_of(b));
    }
}

/// Parameter sets that cannot be had fail a keyframe that needs them, with the status, and
/// nothing else.
pub proof fn missing_headers_fail_keyframes_only(
    nals: Seq<Seq<u8>>,
    size: i32,
    status: i32,
    repeat_headers: bool,
    r: core::result::Result<AccessUnit, EncodeError>,
)
    requires
        1 <= size,
        sized_nals(nals, size as nat),
        converted(prefixed(nals, size as nat), size, Err(status), repeat_headers, r),
    ensures
        r is Err <==> has_key_slice(nals) && repeat_headers,
        r is Err ==> r->Err_0 == EncodeError::VideoToolbox(status),
        r is Ok ==> r->Ok_0.data@ == stream_of(nals) && r->Ok_0.keyframe == has_key_slice(nals),
{
    sample_becomes_a_stream(nals, size as nat);
    if r is Ok {
        assert(r->Ok_0@.data == r->Ok_0.data@);
    }
}

/// The units of the software encoder are put together in order, nothing between them, and make a
/// keyframe exactly if one has type 19 or 20.
pub proof fn units_are_put_together(a: Seq<NalUnit>, n: NalUnit, b: Seq<NalUnit>)
    ensures
        collected(a + b).data == collected(a).data + collected(b).data,
        collected(seq![n]).data == n.payload@,
        collected(Seq::empty()).data.len() == 0,
        collected(a + b).keyframe == (collected(a).keyframe || collected(b).keyframe),
        collected(seq![n]).keyframe == (n.kind == 19 || n.kind == 20),
        !collected(Seq::empty()).keyframe,
{
    lemma_payloads_add(a, b);
    assert(seq![n].drop_last() =~= Seq::empty());
    assert(payloads(seq![n]) =~= n.payload@) by {
        reveal_with_fuel(payloads, 2);
    }
    let s = a + b;
    if collected(a).keyframe {
        let i = choose|i: int|
            0 <= i < a.len() && crate::encode::idr_kind((#[trigger] a[i]).kind);
        assert(s[i] == a[i]);
    }
    if collected(b).keyframe {
        let i = choose|i: int|
            0 <= i < b.len() && crate::encode::idr_kind((#[trigger] b[i]).kind);
        assert(s[a.len() + i] == b[i]);
    }
    if collected(s).keyframe {
        let i = choose|i: int|
            0 <= i < s.len() && crate::encode::idr_kind((#[trigger] s[i]).kind);
        if i < a.len() {
            assert(s[i] == a[i]);
        } else {
            assert(s[i] == b[i - a.len()]);
        }
    }
    assert(seq![n][0] == n);
}

proof fn lemma_payloads_add(a: Seq<NalUnit>, b: Seq<NalUnit>)
    ensures
        payloads(a + b) == payloads(a) + payloads(b),
    decreases b.len(),
{
    if b.len() == 0 {
        assert(a + b =~= a);
        assert(payloads(a) + payloads(b) =~= payloads(a));
    } else {
        lemma_payloads_add(a, b.drop_last());
        assert((a + b).drop_last() =~= a + b.drop_last());
        assert(payloads(a + b) =~= payloads(a) + payloads(b));
    }
}

/// `a` and `b` are the same in 32 bits.
pub open spec fn same32(a: int, b: int) -> bool {
    (a - b) % 0x1_0000_0000 == 0
}

/// The software encoder gets the configuration as it is, in 32 bits: the size, the rate, the
/// limits on B-frames and references, one interval for keyframes, and the bitrate.
pub proof fn software_encoder_is_told_the_configuration(cfg: EncoderConfig)
    ensures
        ({
            let s = x265_settings_of(cfg);
            &&& same32(s.source_width as int, cfg.width as int)
            &&& same32(s.source_height as int, cfg.height as int)
            &&& s.fps_num == cfg.fps_num
            &&& s.fps_denom == cfg.fps_den
            &&& same32(s.bframes as int, cfg.bframes as int)
            &&& same32(s.max_num_references as int, cfg.max_ref as int)
            &&& s.keyframe_max == cfg.keyint_max
            &&& s.keyframe_min == cfg.keyint_max
            &&& s.scenecut_threshold == 0 <==> !cfg.scenecut
            &&& cfg.scenecut ==> s.scenecut_threshold == 40
            &&& s.repeat_headers == 1 <==> cfg.repeat_headers
            &&& s.repeat_headers == 0 <==> !cfg.repeat_headers
            &&& same32(s.bitrate as int, cfg.bitrate_kbps as int)
            &&& s.vbv_max_bitrate == s.bitrate
        }),
{
}

/// Its buffer takes one frame's share of the bitrate, rounded down, but no less than one kbit. A
/// rate with a zero in it is taken as one with a one.
pub proof fn software_buffer_is_one_frame(cfg: EncoderConfig, num: int, den: int)
    requires
        num == if cfg.fps_num == 0 { 1 } else { cfg.fps_num as int },
        den == if cfg.fps_den == 0 { 1 } else { cfg.fps_den as int },
        num < 0x8000_0000,
        cfg.bitrate_kbps * den < 0x8000_0000,
    ensures
        ({
            let kbit = x265_settings_of(cfg).vbv_buffer_size as int;
            &&& kbit >= 1
            &&& kbit == 1 || kbit * num <= cfg.bitrate_kbps * den
            &&& cfg.bitrate_kbps * den < (kbit + 1) * num
        }),
{
    let kbps = cfg.bitrate_kbps as int;
    let product = kbps * den;
    if kbps > 0 {
        assert(kbps < 0x8000_0000 && den < 0x8000_0000 && 0 < product) by (nonlinear_arith)
            requires
                product == kbps * den,
                product < 0x8000_0000,
                kbps >= 1,
                den >= 1,
        ;
    } else {
        assert(product == 0) by (nonlinear_arith)
            requires
                product == kbps * den,
                kbps == 0,
        ;
        assert(0 * crate::frame::signed32(den) == 0);
    }
    let q = product / num;
    assert(0 <= q <= product && q * num <= product < (q + 1) * num) by (nonlinear_arith)
        requires
            q == product / num,
            num >= 1,
            product >= 0,
    ;
    assert(frame_kbit(cfg) == if q < 1 {
        1
    } else {
        q
    });
    if q < 1 {
        assert(product < 2 * num) by (nonlinear_arith)
            requires
                product < (q + 1) * num,
                q < 1,
                num >= 1,
        ;
    }
}

/// So does the libav encoder, with rates in bits: a thousand to the kbit.
pub proof fn libav_encoder_is_told_the_configuration(cfg: EncoderConfig)
    ensures
        ({
            let s = nvenc_settings_of(cfg);
            &&& same32(s.width as int, cfg.width as int)
            &&& same32(s.height as int, cfg.height as int)
            &&& same32(s.fps_num as int, cfg.fps_num as int)
            &&& same32(s.fps_den as int, cfg.fps_den as int)
            &&& s.gop_size == cfg.keyint_max
            &&& same32(s.max_b_frames as int, cfg.bframes as int)
            &&& same32(s.refs as int, cfg.max_ref as int)
            &&& s.bit_rate == 1000 * cfg.bitrate_kbps
        }),
{
}

/// Its buffer takes one frame's share of the bits, rounded down, in 32 bits.
pub proof fn libav_buffer_is_one_frame(cfg: EncoderConfig, num: int, den: int) -> (bits: int)
    requires
        num == if cfg.fps_num == 0 { 1 } else { cfg.fps_num as int },
        den == if cfg.fps_den == 0 { 1 } else { cfg.fps_den as int },
    ensures
        bits * num <= 1000 * cfg.bitrate_kbps * den < (bits + 1) * num,
        same32(nvenc_settings_of(cfg).rc_buffer_size as int, bits),
{
    let kbps = cfg.bitrate_kbps as int;
    let product = kbps * 1000 * den;
    assert(product == 1000 * kbps * den);
    assert(0 <= product) by (nonlinear_arith)
        requires
            product == kbps * 1000 * den,
            kbps >= 0,
            den >= 1,
    ;
    let q = product / num;
    assert(0 <= q <= product && q * num <= product < (q + 1) * num) by (nonlinear_arith)
        requires
            q == product / num,
            num >= 1,
            product >= 0,
    ;
    q
}

/// What a compression session is told of the stream: no reordering without B-frames, the
/// reference limit, the interval of keyframes by count and none by time, and the bitrate in bits,
/// as far as 31 of them go. What defines the stream is no hint.
pub proof fn session_is_told_the_configuration(cfg: EncoderConfig)
    ensures
        properties_of(cfg).contains(
            Property {
                name: "AllowFrameReordering",
                hint: false,
                value: PropertyValue::Bool(cfg.bframes != 0),
            },
        ),
        forall|n: i32|
            same32(n as int, cfg.max_ref as int) ==> #[trigger] properties_of(cfg).contains(
            Property {
                name: "ReferenceBufferCount",
                hint: false,
                value: PropertyValue::Int(n),
            },
        ),
        properties_of(cfg).contains(
            Property {
                name: "MaxKeyFrameInterval",
                hint: false,
                value: PropertyValue::Int(cfg.keyint_max),
            },
        ),
        properties_of(cfg).contains(
            Property {
                name: "MaxKeyFrameIntervalDuration",
                hint: false,
                value: PropertyValue::Ratio(0, 1),
            },
        ),
        properties_of(cfg).contains(
            Property { name: "ProfileLevel", hint: false, value: PropertyValue::MainAutoLevel },
        ),
        properties_of(cfg).contains(
            Property {
                name: "AllowTemporalCompression",
                hint: false,
                value: PropertyValue::Bool(true),
            },
        ),
        properties_of(cfg).contains(
            Property { name: "RealTime", hint: true, value: PropertyValue::Bool(true) },
        ),
        properties_of(cfg).contains(
            Property {
                name: "PrioritizeEncodingSpeedOverQuality",
                hint: true,
                value: PropertyValue::Bool(true),
            },
        ),
        cfg.fps_den != 0 ==> properties_of(cfg).contains(
            Property {
                name: "ExpectedFrameRate",
                hint: true,
                value: PropertyValue::Ratio(cfg.fps_num, cfg.fps_den),
            },
        ),
        cfg.bitrate_kbps <= 2_147_483 ==> properties_of(cfg).contains(
            Property {
                name: "AverageBitRate",
                hint: false,
                value: PropertyValue::Int((1000 * cfg.bitrate_kbps) as i32),
            },
        ),
        cfg.bitrate_kbps > 2_147_483 ==> properties_of(cfg).contains(
            Property {
                name: "AverageBitRate",
                hint: false,
                value: PropertyValue::Int(0x7fff_ffff),
            },
        ),
        properties_of(cfg).len() == 10,
{
    let p = properties_of(cfg);
    assert(p.contains(p[0]));
    assert(p.contains(p[1]));
    assert(p.contains(p[2]));
    assert(p.contains(p[3]));
    assert(p.contains(p[4]));
    assert(p.contains(p[5]));
    assert(p.contains(p[6]));
    assert(p.contains(p[7]));
    assert(p.contains(p[8]));
    assert(p.contains(p[9]));
}

/// The first status is the one that is kept, and an error that has none counts as -1.
pub proof fn first_status_is_kept(a: i32, b: i32)
    ensures
        first_error(None, a) == Some(a),
        first_error(first_error(None, a), b) == Some(a),
        status_of(EncodeError::VideoToolbox(a)) == a,
        status_of(EncodeError::Encode(a)) == -1,
        forall|text: &'static str| #[trigger] status_of(EncodeError::Bitstream(text)) == -1,
{
}

/// A chain from its start, a frame for each flag: the chain, and how the frames are coded.
pub open spec fn coded(forced: Seq<bool>) -> (FrameChain, Seq<SliceType>)
    decreases forced.len(),
{
    if forced.len() == 0 {
        (FrameChain { started: false }, Seq::empty())
    } else {
        let (c, before) = coded(forced.drop_last());
        let (next, slice) = chained(c, forced.last());
        (next, before.push(slice))
    }
}

/// The first frame of a chain and every forced one are IDRs, and no other frame is.
pub proof fn idrs_are_first_or_forced(forced: Seq<bool>, i: int)
    requires
        0 <= i < forced.len(),
    ensures
        coded(forced).1.len() == forced.len(),
        coded(forced).1[i] == SliceType::Idr <==> i == 0 || forced[i],
    decreases forced.len(),
{
    lemma_coded(forced);
    let t = forced.drop_last();
    lemma_coded(t);
    if i < t.len() {
        idrs_are_first_or_forced(t, i);
    }
}

proof fn lemma_coded(forced: Seq<bool>)
    ensures
        coded(forced).1.len() == forced.len(),
        coded(forced).0.started <==> forced.len() > 0,
    decreases forced.len(),
{
    if forced.len() > 0 {
        lemma_coded(forced.drop_last());
    }
}

/// A unit that the encoder puts out is picked up once, a newer one takes the place of an older,
/// and a dropped frame leaves everything as it was.
pub proof fn unit_is_picked_up_once(s: Sink, au: AccessUnit, newer: AccessUnit)
    requires
        s.error is None,
    ensures
        ({
            let (after, r) = picked(noted(s, 0, Some(Ok(au))));
            &&& r == Ok::<Option<AccessUnit>, EncodeError>(Some(au))
            &&& picked(after).1 == Ok::<Option<AccessUnit>, EncodeError>(None)
            &&& after.repeat_headers == s.repeat_headers
        }),
        picked(noted(noted(s, 0, Some(Ok(au))), 0, Some(Ok(newer)))).1 == Ok::<
            Option<AccessUnit>,
            EncodeError,
        >(Some(newer)),
        noted(s, 0, None) == s,
{
}

/// Of several failures the first is reported, once; a unit that is there is not lost by it. A
/// failed conversion counts as a failure.
pub proof fn first_failure_is_reported_once(
    s: Sink,
    a: i32,
    b: i32,
    sample: Option<core::result::Result<AccessUnit, EncodeError>>,
    e: EncodeError,
)
    requires
        s.error is None,
        a != 0,
        b != 0,
    ensures
        ({
            let (after, r) = picked(noted(noted(s, a, sample), b, sample));
            &&& r == Err::<Option<AccessUnit>, EncodeError>(EncodeError::VideoToolbox(a))
            &&& after == s
            &&& picked(after).1 == Ok::<Option<AccessUnit>, EncodeError>(s.au)
        }),
        picked(noted(s, 0, Some(Err(EncodeError::VideoToolbox(a))))).1 == Err::<
            Option<AccessUnit>,
            EncodeError,
        >(EncodeError::VideoToolbox(a)),
        !(e is VideoToolbox) ==> picked(noted(s, 0, Some(Err(e)))).1 == Err::<
            Option<AccessUnit>,
            EncodeError,
        >(EncodeError::VideoToolbox(-1i32)),
{
}

/// The kbit of a frame are in range exactly if bitrate and denominator multiply to less than two
/// to the 31st, for rates below that, and its bits if a thousand times that is below two to the
/// 63rd.
pub proof fn rates_in_range(cfg: EncoderConfig)
    requires
        cfg.bitrate_kbps < 0x8000_0000,
        0 < cfg.fps_num < 0x8000_0000,
        0 < cfg.fps_den < 0x8000_0000,
    ensures
        rate_in_range(cfg) <==> cfg.bitrate_kbps * cfg.fps_den < 0x8000_0000,
        frame_bits_in_range(cfg) <==> 1000 * cfg.bitrate_kbps * cfg.fps_den
            < 0x8000_0000_0000_0000,
{
    assert(0 <= cfg.bitrate_kbps * cfg.fps_den) by (nonlinear_arith);
}

/// A packet is a unit with all of its bytes, and a keyframe exactly if its flags are odd. The
/// status -11 says that there is none yet, and every other negative one is an error of its own.
pub proof fn packet_is_a_unit(ret: i32, flags: i32, data: Vec<u8>)
    ensures
        ret == -11 ==> packet_received(ret, flags, data) == Ok::<Option<AccessUnit>, EncodeError>(
            None,
        ),
        ret < 0 && ret != -11 ==> packet_received(ret, flags, data) == Err::<
            Option<AccessUnit>,
            EncodeError,
        >(EncodeError::Av(ret)),
        ret >= 0 ==> packet_received(ret, flags, data) is Ok && packet_received(
            ret,
            flags,
            data,
        )->Ok_0 is Some,
        ret >= 0 ==> packet_received(ret, flags, data)->Ok_0->0.data == data,
        ret >= 0 ==> packet_received(ret, flags, data)->Ok_0->0.keyframe == (flags as int % 2 == 1),
{
    assert(flags & 1 != 0 <==> flags % 2 == 1) by (bit_vector);
}

/// A call of the software encoder that puts something out makes a unit of all of it; one that
/// puts out nothing is no failure, and a negative status is an error of its own.
pub proof fn call_makes_a_unit(ret: i32, nals: Seq<NalUnit>)
    ensures
        call_returned(ret, nals) is Err <==> ret < 0,
        ret < 0 ==> call_returned(ret, nals)->Err_0 == EncodeError::Encode(ret),
        ret > 0 && nals.len() > 0 ==> call_returned(ret, nals) == Ok::<
            Option<crate::encode::Unit>,
            EncodeError,
        >(Some(collected(nals))),
        ret >= 0 && (ret == 0 || nals.len() == 0) ==> call_returned(ret, nals) == Ok::<
            Option<crate::encode::Unit>,
            EncodeError,
        >(None),
{
}

/// What defines the stream must be set; a hint may be unknown to the encoder (-12900), but not
/// fail otherwise.
pub proof fn only_unknown_hints_are_tolerated(status: i32)
    ensures
        tolerated(false, status) <==> status == 0,
        tolerated(true, status) <==> status == 0 || status == -12900,
{
}

} // verus!
