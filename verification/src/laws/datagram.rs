//! What stands in a datagram, and which datagrams a receiver takes.

use vstd::prelude::*;
use crate::be::{be, lemma_be_len};
use crate::datagram::{
    DatagramHeader, DecodedDatagram, DropReason, chunk, datagrams, fragment_count, header,
    header_bytes, header_fields, verdict,
};
use crate::reassembly::fragment_of;

verus! {

/// A byte pair, most significant first.
pub open spec fn u16_at(b: Seq<u8>, i: int) -> int {
    b[i] * 0x100 + b[i + 1]
}

/// Four bytes, most significant first.
pub open spec fn u32_at(b: Seq<u8>, i: int) -> int {
    b[i] * 0x100_0000 + b[i + 1] * 0x1_0000 + b[i + 2] * 0x100 + b[i + 3]
}

/// A header holds what it was made of, and marks the last fragment: the one whose place is one
/// below their number. A fragment is what its header says.
pub proof fn header_holds_its_fields(
    keyframe: bool,
    stream_id: u16,
    frame_seq: u32,
    frag_index: u16,
    frag_count: u16,
)
    ensures
        ({
            let h = header(keyframe, stream_id, frame_seq, frag_index, frag_count);
            let f = fragment_of(h);
            &&& h.keyframe == keyframe && f.keyframe == keyframe
            &&& h.last_fragment <==> frag_index + 1 == frag_count
            &&& h.stream_id == stream_id
            &&& h.frame_seq == frame_seq && f.frame_seq == frame_seq
            &&& h.frag_index == frag_index && f.frag_index == frag_index
            &&& h.frag_count == frag_count && f.frag_count == frag_count
        }),
{
}

/// The layout of a header: twelve bytes, the magic, the flags, the stream, the frame number, and
/// the place of the fragment and their number. Flag bit 0 marks a keyframe and bit 1 the last
/// fragment; the other bits are clear.
pub proof fn header_layout(h: DatagramHeader)
    ensures
        ({
            let b = header_bytes(h);
            &&& b.len() == 12
            &&& b[0] == 0x4c
            &&& (b[1] % 2 == 1) == h.keyframe
            &&& (b[1] / 2 == 1) == h.last_fragment
            &&& b[1] < 4
            &&& u16_at(b, 2) == h.stream_id
            &&& u32_at(b, 4) == h.frame_seq
            &&& u16_at(b, 8) == h.frag_index
            &&& u16_at(b, 10) == h.frag_count
        }),
{
    lemma_two(h.stream_id as nat);
    lemma_four(h.frame_seq as nat);
    lemma_two(h.frag_index as nat);
    lemma_two(h.frag_count as nat);
}

proof fn lemma_two(v: nat)
    requires
        v <= 0xffff,
    ensures
        be(v, 2).len() == 2,
        be(v, 2)[0] * 0x100 + be(v, 2)[1] == v,
{
    lemma_be_len(v, 2);
    reveal_with_fuel(be, 3);
}

proof fn lemma_four(v: nat)
    requires
        v <= 0xffff_ffff,
    ensures
        be(v, 4).len() == 4,
        be(v, 4)[0] * 0x100_0000 + be(v, 4)[1] * 0x1_0000 + be(v, 4)[2] * 0x100 + be(v, 4)[3] == v,
{
    lemma_be_len(v, 4);
    reveal_with_fuel(be, 5);
    assert(v / 256 / 256 == v / 0x1_0000);
    assert(v / 256 / 256 / 256 == v / 0x100_0000);
}

/// What a receiver reads from the first twelve bytes.
pub proof fn header_is_read_by_layout(b: Seq<u8>)
    requires
        b.len() >= 12,
    ensures
        ({
            let h = header_fields(b);
            &&& h.keyframe == (b[1] % 2 == 1)
            &&& h.last_fragment == (b[1] / 2 % 2 == 1)
            &&& h.stream_id == u16_at(b, 2)
            &&& h.frame_seq == u32_at(b, 4)
            &&& h.frag_index == u16_at(b, 8)
            &&& h.frag_count == u16_at(b, 10)
        }),
{
    lemma_value2(b, 2);
    lemma_value4(b, 4);
    lemma_value2(b, 8);
    lemma_value2(b, 10);
    let f = b[1];
    assert((f & 1 != 0) == (f % 2 == 1)) by (bit_vector);
    assert((f & 2 != 0) == (f / 2 % 2 == 1)) by (bit_vector);
}

proof fn lemma_value2(b: Seq<u8>, i: int)
    requires
        0 <= i,
        i + 2 <= b.len(),
    ensures
        crate::be::be_value(b.subrange(i, i + 2)) == u16_at(b, i),
        0 <= u16_at(b, i) <= 0xffff,
{
    let s = b.subrange(i, i + 2);
    reveal_with_fuel(crate::be::be_value, 3);
    assert(s.drop_last().drop_last() =~= Seq::empty());
    assert(s.drop_last().last() == b[i]);
}

proof fn lemma_value4(b: Seq<u8>, i: int)
    requires
        0 <= i,
        i + 4 <= b.len(),
    ensures
        crate::be::be_value(b.subrange(i, i + 4)) == u32_at(b, i),
        0 <= u32_at(b, i) <= 0xffff_ffff,
{
    let s = b.subrange(i, i + 4);
    reveal_with_fuel(crate::be::be_value, 5);
    let t = s.drop_last();
    let u = t.drop_last();
    let v = u.drop_last();
    assert(v.drop_last() =~= Seq::empty());
    assert(v.last() == b[i]);
    assert(u.last() == b[i + 1]);
    assert(t.last() == b[i + 2]);
    assert(s.last() == b[i + 3]);
}

/// The rules that a datagram has to meet, in the order in which they are tried.
pub open spec fn breaks(b: Seq<u8>, extra: Seq<u16>, rule: DropReason) -> bool {
    match rule {
        DropReason::TooShort => b.len() < 12,
        DropReason::Oversize => b.len() > 1350,
        DropReason::BadMagic => b[0] != 0x4c,
        DropReason::FragCountZero => u16_at(b, 10) == 0,
        DropReason::FragIndexRange => u16_at(b, 8) >= u16_at(b, 10),
        DropReason::LastFragmentMismatch => (b[1] / 2 % 2 == 1) != (u16_at(b, 8) + 1 == u16_at(
            b,
            10,
        )),
        DropReason::UnknownStream => u16_at(b, 2) > 1 && !extra.contains(u16_at(b, 2) as u16),
    }
}

/// A datagram is dropped for the first rule that it breaks, and taken where it breaks none: with
/// the header that its bytes show, and the number of bytes behind it.
pub proof fn first_broken_rule_drops(b: Seq<u8>, extra: Seq<u16>)
    ensures
        breaks(b, extra, DropReason::TooShort) ==> verdict(b, extra) == Err::<
            DecodedDatagram,
            DropReason,
        >(DropReason::TooShort),
        !breaks(b, extra, DropReason::TooShort) ==> {
            let v = verdict(b, extra);
            if breaks(b, extra, DropReason::Oversize) {
                v == Err::<DecodedDatagram, DropReason>(DropReason::Oversize)
            } else if breaks(b, extra, DropReason::BadMagic) {
                v == Err::<DecodedDatagram, DropReason>(DropReason::BadMagic)
            } else if breaks(b, extra, DropReason::FragCountZero) {
                v == Err::<DecodedDatagram, DropReason>(DropReason::FragCountZero)
            } else if breaks(b, extra, DropReason::FragIndexRange) {
                v == Err::<DecodedDatagram, DropReason>(DropReason::FragIndexRange)
            } else if breaks(b, extra, DropReason::LastFragmentMismatch) {
                v == Err::<DecodedDatagram, DropReason>(DropReason::LastFragmentMismatch)
            } else if breaks(b, extra, DropReason::UnknownStream) {
                v == Err::<DecodedDatagram, DropReason>(DropReason::UnknownStream)
            } else {
                v is Ok && v->Ok_0.payload_len == b.len() - 12 && v->Ok_0.header == header_fields(b)
            }
        },
{
    if b.len() >= 12 {
        header_is_read_by_layout(b);
    }
}

/// How a frame is cut: into pieces of 1338 bytes, of which only the last may be shorter, and one
/// empty piece for an empty frame; no piece more than it takes.
pub proof fn frame_is_cut_into_full_pieces(body: Seq<u8>, i: int)
    requires
        0 <= i < fragment_count(body.len()),
    ensures
        ({
            let n = fragment_count(body.len());
            &&& n >= 1
            &&& body.len() <= 1338 * n
            &&& body.len() > 0 ==> 1338 * (n - 1) < body.len()
            &&& body.len() == 0 ==> n == 1
            &&& i < n - 1 ==> chunk(body, i).len() == 1338
            &&& i == n - 1 ==> chunk(body, i).len() == body.len() - 1338 * (n - 1)
            &&& forall|k: int|
                0 <= k < chunk(body, i).len() ==> #[trigger] chunk(body, i)[k] == body[1338 * i + k]
        }),
{
    let n = fragment_count(body.len());
    assert(i * 1338 == 1338 * i);
}

/// Every datagram of a frame says which stream, which frame, which piece of how many, whether it
/// is the last and whether the frame is a keyframe, and carries the piece.
pub proof fn datagram_says_its_place(
    stream_id: u16,
    frame_seq: u32,
    keyframe: bool,
    body: Seq<u8>,
    i: int,
)
    requires
        0 <= i < fragment_count(body.len()) <= 0xffff,
    ensures
        ({
            let n = fragment_count(body.len());
            let d = datagrams(stream_id, frame_seq, keyframe, body);
            let b = d[i];
            &&& d.len() == n
            &&& b.len() == 12 + chunk(body, i).len()
            &&& b.skip(12) == chunk(body, i)
            &&& b[0] == 0x4c
            &&& b[1] == (if keyframe {
                1int
            } else {
                0
            }) + (if i == n - 1 {
                2int
            } else {
                0
            })
            &&& u16_at(b, 2) == stream_id
            &&& u32_at(b, 4) == frame_seq
            &&& u16_at(b, 8) == i
            &&& u16_at(b, 10) == n
        }),
{
    let n = fragment_count(body.len());
    frame_is_cut_into_full_pieces(body, i);
    let h = crate::datagram::header(keyframe, stream_id, frame_seq, i as u16, n as u16);
    header_layout(h);
    let b = datagrams(stream_id, frame_seq, keyframe, body)[i];
    assert(b == header_bytes(h) + chunk(body, i));
    assert(b.skip(12) =~= chunk(body, i));
}

/// Of a frame of more pieces than 16 bits count, place and number are carried by their low bits.
pub proof fn great_frames_wrap_their_places(
    stream_id: u16,
    frame_seq: u32,
    keyframe: bool,
    body: Seq<u8>,
    i: int,
)
    requires
        0 <= i < fragment_count(body.len()),
    ensures
        ({
            let n = fragment_count(body.len());
            let d = datagrams(stream_id, frame_seq, keyframe, body);
            let b = d[i];
            &&& d.len() == n
            &&& b.skip(12) == chunk(body, i)
            &&& (b[1] % 2 == 1) == keyframe
            &&& u16_at(b, 2) == stream_id
            &&& u32_at(b, 4) == frame_seq
            &&& (u16_at(b, 8) - i) % 0x1_0000 == 0
            &&& (u16_at(b, 10) - n) % 0x1_0000 == 0
        }),
{
    let n = fragment_count(body.len());
    let h = crate::datagram::header(
        keyframe,
        stream_id,
        frame_seq,
        (i % 0x1_0000) as u16,
        (n % 0x1_0000) as u16,
    );
    header_layout(h);
    let b = datagrams(stream_id, frame_seq, keyframe, body)[i];
    assert(b == header_bytes(h) + chunk(body, i));
    assert(b.skip(12) =~= chunk(body, i));
}

} // verus!
