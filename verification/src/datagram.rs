//! Video and audio datagram framing.
//!
//! The 12-byte, big-endian header:
//! ```text
//! 0  u8   magic     = 0x4C ('L')
//! 1  u8   flags     bit0 KEYFRAME, bit1 LAST_FRAGMENT, bits2-7 reserved
//! 2  u16  stream_id 0=video, 1=audio
//! 4  u32  frame_seq per-stream, +1 per frame, never wraps
//! 8  u16  frag_index
//! 10 u16  frag_count
//! ```

use vstd::prelude::*;
use crate::be::{be, be_round_trip, be_value, lemma_be_len, lemma_pow256_values, read_be};

verus! {

/// Header magic byte: ASCII `'L'`.
pub const MAGIC: u8 = 0x4C;

/// `flags` bit 0, set on all fragments of a keyframe (video only).
pub const FLAG_KEYFRAME: u8 = 0x01;

/// `flags` bit 1, set if and only if `frag_index == frag_count - 1`.
pub const FLAG_LAST_FRAGMENT: u8 = 0x02;

/// Fixed header length in bytes.
pub const HEADER_LEN: usize = 12;

/// Maximum total datagram size (header and payload).
pub const MAX_DATAGRAM_LEN: usize = 1350;

/// Maximum payload bytes per datagram.
pub const MAX_PAYLOAD: usize = 1338;

/// A decoded (or to-be-encoded) datagram header.
#[derive(Clone, Copy, Debug, PartialEq, Eq)]
pub struct DatagramHeader {
    /// KEYFRAME flag (video only).
    pub keyframe: bool,
    /// LAST_FRAGMENT flag; must equal `frag_index == frag_count - 1`.
    pub last_fragment: bool,
    /// 0 = video, 1 = audio.
    pub stream_id: u16,
    /// Per-stream monotonically increasing frame counter.
    pub frame_seq: u32,
    /// 0-based fragment index within the frame.
    pub frag_index: u16,
    /// Total fragment count for this frame (identical across its fragments).
    pub frag_count: u16,
}

/// The header of one fragment: it is the last exactly where its index is one below the
/// count.
pub open spec fn header(
    keyframe: bool,
    stream_id: u16,
    frame_seq: u32,
    frag_index: u16,
    frag_count: u16,
) -> DatagramHeader {
    DatagramHeader {
        keyframe,
        last_fragment: frag_index == frag_count - 1,
        stream_id,
        frame_seq,
        frag_index,
        frag_count,
    }
}

/// The `flags` byte: bit 0 for a keyframe, bit 1 for the last fragment, the rest zero.
pub open spec fn flags_byte(h: DatagramHeader) -> u8 {
    ((if h.keyframe {
        1int
    } else {
        0
    }) + (if h.last_fragment {
        2int
    } else {
        0
    })) as u8
}

/// The 12 header bytes.
pub open spec fn header_bytes(h: DatagramHeader) -> Seq<u8> {
    seq![MAGIC, flags_byte(h)] + be(h.stream_id as nat, 2) + be(h.frame_seq as nat, 4) + be(
        h.frag_index as nat,
        2,
    ) + be(h.frag_count as nat, 2)
}

proof fn lemma_be_small(v: nat)
    ensures
        be(v, 2) == seq![(v / 256 % 256) as u8, (v % 256) as u8],
        be(v, 4) == seq![
            (v / 0x100_0000 % 256) as u8,
            (v / 0x1_0000 % 256) as u8,
            (v / 256 % 256) as u8,
            (v % 256) as u8,
        ],
{
    reveal_with_fuel(be, 5);
    assert(be(v, 2) =~= seq![(v / 256 % 256) as u8, (v % 256) as u8]);
    assert(v / 256 / 256 == v / 0x1_0000);
    assert(v / 256 / 256 / 256 == v / 0x100_0000);
    assert(be(v, 4) =~= seq![
        (v / 0x100_0000 % 256) as u8,
        (v / 0x1_0000 % 256) as u8,
        (v / 256 % 256) as u8,
        (v % 256) as u8,
    ]);
}

impl DatagramHeader {
    /// A header for a fragment, with the last-fragment flag derived from its position.
    pub fn new(
        keyframe: bool,
        stream_id: u16,
        frame_seq: u32,
        frag_index: u16,
        frag_count: u16,
    ) -> (r: Self)
        ensures
            r == header(keyframe, stream_id, frame_seq, frag_index, frag_count),
    {
        let last_fragment: bool = frag_count > 0 && frag_index == frag_count - 1;
        Self { keyframe, last_fragment, stream_id, frame_seq, frag_index, frag_count }
    }

    /// The `flags` byte for this header (reserved bits always zero).
    pub fn flags(&self) -> (r: u8)
        ensures
            r == flags_byte(*self),
    {
        let mut f: u8 = 0;
        if self.keyframe {
            f += FLAG_KEYFRAME;
        }
        if self.last_fragment {
            f += FLAG_LAST_FRAGMENT;
        }
        f
    }

    /// The 12-byte big-endian header.
    pub fn to_bytes(&self) -> (r: [u8; HEADER_LEN])
        ensures
            r@ == header_bytes(*self),
    {
        let s: u16 = self.stream_id;
        let q: u32 = self.frame_seq;
        let i: u16 = self.frag_index;
        let c: u16 = self.frag_count;
        proof {
            lemma_be_small(s as nat);
            lemma_be_small(q as nat);
            lemma_be_small(i as nat);
            lemma_be_small(c as nat);
        }
        let b: [u8; HEADER_LEN] = [
            MAGIC,
            self.flags(),
            (s / 256) as u8,
            (s % 256) as u8,
            (q / 0x100_0000) as u8,
            (q / 0x1_0000 % 256) as u8,
            (q / 256 % 256) as u8,
            (q % 256) as u8,
            (i / 256) as u8,
            (i % 256) as u8,
            (c / 256) as u8,
            (c % 256) as u8,
        ];
        assert(b@ =~= header_bytes(*self));
        b
    }

    /// Header and payload as one datagram.
    pub fn encode(&self, payload: &[u8]) -> (r: Vec<u8>)
        ensures
            r@ == header_bytes(*self) + payload@,
    {
        let mut out: Vec<u8> = Vec::new();
        let h: [u8; HEADER_LEN] = self.to_bytes();
        out.extend_from_slice(h.as_slice());
        out.extend_from_slice(payload);
        assert(out@ =~= header_bytes(*self) + payload@);
        out
    }
}

/// How many fragments a body of `len` bytes takes: one per started payload, and one for
/// an empty body.
pub open spec fn fragment_count(len: nat) -> nat {
    if len == 0 {
        1
    } else {
        ((len + MAX_PAYLOAD as nat - 1) / MAX_PAYLOAD as int) as nat
    }
}

/// The payload of fragment `i`.
pub open spec fn chunk(body: Seq<u8>, i: int) -> Seq<u8> {
    let start = i * MAX_PAYLOAD;
    let end = if start + MAX_PAYLOAD <= body.len() {
        start + MAX_PAYLOAD
    } else {
        body.len() as int
    };
    body.subrange(start, end)
}

/// The datagrams of a frame body, in order. Index and count are carried in 16 bits.
pub open spec fn datagrams(
    stream_id: u16,
    frame_seq: u32,
    keyframe: bool,
    body: Seq<u8>,
) -> Seq<Seq<u8>> {
    let n = fragment_count(body.len());
    Seq::new(
        n,
        |i: int|
            header_bytes(
                header(
                    keyframe,
                    stream_id,
                    frame_seq,
                    (i % 0x1_0000) as u16,
                    (n % 0x1_0000) as u16,
                ),
            ) + chunk(body, i),
    )
}

proof fn lemma_fragment_count(len: nat)
    ensures
        fragment_count(len) >= 1,
        (fragment_count(len) - 1) * MAX_PAYLOAD <= len,
        len <= fragment_count(len) * MAX_PAYLOAD,
        len > 0 ==> (fragment_count(len) - 1) * MAX_PAYLOAD < len,
{
}

/// Fragment a complete frame body into ordered datagrams, the send-side inverse of
/// reassembly. For video the body is the capture timestamp (`u64`, big-endian) followed
/// by the Annex-B access unit, so the timestamp lands in fragment 0 only.
///
/// `frag_count` is identical across the frame's fragments and the last fragment is
/// flagged, exactly as the receiver validates.
pub fn fragment(stream_id: u16, frame_seq: u32, keyframe: bool, body: &[u8]) -> (r: Vec<Vec<u8>>)
    ensures
        r@.len() == fragment_count(body@.len()),
        forall|i: int|
            0 <= i < r@.len() ==> (#[trigger] r@[i])@ == datagrams(
                stream_id,
                frame_seq,
                keyframe,
                body@,
            )[i],
{
    let len: usize = body.len();
    let count: usize = if len == 0 {
        1
    } else {
        (len - 1) / MAX_PAYLOAD + 1
    };
    let ghost n = fragment_count(body@.len());
    proof {
        lemma_fragment_count(body@.len());
        assert(count == n);
    }
    let mut out: Vec<Vec<u8>> = Vec::new();
    let mut start: usize = 0;
    let mut idx: usize = 0;
    while idx < count
        invariant
            idx <= count,
            count == n,
            n == fragment_count(body@.len()),
            len == body@.len(),
            (n - 1) * MAX_PAYLOAD <= len <= n * MAX_PAYLOAD,
            idx < count ==> start == idx * MAX_PAYLOAD,
            out@.len() == idx,
            forall|i: int|
                0 <= i < idx ==> (#[trigger] out@[i])@ == datagrams(
                    stream_id,
                    frame_seq,
                    keyframe,
                    body@,
                )[i],
        decreases count - idx,
    {
        assert(start <= len);
        let end: usize = if len - start >= MAX_PAYLOAD {
            start + MAX_PAYLOAD
        } else {
            len
        };
        let payload: &[u8] = vstd::slice::slice_subrange(body, start, end);
        let header = DatagramHeader::new(
            keyframe,
            stream_id,
            frame_seq,
            (idx % 0x1_0000) as u16,
            (count % 0x1_0000) as u16,
        );
        out.push(header.encode(payload));
        assert(out@[idx as int]@ == datagrams(stream_id, frame_seq, keyframe, body@)[idx as int]);
        start = end;
        idx += 1;
    }
    out
}

/// Why a datagram was dropped on decode. All of these are silent drops in production.
#[derive(Clone, Copy, Debug, PartialEq, Eq)]
pub enum DropReason {
    /// Fewer than 12 bytes: no room for a header.
    TooShort,
    /// More than 1350 bytes in total.
    Oversize,
    /// First byte is not `0x4C`.
    BadMagic,
    /// `frag_count` is zero.
    FragCountZero,
    /// `frag_index >= frag_count`.
    FragIndexRange,
    /// The last-fragment flag disagrees with `frag_index == frag_count - 1`.
    LastFragmentMismatch,
    /// `stream_id` is neither 0 (video) nor 1 (audio) nor a negotiated video stream.
    UnknownStream,
}

/// What `DropReason::as_str` returns.
pub open spec fn reason_name(r: DropReason) -> Seq<char> {
    match r {
        DropReason::TooShort => "too_short"@,
        DropReason::Oversize => "oversize"@,
        DropReason::BadMagic => "bad_magic"@,
        DropReason::FragCountZero => "frag_count_zero"@,
        DropReason::FragIndexRange => "frag_index_range"@,
        DropReason::LastFragmentMismatch => "last_fragment_mismatch"@,
        DropReason::UnknownStream => "unknown_stream"@,
    }
}

impl DropReason {
    /// The stable reason string.
    pub fn as_str(&self) -> (r: &'static str)
        ensures
            r@ == reason_name(*self),
    {
        match self {
            DropReason::TooShort => "too_short",
            DropReason::Oversize => "oversize",
            DropReason::BadMagic => "bad_magic",
            DropReason::FragCountZero => "frag_count_zero",
            DropReason::FragIndexRange => "frag_index_range",
            DropReason::LastFragmentMismatch => "last_fragment_mismatch",
            DropReason::UnknownStream => "unknown_stream",
        }
    }
}

/// A successfully decoded datagram: its header and the payload length.
#[derive(Clone, Copy, Debug, PartialEq, Eq)]
pub struct DecodedDatagram {
    /// The parsed header.
    pub header: DatagramHeader,
    /// Payload length (`total - 12`).
    pub payload_len: usize,
}

/// The fields that stand in the first twelve bytes, whatever they are.
pub open spec fn header_fields(bytes: Seq<u8>) -> DatagramHeader {
    DatagramHeader {
        keyframe: bytes[1] & FLAG_KEYFRAME != 0,
        last_fragment: bytes[1] & FLAG_LAST_FRAGMENT != 0,
        stream_id: be_value(bytes.subrange(2, 4)) as u16,
        frame_seq: be_value(bytes.subrange(4, 8)) as u32,
        frag_index: be_value(bytes.subrange(8, 10)) as u16,
        frag_count: be_value(bytes.subrange(10, 12)) as u16,
    }
}

/// The verdict on a datagram: the first rule it breaks, in this order, or its header.
pub open spec fn verdict(bytes: Seq<u8>, extra: Seq<u16>) -> core::result::Result<
    DecodedDatagram,
    DropReason,
> {
    let h = header_fields(bytes);
    if bytes.len() < HEADER_LEN {
        Err(DropReason::TooShort)
    } else if bytes.len() > MAX_DATAGRAM_LEN {
        Err(DropReason::Oversize)
    } else if bytes[0] != MAGIC {
        Err(DropReason::BadMagic)
    } else if h.frag_count == 0 {
        Err(DropReason::FragCountZero)
    } else if h.frag_index >= h.frag_count {
        Err(DropReason::FragIndexRange)
    } else if h.last_fragment != (h.frag_index == h.frag_count - 1) {
        Err(DropReason::LastFragmentMismatch)
    } else if h.stream_id != 0 && h.stream_id != 1 && !extra.contains(h.stream_id) {
        Err(DropReason::UnknownStream)
    } else {
        Ok(DecodedDatagram { header: h, payload_len: (bytes.len() - HEADER_LEN) as usize })
    }
}

/// Decode and validate a datagram header, accepting only the two streams that are always
/// present: 0 (primary-display video) and 1 (audio). Further negotiated video streams
/// need [`decode_with_streams`].
pub fn decode(bytes: &[u8]) -> (r: core::result::Result<DecodedDatagram, DropReason>)
    ensures
        r == verdict(bytes@, Seq::empty()),
{
    let none: [u16; 0] = [];
    let r = decode_with_streams(bytes, none.as_slice());
    assert(none@ =~= Seq::empty());
    r
}

/// Decode and validate a datagram header, additionally accepting the video streams
/// negotiated for this session. A `stream_id` that is neither 0, 1, nor one of these is
/// dropped.
pub fn decode_with_streams(bytes: &[u8], extra_video_streams: &[u16]) -> (r: core::result::Result<
    DecodedDatagram,
    DropReason,
>)
    ensures
        r == verdict(bytes@, extra_video_streams@),
{
    if bytes.len() < HEADER_LEN {
        return Err(DropReason::TooShort);
    }
    if bytes.len() > MAX_DATAGRAM_LEN {
        return Err(DropReason::Oversize);
    }
    if bytes[0] != MAGIC {
        return Err(DropReason::BadMagic);
    }
    proof {
        lemma_pow256_values();
        crate::be::lemma_be_value_bound(bytes@.subrange(2, 4));
        crate::be::lemma_be_value_bound(bytes@.subrange(4, 8));
        crate::be::lemma_be_value_bound(bytes@.subrange(8, 10));
        crate::be::lemma_be_value_bound(bytes@.subrange(10, 12));
    }
    let flags: u8 = bytes[1];
    let stream_id: u16 = read_be(bytes, 2, 2) as u16;
    let frame_seq: u32 = read_be(bytes, 4, 4) as u32;
    let frag_index: u16 = read_be(bytes, 8, 2) as u16;
    let frag_count: u16 = read_be(bytes, 10, 2) as u16;
    if frag_count < 1 {
        return Err(DropReason::FragCountZero);
    }
    if frag_index >= frag_count {
        return Err(DropReason::FragIndexRange);
    }
    let last: bool = flags & FLAG_LAST_FRAGMENT != 0;
    if last != (frag_index == frag_count - 1) {
        return Err(DropReason::LastFragmentMismatch);
    }
    if stream_id != 0 && stream_id != 1 && !contains_id(extra_video_streams, stream_id) {
        return Err(DropReason::UnknownStream);
    }
    Ok(
        DecodedDatagram {
            header: DatagramHeader {
                keyframe: flags & FLAG_KEYFRAME != 0,
                last_fragment: last,
                stream_id,
                frame_seq,
                frag_index,
                frag_count,
            },
            payload_len: bytes.len() - HEADER_LEN,
        },
    )
}

/// Whether `id` is among `ids`.
pub fn contains_id(ids: &[u16], id: u16) -> (r: bool)
    ensures
        r == ids@.contains(id),
{
    let mut k: usize = 0;
    while k < ids.len()
        invariant
            k <= ids@.len(),
            forall|i: int| 0 <= i < k ==> ids@[i] != id,
        decreases ids@.len() - k,
    {
        if ids[k] == id {
            assert(ids@[k as int] == id);
            return true;
        }
        k += 1;
    }
    false
}

/// The twelve header bytes read back as the header that wrote them.
pub proof fn header_round_trip(h: DatagramHeader, payload: Seq<u8>)
    ensures
        header_bytes(h).len() == HEADER_LEN,
        header_fields(header_bytes(h) + payload) == h,
        (header_bytes(h) + payload)[0] == MAGIC,
{
    let b = header_bytes(h) + payload;
    lemma_pow256_values();
    lemma_be_len(h.stream_id as nat, 2);
    lemma_be_len(h.frame_seq as nat, 4);
    lemma_be_len(h.frag_index as nat, 2);
    lemma_be_len(h.frag_count as nat, 2);
    be_round_trip(h.stream_id as nat, 2);
    be_round_trip(h.frame_seq as nat, 4);
    be_round_trip(h.frag_index as nat, 2);
    be_round_trip(h.frag_count as nat, 2);
    assert(b.subrange(2, 4) =~= be(h.stream_id as nat, 2));
    assert(b.subrange(4, 8) =~= be(h.frame_seq as nat, 4));
    assert(b.subrange(8, 10) =~= be(h.frag_index as nat, 2));
    assert(b.subrange(10, 12) =~= be(h.frag_count as nat, 2));
    assert(0u8 & 1 == 0 && 1u8 & 1 == 1 && 2u8 & 1 == 0 && 3u8 & 1 == 1) by (bit_vector);
    assert(0u8 & 2 == 0 && 1u8 & 2 == 0 && 2u8 & 2 == 2 && 3u8 & 2 == 2) by (bit_vector);
}

/// What a valid header encodes, the receiver accepts and reads back: the same header,
/// and the length of the payload.
pub proof fn encode_decode(h: DatagramHeader, payload: Seq<u8>, extra: Seq<u16>)
    requires
        h.frag_index < h.frag_count,
        h.last_fragment == (h.frag_index == h.frag_count - 1),
        h.stream_id == 0 || h.stream_id == 1 || extra.contains(h.stream_id),
        payload.len() <= MAX_PAYLOAD,
    ensures
        verdict(header_bytes(h) + payload, extra) == Ok::<DecodedDatagram, DropReason>(
            DecodedDatagram { header: h, payload_len: payload.len() as usize },
        ),
{
    header_round_trip(h, payload);
}

/// No fragment exceeds the datagram limit.
pub proof fn fragments_fit(stream_id: u16, frame_seq: u32, keyframe: bool, body: Seq<u8>, i: int)
    requires
        0 <= i < fragment_count(body.len()),
    ensures
        HEADER_LEN <= datagrams(stream_id, frame_seq, keyframe, body)[i].len() <= MAX_DATAGRAM_LEN,
{
    lemma_fragment_count(body.len());
    let n = fragment_count(body.len());
    assert(i * MAX_PAYLOAD <= (n - 1) * MAX_PAYLOAD) by (nonlinear_arith)
        requires
            i <= n - 1,
    ;
    header_round_trip(
        header(
            keyframe,
            stream_id,
            frame_seq,
            (i % 0x1_0000) as u16,
            (n % 0x1_0000) as u16,
        ),
        Seq::empty(),
    );
}

/// The receiver accepts every fragment of a frame with at most 65535 fragments on a
/// stream it knows, and reads from it the frame, the fragment's place and the count.
pub proof fn fragments_decode(
    stream_id: u16,
    frame_seq: u32,
    keyframe: bool,
    body: Seq<u8>,
    extra: Seq<u16>,
    i: int,
)
    requires
        0 <= i < fragment_count(body.len()),
        fragment_count(body.len()) <= 0xffff,
        stream_id == 0 || stream_id == 1 || extra.contains(stream_id),
    ensures
        verdict(datagrams(stream_id, frame_seq, keyframe, body)[i], extra) == Ok::<
            DecodedDatagram,
            DropReason,
        >(
            DecodedDatagram {
                header: header(
                    keyframe,
                    stream_id,
                    frame_seq,
                    i as u16,
                    fragment_count(body.len()) as u16,
                ),
                payload_len: chunk(body, i).len() as usize,
            },
        ),
        datagrams(stream_id, frame_seq, keyframe, body)[i].skip(HEADER_LEN as int) == chunk(
            body,
            i,
        ),
{
    lemma_fragment_count(body.len());
    let n = fragment_count(body.len());
    assert(i * MAX_PAYLOAD <= (n - 1) * MAX_PAYLOAD) by (nonlinear_arith)
        requires
            i <= n - 1,
    ;
    let h = header(keyframe, stream_id, frame_seq, i as u16, n as u16);
    encode_decode(h, chunk(body, i), extra);
    header_round_trip(h, chunk(body, i));
    assert((header_bytes(h) + chunk(body, i)).skip(HEADER_LEN as int) =~= chunk(body, i));
}

/// The first `k` payloads one after the other.
pub open spec fn chunks_joined(body: Seq<u8>, k: nat) -> Seq<u8>
    decreases k,
{
    if k == 0 {
        Seq::empty()
    } else {
        chunks_joined(body, (k - 1) as nat) + chunk(body, k - 1)
    }
}

/// The payloads of a frame's fragments, in order, are its body.
pub proof fn fragments_carry_body(body: Seq<u8>)
    ensures
        chunks_joined(body, fragment_count(body.len())) == body,
{
    lemma_fragment_count(body.len());
    let n = fragment_count(body.len());
    lemma_chunks_prefix(body, (n - 1) as nat);
    let start = (n - 1) * MAX_PAYLOAD;
    assert(chunks_joined(body, n) =~= body.take(start) + body.subrange(start, body.len() as int));
}

proof fn lemma_chunks_prefix(body: Seq<u8>, k: nat)
    requires
        k * MAX_PAYLOAD <= body.len(),
    ensures
        chunks_joined(body, k) == body.take(k * MAX_PAYLOAD),
    decreases k,
{
    if k == 0 {
        assert(body.take(0) =~= Seq::empty());
    } else {
        lemma_chunks_prefix(body, (k - 1) as nat);
        assert(body.take(k * MAX_PAYLOAD) =~= body.take((k - 1) * MAX_PAYLOAD) + chunk(
            body,
            k - 1,
        ));
    }
}

/// The six reserved flag bits make no difference to the verdict.
pub proof fn reserved_bits_ignored(bytes: Seq<u8>, flags: u8, extra: Seq<u16>)
    requires
        bytes.len() >= HEADER_LEN,
        flags & 3 == bytes[1] & 3,
    ensures
        verdict(bytes.update(1, flags), extra) == verdict(bytes, extra),
{
    let other = bytes.update(1, flags);
    let was = bytes[1];
    assert(flags & 1 == was & 1 && flags & 2 == was & 2) by (bit_vector)
        requires
            flags & 3 == was & 3,
    ;
    assert(other.subrange(2, 4) =~= bytes.subrange(2, 4));
    assert(other.subrange(4, 8) =~= bytes.subrange(4, 8));
    assert(other.subrange(8, 10) =~= bytes.subrange(8, 10));
    assert(other.subrange(10, 12) =~= bytes.subrange(10, 12));
}

} // verus!
