//! Video and audio datagrams.

use loom::datagram::{
    decode, decode_with_streams, fragment, DatagramHeader, DropReason, HEADER_LEN,
    MAX_DATAGRAM_LEN, MAX_PAYLOAD,
};
use loom::reassembly::{Event, Fragment, Reassembler};

#[test]
fn encode_single_fragment_keyframe() {
    // frag 0 of 1 => last; keyframe => flags 0x03.
    let h = DatagramHeader::new(true, 0, 0, 0, 1);
    assert_eq!(h.flags(), 0x03);
    assert_eq!(
        hex::encode(h.encode(&[0xAA; 4])),
        "4c0300000000000000000001aaaaaaaa"
    );
}

#[test]
fn encode_derives_last_flag() {
    // frag 0 of 3 => not last; keyframe only => 0x01.
    assert_eq!(DatagramHeader::new(true, 0, 0, 0, 3).flags(), 0x01);
    // frag 2 of 3 => last; keyframe => 0x03.
    assert_eq!(DatagramHeader::new(true, 0, 0, 2, 3).flags(), 0x03);
    // audio, not keyframe, single fragment => last only => 0x02.
    assert_eq!(DatagramHeader::new(false, 1, 7, 0, 1).flags(), 0x02);
}

#[test]
fn fragment_round_trips_through_decode_and_reassembly() {
    // A body spanning several fragments (2.5x the payload limit).
    let body: Vec<u8> = (0..MAX_PAYLOAD * 2 + 5).map(|i| i as u8).collect();
    let frames = fragment(0, 9, true, &body);
    assert_eq!(frames.len(), 3);

    let mut reassembled = vec![0u8; body.len()];
    let mut r = Reassembler::new();
    for (i, dg) in frames.iter().enumerate() {
        let d = decode(dg).expect("valid datagram");
        assert_eq!(d.header.frame_seq, 9);
        assert_eq!(d.header.frag_count, 3);
        assert!(d.header.keyframe);
        // Copy this fragment's payload back into its slot to prove ordering.
        let off = i * MAX_PAYLOAD;
        let payload = &dg[HEADER_LEN..];
        reassembled[off..off + payload.len()].copy_from_slice(payload);
        r.push(
            0,
            Fragment {
                frame_seq: d.header.frame_seq,
                frag_index: d.header.frag_index,
                frag_count: d.header.frag_count,
                keyframe: d.header.keyframe,
            },
        );
    }
    assert_eq!(reassembled, body);
    // The metadata state machine delivers exactly the one keyframe.
    assert!(matches!(
        r.events(),
        [Event::Deliver {
            frame_seq: 9,
            keyframe: true,
            ..
        }]
    ));
}

#[test]
fn fragment_empty_and_small_bodies() {
    assert_eq!(fragment(1, 0, false, &[]).len(), 1); // one well-formed empty frag
    let one = fragment(0, 1, false, &[1, 2, 3]);
    assert_eq!(one.len(), 1);
    assert!(decode(&one[0]).unwrap().header.last_fragment);
}

#[test]
fn decode_valid_roundtrip() {
    let bytes = hex::decode("4c03000000000005000000010102").unwrap();
    let d = decode(&bytes).unwrap();
    assert_eq!(
        d.header,
        DatagramHeader {
            keyframe: true,
            last_fragment: true,
            stream_id: 0,
            frame_seq: 5,
            frag_index: 0,
            frag_count: 1,
        }
    );
    assert_eq!(d.payload_len, 2);
}

#[test]
fn decode_reasons() {
    let cases = [
        ("4c0300", DropReason::TooShort),
        ("4d0200000000000000000001", DropReason::BadMagic),
        ("4c0200000000000000000000", DropReason::FragCountZero),
        ("4c0200000000000000030003", DropReason::FragIndexRange),
        ("4c0000000000000000020003", DropReason::LastFragmentMismatch), // idx2/3 no LAST
        ("4c0200000000000000000003", DropReason::LastFragmentMismatch), // LAST on non-last
        ("4c0200090000000000000001", DropReason::UnknownStream),
    ];
    for (h, want) in cases {
        assert_eq!(decode(&hex::decode(h).unwrap()), Err(want), "case {h}");
    }
}

#[test]
fn decode_with_streams_gates_negotiated_video() {
    // stream_id 2 is a valid video display only once negotiated.
    let dg = DatagramHeader::new(true, 2, 3, 0, 1).encode(&[0xDD; 16]);
    // Default decode() keeps the {0,1} set, so it is dropped.
    assert_eq!(decode(&dg), Err(DropReason::UnknownStream));
    // Un-negotiated even with a different extra stream: still dropped.
    assert_eq!(
        decode_with_streams(&dg, &[3]),
        Err(DropReason::UnknownStream)
    );
    // Negotiated: decodes, carrying stream_id 2.
    let d = decode_with_streams(&dg, &[2, 3]).expect("stream 2 negotiated");
    assert_eq!(d.header.stream_id, 2);
    assert!(d.header.keyframe && d.header.last_fragment);
    // Streams 0 and 1 stay valid regardless of the negotiated set.
    let audio = DatagramHeader::new(false, 1, 0, 0, 1).encode(&[]);
    assert!(decode_with_streams(&audio, &[2]).is_ok());
}

#[test]
fn decode_oversize() {
    let bytes = DatagramHeader::new(false, 0, 0, 0, 1).encode(&vec![0u8; 1339]);
    assert_eq!(bytes.len(), 1351);
    assert_eq!(decode(&bytes), Err(DropReason::Oversize));
    // Exactly 1350 is allowed.
    let ok = DatagramHeader::new(false, 0, 0, 0, 1).encode(&vec![0u8; 1338]);
    assert_eq!(ok.len(), 1350);
    assert!(decode(&ok).is_ok());
}

#[test]
fn decode_ignores_reserved_flag_bits() {
    // flags 0xff = KEYFRAME|LAST|all reserved bits; reserved bits ignored.
    let bytes = hex::decode("4cff00000000000100000001ee").unwrap();
    let d = decode(&bytes).unwrap();
    assert!(d.header.keyframe && d.header.last_fragment);
    assert_eq!(d.payload_len, 1);
}

#[test]
fn header_bytes_are_big_endian() {
    let h = DatagramHeader::new(false, 0x0102, 0x0304_0506, 0x0708, 0x090a);
    assert_eq!(hex::encode(h.to_bytes()), "4c000102030405060708090a");
}

#[test]
fn every_header_field_survives_the_wire() {
    for (keyframe, stream_id, frame_seq, frag_index, frag_count) in [
        (true, 0u16, 0u32, 0u16, 1u16),
        (false, 1, u32::MAX, 65534, u16::MAX),
        (true, 300, 0x8000_0001, 0x1234, 0x5678),
    ] {
        let h = DatagramHeader::new(keyframe, stream_id, frame_seq, frag_index, frag_count);
        let d = decode_with_streams(&h.encode(&[1, 2, 3]), &[300]).unwrap();
        assert_eq!(d.header, h);
        assert_eq!(d.payload_len, 3);
    }
}

#[test]
fn fragments_fit_and_carry_the_body() {
    for len in [
        1,
        MAX_PAYLOAD - 1,
        MAX_PAYLOAD,
        MAX_PAYLOAD + 1,
        4 * MAX_PAYLOAD,
    ] {
        let body: Vec<u8> = (0..len).map(|i| (i * 7) as u8).collect();
        let parts = fragment(0, 77, false, &body);
        assert_eq!(parts.len(), (len + MAX_PAYLOAD - 1) / MAX_PAYLOAD);
        let mut joined = Vec::new();
        for (i, p) in parts.iter().enumerate() {
            assert!(p.len() <= MAX_DATAGRAM_LEN);
            let d = decode(p).unwrap();
            assert_eq!(usize::from(d.header.frag_index), i);
            assert_eq!(d.header.last_fragment, i + 1 == parts.len());
            joined.extend_from_slice(&p[HEADER_LEN..]);
        }
        assert_eq!(joined, body);
    }
}

#[test]
fn a_drop_reason_has_a_name() {
    let names: Vec<&str> = [
        DropReason::TooShort,
        DropReason::Oversize,
        DropReason::BadMagic,
        DropReason::FragCountZero,
        DropReason::FragIndexRange,
        DropReason::LastFragmentMismatch,
        DropReason::UnknownStream,
    ]
    .iter()
    .map(|r| r.as_str())
    .collect();
    assert_eq!(
        names,
        [
            "too_short",
            "oversize",
            "bad_magic",
            "frag_count_zero",
            "frag_index_range",
            "last_fragment_mismatch",
            "unknown_stream",
        ]
    );
}

#[test]
fn the_first_reason_in_order_is_reported() {
    // Oversize and bad magic: oversize comes first.
    assert_eq!(decode(&[0u8; 1351]), Err(DropReason::Oversize));
    // Bad magic and no fragments: bad magic comes first.
    assert_eq!(decode(&[0u8; 12]), Err(DropReason::BadMagic));
}
