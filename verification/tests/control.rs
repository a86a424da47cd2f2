//! Control frames.

use loom::cbor::Value;
use loom::control::{
    decode_envelope, decode_frame, encode_frame, known_keys, Decoded, BYE, CLOCK_PING, CONFIG,
    CONFIG_ACK, ERROR, HELLO, IDR_REQUEST, START, STATS, WELCOME,
};
use loom::error::Error;

fn body(pairs: Vec<(i128, Value)>) -> Vec<(Value, Value)> {
    pairs.into_iter().map(|(k, v)| (Value::Int(k), v)).collect()
}

#[test]
fn encode_config_ack_frame() {
    // [4, {0: 1}] canonical, length-prefixed.
    let f = encode_frame(CONFIG_ACK, &body(vec![(0, Value::Int(1))]));
    assert_eq!(hex::encode(f), "000000058204a10001");
}

#[test]
fn encode_empty_body_start() {
    let f = encode_frame(START, &[]);
    assert_eq!(hex::encode(f), "000000038205a0");
}

#[test]
fn roundtrip_message() {
    let b = body(vec![(0, Value::Int(2)), (1, Value::Text("busy".into()))]);
    let f = encode_frame(ERROR, &b);
    match decode_frame(&f).unwrap() {
        Decoded::Message { msg_type, body } => {
            assert_eq!(msg_type, ERROR);
            assert_eq!(body.len(), 2);
        }
        other => panic!("unexpected {other:?}"),
    }
}

#[test]
fn decode_strips_unknown_keys() {
    // HELLO with a bogus key 99 present; it must be dropped.
    let b = body(vec![(0, Value::Int(1)), (99, Value::Text("future".into()))]);
    let f = encode_frame(HELLO, &b);
    match decode_frame(&f).unwrap() {
        Decoded::Message { msg_type, body } => {
            assert_eq!(msg_type, HELLO);
            assert_eq!(body, body_only_key0());
        }
        other => panic!("unexpected {other:?}"),
    }
}

fn body_only_key0() -> Vec<(Value, Value)> {
    vec![(Value::Int(0), Value::Int(1))]
}

#[test]
fn decode_ignores_unknown_type() {
    let f = encode_frame(0x7F, &body(vec![(0, Value::Int(123))]));
    assert_eq!(decode_frame(&f).unwrap(), Decoded::Ignored);
}

#[test]
fn decode_rejects_over_limit_length_field() {
    // Only the 4-byte length is present; 65537 > 65536 => violation.
    let bytes = 65537u32.to_be_bytes();
    assert!(matches!(
        decode_frame(&bytes),
        Err(Error::ProtocolViolation)
    ));
}

#[test]
fn decode_rejects_envelope_violations() {
    // body not a map: [5, [1,2]]
    let not_map =
        Value::Array(vec![Value::Int(5), Value::Array(vec![Value::Int(1)])]).to_canonical();
    let framed = frame_with(&not_map);
    assert!(matches!(
        decode_frame(&framed),
        Err(Error::ProtocolViolation)
    ));

    // wrong arity: [1, {}, 3]
    let arity =
        Value::Array(vec![Value::Int(1), Value::Pairs(vec![]), Value::Int(3)]).to_canonical();
    assert!(matches!(
        decode_frame(&frame_with(&arity)),
        Err(Error::ProtocolViolation)
    ));

    // not an array at all
    let map = Value::Pairs(vec![(Value::Text("a".into()), Value::Int(1))]).to_canonical();
    assert!(matches!(
        decode_frame(&frame_with(&map)),
        Err(Error::ProtocolViolation)
    ));
}

fn frame_with(cbor_body: &[u8]) -> Vec<u8> {
    let mut out = (cbor_body.len() as u32).to_be_bytes().to_vec();
    out.extend_from_slice(cbor_body);
    out
}

#[test]
fn decode_rejects_truncated_cbor() {
    // Frame claims 2 bytes of body "8205" = array(2) with only 1 item present.
    let framed = frame_with(&[0x82, 0x05]);
    assert!(matches!(
        decode_frame(&framed),
        Err(Error::ProtocolViolation)
    ));
}

#[test]
fn frames_read_back_arranged() {
    // The keys come back in canonical order.
    let sent = body(vec![
        (3, Value::Array(vec![Value::Int(2560), Value::Int(1440)])),
        (0, Value::Int(1)),
        (1, Value::Text("Quest 3".into())),
    ]);
    let arranged = body(vec![
        (0, Value::Int(1)),
        (1, Value::Text("Quest 3".into())),
        (3, Value::Array(vec![Value::Int(2560), Value::Int(1440)])),
    ]);
    assert_eq!(
        decode_frame(&encode_frame(HELLO, &sent)).unwrap(),
        Decoded::Message {
            msg_type: HELLO,
            body: arranged,
        }
    );
}

#[test]
fn a_short_or_truncated_frame_is_rejected() {
    assert!(matches!(
        decode_frame(&[0, 0, 0]),
        Err(Error::ProtocolViolation)
    ));
    let whole = encode_frame(BYE, &body(vec![(0, Value::Int(0))]));
    assert!(matches!(
        decode_frame(&whole[..whole.len() - 1]),
        Err(Error::ProtocolViolation)
    ));
}

#[test]
fn a_negative_type_is_rejected() {
    let v = Value::Array(vec![Value::Int(-1), Value::Pairs(vec![])]);
    assert!(matches!(
        decode_envelope(&v),
        Err(Error::ProtocolViolation)
    ));
}

#[test]
fn text_keys_are_dropped() {
    let v = Value::Array(vec![
        Value::Int(BYE as i128),
        Value::Pairs(vec![
            (Value::Text("0".into()), Value::Int(4)),
            (Value::Int(0), Value::Int(7)),
            (Value::Int(-1), Value::Int(8)),
        ]),
    ]);
    assert_eq!(
        decode_envelope(&v).unwrap(),
        Decoded::Message {
            msg_type: BYE,
            body: vec![(Value::Int(0), Value::Int(7))],
        }
    );
}

#[test]
fn known_keys_by_type() {
    assert_eq!(known_keys(HELLO).map(|k| k.len()), Some(6));
    assert_eq!(known_keys(WELCOME).map(|k| k.len()), Some(4));
    assert_eq!(known_keys(CONFIG).map(|k| k.len()), Some(7));
    assert_eq!(known_keys(IDR_REQUEST).map(|k| k.len()), Some(2));
    assert_eq!(known_keys(STATS).map(|k| k.len()), Some(8));
    assert_eq!(known_keys(START).map(|k| k.len()), Some(0));
    assert!(known_keys(0x7F).is_none());
}

#[test]
fn the_largest_body_is_accepted() {
    // Array(2), type, map(1), key 0, then a byte string up to the limit.
    let room = 65536 - 8;
    let v = body(vec![(0, Value::Bytes(vec![0; room]))]);
    let f = encode_frame(CLOCK_PING, &v);
    assert_eq!(f.len(), 4 + 65536);
    assert_eq!(
        decode_frame(&f).unwrap(),
        Decoded::Message {
            msg_type: CLOCK_PING,
            body: v,
        }
    );
    let over = encode_frame(
        CLOCK_PING,
        &body(vec![(0, Value::Bytes(vec![0; room + 1]))]),
    );
    assert!(matches!(
        decode_frame(&over),
        Err(Error::ProtocolViolation)
    ));
}

#[test]
fn a_tail_is_ignored_and_a_cut_is_a_violation() {
    let b = vec![
        (Value::Int(7), Value::Int(1)),
        (Value::Int(1), Value::Text("busy".into())),
        (Value::Text("x".into()), Value::Null),
        (Value::Int(0), Value::Int(2)),
    ];
    let f = encode_frame(ERROR, &b);
    let known = Decoded::Message {
        msg_type: ERROR,
        body: body(vec![(0, Value::Int(2)), (1, Value::Text("busy".into()))]),
    };
    assert_eq!(decode_frame(&f).unwrap(), known);
    for tail in [&[0u8][..], &[0xff; 9][..], &f.clone()[..]] {
        let mut longer = f.clone();
        longer.extend_from_slice(tail);
        assert_eq!(decode_frame(&longer).unwrap(), known);
    }
    for k in 0..f.len() {
        assert!(matches!(decode_frame(&f[..k]), Err(Error::ProtocolViolation)));
    }
    let unknown = encode_frame(0x7777, &b);
    assert_eq!(decode_frame(&unknown).unwrap(), Decoded::Ignored);
}
