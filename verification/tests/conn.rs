//! One connection, from frame to action.

use loom::cbor::Value;
use loom::conn::{
    announced_len, clock_pong_body, drive, named_error_body, on_eof, on_read, react, reject_busy,
    session_id, WireAction,
};
use loom::control::{self, decode_frame, encode_frame, Decoded};
use loom::error::Error;
use loom::errors;
use loom::session::{int_key, HostSession, MediaParams, Output, State, StreamConfig};

fn session() -> HostSession {
    HostSession::new("den", [1; 16], MediaParams::default(), Vec::new())
}

fn hello() -> Vec<u8> {
    encode_frame(
        control::HELLO,
        &[
            (Value::Int(0), Value::Int(1)),
            (Value::Int(1), Value::Text("c".into())),
            (Value::Int(2), Value::Array(vec![Value::Int(1)])),
        ],
    )
}

fn written(a: &WireAction) -> (u64, Vec<(Value, Value)>) {
    match a {
        WireAction::Write(bytes) => match decode_frame(bytes).unwrap() {
            Decoded::Message { msg_type, body } => (msg_type, body),
            Decoded::Ignored => panic!("an unknown message"),
        },
        other => panic!("no write: {other:?}"),
    }
}

fn assert_turned_away(out: &[WireAction], code: u64, why: &str) {
    assert_eq!(out.len(), 2);
    let (t, body) = written(&out[0]);
    assert_eq!(t, control::ERROR);
    assert_eq!(int_key(&body, 0), Some(code as i128));
    assert!(body.contains(&(Value::Int(1), Value::Text(errors::name(code).into()))));
    match out[1] {
        WireAction::Close { code: c, reason } => {
            assert_eq!((u64::from(c), reason), (code, why));
        }
        ref other => panic!("no close: {other:?}"),
    }
}

#[test]
fn a_handshake_on_the_wire() {
    let mut s = session();
    let out = on_read(&mut s, &hello(), 5, 1);
    assert_eq!(out.len(), 2);
    let (t, welcome) = written(&out[0]);
    assert_eq!(t, control::WELCOME);
    assert_eq!(int_key(&welcome, 0), Some(1));
    let (t, config) = written(&out[1]);
    assert_eq!(t, control::CONFIG);
    assert_eq!(int_key(&config, 0), Some(1));
    let ack = encode_frame(control::CONFIG_ACK, &[(Value::Int(0), Value::Int(1))]);
    let out = on_read(&mut s, &ack, 6, 3);
    assert_eq!(written(&out[0]).0, control::START);
    // Without multi-display only the primary stream is started.
    assert!(matches!(out[1], WireAction::StartStreams { count: 1 }));
    assert_eq!(s.state(), State::Streaming);
}

#[test]
fn a_bad_frame_never_reaches_the_session() {
    let mut s = session();
    for bytes in [vec![], vec![0, 0, 0, 1], vec![0, 0, 0, 1, 0x01], vec![0, 1, 0, 1]] {
        let out = on_read(&mut s, &bytes, 0, 1);
        assert_turned_away(&out, errors::PROTOCOL_VIOLATION, "bad frame");
        assert_eq!(s.state(), State::WaitHello);
    }
    let out = react(&mut s, Err(Error::ProtocolViolation), 0, 1);
    assert_turned_away(&out, errors::PROTOCOL_VIOLATION, "bad frame");
}

#[test]
fn a_close_is_the_last_action() {
    let mut s = session();
    let ack = encode_frame(control::CONFIG_ACK, &[(Value::Int(0), Value::Int(1))]);
    let out = on_read(&mut s, &ack, 0, 1);
    assert!(matches!(
        out.last(),
        Some(WireAction::Close { code: 4, reason: "PROTOCOL_VIOLATION" })
    ));
    // A closed session says nothing more.
    assert!(on_read(&mut s, &hello(), 0, 1).is_empty());
    assert_eq!(s.state(), State::Closed);
}

#[test]
fn a_ping_is_answered_with_the_host_time() {
    let mut s = session();
    let ping = encode_frame(control::CLOCK_PING, &[(Value::Int(0), Value::Int(77))]);
    let out = on_read(&mut s, &ping, 1234, 1);
    let (t, body) = written(&out[0]);
    assert_eq!(t, control::CLOCK_PONG);
    assert_eq!(body, clock_pong_body(77, 1234));
    assert_eq!(int_key(&body, 0), Some(77));
    assert_eq!(int_key(&body, 1), Some(1234));
    assert_eq!(int_key(&body, 2), Some(1234));
}

#[test]
fn outputs_become_actions_in_order() {
    let out = drive(
        vec![
            Output::StartMedia { multi: true },
            Output::RequestIdr { stream_id: 2 },
            Output::Reconfigure { params: MediaParams::default() },
            Output::Close { code: errors::BUSY + (1 << 32) },
        ],
        0,
        4,
    );
    assert!(matches!(out[0], WireAction::StartStreams { count: 4 }));
    assert!(matches!(out[1], WireAction::RequestIdr { stream_id: 2 }));
    assert!(matches!(out[2], WireAction::Reconfigure { .. }));
    // The close code is cut to 32 bits; the reason names the whole code.
    assert!(matches!(
        out[3],
        WireAction::Close { code: 2, reason: "INTERNAL" }
    ));
}

#[test]
fn surplus_clients_are_told_busy() {
    assert_turned_away(&reject_busy(), errors::BUSY, "busy");
    assert_eq!(
        named_error_body(errors::BUSY),
        vec![
            (Value::Int(0), Value::Int(2)),
            (Value::Int(1), Value::Text("BUSY".into())),
        ]
    );
}

#[test]
fn end_of_stream_closes_cleanly() {
    let out = on_eof();
    assert_eq!(out.len(), 1);
    assert!(matches!(out[0], WireAction::Close { code: 0, reason: "eof" }));
}

#[test]
fn the_length_prefix_is_bounded() {
    assert_eq!(announced_len([0, 0, 1, 2]), Some(258));
    assert_eq!(announced_len([0, 1, 0, 0]), Some(65536));
    assert_eq!(announced_len([0, 1, 0, 1]), None);
    assert_eq!(announced_len([255; 4]), None);
}

#[test]
fn session_ids_are_the_bytes_of_the_time() {
    assert_eq!(session_id(0x0102), {
        let mut id = [0u8; 16];
        id[14] = 1;
        id[15] = 2;
        id
    });
    assert_eq!(session_id(u128::MAX - 5), (u128::MAX - 5).to_be_bytes());
    let n = 0x0123_4567_89ab_cdef_1122_3344_5566_7788u128;
    assert_eq!(session_id(n), n.to_be_bytes());
}

#[test]
fn whatever_the_host_writes_is_read_back_whole() {
    let extra = StreamConfig { stream_id: 2, params: MediaParams::default(), x: -2560, y: 40 };
    let mut s = HostSession::new("wohnzimmer-\u{fc}", [7; 16], MediaParams::default(), vec![extra]);
    let hello = Decoded::Message {
        msg_type: control::HELLO,
        body: vec![
            (Value::Int(0), Value::Int(1)),
            (Value::Int(2), Value::Array(vec![Value::Int(1)])),
            (Value::Int(5), Value::Int(2)),
        ],
    };
    let outputs = s.on_frame(hello);
    let wanted = outputs.clone();
    let out = drive(outputs, 0, 2);
    assert_eq!(out.len(), 2);
    for (w, a) in wanted.iter().zip(out.iter()) {
        match w {
            Output::Send { msg_type, body } => assert_eq!(&written(a), &(*msg_type, body.clone())),
            other => panic!("no message: {other:?}"),
        }
    }
}

#[test]
fn an_over_limit_or_cut_frame_is_answered() {
    for bytes in [vec![0u8, 1, 0, 1], vec![255; 4], vec![0, 0], hello()[..9].to_vec()] {
        let mut s = session();
        let out = on_read(&mut s, &bytes, 0, 1);
        assert_turned_away(&out, errors::PROTOCOL_VIOLATION, "bad frame");
        assert_eq!(s.state(), State::WaitHello);
    }
}
