//! The host side of the control protocol.

use loom::cbor::Value;
use loom::control::{self, Decoded};
use loom::errors;
use loom::session::{
    error_body, int_key, pair_elem, HostSession, MediaParams, Output, State, StatsReport,
    StreamConfig, CODEC_HEVC, FEATURE_MULTI_DISPLAY, MIN_DIM,
};

fn hello(version: i128, codecs: Vec<i128>) -> Decoded {
    Decoded::Message {
        msg_type: control::HELLO,
        body: vec![
            (Value::Int(0), Value::Int(version)),
            (Value::Int(1), Value::Text("test-client".into())),
            (
                Value::Int(2),
                Value::Array(codecs.into_iter().map(Value::Int).collect()),
            ),
        ],
    }
}

fn msg(msg_type: u64, body: Vec<(i128, Value)>) -> Decoded {
    Decoded::Message {
        msg_type,
        body: body.into_iter().map(|(k, v)| (Value::Int(k), v)).collect(),
    }
}

fn new_session() -> HostSession {
    HostSession::new("test-host", [0u8; 16], MediaParams::default(), Vec::new())
}

/// A session configured with one extra display (stream_id 2, 1920x1080).
fn multi_new_session() -> HostSession {
    let extra = StreamConfig {
        stream_id: 2,
        params: MediaParams {
            width: 1920,
            height: 1080,
            ..MediaParams::default()
        },
        x: -1920,
        y: 0,
    };
    HostSession::new("test-host", [0u8; 16], MediaParams::default(), vec![extra])
}

/// HELLO advertising multi-display (key 5 bit 1) plus a decode max.
fn hello_multi() -> Decoded {
    Decoded::Message {
        msg_type: control::HELLO,
        body: vec![
            (Value::Int(0), Value::Int(1)),
            (Value::Int(1), Value::Text("Quest 3".into())),
            (Value::Int(2), Value::Array(vec![Value::Int(1)])),
            (
                Value::Int(3),
                Value::Array(vec![Value::Int(2560), Value::Int(1440)]),
            ),
            (Value::Int(5), Value::Int(0b11)), // audio | multi-display
        ],
    }
}

fn sent_types(out: &[Output]) -> Vec<u64> {
    out.iter()
        .filter_map(|o| match o {
            Output::Send { msg_type, .. } => Some(*msg_type),
            _ => None,
        })
        .collect()
}

fn sent_body(out: &[Output], wanted: u64) -> Vec<(Value, Value)> {
    out.iter()
        .find_map(|o| match o {
            Output::Send { msg_type, body } if *msg_type == wanted => Some(body.clone()),
            _ => None,
        })
        .unwrap()
}

#[test]
fn full_happy_path() {
    let mut s = new_session();
    let out = s.on_frame(hello(1, vec![1]));
    assert_eq!(sent_types(&out), vec![control::WELCOME, control::CONFIG]);
    assert_eq!(s.state(), State::WaitConfigAck);

    let out = s.on_frame(msg(control::CONFIG_ACK, vec![(0, Value::Int(1))]));
    assert_eq!(sent_types(&out), vec![control::START]);
    assert!(out.contains(&Output::StartMedia { multi: false }));
    assert_eq!(s.state(), State::Streaming);
}

#[test]
fn multi_display_negotiated_advertises_config_key6() {
    let mut s = multi_new_session();
    let out = s.on_frame(hello_multi());
    assert_eq!(sent_types(&out), vec![control::WELCOME, control::CONFIG]);

    // WELCOME key 3 = active features (bit 1 = multi-display).
    let welcome = out
        .iter()
        .find_map(|o| match o {
            Output::Send { msg_type, body } if *msg_type == control::WELCOME => Some(body),
            _ => None,
        })
        .unwrap();
    assert_eq!(int_key(welcome, 3), Some(0b10));

    // CONFIG key 6 = [{0: 2, 1: [1920,1080], 2: 72, 3: 60000}].
    let config = out
        .iter()
        .find_map(|o| match o {
            Output::Send { msg_type, body } if *msg_type == control::CONFIG => Some(body),
            _ => None,
        })
        .unwrap();
    match config
        .iter()
        .find(|(k, _)| *k == Value::Int(6))
        .map(|(_, v)| v)
    {
        Some(Value::Array(streams)) => {
            assert_eq!(streams.len(), 1);
            match &streams[0] {
                Value::Pairs(desc) => {
                    assert_eq!(int_key(desc, 0), Some(2)); // stream_id
                    assert_eq!(pair_elem(desc, 1, 0), Some(1920));
                    assert_eq!(pair_elem(desc, 1, 1), Some(1080));
                }
                other => panic!("expected a stream descriptor map, got {other:?}"),
            }
        }
        other => panic!("expected CONFIG key 6 array, got {other:?}"),
    }

    let out = s.on_frame(msg(control::CONFIG_ACK, vec![(0, Value::Int(1))]));
    assert!(out.contains(&Output::StartMedia { multi: true }));
}

#[test]
fn multi_display_inactive_when_client_lacks_feature() {
    // Host has an extra stream, but a plain HELLO (no key 5 bit 1): single.
    let mut s = multi_new_session();
    let out = s.on_frame(hello(1, vec![1]));
    let config = out
        .iter()
        .find_map(|o| match o {
            Output::Send { msg_type, body } if *msg_type == control::CONFIG => Some(body),
            _ => None,
        })
        .unwrap();
    assert!(config.iter().all(|(k, _)| *k != Value::Int(6)));
    let out = s.on_frame(msg(control::CONFIG_ACK, vec![(0, Value::Int(1))]));
    assert!(out.contains(&Output::StartMedia { multi: false }));
}

#[test]
fn multi_display_inactive_when_host_single() {
    // Client offers multi-display, but a single-display host has no extras.
    let mut s = new_session();
    let out = s.on_frame(hello_multi());
    let welcome = out
        .iter()
        .find_map(|o| match o {
            Output::Send { msg_type, body } if *msg_type == control::WELCOME => Some(body),
            _ => None,
        })
        .unwrap();
    assert_eq!(int_key(welcome, 3), None); // no feature echo
}

#[test]
fn idr_request_targets_named_stream() {
    let mut s = new_session();
    s.on_frame(hello(1, vec![1]));
    s.on_frame(msg(control::CONFIG_ACK, vec![(0, Value::Int(1))]));
    let out = s.on_frame(msg(
        control::IDR_REQUEST,
        vec![(0, Value::Int(0)), (1, Value::Int(2))],
    ));
    assert_eq!(out, vec![Output::RequestIdr { stream_id: 2 }]);
}

#[test]
fn session_wrong_version_hello_gets_version_unsupported() {
    let mut s = new_session();
    let out = s.on_frame(hello(2, vec![1]));
    assert!(
        matches!(out.last(), Some(Output::Close { code }) if *code == errors::VERSION_UNSUPPORTED)
    );
    assert_error_code(&out, errors::VERSION_UNSUPPORTED);
    assert_eq!(s.state(), State::Closed);
}

#[test]
fn hello_without_hevc_gets_no_common_codec() {
    let mut s = new_session();
    // Client offers only AV1 (2); host encodes HEVC only.
    let out = s.on_frame(hello(1, vec![2]));
    assert_error_code(&out, errors::NO_COMMON_CODEC);
    assert_eq!(s.state(), State::Closed);
}

#[test]
fn config_ack_before_hello_is_violation() {
    let mut s = new_session();
    let out = s.on_frame(msg(control::CONFIG_ACK, vec![(0, Value::Int(1))]));
    assert_error_code(&out, errors::PROTOCOL_VIOLATION);
    assert_eq!(s.state(), State::Closed);
}

#[test]
fn second_hello_is_violation() {
    let mut s = new_session();
    s.on_frame(hello(1, vec![1]));
    let out = s.on_frame(hello(1, vec![1]));
    assert_error_code(&out, errors::PROTOCOL_VIOLATION);
}

#[test]
fn config_ack_wrong_generation_is_violation() {
    let mut s = new_session();
    s.on_frame(hello(1, vec![1]));
    let out = s.on_frame(msg(control::CONFIG_ACK, vec![(0, Value::Int(7))]));
    assert_error_code(&out, errors::PROTOCOL_VIOLATION);
    assert_eq!(s.state(), State::Closed);
}

#[test]
fn bye_closes_cleanly_from_any_state() {
    let mut s = new_session();
    s.on_frame(hello(1, vec![1]));
    let out = s.on_frame(msg(control::BYE, vec![(0, Value::Int(0))]));
    assert_eq!(out, vec![Output::Close { code: errors::NONE }]);
    assert_eq!(s.state(), State::Closed);
}

#[test]
fn idr_request_while_streaming_asks_encoder() {
    let mut s = new_session();
    s.on_frame(hello(1, vec![1]));
    s.on_frame(msg(control::CONFIG_ACK, vec![(0, Value::Int(1))]));
    assert_eq!(s.state(), State::Streaming);
    let out = s.on_frame(msg(control::IDR_REQUEST, vec![(0, Value::Int(0))]));
    assert_eq!(out, vec![Output::RequestIdr { stream_id: 0 }]);
    assert_eq!(s.state(), State::Streaming);
}

#[test]
fn stats_logged_input_tolerated_while_streaming() {
    let mut s = new_session();
    s.on_frame(hello(1, vec![1]));
    s.on_frame(msg(control::CONFIG_ACK, vec![(0, Value::Int(1))]));
    let out = s.on_frame(msg(
        control::STATS,
        vec![(0, Value::Int(42)), (5, Value::Int(3000))],
    ));
    match out.as_slice() {
        [Output::Stats(r)] => {
            assert_eq!(r.frames_received, 42);
            assert_eq!(r.rtt_us, 3000);
            assert_eq!(r.e2e_us, None);
        }
        other => panic!("unexpected {other:?}"),
    }
    assert!(s
        .on_frame(msg(control::INPUT, vec![(0, Value::Int(0))]))
        .is_empty());
    assert_eq!(s.state(), State::Streaming);
}

/// Drive a session to Streaming, advertising a client HELLO max of 2560x1440.
fn streaming_session() -> HostSession {
    let mut s = new_session();
    s.on_frame(Decoded::Message {
        msg_type: control::HELLO,
        body: vec![
            (Value::Int(0), Value::Int(1)),
            (Value::Int(1), Value::Text("test-client".into())),
            (Value::Int(2), Value::Array(vec![Value::Int(1)])),
            (
                Value::Int(3),
                Value::Array(vec![Value::Int(2560), Value::Int(1440)]),
            ),
        ],
    });
    s.on_frame(msg(control::CONFIG_ACK, vec![(0, Value::Int(1))]));
    assert_eq!(s.state(), State::Streaming);
    s
}

fn viewport(w: i128, h: i128) -> Decoded {
    msg(
        control::VIEWPORT,
        vec![(0, Value::Array(vec![Value::Int(w), Value::Int(h)]))],
    )
}

#[test]
fn viewport_reconfigures_via_config_then_reconfigure() {
    let mut s = streaming_session();

    // A smaller window: within caps, so it is honored verbatim.
    let out = s.on_frame(viewport(1920, 1080));
    match out.as_slice() {
        [Output::Send { msg_type, body }] if *msg_type == control::CONFIG => {
            assert_eq!(int_key(body, 0), Some(2)); // generation bumped to 2
            assert_eq!(pair_elem(body, 2, 0), Some(1920));
            assert_eq!(pair_elem(body, 2, 1), Some(1080));
        }
        other => panic!("expected a CONFIG send, got {other:?}"),
    }
    assert_eq!(s.state(), State::Streaming); // media keeps flowing

    // The client ACKs the new generation: reconfigure the media thread.
    let out = s.on_frame(msg(control::CONFIG_ACK, vec![(0, Value::Int(2))]));
    match out.as_slice() {
        [Output::Reconfigure { params }] => {
            assert_eq!(params.width, 1920);
            assert_eq!(params.height, 1080);
        }
        other => panic!("expected Reconfigure, got {other:?}"),
    }
}

#[test]
fn viewport_is_clamped_to_client_hello_max() {
    let mut s = streaming_session();
    // Move off the 2560x1440 default first so the clamp target differs from
    // the current size (an equal size would be a no-op).
    s.on_frame(viewport(1920, 1080));
    s.on_frame(msg(control::CONFIG_ACK, vec![(0, Value::Int(2))]));

    // Request beyond the client's 2560x1440 decode max: clamped down to it.
    let out = s.on_frame(viewport(7680, 4320));
    match out.as_slice() {
        [Output::Send { body, .. }] => {
            assert_eq!(pair_elem(body, 2, 0), Some(2560));
            assert_eq!(pair_elem(body, 2, 1), Some(1440));
        }
        other => panic!("expected a clamped CONFIG, got {other:?}"),
    }
}

#[test]
fn viewport_matching_current_size_is_a_noop() {
    let mut s = streaming_session();
    // Default config is already 2560x1440.
    let out = s.on_frame(viewport(2560, 1440));
    assert!(out.is_empty());
    assert_eq!(s.state(), State::Streaming);
}

#[test]
fn second_viewport_while_reconfig_pending_is_ignored() {
    let mut s = streaming_session();
    assert!(!s.on_frame(viewport(1920, 1080)).is_empty());
    // A second request before the ACK is dropped (gate held).
    assert!(s.on_frame(viewport(1280, 720)).is_empty());
}

#[test]
fn malformed_viewport_is_ignored_not_fatal() {
    let mut s = streaming_session();
    // Missing the [w, h] array: best-effort request, so silently ignored.
    let out = s.on_frame(msg(control::VIEWPORT, vec![(0, Value::Int(5))]));
    assert!(out.is_empty());
    assert_eq!(s.state(), State::Streaming);
}

#[test]
fn unexpected_config_ack_while_streaming_is_violation() {
    let mut s = streaming_session();
    // No reconfiguration pending: a CONFIG_ACK is a protocol violation.
    let out = s.on_frame(msg(control::CONFIG_ACK, vec![(0, Value::Int(2))]));
    assert_error_code(&out, errors::PROTOCOL_VIOLATION);
    assert_eq!(s.state(), State::Closed);
}

#[test]
fn clock_ping_replies_pong_during_setup() {
    let mut s = new_session();
    s.on_frame(hello(1, vec![1]));
    let out = s.on_frame(msg(control::CLOCK_PING, vec![(0, Value::Int(123))]));
    assert_eq!(out, vec![Output::ClockPong { t0: 123 }]);
    assert_eq!(s.state(), State::WaitConfigAck);
}

#[test]
fn unknown_type_is_ignored() {
    let mut s = new_session();
    let out = s.on_frame(Decoded::Ignored);
    assert!(out.is_empty());
    assert_eq!(s.state(), State::WaitHello);
}

#[test]
fn frames_after_close_are_dropped() {
    let mut s = new_session();
    s.on_frame(msg(control::BYE, vec![(0, Value::Int(0))]));
    let out = s.on_frame(hello(1, vec![1]));
    assert!(out.is_empty());
}

fn assert_error_code(out: &[Output], code: u64) {
    let err = out.iter().find_map(|o| match o {
        Output::Send { msg_type, body } if *msg_type == control::ERROR => Some(body),
        _ => None,
    });
    let body = err.expect("an ERROR message");
    assert_eq!(int_key(body, 0), Some(code as i128));
}

#[test]
fn default_parameters() {
    let p = MediaParams::default();
    assert_eq!(p.codec, CODEC_HEVC);
    assert_eq!((p.width, p.height), (2560, 1440));
    assert_eq!((p.refresh, p.audio, p.bitrate_kbps), (72, 0, 60_000));
    assert_eq!(FEATURE_MULTI_DISPLAY, 2);
}

#[test]
fn welcome_and_config_bodies_in_full() {
    let mut id = [0u8; 16];
    id[15] = 9;
    let mut s = HostSession::new("den", id, MediaParams::default(), Vec::new());
    let out = s.on_frame(hello(1, vec![2, 1]));
    let welcome = sent_body(&out, control::WELCOME);
    assert!(welcome.contains(&(Value::Int(0), Value::Int(1))));
    assert!(welcome.contains(&(Value::Int(1), Value::Text("den".into()))));
    assert!(welcome.contains(&(Value::Int(2), Value::Bytes(id.to_vec()))));
    let config = sent_body(&out, control::CONFIG);
    assert_eq!(int_key(&config, 0), Some(1));
    assert_eq!(int_key(&config, 1), Some(1));
    assert_eq!(pair_elem(&config, 2, 0), Some(2560));
    assert_eq!(pair_elem(&config, 2, 1), Some(1440));
    assert_eq!(int_key(&config, 3), Some(72));
    assert_eq!(int_key(&config, 4), Some(0));
    assert_eq!(int_key(&config, 5), Some(60_000));
    assert_eq!(config.len(), 6);
}

#[test]
fn viewport_is_kept_between_the_bounds_and_even() {
    // Below the least size, and an odd one.
    let mut s = streaming_session();
    let out = s.on_frame(viewport(3, -5));
    let config = sent_body(&out, control::CONFIG);
    // A negative number wraps round to a huge one.
    assert_eq!(pair_elem(&config, 2, 0), Some(MIN_DIM as i128));
    assert_eq!(pair_elem(&config, 2, 1), Some(1440));
    let mut s = streaming_session();
    let out = s.on_frame(viewport(1281, 721));
    let config = sent_body(&out, control::CONFIG);
    assert_eq!(pair_elem(&config, 2, 0), Some(1280));
    assert_eq!(pair_elem(&config, 2, 1), Some(720));
}

#[test]
fn a_reconfiguration_acknowledged_late_with_the_wrong_number_is_a_violation() {
    let mut s = streaming_session();
    s.on_frame(viewport(1920, 1080));
    let out = s.on_frame(msg(control::CONFIG_ACK, vec![(0, Value::Int(1))]));
    assert_error_code(&out, errors::PROTOCOL_VIOLATION);
    assert_eq!(s.state(), State::Closed);
}

#[test]
fn streaming_messages_before_streaming_are_violations() {
    for t in [control::STATS, control::IDR_REQUEST, control::VIEWPORT, control::INPUT] {
        let mut s = new_session();
        s.on_frame(hello(1, vec![1]));
        let out = s.on_frame(msg(t, vec![(0, Value::Int(0))]));
        assert_error_code(&out, errors::PROTOCOL_VIOLATION);
        assert_eq!(s.state(), State::Closed);
    }
}

#[test]
fn every_stats_field_is_read() {
    let body: Vec<(Value, Value)> = vec![
        (Value::Int(0), Value::Int(1)),
        (Value::Int(1), Value::Int(2)),
        (Value::Int(2), Value::Int(3)),
        (Value::Int(3), Value::Float(2.5f64.to_bits())),
        (Value::Int(4), Value::Int(5)),
        (Value::Int(5), Value::Int(6)),
        (Value::Int(6), Value::Int(-7)),
        (Value::Int(7), Value::Int(0x1_0008)),
    ];
    let r: StatsReport = StatsReport::from_body(&body);
    assert_eq!(r.frames_received, 1);
    assert_eq!(r.frames_dropped, 2);
    assert_eq!(r.datagrams, 3);
    assert_eq!(f64::from_bits(r.jitter_ms), 2.5);
    assert_eq!(r.decode_us, 5);
    assert_eq!(r.rtt_us, 6);
    assert_eq!(r.e2e_us, Some(-7));
    assert_eq!(r.stream_id, 8);
}

#[test]
fn error_bodies_carry_code_and_detail() {
    assert_eq!(
        error_body(errors::BUSY, "busy"),
        vec![
            (Value::Int(0), Value::Int(2)),
            (Value::Int(1), Value::Text("busy".into())),
        ]
    );
}

#[test]
fn error_codes_have_names() {
    assert_eq!(errors::name(errors::NONE), "NONE");
    assert_eq!(errors::name(errors::PROTOCOL_VIOLATION), "PROTOCOL_VIOLATION");
    assert_eq!(errors::name(errors::INTERNAL), "INTERNAL");
    assert_eq!(errors::name(0x99), "INTERNAL");
}

#[test]
fn lookups_take_the_first_match_of_their_kind() {
    let body = vec![
        (Value::Int(1), Value::Text("x".into())),
        (Value::Int(1), Value::Int(5)),
        (Value::Int(2), Value::Array(vec![Value::Int(7)])),
    ];
    // A value of another kind does not match.
    assert_eq!(int_key(&body, 1), Some(5));
    assert_eq!(int_key(&body, 9), None);
    assert_eq!(pair_elem(&body, 2, 0), Some(7));
    assert_eq!(pair_elem(&body, 2, 1), None);
}

#[test]
fn extra_displays_are_described_in_full() {
    let mut s = multi_new_session();
    let out = s.on_frame(hello_multi());
    let config = sent_body(&out, control::CONFIG);
    assert_eq!(
        config[6],
        (
            Value::Int(6),
            Value::Array(vec![Value::Pairs(vec![
                (Value::Int(0), Value::Int(2)),
                (
                    Value::Int(1),
                    Value::Array(vec![Value::Int(1920), Value::Int(1080)]),
                ),
                (Value::Int(2), Value::Int(72)),
                (Value::Int(3), Value::Int(60_000)),
                (
                    Value::Int(4),
                    Value::Array(vec![Value::Int(-1920), Value::Int(0)]),
                ),
            ])]),
        )
    );
}

#[test]
fn a_whole_session_starts_media_once_and_ends_with_a_close() {
    let mut s = new_session();
    let frames = vec![
        msg(control::CLOCK_PING, vec![(0, Value::Int(1))]),
        hello(1, vec![1]),
        msg(control::CONFIG_ACK, vec![(0, Value::Int(1))]),
        viewport(1280, 720),
        msg(control::CONFIG_ACK, vec![(0, Value::Int(2))]),
        msg(control::BYE, vec![]),
        msg(control::BYE, vec![]),
        hello(1, vec![1]),
    ];
    let mut out = Vec::new();
    for f in frames {
        out.extend(s.on_frame(f));
    }
    assert_eq!(
        sent_types(&out),
        vec![control::WELCOME, control::CONFIG, control::START, control::CONFIG]
    );
    let starts = out.iter().filter(|o| matches!(o, Output::StartMedia { .. })).count();
    assert_eq!(starts, 1);
    let closes = out.iter().filter(|o| matches!(o, Output::Close { .. })).count();
    assert_eq!(closes, 1);
    assert_eq!(out.last(), Some(&Output::Close { code: errors::NONE }));
    assert_eq!(s.state(), State::Closed);
}

#[test]
fn clamping_twice_changes_nothing() {
    // A client whose limits are odd, and one whose limits are below the floor.
    for (max, wish, size) in [((1281, 721), (5000, 5000), (1280, 720)), ((100, 7), (9, 4000), (640, 640))] {
        let mut s = new_session();
        s.on_frame(msg(
            control::HELLO,
            vec![
                (0, Value::Int(1)),
                (2, Value::Array(vec![Value::Int(1)])),
                (3, Value::Array(vec![Value::Int(max.0), Value::Int(max.1)])),
            ],
        ));
        s.on_frame(msg(control::CONFIG_ACK, vec![(0, Value::Int(1))]));
        let out = s.on_frame(viewport(wish.0, wish.1));
        let config = sent_body(&out, control::CONFIG);
        assert_eq!(pair_elem(&config, 2, 0), Some(size.0));
        assert_eq!(pair_elem(&config, 2, 1), Some(size.1));
        s.on_frame(msg(control::CONFIG_ACK, vec![(0, Value::Int(2))]));
        // The clamped size is the current one now, so that asking for it changes nothing.
        assert!(s.on_frame(viewport(size.0, size.1)).is_empty());
    }
}

#[test]
fn a_viewport_is_clamped_to_the_largest_even_size() {
    // The host's own size is the limit before a HELLO names another.
    let s = new_session();
    assert_eq!(s.clamp_viewport(0, u64::MAX), (640, 1440));
    assert_eq!(s.clamp_viewport(1281, 1439), (1280, 1438));
    assert_eq!(s.clamp_viewport(1280, 1438), (1280, 1438));
    assert_eq!(s.clamp_viewport(641, 640), (640, 640));
}

#[test]
fn reports_compare_their_jitter_as_a_number() {
    let report = |jitter: f64| StatsReport {
        frames_received: 1,
        frames_dropped: 2,
        datagrams: 3,
        jitter_ms: jitter.to_bits(),
        decode_us: 4,
        rtt_us: 5,
        e2e_us: Some(6),
        stream_id: 7,
    };
    assert_eq!(report(0.0), report(-0.0));
    assert_ne!(report(f64::NAN), report(f64::NAN));
    assert_ne!(report(1.0), report(2.0));
    assert_ne!(report(1.0), StatsReport { e2e_us: None, ..report(1.0) });
    assert_ne!(report(1.0), StatsReport { stream_id: 0, ..report(1.0) });
}
