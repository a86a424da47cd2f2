//! Conformance cases.

use loom::cases::{
    clocksync_series, control_decode, control_encode, control_report, datagram_decode,
    datagram_encode, get, keymap_lookup, reassembly_trace, run_case, run_cases, Tables,
};
use loom::control::Decoded;
use loom::error::Error;
use loom::keymap::Keymap;
use loom::vectors::{read_document, Json};

fn object(members: Vec<(&str, Json)>) -> Json {
    Json::Object(
        members
            .into_iter()
            .map(|(k, v)| (k.to_string(), v))
            .collect(),
    )
}

fn text(s: &str) -> Json {
    Json::Text(s.to_string())
}

fn n(u: u64) -> Json {
    Json::Unsigned(u)
}

fn hex(s: &str) -> Json {
    object(vec![("hex", text(s))])
}

fn tables() -> Tables {
    Tables {
        akeycode_to_evdev: Keymap::from_csv("29,30").unwrap(),
        evdev_to_cgkeycode: Keymap::from_csv("30,0\n31,-1").unwrap(),
    }
}

fn datagram_input() -> Vec<(&'static str, Json)> {
    vec![
        ("flags_keyframe", Json::Bool(true)),
        ("stream_id", n(0)),
        ("frame_seq", n(5)),
        ("frag_index", n(0)),
        ("frag_count", n(1)),
        ("payload", text("0102")),
    ]
}

#[test]
fn datagram_cases() {
    let encoded = datagram_encode(&object(datagram_input())).unwrap();
    assert_eq!(encoded, hex("4c03000000000005000000010102"));
    assert_eq!(
        datagram_decode(&encoded).unwrap(),
        object(vec![
            ("ok", Json::Bool(true)),
            (
                "header",
                object(vec![
                    ("flags_keyframe", Json::Bool(true)),
                    ("flags_last", Json::Bool(true)),
                    ("stream_id", n(0)),
                    ("frame_seq", n(5)),
                    ("frag_index", n(0)),
                    ("frag_count", n(1)),
                    ("payload_len", n(2)),
                ]),
            ),
        ])
    );
    assert_eq!(
        datagram_decode(&hex("4c0300")).unwrap(),
        object(vec![
            ("ok", Json::Bool(false)),
            ("reason", text("too_short")),
        ])
    );
}

#[test]
fn malformed_cases_have_no_result() {
    for i in 0..6 {
        let mut members = datagram_input();
        members.remove(i);
        assert_eq!(datagram_encode(&object(members)), None);
    }
    assert_eq!(datagram_decode(&hex("4c0")), None);
    assert_eq!(datagram_decode(&Json::Null), None);
    assert_eq!(control_decode(&hex("xx")), None);
    assert_eq!(control_encode(&object(vec![("msg_type", n(1))])), None);
    assert_eq!(
        control_encode(&object(vec![("msg_type", n(1)), ("body", n(2))])),
        None
    );
    assert_eq!(reassembly_trace(&object(vec![])), None);
    assert_eq!(
        reassembly_trace(&object(vec![("trace", Json::Array(vec![Json::Null]))])),
        None
    );
    assert_eq!(clocksync_series(&object(vec![])), None);
    let three = Json::Array(vec![Json::Array(vec![n(1), n(2), n(3)])]);
    assert_eq!(clocksync_series(&object(vec![("samples", three)])), None);
}

#[test]
fn control_cases() {
    let input = object(vec![
        ("msg_type", n(4)),
        ("body", object(vec![("0", n(1))])),
    ]);
    let encoded = control_encode(&input).unwrap();
    assert_eq!(encoded, hex("000000058204a10001"));
    assert_eq!(
        control_decode(&encoded).unwrap(),
        object(vec![
            ("ok", Json::Bool(true)),
            ("msg_type", n(4)),
            ("body", object(vec![("0", n(1))])),
        ])
    );
    let unknown = control_encode(&object(vec![
        ("msg_type", n(0x7f)),
        ("body", object(vec![])),
    ]))
    .unwrap();
    assert_eq!(
        control_decode(&unknown).unwrap(),
        object(vec![("ok", Json::Bool(true)), ("ignored", Json::Bool(true))])
    );
    assert_eq!(
        control_decode(&hex("0000")).unwrap(),
        object(vec![
            ("ok", Json::Bool(false)),
            ("error", text("PROTOCOL_VIOLATION")),
        ])
    );
    assert_eq!(
        control_report(Err(Error::ProtocolViolation)),
        control_decode(&hex("0000"))
    );
    assert_eq!(
        control_report(Ok(Decoded::Ignored)),
        control_decode(&unknown)
    );
}

fn arrival(t: i64, seq: u64, keyframe: bool) -> Json {
    object(vec![
        ("t_ms", if t < 0 { Json::Signed(t) } else { n(t as u64) }),
        ("frame_seq", n(seq)),
        ("frag_index", n(0)),
        ("frag_count", n(1)),
        ("keyframe", Json::Bool(keyframe)),
    ])
}

#[test]
fn reassembly_cases() {
    let trace = Json::Array(vec![arrival(-1, 0, true), arrival(14, 2, false)]);
    assert_eq!(
        reassembly_trace(&object(vec![("trace", trace)])).unwrap(),
        object(vec![
            (
                "events",
                Json::Array(vec![
                    object(vec![
                        ("t_ms", Json::Signed(-1)),
                        ("ev", text("deliver")),
                        ("frame_seq", n(0)),
                        ("keyframe", Json::Bool(true)),
                    ]),
                    object(vec![
                        ("t_ms", n(14)),
                        ("ev", text("idr_request")),
                        ("last_good", n(0)),
                    ]),
                ]),
            ),
            (
                "counters",
                object(vec![
                    ("dropped_incomplete", n(0)),
                    ("discarded_gap", n(1)),
                    ("stale_fragments", n(0)),
                ]),
            ),
        ])
    );
}

#[test]
fn clocksync_cases() {
    let samples = Json::Array(vec![
        Json::Array(vec![n(1000), n(501_500), n(501_540), n(2100)]),
        Json::Array(vec![n(0), Json::Signed(-250_000), Json::Signed(-249_960), n(1000)]),
    ]);
    assert_eq!(
        clocksync_series(&object(vec![("samples", samples)])).unwrap(),
        object(vec![(
            "estimates",
            Json::Array(vec![
                object(vec![("rtt", n(1060)), ("offset", n(499_970))]),
                object(vec![("rtt", n(960)), ("offset", Json::Signed(-250_480))]),
            ]),
        )])
    );
    // Sums that leave 64 bits.
    let far = Json::Array(vec![Json::Array(vec![
        Json::Signed(i64::MIN),
        n(0),
        n(0),
        n(1),
    ])]);
    assert_eq!(clocksync_series(&object(vec![("samples", far)])), None);
}

#[test]
fn keymap_cases() {
    let t = tables();
    let code = |c: Json| object(vec![("code", c)]);
    assert_eq!(
        keymap_lookup(&code(n(29)), &t.akeycode_to_evdev).unwrap(),
        code(n(30))
    );
    assert_eq!(
        keymap_lookup(&code(n(31)), &t.evdev_to_cgkeycode).unwrap(),
        code(Json::Signed(-1))
    );
    assert_eq!(
        keymap_lookup(&code(n(1)), &t.akeycode_to_evdev).unwrap(),
        code(Json::Null)
    );
    assert_eq!(keymap_lookup(&code(text("x")), &t.akeycode_to_evdev), None);
}

#[test]
fn cases_are_found_by_name() {
    let t = tables();
    let encoded = hex("4c03000000000005000000010102");
    assert_eq!(
        run_case("datagram", "encode", &object(datagram_input()), &t),
        Some(encoded)
    );
    assert_eq!(run_case("datagram", "other", &Json::Null, &t), None);
    assert_eq!(run_case("nothing", "encode", &Json::Null, &t), None);
    let code = object(vec![("code", n(30))]);
    assert_eq!(
        run_case("keymap", "evdev_to_cgkeycode", &code, &t),
        Some(object(vec![("code", n(0))]))
    );
    assert_eq!(
        run_case("keymap", "akeycode_to_evdev", &code, &t),
        Some(object(vec![("code", Json::Null)]))
    );
    let trace = object(vec![("trace", Json::Array(vec![]))]);
    assert!(run_case("reassembly", "any", &trace, &t).is_some());
    assert!(run_case("control", "decode", &hex(""), &t).is_some());
    assert!(run_case("clocksync", "any", &trace, &t).is_none());
}

#[test]
fn the_later_of_two_members_counts() {
    let j = object(vec![("a", n(1)), ("b", n(2)), ("a", n(3))]);
    assert_eq!(get(&j, "a"), Some(&n(3)));
    assert_eq!(get(&j, "b"), Some(&n(2)));
    assert_eq!(get(&j, "c"), None);
    assert_eq!(get(&n(1), "a"), None);
}

#[test]
fn a_vector_file_is_run_case_by_case() {
    let run = |category: &str, file: &str| {
        run_cases(category, &read_document(file).unwrap(), &tables())
    };
    let file = r#"{"cases": [
        {"op": "akeycode_to_evdev", "input": {"code": 29}},
        {"op": "evdev_to_cgkeycode", "input": {"code": 31}}
    ]}"#;
    let input = |code: u64| object(vec![("code", n(code))]);
    let first = run_case("keymap", "akeycode_to_evdev", &input(29), &tables()).unwrap();
    let second = run_case("keymap", "evdev_to_cgkeycode", &input(31), &tables()).unwrap();
    assert_ne!(first, second);
    let report = object(vec![("results", Json::Array(vec![first, second]))]);
    assert_eq!(run("keymap", file), Some(report));

    let short = r#"{"cases": [{"op": "decode", "input": {"hex": "4c"}}]}"#;
    let verdict = object(vec![("ok", Json::Bool(false)), ("reason", text("too_short"))]);
    let report = object(vec![("results", Json::Array(vec![verdict]))]);
    assert_eq!(run("datagram", short), Some(report));

    let none = object(vec![("results", Json::Array(vec![]))]);
    assert_eq!(run("anything", r#"{"cases": []}"#), Some(none));
    // No array of cases, no operation, an unknown one, no input, an unknown category.
    assert_eq!(run("datagram", r#"{}"#), None);
    assert_eq!(run("datagram", r#"{"cases": {}}"#), None);
    assert_eq!(run("clocksync", r#"{"cases": [{"input": {"samples": []}}]}"#), None);
    assert_eq!(run("datagram", r#"{"cases": [{"op": "x", "input": {"hex": "4c"}}]}"#), None);
    assert_eq!(run("datagram", r#"{"cases": [{"op": "decode"}]}"#), None);
    assert_eq!(run("x", short), None);
}
