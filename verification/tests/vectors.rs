//! Conformance vectors.

use loom::cbor::Value;
use loom::vectors::{cbor_to_json, int_to_json, json_to_cbor, read_document, Json};

fn object(members: Vec<(&str, Json)>) -> Json {
    Json::Object(
        members
            .into_iter()
            .map(|(k, v)| (k.to_string(), v))
            .collect(),
    )
}

fn text(s: &str) -> Json {
    Json::Text(s.to_string())
}

#[test]
fn bytes_are_marked_hexadecimal() {
    let v = Value::Bytes(vec![0x00, 0xab, 0xf9]);
    let j = object(vec![("$hex", text("00abf9"))]);
    assert_eq!(cbor_to_json(&v), Some(j));
    // Either case is read.
    for s in ["00abf9", "00ABf9"] {
        assert_eq!(
            json_to_cbor(&object(vec![("$hex", text(s))])),
            Some(Value::Bytes(vec![0x00, 0xab, 0xf9]))
        );
    }
    // An odd number of digits, and what is no digit.
    for s in ["0", "0g", "é", "00 1"] {
        assert_eq!(json_to_cbor(&object(vec![("$hex", text(s))])), None, "{s}");
    }
}

#[test]
fn only_a_single_text_member_is_a_byte_string() {
    assert_eq!(
        json_to_cbor(&object(vec![("$hex", Json::Null)])),
        Some(Value::Pairs(vec![(
            Value::Text("$hex".into()),
            Value::Null
        )]))
    );
    assert_eq!(
        json_to_cbor(&object(vec![("$hex", text("zz")), ("1", Json::Null)])),
        Some(Value::Pairs(vec![
            (Value::Text("$hex".into()), Value::Text("zz".into())),
            (Value::Int(1), Value::Null),
        ]))
    );
}

#[test]
fn keys_that_read_as_integers_are_integers() {
    let j = object(vec![
        ("0", Json::Bool(true)),
        ("-12", Json::Null),
        ("+3", Json::Null),
        ("1x", Json::Null),
        ("", Json::Null),
    ]);
    assert_eq!(
        json_to_cbor(&j),
        Some(Value::Pairs(vec![
            (Value::Int(0), Value::Bool(true)),
            (Value::Int(-12), Value::Null),
            (Value::Int(3), Value::Null),
            (Value::Text("1x".into()), Value::Null),
            (Value::Text(String::new()), Value::Null),
        ]))
    );
}

#[test]
fn integers_as_json() {
    assert_eq!(int_to_json(0), Json::Unsigned(0));
    assert_eq!(int_to_json(i128::from(u64::MAX)), Json::Unsigned(u64::MAX));
    assert_eq!(int_to_json(-1), Json::Signed(-1));
    assert_eq!(int_to_json(i128::from(i64::MIN)), Json::Signed(i64::MIN));
    assert_eq!(
        int_to_json(i128::from(u64::MAX) + 1),
        text("18446744073709551616")
    );
    assert_eq!(
        int_to_json(i128::MIN),
        text("-170141183460469231731687303715884105728")
    );
}

#[test]
fn values_survive_the_way_there_and_back() {
    let v = Value::Pairs(vec![
        (Value::Int(0), Value::Array(vec![Value::Int(-7), Value::Null])),
        (Value::Int(-3), Value::Bytes(vec![])),
        (
            Value::Text("name".into()),
            Value::Pairs(vec![(Value::Int(1), Value::Float(2.5f64.to_bits()))]),
        ),
        (Value::Int(i128::MAX), Value::Text("5".into())),
    ]);
    let j = cbor_to_json(&v).unwrap();
    assert_eq!(json_to_cbor(&j), Some(v));
}

#[test]
fn what_json_cannot_write_is_refused() {
    assert_eq!(cbor_to_json(&Value::Float(f64::NAN.to_bits())), None);
    assert_eq!(cbor_to_json(&Value::Float(f64::INFINITY.to_bits())), None);
    assert!(cbor_to_json(&Value::Float(f64::MAX.to_bits())).is_some());
    let key = Value::Pairs(vec![(Value::Null, Value::Null)]);
    assert_eq!(cbor_to_json(&Value::Array(vec![Value::Int(1), key])), None);
}

#[test]
fn documents_are_read() {
    let read = read_document(
        r#" {"b": [null, true, 18446744073709551615, -1, 1.5, -0, 1e2], "a": {"x": "\u00e9"}} "#,
    );
    let list = Json::Array(vec![
        Json::Null,
        Json::Bool(true),
        Json::Unsigned(u64::MAX),
        Json::Signed(-1),
        Json::Float(1.5f64.to_bits()),
        Json::Float((-0.0f64).to_bits()),
        Json::Float(100.0f64.to_bits()),
    ]);
    let inner = object(vec![("x", text("\u{e9}"))]);
    // Members come in the order of their names.
    assert_eq!(read, Some(object(vec![("a", inner), ("b", list)])));
    assert_eq!(read_document("9223372036854775808"), Some(Json::Unsigned(1 << 63)));
    assert_eq!(read_document("18446744073709551616"), Some(Json::Float(18446744073709551616.0f64.to_bits())));
    assert_eq!(read_document(r#"{"a": 1, "a": 2}"#), Some(object(vec![("a", Json::Unsigned(2))])));
    for bad in ["", "{", "[1,]", "nul", "1 2", "1e999"] {
        assert_eq!(read_document(bad), None, "{bad}");
    }
}
