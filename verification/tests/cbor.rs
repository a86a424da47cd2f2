//! Canonical CBOR.

use ciborium::value::Value as Item;
use loom::cbor::{decode, from_ciborium, Value};
use loom::error::Error;

fn canonical_hex(v: &Value) -> String {
    hex::encode(v.to_canonical())
}

fn float(f: f64) -> Value {
    Value::Float(f.to_bits())
}

#[test]
fn uint_shortest_forms() {
    assert_eq!(canonical_hex(&Value::Int(0)), "00");
    assert_eq!(canonical_hex(&Value::Int(23)), "17");
    assert_eq!(canonical_hex(&Value::Int(24)), "1818");
    assert_eq!(canonical_hex(&Value::Int(90)), "185a");
    assert_eq!(canonical_hex(&Value::Int(255)), "18ff");
    assert_eq!(canonical_hex(&Value::Int(256)), "190100");
    assert_eq!(canonical_hex(&Value::Int(3072)), "190c00");
    assert_eq!(canonical_hex(&Value::Int(60000)), "19ea60");
    assert_eq!(canonical_hex(&Value::Int(1_000_000)), "1a000f4240");
    assert_eq!(canonical_hex(&Value::Int(i128::from(u32::MAX))), "1affffffff");
}

#[test]
fn negative_ints() {
    assert_eq!(canonical_hex(&Value::Int(-1)), "20");
    assert_eq!(canonical_hex(&Value::Int(-240)), "38ef");
    assert_eq!(canonical_hex(&Value::Int(-256)), "38ff");
    assert_eq!(canonical_hex(&Value::Int(-257)), "390100");
}

#[test]
fn strings_and_bytes() {
    assert_eq!(canonical_hex(&Value::Text("Quest 3".into())), "6751756573742033");
    assert_eq!(canonical_hex(&Value::Text(String::new())), "60");
    assert_eq!(canonical_hex(&Value::Bytes(vec![0x00, 0x01, 0x02])), "43000102");
    // A 32-byte string uses a 1-byte length prefix (0x58 0x20).
    let b = Value::Bytes(vec![0xAB; 32]);
    assert!(canonical_hex(&b).starts_with("5820"));
}

#[test]
fn simple_values() {
    assert_eq!(canonical_hex(&Value::Bool(true)), "f5");
    assert_eq!(canonical_hex(&Value::Bool(false)), "f4");
    assert_eq!(canonical_hex(&Value::Null), "f6");
}

#[test]
fn float_prefers_half() {
    // 2.5 is exactly representable in 16 bits.
    assert_eq!(canonical_hex(&float(2.5)), "f94100");
    assert_eq!(canonical_hex(&float(0.0)), "f90000");
    assert_eq!(canonical_hex(&float(1.0)), "f93c00");
    // 0.1 is not exactly representable in 16 or 32 bits.
    assert_eq!(canonical_hex(&float(0.1)), "fb3fb999999999999a");
}

#[test]
fn map_keys_are_bytewise_sorted() {
    // Insert out of order; canonical output must sort by encoded key.
    let m = Value::Pairs(vec![
        (Value::Int(2), Value::Int(0)),
        (Value::Int(0), Value::Int(0)),
        (Value::Int(1), Value::Int(0)),
    ]);
    assert_eq!(canonical_hex(&m), "a3000001000200");
    // A large key (encoded as 0x18 0x63 = 99) sorts after single-byte keys.
    let m2 = Value::Pairs(vec![
        (Value::Int(99), Value::Int(1)),
        (Value::Int(1), Value::Int(2)),
    ]);
    assert_eq!(canonical_hex(&m2), "a20102186301");
}

#[test]
fn array_nesting() {
    let a = Value::Array(vec![
        Value::Int(1),
        Value::Array(vec![Value::Int(2), Value::Int(3)]),
    ]);
    assert_eq!(canonical_hex(&a), "8201820203");
}

#[test]
fn decode_accepts_noncanonical() {
    // 1 encoded the long way (0x1b + 8 bytes) must still decode to Int(1).
    let non_canonical = hex::decode("1b0000000000000001").unwrap();
    assert_eq!(decode(&non_canonical).unwrap(), Value::Int(1));
}

#[test]
fn decode_roundtrips_structures() {
    let v = Value::Pairs(vec![
        (Value::Int(0), Value::Int(1)),
        (Value::Int(1), Value::Text("hi".into())),
        (Value::Int(2), Value::Array(vec![Value::Bool(true), Value::Null])),
        (Value::Int(3), Value::Bytes(vec![0xDE, 0xAD])),
    ]);
    let bytes = v.to_canonical();
    assert_eq!(decode(&bytes).unwrap(), v);
}

#[test]
fn decode_rejects_garbage() {
    // A bare "start of 2-array" with no elements is truncated/invalid.
    assert!(matches!(decode(&[0x82]), Err(Error::ProtocolViolation)));
}

#[test]
fn decode_rejects_nothing_at_all() {
    assert!(matches!(decode(&[]), Err(Error::ProtocolViolation)));
}

#[test]
fn decode_reads_one_item_and_leaves_the_rest() {
    assert_eq!(decode(&[0x01, 0x82]).unwrap(), Value::Int(1));
}

#[test]
fn sixty_four_bit_integers_round_trip() {
    for i in [
        i128::from(u64::MAX),
        i128::from(u32::MAX) + 1,
        -1 - i128::from(u64::MAX),
        i128::from(i64::MIN),
    ] {
        let v = Value::Int(i);
        assert_eq!(decode(&v.to_canonical()).unwrap(), v);
    }
    assert_eq!(
        canonical_hex(&Value::Int(i128::from(u64::MAX))),
        "1bffffffffffffffff"
    );
    assert_eq!(
        canonical_hex(&Value::Int(-1 - i128::from(u64::MAX))),
        "3bffffffffffffffff"
    );
}

#[test]
fn lengths_take_the_shortest_head() {
    let n = Value::Bytes(vec![7; 300]).to_canonical();
    assert_eq!(n[..3], [0x59, 0x01, 0x2c]);
    assert_eq!(n.len(), 303);
    let a = Value::Array(vec![Value::Null; 24]).to_canonical();
    assert_eq!(a[..2], [0x98, 24]);
    // The length of a text counts bytes, not characters.
    assert_eq!(canonical_hex(&Value::Text("é".into())), "62c3a9");
}

/// The reference for a float: the shortest of 16, 32 and 64 bits that holds it exactly.
fn expected_float(f: f64) -> Vec<u8> {
    if f.is_nan() {
        return vec![0xf9, 0x7e, 0x00];
    }
    let single = f as f32;
    if f64::from(single) != f {
        let mut out = vec![0xfb];
        out.extend_from_slice(&f.to_be_bytes());
        return out;
    }
    let small = half::f16::from_f32(single);
    if f32::from(small) != single {
        let mut out = vec![0xfa];
        out.extend_from_slice(&single.to_be_bytes());
        return out;
    }
    let mut out = vec![0xf9];
    out.extend_from_slice(&small.to_be_bytes());
    out
}

#[test]
fn floats_take_the_shortest_exact_form() {
    let mut all = vec![
        -0.0,
        f64::INFINITY,
        f64::NEG_INFINITY,
        f64::NAN,
        f64::MAX,
        f64::MIN_POSITIVE,
        f64::from_bits(1),
        f64::from(f32::MAX),
        f64::from(f32::MIN_POSITIVE),
        f64::from(f32::from_bits(1)),
        f64::from(f32::from_bits(0x0080_0001)),
        65504.0,
        65505.0,
        65536.0,
        100_000.0,
        -4.1,
        3.25,
        1.0 / 3.0,
    ];
    // Every 16-bit number, and its neighbours in 32 and in 64 bits.
    for bits in 0..=0xffffu16 {
        let h = half::f16::from_bits(bits).to_f32();
        all.push(f64::from(h));
        all.push(f64::from(f32::from_bits(h.to_bits() ^ 1)));
        all.push(f64::from_bits(f64::from(h).to_bits() ^ 1));
    }
    for f in all {
        assert_eq!(float(f).to_canonical(), expected_float(f), "{f:e}");
    }
}

#[test]
fn exact_float_bytes() {
    assert_eq!(canonical_hex(&float(100_000.0)), "fa47c35000");
    assert_eq!(canonical_hex(&float(f64::NAN)), "f97e00");
    assert_eq!(canonical_hex(&float(f64::INFINITY)), "f97c00");
    assert_eq!(canonical_hex(&float(-4.1)), "fbc010666666666666");
}

#[test]
fn float_widths_decode_to_one_value() {
    for text in ["f93e00", "fa3fc00000", "fb3ff8000000000000"] {
        assert_eq!(decode(&hex::decode(text).unwrap()).unwrap(), float(1.5));
    }
}

#[test]
fn entry_order_does_not_matter() {
    let a = (Value::Text("b".into()), Value::Int(1));
    let b = (Value::Int(300), Value::Null);
    let c = (Value::Bytes(vec![]), Value::Bool(true));
    let one = Value::Pairs(vec![a.clone(), b.clone(), c.clone()]);
    let two = Value::Pairs(vec![c, a, b]);
    assert_eq!(one.to_canonical(), two.to_canonical());
    assert_eq!(canonical_hex(&one), "a319012cf640f5616201");
}

#[test]
fn equal_keys_keep_their_order() {
    let m = Value::Pairs(vec![
        (Value::Int(1), Value::Int(9)),
        (Value::Int(0), Value::Int(5)),
        (Value::Int(1), Value::Int(3)),
    ]);
    assert_eq!(canonical_hex(&m), "a3000501090103");
}

#[test]
fn nested_maps_are_arranged_too() {
    let inner = Value::Pairs(vec![
        (Value::Int(1), Value::Int(0)),
        (Value::Int(0), Value::Int(0)),
    ]);
    let outer = Value::Array(vec![inner]);
    assert_eq!(canonical_hex(&outer), "81a200000100");
    // Encoding what was decoded changes nothing.
    let again = decode(&outer.to_canonical()).unwrap();
    assert_eq!(again.to_canonical(), outer.to_canonical());
}

#[test]
fn deep_nesting_round_trips() {
    let mut v = Value::Null;
    for _ in 0..100 {
        v = Value::Array(vec![v]);
    }
    assert_eq!(decode(&v.to_canonical()).unwrap(), v);
}

#[test]
fn over_deep_nesting_is_rejected() {
    let mut bytes = vec![0x81u8; 1000];
    bytes.push(0xf6);
    assert!(matches!(decode(&bytes), Err(Error::ProtocolViolation)));
}

#[test]
fn tags_are_unwrapped_and_undefined_is_null() {
    // Tag 0 around a text, and `undefined`.
    assert_eq!(
        decode(&[0xc0, 0x61, 0x61]).unwrap(),
        Value::Text("a".into())
    );
    let tagged = Item::Tag(7, Box::new(Item::Tag(8, Box::new(Item::Bool(true)))));
    assert_eq!(from_ciborium(tagged), Value::Bool(true));
    assert_eq!(decode(&[0xf7]).unwrap(), Value::Null);
}

#[test]
fn every_item_is_taken_over() {
    let items = Item::Array(vec![
        Item::Integer((-5).into()),
        Item::Bytes(vec![1, 2]),
        Item::Float(0.5),
        Item::Text("x".into()),
        Item::Bool(false),
        Item::Null,
        Item::Map(vec![(Item::Text("k".into()), Item::Array(vec![]))]),
    ]);
    assert_eq!(
        from_ciborium(items),
        Value::Array(vec![
            Value::Int(-5),
            Value::Bytes(vec![1, 2]),
            float(0.5),
            Value::Text("x".into()),
            Value::Bool(false),
            Value::Null,
            Value::Pairs(vec![(Value::Text("k".into()), Value::Array(vec![]))]),
        ])
    );
}

#[test]
fn views_of_a_value() {
    assert_eq!(Value::Int(4).as_int(), Some(4));
    assert_eq!(Value::Null.as_int(), None);
    let list = vec![Value::Int(1)];
    assert_eq!(Value::Array(list.clone()).as_array(), Some(list.as_slice()));
    assert_eq!(Value::Int(1).as_array(), None);
    let pairs = vec![(Value::Int(1), Value::Null)];
    assert_eq!(Value::Pairs(pairs.clone()).as_map(), Some(pairs.as_slice()));
    assert_eq!(Value::Bool(true).as_map(), None);
}

#[test]
fn long_strings_round_trip() {
    // Longer than any read buffer, with characters of every width at every offset.
    for shift in 0..5 {
        let mut s = "x".repeat(shift);
        while s.len() < 20_000 {
            s.push_str("aé€𝄞");
        }
        let v = Value::Array(vec![
            Value::Text(s.clone()),
            Value::Bytes(s.clone().into_bytes()),
        ]);
        assert_eq!(decode(&v.to_canonical()).unwrap(), v);
    }
}

#[test]
fn the_deepest_readable_nesting() {
    let nested = |depth: usize| {
        let mut v = Value::Int(1);
        for _ in 0..depth {
            v = Value::Pairs(vec![(Value::Int(0), v)]);
        }
        v
    };
    let v = nested(256);
    assert_eq!(decode(&v.to_canonical()).unwrap(), v);
    assert!(decode(&nested(257).to_canonical()).is_err());
}

/// The bits of the float that the bytes decode to.
fn float_bits(bytes: &[u8]) -> u64 {
    match decode(bytes).unwrap() {
        Value::Float(bits) => bits,
        other => panic!("no float: {other:?}"),
    }
}

#[test]
fn a_64_bit_float_is_kept_bit_for_bit() {
    for bits in [
        0x7ff8_0000_0000_0000u64,
        0x7ff8_0000_0000_0001,
        0xfff8_1234_5678_9abc,
        0xfff0_0000_0000_0000,
        0x8000_0000_0000_0000,
        1,
        0x3ff8_0000_0000_0000,
    ] {
        let mut bytes = vec![0xfb];
        bytes.extend_from_slice(&bits.to_be_bytes());
        assert_eq!(float_bits(&bytes), bits);
        match from_ciborium(Item::Float(f64::from_bits(bits))) {
            Value::Float(b) => assert_eq!(b, bits),
            other => panic!("no float: {other:?}"),
        }
        // Inside an array, a map and a tag too.
        let mut nested = vec![0x81, 0xa1, 0x01, 0xc1];
        nested.extend_from_slice(&bytes);
        match decode(&nested).unwrap().as_array().unwrap()[0].as_map().unwrap()[0].1 {
            Value::Float(b) => assert_eq!(b, bits),
            ref other => panic!("no float: {other:?}"),
        }
        // Whatever NaN it is, it is sent as the short one.
        if f64::from_bits(bits).is_nan() {
            assert_eq!(canonical_hex(&Value::Float(bits)), "f97e00");
        }
    }
}

#[test]
fn a_shorter_nan_is_read_as_some_nan() {
    for bytes in [
        &[0xf9, 0x7e, 0x01][..],
        &[0xf9, 0xfc, 0x01][..],
        &[0xfa, 0x7f, 0xc0, 0x00, 0x01][..],
    ] {
        assert!(f64::from_bits(float_bits(bytes)).is_nan());
    }
    assert_eq!(decode(&[0xf9, 0x7c, 0x00]).unwrap(), float(f64::INFINITY));
}

#[test]
fn values_compare_as_what_they_hold() {
    assert_ne!(float(f64::NAN), float(f64::NAN));
    assert_eq!(float(0.0), float(-0.0));
    assert_eq!(float(1.5), float(1.5));
    assert_ne!(float(1.5), float(-1.5));
    assert_ne!(float(1.0), Value::Int(1));
    let deep = |f: f64| {
        Value::Array(vec![Value::Pairs(vec![
            (Value::Int(1), Value::Text("x".into())),
            (Value::Bytes(vec![1]), Value::Array(vec![float(f), Value::Null, Value::Bool(true)])),
        ])])
    };
    assert_eq!(deep(0.0), deep(-0.0));
    assert_eq!(deep(2.0), deep(2.0));
    assert_ne!(deep(2.0), deep(3.0));
    assert_ne!(deep(f64::NAN), deep(f64::NAN));
    assert_ne!(Value::Text("a".into()), Value::Text("b".into()));
    assert_ne!(Value::Bytes(vec![1]), Value::Bytes(vec![1, 2]));
    assert_ne!(Value::Array(vec![]), Value::Array(vec![Value::Null]));
    assert_ne!(Value::Array(vec![]), Value::Pairs(vec![]));
    assert_ne!(Value::Bool(true), Value::Bool(false));
    // Entries compare in order.
    let pair = |k: i128| (Value::Int(k), Value::Null);
    assert_ne!(Value::Pairs(vec![pair(1), pair(2)]), Value::Pairs(vec![pair(2), pair(1)]));
}
