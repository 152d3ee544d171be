use libraries_rust::point::{decode_point, encode_point, DecodeError, Point};

#[test]
fn encodes_canonically() {
    let p = Point { x: 10, y: 20 };
    let enc = encode_point(&p);
    assert_eq!(enc, b"{\"x\":10,\"y\":20}".to_vec());
}

#[test]
fn round_trip_preserves_all_fields() {
    let p = Point { x: 10, y: 20 };
    let enc = encode_point(&p);
    assert_eq!(decode_point(&enc), Ok(p));
}

#[test]
fn round_trip_negative_and_extreme_values() {
    let points = [
        Point { x: -1, y: 0 },
        Point {
            x: i32::MIN,
            y: i32::MAX,
        },
        Point { x: 0, y: -7 },
        Point {
            x: 2147483647,
            y: -2147483648,
        },
    ];
    for p in points {
        let enc = encode_point(&p);
        assert_eq!(decode_point(&enc), Ok(p));
    }
}

#[test]
fn rejects_non_canonical_inputs() {
    let bad: [&[u8]; 10] = [
        b"",
        b"{\"x\":10,\"y\":20",
        b"{\"x\": 10,\"y\":20}",
        b"{\"x\":010,\"y\":20}",
        b"{\"x\":-0,\"y\":20}",
        b"{\"y\":20,\"x\":10}",
        b"{\"x\":10,\"y\":20}}",
        b"{\"x\":2147483648,\"y\":0}",
        b"{\"x\":99999999999999999999,\"y\":0}",
        b"{\"x\":--1,\"y\":0}",
    ];
    for s in bad {
        assert_eq!(decode_point(s), Err(DecodeError::Malformed));
    }
}

#[test]
fn encoding_is_real_json() {
    let p = Point { x: 10, y: 20 };
    let enc = encode_point(&p);
    let v: serde_json::Value = serde_json::from_slice(&enc).unwrap();
    assert_eq!(v.get("x").and_then(serde_json::Value::as_i64), Some(10));
    assert_eq!(v.get("y").and_then(serde_json::Value::as_i64), Some(20));
}

#[test]
fn decodes_compact_json_from_serde() {
    let mut m = serde_json::Map::new();
    m.insert("x".to_string(), serde_json::Value::from(10));
    m.insert("y".to_string(), serde_json::Value::from(20));
    let text = serde_json::to_string(&serde_json::Value::Object(m)).unwrap();
    assert_eq!(decode_point(text.as_bytes()), Ok(Point { x: 10, y: 20 }));
}
