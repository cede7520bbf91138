use resp_codec::{Decoded, RedisValue};

#[test]
fn test_to_wire_error() {
    let r = RedisValue::Error(b"hello".to_vec());
    assert_eq!(r.to_wire(), b"-hello\r\n".to_vec());
}

#[test]
fn test_to_wire_nil() {
    let r = RedisValue::Nil;
    assert_eq!(r.to_wire(), b"$-1\r\n".to_vec());
}

#[test]
fn test_to_wire_str() {
    let r = RedisValue::Str(b"hello".to_vec());
    assert_eq!(r.to_wire(), b"+hello\r\n".to_vec());
}

#[test]
fn test_to_wire_bulk() {
    let r = RedisValue::Bulk(b"hello".to_vec());
    assert_eq!(r.to_wire(), b"$5\r\nhello\r\n".to_vec());
}

#[test]
fn test_to_wire_int() {
    let r = RedisValue::Int(34);
    assert_eq!(r.to_wire(), b":34\r\n".to_vec());
}

#[test]
fn test_to_wire_array() {
    let mut v = vec![];
    v.push(RedisValue::Error(b"hello".to_vec()));
    v.push(RedisValue::Nil);
    v.push(RedisValue::Str(b"hello".to_vec()));
    v.push(RedisValue::Bulk(b"hello".to_vec()));
    v.push(RedisValue::Int(34));
    let r = RedisValue::Array(v);
    let r2 = b"*5\r\n-hello\r\n$-1\r\n+hello\r\n$5\r\nhello\r\n:34\r\n"
        .iter()
        .map(|&c| c)
        .collect::<Vec<u8>>();
    assert_eq!(r.to_wire(), r2);
}

#[test]
fn test_deserialize() {
    let data = b"*5\r\n-hello\r\n$-1\r\n+hello\r\n$5\r\nhello\r\n:34\r\n";
    let value = RedisValue::deserialize(data).expect("");
    assert_eq!(value.0.to_wire(), data.to_vec());
}

#[test]
fn test_deserialize2() {
    let data = b"*5\r\n-hello\r\n$-1\r\n+hello\r\n$5\r\nhello\r\n:34\r\n+another value";
    let value = RedisValue::deserialize(data).expect("");
    assert_eq!(value.0.to_wire(), data[..value.1].to_vec());
}

#[test]
fn round_trip_scalars() {
    let values = vec![
        RedisValue::Str(b"OK".to_vec()),
        RedisValue::Error(b"ERR unknown".to_vec()),
        RedisValue::Int(0),
        RedisValue::Int(-1),
        RedisValue::Int(i64::MAX),
        RedisValue::Int(i64::MIN),
        RedisValue::Nil,
        RedisValue::Bulk(b"".to_vec()),
        RedisValue::Bulk(b"binary\r\nsafe\x00bytes".to_vec()),
    ];
    for v in values {
        let wire = v.to_wire();
        let (back, used) = RedisValue::deserialize(&wire).expect("complete");
        assert_eq!(back, v);
        assert_eq!(used, wire.len());
    }
}

#[test]
fn round_trip_nested_array() {
    let v = RedisValue::Array(vec![
        RedisValue::Array(vec![]),
        RedisValue::Array(vec![RedisValue::Int(7), RedisValue::Nil]),
        RedisValue::Bulk(b"x".to_vec()),
    ]);
    let wire = v.to_wire();
    let (back, used) = RedisValue::deserialize(&wire).expect("complete");
    assert_eq!(back, v);
    assert_eq!(used, wire.len());
}

#[test]
fn null_is_not_empty_bulk() {
    let wire = RedisValue::Nil.to_wire();
    let (back, used) = RedisValue::deserialize(&wire).expect("complete");
    assert_eq!(back, RedisValue::Nil);
    assert_ne!(back, RedisValue::Bulk(b"".to_vec()));
    assert_eq!(used, wire.len());
    // an empty bulk string stays an empty bulk string
    let empty = RedisValue::Bulk(b"".to_vec());
    let wire2 = empty.to_wire();
    assert_eq!(wire2, b"$0\r\n\r\n".to_vec());
    let (back2, _) = RedisValue::deserialize(&wire2).expect("complete");
    assert_eq!(back2, empty);
}

#[test]
fn multi_value_buffer() {
    let mut data = RedisValue::Int(34).to_wire();
    data.extend(RedisValue::Str(b"hello".to_vec()).to_wire());
    let (first, used1) = RedisValue::deserialize(&data).expect("first");
    assert_eq!(first, RedisValue::Int(34));
    let (second, used2) = RedisValue::deserialize(&data[used1..]).expect("second");
    assert_eq!(second, RedisValue::Str(b"hello".to_vec()));
    assert_eq!(used1 + used2, data.len());
}

#[test]
fn truncated_bulk_is_incomplete() {
    let wire = RedisValue::Bulk(b"hello".to_vec()).to_wire();
    let cut = &wire[..wire.len() - 1];
    assert_eq!(RedisValue::decode(cut), Decoded::Incomplete);
    assert_eq!(RedisValue::deserialize(cut), None);
}

#[test]
fn every_prefix_is_incomplete() {
    let wire = RedisValue::Array(vec![
        RedisValue::Bulk(b"GET".to_vec()),
        RedisValue::Int(-12),
    ])
    .to_wire();
    for k in 0..wire.len() {
        assert_eq!(RedisValue::decode(&wire[..k]), Decoded::Incomplete);
    }
}

#[test]
fn malformed_tag() {
    assert_eq!(RedisValue::decode(b"#oops\r\n"), Decoded::Malformed);
}

#[test]
fn malformed_numeric_fields() {
    // a non-numeric integer field is corruption, not a default value
    assert_eq!(RedisValue::decode(b":12x\r\n"), Decoded::Malformed);
    assert_eq!(RedisValue::decode(b":\r\n"), Decoded::Malformed);
    assert_eq!(RedisValue::decode(b":-\r\n"), Decoded::Malformed);
    // an integer beyond the signed 64-bit range is corruption
    assert_eq!(
        RedisValue::decode(b":9223372036854775808\r\n"),
        Decoded::Malformed
    );
    // so are negative lengths other than -1, and non-numeric lengths
    assert_eq!(RedisValue::decode(b"$-2\r\nxx\r\n"), Decoded::Malformed);
    assert_eq!(RedisValue::decode(b"$abc\r\n"), Decoded::Malformed);
    assert_eq!(RedisValue::decode(b"*-3\r\n"), Decoded::Malformed);
    // a bulk payload must end in the terminator
    assert_eq!(RedisValue::decode(b"$3\r\nabcXY"), Decoded::Malformed);
    // a line's carriage return must be followed by a line feed
    assert_eq!(RedisValue::decode(b"+ok\rX"), Decoded::Malformed);
}

#[test]
fn int_boundaries_decode() {
    let (v, used) = RedisValue::deserialize(b":9223372036854775807\r\n").expect("max");
    assert_eq!(v, RedisValue::Int(i64::MAX));
    assert_eq!(used, 22);
    let (v, used) = RedisValue::deserialize(b":-9223372036854775808\r\n").expect("min");
    assert_eq!(v, RedisValue::Int(i64::MIN));
    assert_eq!(used, 23);
}

#[test]
fn incomplete_cases() {
    assert_eq!(RedisValue::decode(b""), Decoded::Incomplete);
    assert_eq!(RedisValue::decode(b"+"), Decoded::Incomplete);
    assert_eq!(RedisValue::decode(b"+partial line"), Decoded::Incomplete);
    assert_eq!(RedisValue::decode(b"+line\r"), Decoded::Incomplete);
    assert_eq!(RedisValue::decode(b"$10\r\nhello"), Decoded::Incomplete);
    // an array is no value until its last element has arrived
    assert_eq!(RedisValue::decode(b"*2\r\n:1\r\n"), Decoded::Incomplete);
    // a declared length far beyond the buffer just waits for more bytes
    assert_eq!(
        RedisValue::decode(b"$99999999999999999999\r\n"),
        Decoded::Incomplete
    );
}

#[test]
fn literal_get_command() {
    let data = b"*2\r\n$3\r\nGET\r\n$1\r\nk\r\n";
    let (v, used) = RedisValue::deserialize(data).expect("complete");
    assert_eq!(used, data.len());
    assert_eq!(
        v,
        RedisValue::Array(vec![
            RedisValue::Bulk(b"GET".to_vec()),
            RedisValue::Bulk(b"k".to_vec()),
        ])
    );
    assert_eq!(v.to_wire(), data.to_vec());
}

#[test]
fn is_valid_reports_completeness() {
    assert!(RedisValue::is_valid(b"+OK\r\n"));
    assert!(RedisValue::is_valid(b":42\r\n trailing bytes are fine"));
    assert!(!RedisValue::is_valid(b""));
    assert!(!RedisValue::is_valid(b"+OK\r"));
    assert!(!RedisValue::is_valid(b"#bad\r\n"));
}
