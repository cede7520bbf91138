use resp_codec::stream::{decode_all, StreamBuf};
use resp_codec::RedisValue;

#[test]
fn decode_all_drains_complete_values() {
    let mut data = RedisValue::Int(34).to_wire();
    data.extend(RedisValue::Str(b"hello".to_vec()).to_wire());
    data.extend(b"+part".to_vec());
    let (vals, used) = decode_all(&data);
    assert_eq!(
        vals,
        vec![RedisValue::Int(34), RedisValue::Str(b"hello".to_vec())]
    );
    assert_eq!(used, data.len() - b"+part".len());
}

#[test]
fn decode_all_empty_buffer() {
    let (vals, used) = decode_all(b"");
    assert_eq!(vals, vec![]);
    assert_eq!(used, 0);
}

#[test]
fn decode_all_stops_at_corruption() {
    let mut data = RedisValue::Nil.to_wire();
    data.extend(b"#junk\r\n".to_vec());
    let (vals, used) = decode_all(&data);
    assert_eq!(vals, vec![RedisValue::Nil]);
    assert_eq!(used, 5);
}

#[test]
fn stream_buf_reassembles_split_frames() {
    let wire = RedisValue::Array(vec![
        RedisValue::Bulk(b"GET".to_vec()),
        RedisValue::Bulk(b"k".to_vec()),
    ])
    .to_wire();
    let mut sb = StreamBuf::new();
    let (a, b) = wire.split_at(7);
    sb.feed(a);
    assert_eq!(sb.next_value(), None);
    sb.feed(b);
    assert_eq!(
        sb.next_value(),
        Some(RedisValue::Array(vec![
            RedisValue::Bulk(b"GET".to_vec()),
            RedisValue::Bulk(b"k".to_vec()),
        ]))
    );
    assert_eq!(sb.next_value(), None);
}

#[test]
fn stream_buf_yields_values_in_order() {
    let mut sb = StreamBuf::new();
    let mut data = RedisValue::Int(1).to_wire();
    data.extend(RedisValue::Int(2).to_wire());
    sb.feed(&data);
    assert_eq!(sb.next_value(), Some(RedisValue::Int(1)));
    assert_eq!(sb.next_value(), Some(RedisValue::Int(2)));
    assert_eq!(sb.next_value(), None);
}
