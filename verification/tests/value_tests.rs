use resp_codec::{Command, RedisValue};

#[test]
fn from_vec_empty_is_nil() {
    let v = RedisValue::from_vec(vec![]);
    assert_eq!(v, RedisValue::Nil);
}

#[test]
fn from_vec_builds_bulk_array() {
    let v = RedisValue::from_vec(vec![b"SET".to_vec(), b"k".to_vec(), b"v".to_vec()]);
    assert_eq!(
        v,
        RedisValue::Array(vec![
            RedisValue::Bulk(b"SET".to_vec()),
            RedisValue::Bulk(b"k".to_vec()),
            RedisValue::Bulk(b"v".to_vec()),
        ])
    );
    assert_eq!(v.to_wire(), b"*3\r\n$3\r\nSET\r\n$1\r\nk\r\n$1\r\nv\r\n".to_vec());
}

#[test]
fn command_to_value() {
    let get = RedisValue::from(Command::Get(b"key".to_vec()));
    assert_eq!(
        get,
        RedisValue::Array(vec![RedisValue::Bulk(b"key".to_vec())])
    );
    let put = RedisValue::from(Command::Put(b"key".to_vec(), b"val".to_vec()));
    assert_eq!(
        put,
        RedisValue::Array(vec![
            RedisValue::Bulk(b"key".to_vec()),
            RedisValue::Bulk(b"val".to_vec()),
        ])
    );
}

#[test]
fn render_scalars() {
    assert_eq!(RedisValue::Str(b"hello".to_vec()).render(), b"hello".to_vec());
    assert_eq!(RedisValue::Bulk(b"world".to_vec()).render(), b"world".to_vec());
    assert_eq!(RedisValue::Int(34).render(), b"(integer) 34".to_vec());
    assert_eq!(RedisValue::Int(-5).render(), b"(integer) -5".to_vec());
    assert_eq!(RedisValue::Nil.render(), b"(nil)".to_vec());
    assert_eq!(
        RedisValue::Error(b"ERR nope".to_vec()).render(),
        b"(error) ERR nope".to_vec()
    );
}

#[test]
fn render_empty_array() {
    assert_eq!(RedisValue::Array(vec![]).render(), b"(empty array)".to_vec());
}

#[test]
fn render_enumerates_elements() {
    let v = RedisValue::Array(vec![
        RedisValue::Int(1),
        RedisValue::Str(b"a".to_vec()),
    ]);
    assert_eq!(v.render(), b"1) (integer) 1\n2) a".to_vec());
}

#[test]
fn render_nested_uses_same_rule() {
    let v = RedisValue::Array(vec![
        RedisValue::Array(vec![RedisValue::Int(9)]),
        RedisValue::Nil,
    ]);
    assert_eq!(v.render(), b"1) 1) (integer) 9\n2) (nil)".to_vec());
}
