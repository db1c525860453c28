//! Decode and encode behavior on concrete wire bytes.

use bytes::{BufMut, BytesMut};
use simple_redis::{
    decode_boolean, decode_double, decode_integer, BulkString, RespArray, RespError, RespFrame,
    RespMap, RespNull, RespNullArray, RespNullBulkString, RespSet, SimpleError, SimpleString,
};

#[test]
fn test_simple_string_decode() {
    let mut buf = BytesMut::from("+OK\r\n");
    let frame = SimpleString::decode(&mut buf).unwrap();
    assert_eq!(frame, SimpleString::new(b"OK".to_vec()));

    buf.extend_from_slice(b"+hello\r");
    let err = SimpleString::decode(&mut buf);
    assert_eq!(err, Err(RespError::NotComplete));

    buf.put_u8(b'\n');
    let frame = SimpleString::decode(&mut buf).unwrap();
    assert_eq!(frame, SimpleString::new(b"hello".to_vec()));
}

#[test]
fn test_simple_error_decode() {
    let mut buf = BytesMut::from("-Error message\r\n");
    let frame = SimpleError::decode(&mut buf).unwrap();
    assert_eq!(frame, SimpleError::new(b"Error message".to_vec()));

    buf.extend_from_slice(b"-hello\r");
    let err = SimpleError::decode(&mut buf);
    assert_eq!(err, Err(RespError::NotComplete));

    buf.put_u8(b'\n');
    let frame = SimpleError::decode(&mut buf).unwrap();
    assert_eq!(frame, SimpleError::new(b"hello".to_vec()));
}

#[test]
fn test_integer_decode() {
    let mut buf = BytesMut::from(":123\r\n");
    let frame = decode_integer(&mut buf).unwrap();
    assert_eq!(frame, 123);

    buf.extend_from_slice(b":-123\r");
    let err = decode_integer(&mut buf);
    assert_eq!(err, Err(RespError::NotComplete));

    buf.put_u8(b'\n');
    let frame = decode_integer(&mut buf).unwrap();
    assert_eq!(frame, -123);
}

#[test]
fn test_bool_decode() {
    let mut buf = BytesMut::from("#t\r\n");
    let frame = decode_boolean(&mut buf).unwrap();
    assert!(frame);

    buf.extend_from_slice(b"#f\r\n");
    let frame = decode_boolean(&mut buf).unwrap();
    assert!(!frame);

    buf.extend_from_slice(b"#f\r");
    let err = decode_boolean(&mut buf);
    assert_eq!(err, Err(RespError::NotComplete));

    buf.put_u8(b'\n');
    let frame = decode_boolean(&mut buf).unwrap();
    assert!(!frame);
}

#[test]
fn decode_test_double_decode() {
    let mut buf = BytesMut::from(",123.456\r\n");
    let frame = decode_double(&mut buf).unwrap();
    let value: f64 = String::from_utf8(frame.bytes().clone()).unwrap().parse().unwrap();
    assert_eq!(value, 123.456);

    buf.extend_from_slice(b",-123.456\r");
    let err = decode_double(&mut buf);
    assert_eq!(err, Err(RespError::NotComplete));

    buf.put_u8(b'\n');
    let frame = decode_double(&mut buf).unwrap();
    let value: f64 = String::from_utf8(frame.bytes().clone()).unwrap().parse().unwrap();
    assert_eq!(value, -123.456);
}

#[test]
fn double_test_double_decode() {
    let mut buf = BytesMut::new();
    buf.extend_from_slice(b",123.45\r\n");

    let frame = decode_double(&mut buf).unwrap();
    let value: f64 = String::from_utf8(frame.bytes().clone()).unwrap().parse().unwrap();
    assert_eq!(value, 123.45);

    buf.extend_from_slice(b",+1.23456e-9\r\n");
    let frame = decode_double(&mut buf).unwrap();
    let value: f64 = String::from_utf8(frame.bytes().clone()).unwrap().parse().unwrap();
    assert_eq!(value, 1.23456e-9);
}

#[test]
fn decode_test_array_encode() {
    let mut buf = BytesMut::from("*2\r\n$3\r\nget\r\n$5\r\nhello\r\n");
    let frame = RespArray::decode(&mut buf).unwrap();
    assert_eq!(
        frame,
        RespArray::new(vec![
            RespFrame::BulkString(BulkString::new(b"get".to_vec())),
            RespFrame::BulkString(BulkString::new(b"hello".to_vec())),
        ])
    );
}

#[test]
fn array_test_array_encode() {
    let frame: RespFrame = RespFrame::Array(RespArray::new(vec![
        RespFrame::BulkString(BulkString::new(b"set".to_vec())),
        RespFrame::BulkString(BulkString::new(b"hello".to_vec())),
        RespFrame::BulkString(BulkString::new(b"world".to_vec())),
    ]));
    assert_eq!(
        frame.encode(),
        b"*3\r\n$3\r\nset\r\n$5\r\nhello\r\n$5\r\nworld\r\n".to_vec()
    );
}

#[test]
fn test_null_array() {
    assert_eq!(RespArray::null(), RespArray::new(Vec::new()));
}

#[test]
fn array_test_null_array_encode() {
    let frame: RespFrame = RespFrame::Array(RespArray::null());
    assert_eq!(frame.encode(), b"*-1\r\n".to_vec());
}

#[test]
fn test_null_array_decode() {
    let mut buf = BytesMut::new();
    buf.extend_from_slice(b"*-1\r\n");

    let frame = RespArray::decode(&mut buf).unwrap();
    assert_eq!(frame, RespArray::null());
}

#[test]
fn test_array_decode() {
    let mut buf = BytesMut::new();
    buf.extend_from_slice(b"*2\r\n$3\r\nset\r\n$5\r\nhello\r\n");

    let expected = RespArray::new(vec![
        RespFrame::BulkString(BulkString::new(b"set".to_vec())),
        RespFrame::BulkString(BulkString::new(b"hello".to_vec())),
    ]);
    let frame = RespArray::decode(&mut buf).unwrap();
    assert_eq!(frame, expected);

    buf.extend_from_slice(b"*2\r\n$3\r\nset\r\n");
    let ret = RespArray::decode(&mut buf);
    assert_eq!(ret.unwrap_err(), RespError::NotComplete);

    buf.extend_from_slice(b"$5\r\nhello\r\n");
    let expected = RespArray::new(vec![
        RespFrame::BulkString(BulkString::new(b"set".to_vec())),
        RespFrame::BulkString(BulkString::new(b"hello".to_vec())),
    ]);
    let frame = RespArray::decode(&mut buf).unwrap();
    assert_eq!(frame, expected);
}

#[test]
fn test_simple_string_encode() {
    let frame: RespFrame = RespFrame::SimpleString(SimpleString::new(b"OK".to_vec()));
    assert_eq!(frame.encode(), b"+OK\r\n".to_vec());
}

#[test]
fn test_simple_error_encode() {
    let frame: RespFrame = RespFrame::Error(SimpleError::new(b"Error message".to_vec()));
    assert_eq!(frame.encode(), b"-Error message\r\n".to_vec());
}

#[test]
fn test_integer_encode() {
    let frame: RespFrame = RespFrame::Integer(123);
    assert_eq!(frame.encode(), b":+123\r\n".to_vec());

    let frame: RespFrame = RespFrame::Integer(-123);
    assert_eq!(frame.encode(), b":-123\r\n".to_vec());
}

#[test]
fn test_boolean_encode() {
    let frame: RespFrame = RespFrame::Boolean(true);
    assert_eq!(frame.encode(), b"#t\r\n".to_vec());

    let frame: RespFrame = RespFrame::Boolean(false);
    assert_eq!(frame.encode(), b"#f\r\n".to_vec());
}

#[test]
fn test_bulk_string_encode() {
    let frame: RespFrame = RespFrame::BulkString(BulkString::new(b"Hello, world!".to_vec()));
    assert_eq!(frame.encode(), b"$13\r\nHello, world!\r\n".to_vec());
}

#[test]
fn test_null_bulk_string_encode() {
    let frame: RespFrame = RespFrame::NullBulkString(RespNullBulkString);
    assert_eq!(frame.encode(), b"$-1\r\n".to_vec());
}

#[test]
fn test_null_encode() {
    let frame: RespFrame = RespFrame::Null(RespNull);
    assert_eq!(frame.encode(), b"_\r\n".to_vec());
}

#[test]
fn encode_test_null_array_encode() {
    let frame: RespFrame = RespFrame::NullArray(RespNullArray);
    assert_eq!(frame.encode(), b"*-1\r\n".to_vec());
}

#[test]
fn encode_test_array_encode() {
    let frame: RespFrame = RespFrame::Array(RespArray::new(vec![
        RespFrame::Integer(123),
        RespFrame::SimpleString(SimpleString::new(b"OK".to_vec())),
        RespFrame::BulkString(BulkString::new(b"Hello, world!".to_vec())),
    ]));
    assert_eq!(
        frame.encode(),
        b"*3\r\n:+123\r\n+OK\r\n$13\r\nHello, world!\r\n".to_vec()
    );
}

#[test]
fn test_map_encode2() {
    let mut map = RespMap::new();
    map.insert(b"key1".to_vec(), RespFrame::Integer(123));
    map.insert(
        b"key2".to_vec(),
        RespFrame::SimpleString(SimpleString::new(b"OK".to_vec())),
    );
    map.insert(
        b"key3".to_vec(),
        RespFrame::BulkString(BulkString::new(b"Hello, world!".to_vec())),
    );

    assert_eq!(
        map.encode(),
        b"%3\r\n+key1\r\n:+123\r\n+key2\r\n+OK\r\n+key3\r\n$13\r\nHello, world!\r\n".to_vec()
    );
}

#[test]
fn test_set_encode() {
    let frame: RespFrame = RespFrame::Collection(RespSet::new(vec![
        RespFrame::Integer(123),
        RespFrame::SimpleString(SimpleString::new(b"OK".to_vec())),
        RespFrame::BulkString(BulkString::new(b"Hello, world!".to_vec())),
    ]));
    assert_eq!(
        frame.encode(),
        b"~3\r\n:+123\r\n+OK\r\n$13\r\nHello, world!\r\n".to_vec()
    );
}

#[test]
fn test_echo_from_resp_array() {
    let mut buf = BytesMut::new();
    buf.extend_from_slice(b"*2\r\n$4\r\necho\r\n$5\r\nhello\r\n");
    let frame = RespArray::decode(&mut buf).unwrap();
    let echo = simple_redis::cmd::Echo::try_from(frame).unwrap();
    assert_eq!(echo.message, b"hello".to_vec());
}
