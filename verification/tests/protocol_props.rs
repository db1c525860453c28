//! Scenario checks of the protocol's stated behavior: composite
//! recursion, exact consumption, fatal classification, error
//! variants, and the probe interface.

use bytes::BytesMut;
use simple_redis::{
    decode_double, decode_integer, BulkString, RespArray, RespError, RespFrame, RespMap, RespSet,
    SimpleString,
};

#[test]
fn composite_recursion_array() {
    let mut buf = BytesMut::from("*3\r\n:+1\r\n:+2\r\n:+3\r\n");
    let frame = RespFrame::decode(&mut buf).unwrap();
    assert_eq!(
        frame,
        RespFrame::Array(RespArray::new(vec![
            RespFrame::Integer(1),
            RespFrame::Integer(2),
            RespFrame::Integer(3),
        ]))
    );
    assert!(buf.is_empty());
}

#[test]
fn composite_recursion_map() {
    let mut buf = BytesMut::from("%1\r\n+a\r\n:+5\r\n");
    let frame = RespFrame::decode(&mut buf).unwrap();
    let mut expected = RespMap::new();
    expected.insert(b"a".to_vec(), RespFrame::Integer(5));
    assert_eq!(frame, RespFrame::Mapping(expected));
    assert!(buf.is_empty());
}

#[test]
fn scenario_get_hello_round_trip() {
    let wire = b"*2\r\n$3\r\nget\r\n$5\r\nhello\r\n";
    let mut buf = BytesMut::new();
    buf.extend_from_slice(wire);
    let frame = RespFrame::decode(&mut buf).unwrap();
    assert_eq!(
        frame,
        RespFrame::Array(RespArray::new(vec![
            RespFrame::BulkString(BulkString::new(b"get".to_vec())),
            RespFrame::BulkString(BulkString::new(b"hello".to_vec())),
        ]))
    );
    assert!(buf.is_empty());
    assert_eq!(frame.encode(), wire.to_vec());
}

#[test]
fn fatal_after_composite_header() {
    // enough bytes are present to see that no frame starts with 'x',
    // so this is a fatal error, not a request for more bytes
    let mut buf = BytesMut::from("*2\r\nxy\r\n");
    let err = RespFrame::decode(&mut buf);
    assert_eq!(err, Err(RespError::InvalidFrameType));
}

#[test]
fn incomplete_prefixes_ask_for_more() {
    for wire in [
        &b"*2\r\n$3\r\nget\r\n$5\r\nhello\r\n"[..],
        &b"+OK\r\n"[..],
        &b":+123\r\n"[..],
        &b"$5\r\nhello\r\n"[..],
        &b"%1\r\n+a\r\n:+5\r\n"[..],
        &b"#t\r\n"[..],
        &b"~2\r\n:+1\r\n:+2\r\n"[..],
    ] {
        for cut in 0..wire.len() {
            let mut buf = BytesMut::new();
            buf.extend_from_slice(&wire[..cut]);
            let r = RespFrame::decode(&mut buf);
            assert_eq!(r, Err(RespError::NotComplete));
            assert_eq!(&buf[..], &wire[..cut]);
        }
    }
}

#[test]
fn probe_reports_full_length_early() {
    // a bulk string's total span is known from its header alone
    assert_eq!(RespFrame::expected_length(b"$5\r\nhel"), Ok(11));
    // a composite cannot be probed past the bytes that have arrived
    assert_eq!(
        RespFrame::expected_length(b"*2\r\n:+1\r\n"),
        Err(RespError::NotComplete)
    );
    assert_eq!(RespFrame::expected_length(b"*2\r\n:+1\r\n:+2\r\n"), Ok(14));
    assert_eq!(RespFrame::expected_length(b"_\r\n"), Ok(3));
    assert_eq!(
        RespFrame::expected_length(b"xyz"),
        Err(RespError::InvalidFrameType)
    );
}

#[test]
fn decode_consumes_exactly_probed_length() {
    let mut buf = BytesMut::from("+OK\r\n:+1\r\n");
    let probed = RespFrame::expected_length(&buf[..]).unwrap();
    assert_eq!(probed, 5);
    let before = buf.len();
    RespFrame::decode(&mut buf).unwrap();
    assert_eq!(before - buf.len(), probed);
    assert_eq!(&buf[..], b":+1\r\n");
}

#[test]
fn malformed_fields_are_fatal() {
    let mut buf = BytesMut::from(":12x\r\n");
    assert_eq!(decode_integer(&mut buf), Err(RespError::ParseIntError));

    let mut buf = BytesMut::from(",nope\r\n");
    assert_eq!(decode_double(&mut buf), Err(RespError::ParseFloatError));

    let mut buf = BytesMut::from("#x\r\n");
    assert_eq!(
        simple_redis::decode_boolean(&mut buf),
        Err(RespError::InvalidFrameType)
    );

    let mut buf = BytesMut::from("$abc\r\n");
    assert_eq!(
        BulkString::decode(&mut buf),
        Err(RespError::ParseIntError)
    );
}

#[test]
fn map_decode_sorts_and_deduplicates_keys() {
    let mut buf = BytesMut::from("%2\r\n+b\r\n:+1\r\n+a\r\n:+2\r\n");
    let map = RespMap::decode(&mut buf).unwrap();
    let entries = map.entries();
    assert_eq!(entries.len(), 2);
    assert_eq!(entries[0].0, b"a".to_vec());
    assert_eq!(entries[0].1, RespFrame::Integer(2));
    assert_eq!(entries[1].0, b"b".to_vec());
    assert_eq!(entries[1].1, RespFrame::Integer(1));

    let mut buf = BytesMut::from("%2\r\n+a\r\n:+1\r\n+a\r\n:+2\r\n");
    let map = RespMap::decode(&mut buf).unwrap();
    let entries = map.entries();
    assert_eq!(entries.len(), 1);
    assert_eq!(entries[0].1, RespFrame::Integer(2));
}

#[test]
fn empty_collections_round_trip() {
    let mut buf = BytesMut::from("~0\r\n");
    let set = RespSet::decode(&mut buf).unwrap();
    assert_eq!(set, RespSet::new(Vec::new()));
    assert_eq!(RespFrame::Collection(set).encode(), b"~0\r\n".to_vec());

    let mut buf = BytesMut::from("%0\r\n");
    let map = RespMap::decode(&mut buf).unwrap();
    assert_eq!(map.len(), 0);
    assert_eq!(map.encode(), b"%0\r\n".to_vec());
}

#[test]
fn double_text_survives_round_trip() {
    // the double's wire text is kept exactly as received
    let mut buf = BytesMut::from(",+1.23456e8\r\n");
    let d = decode_double(&mut buf).unwrap();
    assert_eq!(d.bytes(), &b"+1.23456e8".to_vec());
    assert_eq!(d.encode(), b",+1.23456e8\r\n".to_vec());
}

#[test]
fn integer_sign_is_normalized() {
    let mut buf = BytesMut::from(":007\r\n");
    let v = decode_integer(&mut buf).unwrap();
    assert_eq!(v, 7);
    assert_eq!(RespFrame::Integer(v).encode(), b":+7\r\n".to_vec());

    let mut buf = BytesMut::from(":+0\r\n");
    assert_eq!(decode_integer(&mut buf), Ok(0));
}

#[test]
fn bulk_string_may_hold_any_bytes() {
    let mut buf = BytesMut::new();
    buf.extend_from_slice(b"$6\r\na\rb\nc\x00\r\n");
    let b = BulkString::decode(&mut buf).unwrap();
    assert_eq!(b, BulkString::new(b"a\rb\nc\x00".to_vec()));
    assert_eq!(b.encode(), b"$6\r\na\rb\nc\x00\r\n".to_vec());
}

#[test]
fn unknown_tag_is_fatal_and_leaves_buffer() {
    let mut buf = BytesMut::from("@oops\r\n");
    assert_eq!(
        RespFrame::decode(&mut buf),
        Err(RespError::InvalidFrameType)
    );
    assert_eq!(&buf[..], b"@oops\r\n");
}
