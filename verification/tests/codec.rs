use bytes::BytesMut;

use simple_redis::BulkString;
use simple_redis::Double;
use simple_redis::RespArray;
use simple_redis::RespDecode;
use simple_redis::RespEncode;
use simple_redis::RespError;
use simple_redis::RespFrame;
use simple_redis::RespMap;
use simple_redis::RespNull;
use simple_redis::RespNullArray;
use simple_redis::RespNullBulkString;
use simple_redis::RespSet;
use simple_redis::SimpleError;
use simple_redis::SimpleString;
use simple_redis::calc_total_length;
use simple_redis::expect_frame_length;
use simple_redis::extract_fixed_data;
use simple_redis::extract_simaple_frame_data;
use simple_redis::find_ctrl;
use simple_redis::parse_length;

#[test]
fn test_simple_string_decode() {
    let mut buf = BytesMut::new();
    buf.extend_from_slice(b"+OK\r\n");
    let frame = SimpleString::decode(&mut buf).unwrap();
    assert_eq!(frame, SimpleString::new(b"OK".to_vec()));

    buf.extend_from_slice(b"+hello\r");
    let ret = SimpleString::decode(&mut buf);
    assert_eq!(ret.unwrap_err(), RespError::NotComplete);

    buf.extend_from_slice(b"\n");
    let frame = SimpleString::decode(&mut buf).unwrap();
    assert_eq!(frame, SimpleString::new(b"hello".to_vec()));
}

#[test]
fn test_simple_error_decode() {
    let mut buf = BytesMut::new();
    buf.extend_from_slice(b"-Error message\r\n");
    let frame = SimpleError::decode(&mut buf).unwrap();
    assert_eq!(frame, SimpleError::new(b"Error message".to_vec()));
}

#[test]
fn test_integer_decode() {
    let mut buf = BytesMut::new();
    buf.extend_from_slice(b":+123\r\n");
    let frame = i64::decode(&mut buf).unwrap();
    assert_eq!(frame, 123);

    buf.extend_from_slice(b":-123\r\n");
    let frame = i64::decode(&mut buf).unwrap();
    assert_eq!(frame, -123);
}

#[test]
fn test_bulk_string_decode() {
    let mut buf = BytesMut::new();
    buf.extend_from_slice(b"$5\r\nhello\r\n");
    let frame = BulkString::decode(&mut buf).unwrap();
    assert_eq!(frame, BulkString::new(b"hello".to_vec()));

    buf.extend_from_slice(b"$5\r\nhello");
    let ret = BulkString::decode(&mut buf);
    assert_eq!(ret.unwrap_err(), RespError::NotComplete);

    buf.extend_from_slice(b"\r\n");
    let frame = BulkString::decode(&mut buf).unwrap();
    assert_eq!(frame, BulkString::new(b"hello".to_vec()));
}

#[test]
fn test_null_bulk_string_decode() {
    let mut buf = BytesMut::new();
    buf.extend_from_slice(b"$-1\r\n");
    let frame = RespNullBulkString::decode(&mut buf).unwrap();
    assert_eq!(frame, RespNullBulkString);
}

#[test]
fn test_array_decode() {
    let mut buf = BytesMut::new();
    buf.extend_from_slice(b"*3\r\n$3\r\nset\r\n$5\r\nhello\r\n$5\r\nworld\r\n");
    let frame = RespArray::decode(&mut buf).unwrap();
    assert_eq!(
        frame,
        RespArray::new(vec![
            RespFrame::BulkString(BulkString::new(b"set".to_vec())),
            RespFrame::BulkString(BulkString::new(b"hello".to_vec())),
            RespFrame::BulkString(BulkString::new(b"world".to_vec())),
        ])
    );
}

#[test]
fn test_null_array_decode() {
    let mut buf = BytesMut::new();
    buf.extend_from_slice(b"*-1\r\n");
    let frame = RespNullArray::decode(&mut buf).unwrap();
    assert_eq!(frame, RespNullArray);
}

#[test]
fn test_null_decode() {
    let mut buf = BytesMut::new();
    buf.extend_from_slice(b"_\r\n");
    let frame = RespNull::decode(&mut buf).unwrap();
    assert_eq!(frame, RespNull);
}

#[test]
fn test_boolean_decode() {
    let mut buf = BytesMut::new();
    buf.extend_from_slice(b"#t\r\n");
    let frame = bool::decode(&mut buf).unwrap();
    assert!(frame);

    buf.extend_from_slice(b"#f\r\n");
    let frame = bool::decode(&mut buf).unwrap();
    assert!(!frame);
}

#[test]
fn test_double_decode() {
    let mut buf = BytesMut::new();
    buf.extend_from_slice(b",123.45\r\n");
    let frame = Double::decode(&mut buf).unwrap();
    assert_eq!(std::str::from_utf8(&frame.0).unwrap().parse::<f64>().unwrap(), 123.45);

    buf.extend_from_slice(b",123.45");
    let ret = Double::decode(&mut buf);
    assert_eq!(ret.unwrap_err(), RespError::NotComplete);

    buf.extend_from_slice(b"\r\n");
    let frame = Double::decode(&mut buf).unwrap();
    assert_eq!(std::str::from_utf8(&frame.0).unwrap().parse::<f64>().unwrap(), 123.45);
}

#[test]
fn test_map_decode() {
    let mut buf = BytesMut::new();
    buf.extend_from_slice(b"%2\r\n+key1\r\n$6\r\nvalue1\r\n+key2\r\n$6\r\nvalue2\r\n");
    let frame = RespMap::decode(&mut buf).unwrap();
    let mut map = RespMap::new();
    map.insert(
        b"key1".to_vec(),
        RespFrame::BulkString(BulkString::new(b"value1".to_vec())),
    );
    map.insert(
        b"key2".to_vec(),
        RespFrame::BulkString(BulkString::new(b"value2".to_vec())),
    );
    assert_eq!(frame, map);
}

#[test]
fn test_set_decode() {
    let mut buf = BytesMut::new();
    buf.extend_from_slice(b"~3\r\n+key1\r\n$6\r\nvalue1\r\n+key2\r\n");
    let frame = RespSet::decode(&mut buf).unwrap();
    assert_eq!(
        frame,
        RespSet::new(vec![
            RespFrame::SimpleString(SimpleString::new(b"key1".to_vec())),
            RespFrame::BulkString(BulkString::new(b"value1".to_vec())),
            RespFrame::SimpleString(SimpleString::new(b"key2".to_vec())),
        ])
    );
}

#[test]
fn test_encode_simple_string() {
    let frame = SimpleString::new(b"OK".to_vec());
    assert_eq!(frame.encode(), b"+OK\r\n".to_vec());
}

#[test]
fn test_encode_simple_error() {
    let frame = SimpleError::new(b"Error message".to_vec());
    assert_eq!(frame.encode(), b"-Error message\r\n".to_vec());
}

#[test]
fn test_encode_integer_explicit_sign() {
    assert_eq!(123i64.encode(), b":+123\r\n".to_vec());
    assert_eq!((-123i64).encode(), b":-123\r\n".to_vec());
    assert_eq!(0i64.encode(), b":+0\r\n".to_vec());
    assert_eq!(i64::MIN.encode(), b":-9223372036854775808\r\n".to_vec());
}

#[test]
fn test_encode_bulk_string() {
    let frame = BulkString::new(b"hello".to_vec());
    assert_eq!(frame.encode(), b"$5\r\nhello\r\n".to_vec());
    assert_eq!(BulkString::new(Vec::new()).encode(), b"$0\r\n\r\n".to_vec());
}

#[test]
fn test_encode_nulls_and_booleans() {
    assert_eq!(RespNull.encode(), b"_\r\n".to_vec());
    assert_eq!(RespNullArray.encode(), b"*-1\r\n".to_vec());
    assert_eq!(RespNullBulkString.encode(), b"$-1\r\n".to_vec());
    assert_eq!(true.encode(), b"#t\r\n".to_vec());
    assert_eq!(false.encode(), b"#f\r\n".to_vec());
}

#[test]
fn test_encode_double_keeps_wire_text() {
    let frame = Double::new(b"123.45".to_vec());
    assert_eq!(frame.encode(), b",123.45\r\n".to_vec());
    let frame = Double::new(b"-1.5e3".to_vec());
    assert_eq!(frame.encode(), b",-1.5e3\r\n".to_vec());
}

#[test]
fn test_encode_array_and_set() {
    let frame = RespArray::new(vec![
        RespFrame::BulkString(BulkString::new(b"GET".to_vec())),
        RespFrame::BulkString(BulkString::new(b"hello".to_vec())),
    ]);
    assert_eq!(frame.encode(), b"*2\r\n$3\r\nGET\r\n$5\r\nhello\r\n".to_vec());
    let frame = RespSet::new(vec![RespFrame::Integer(7)]);
    assert_eq!(frame.encode(), b"~1\r\n:+7\r\n".to_vec());
}

#[test]
fn test_encode_map() {
    let mut map = RespMap::new();
    map.insert(b"a".to_vec(), RespFrame::Integer(1));
    assert_eq!(map.encode(), b"%1\r\n+a\r\n:+1\r\n".to_vec());
}

#[test]
fn test_round_trip_every_variant() {
    let mut inner_map = RespMap::new();
    inner_map.insert(b"k".to_vec(), RespFrame::Boolean(false));
    let frames = vec![
        RespFrame::SimpleString(SimpleString::new(b"OK".to_vec())),
        RespFrame::Error(SimpleError::new(b"oops".to_vec())),
        RespFrame::Integer(-42),
        RespFrame::BulkString(BulkString::new(b"payload\r\nwith crlf".to_vec())),
        RespFrame::NullBulkString(RespNullBulkString),
        RespFrame::Array(RespArray::new(vec![
            RespFrame::Integer(1),
            RespFrame::NullBulkString(RespNullBulkString),
            RespFrame::NullArray(RespNullArray),
        ])),
        RespFrame::Null(RespNull),
        RespFrame::NullArray(RespNullArray),
        RespFrame::Boolean(true),
        RespFrame::Double(Double::new(b"+1.25e-3".to_vec())),
        RespFrame::MapFrame(inner_map),
        RespFrame::SetFrame(RespSet::new(vec![
            RespFrame::SimpleString(SimpleString::new(b"dup".to_vec())),
            RespFrame::SimpleString(SimpleString::new(b"dup".to_vec())),
        ])),
    ];
    for frame in frames {
        let wire = RespArray::new(vec![frame]).encode();
        let mut buf = BytesMut::new();
        buf.extend_from_slice(&wire);
        let back = RespArray::decode(&mut buf).unwrap();
        assert_eq!(back.encode(), wire);
        assert_eq!(buf.len(), 0);
    }
}

#[test]
fn test_split_frame_resumes() {
    let frame = RespArray::new(vec![
        RespFrame::BulkString(BulkString::new(b"GET".to_vec())),
        RespFrame::Boolean(true),
    ]);
    let wire = frame.encode();
    for k in 1..wire.len() {
        let mut buf = BytesMut::new();
        buf.extend_from_slice(&wire[..k]);
        let ret = RespFrame::decode(&mut buf);
        assert_eq!(ret.unwrap_err(), RespError::NotComplete);
        assert_eq!(&buf[..], &wire[..k]);
        buf.extend_from_slice(&wire[k..]);
        let back = RespFrame::decode(&mut buf).unwrap();
        assert_eq!(back.encode(), wire);
        assert_eq!(buf.len(), 0);
    }
}

#[test]
fn test_two_frames_in_one_buffer() {
    let mut buf = BytesMut::new();
    buf.extend_from_slice(b"+first\r\n:+2\r\n");
    let one = RespFrame::decode(&mut buf).unwrap();
    assert_eq!(one, RespFrame::SimpleString(SimpleString::new(b"first".to_vec())));
    let two = RespFrame::decode(&mut buf).unwrap();
    assert_eq!(two, RespFrame::Integer(2));
    assert_eq!(buf.len(), 0);
}

#[test]
fn test_frame_decode_dispatch() {
    let mut buf = BytesMut::new();
    buf.extend_from_slice(b"+OK\r\n");
    assert_eq!(
        RespFrame::decode(&mut buf).unwrap(),
        RespFrame::SimpleString(SimpleString::new(b"OK".to_vec()))
    );
    buf.extend_from_slice(b"$-1\r\n");
    assert_eq!(
        RespFrame::decode(&mut buf).unwrap(),
        RespFrame::NullBulkString(RespNullBulkString)
    );
}

#[test]
fn test_frame_decode_nested_command() {
    let mut buf = BytesMut::new();
    buf.extend_from_slice(b"*2\r\n$3\r\nGET\r\n$5\r\nhello\r\n");
    let frame = RespFrame::decode(&mut buf).unwrap();
    assert_eq!(
        frame,
        RespFrame::Array(RespArray::new(vec![
            RespFrame::BulkString(BulkString::new(b"GET".to_vec())),
            RespFrame::BulkString(BulkString::new(b"hello".to_vec())),
        ]))
    );
    assert_eq!(buf.len(), 0);
}

#[test]
fn test_frame_decode_map_scenario() {
    let mut buf = BytesMut::new();
    buf.extend_from_slice(b"%1\r\n+a\r\n:1\r\n");
    let frame = RespFrame::decode(&mut buf).unwrap();
    let mut map = RespMap::new();
    map.insert(b"a".to_vec(), RespFrame::Integer(1));
    assert_eq!(frame, RespFrame::MapFrame(map));
    assert_eq!(buf.len(), 0);
}

#[test]
fn test_map_duplicate_keys_last_wins() {
    let mut buf = BytesMut::new();
    buf.extend_from_slice(b"%2\r\n+a\r\n:1\r\n+a\r\n:2\r\n");
    let frame = RespMap::decode(&mut buf).unwrap();
    let mut map = RespMap::new();
    map.insert(b"a".to_vec(), RespFrame::Integer(2));
    assert_eq!(frame, map);
}

#[test]
fn test_short_bulk_payload_is_not_complete() {
    let mut buf = BytesMut::new();
    buf.extend_from_slice(b"$5\r\nabc");
    let ret = RespFrame::decode(&mut buf);
    assert_eq!(ret.unwrap_err(), RespError::NotComplete);
    assert_eq!(&buf[..], b"$5\r\nabc".as_slice());
}

#[test]
fn test_unknown_prefix_leaves_buffer() {
    let mut buf = BytesMut::new();
    buf.extend_from_slice(b"@what\r\n");
    let ret = RespFrame::decode(&mut buf);
    assert_eq!(ret.unwrap_err(), RespError::InvalidFrameType);
    assert_eq!(&buf[..], b"@what\r\n".as_slice());
}

#[test]
fn test_parse_errors_consume_nothing() {
    let mut buf = BytesMut::new();
    buf.extend_from_slice(b":abc\r\n");
    assert_eq!(RespFrame::decode(&mut buf).unwrap_err(), RespError::ParseIntError);
    assert_eq!(&buf[..], b":abc\r\n".as_slice());

    let mut buf = BytesMut::new();
    buf.extend_from_slice(b",abc\r\n");
    assert_eq!(RespFrame::decode(&mut buf).unwrap_err(), RespError::ParseFloatError);
    assert_eq!(&buf[..], b",abc\r\n".as_slice());

    let mut buf = BytesMut::new();
    buf.extend_from_slice(b"*1\r\n:abc\r\n");
    assert_eq!(RespFrame::decode(&mut buf).unwrap_err(), RespError::ParseIntError);
    assert_eq!(&buf[..], b"*1\r\n:abc\r\n".as_slice());
}

#[test]
fn test_integer_overflow_is_parse_error() {
    let mut buf = BytesMut::new();
    buf.extend_from_slice(b":9223372036854775808\r\n");
    assert_eq!(i64::decode(&mut buf).unwrap_err(), RespError::ParseIntError);
    let mut buf = BytesMut::new();
    buf.extend_from_slice(b":-9223372036854775808\r\n");
    assert_eq!(i64::decode(&mut buf).unwrap(), i64::MIN);
}

#[test]
fn test_double_grammar_rejects_stray_forms() {
    for bad in [&b",.5\r\n"[..], &b",5.\r\n"[..], &b",1e\r\n"[..], &b",1.2.3\r\n"[..]] {
        let mut buf = BytesMut::new();
        buf.extend_from_slice(bad);
        assert_eq!(Double::decode(&mut buf).unwrap_err(), RespError::ParseFloatError);
    }
    let mut buf = BytesMut::new();
    buf.extend_from_slice(b",-1.5E+10\r\n");
    assert_eq!(Double::decode(&mut buf).unwrap(), Double::new(b"-1.5E+10".to_vec()));
}

#[test]
fn test_expect_length_measures_whole_frames() {
    assert_eq!(expect_frame_length(b"+OK\r\nmore"), Ok(5));
    assert_eq!(expect_frame_length(b"$5\r\nhello\r\n"), Ok(11));
    assert_eq!(expect_frame_length(b"$5\r\nhel"), Err(RespError::NotComplete));
    assert_eq!(expect_frame_length(b"*2\r\n$3\r\nGET\r\n$5\r\nhello\r\n"), Ok(24));
    assert_eq!(expect_frame_length(b"*2\r\n$3\r\nGET\r\n$5\r\nhel"), Err(RespError::NotComplete));
    assert_eq!(expect_frame_length(b"$-1\r\n"), Ok(5));
    assert_eq!(expect_frame_length(b"*-1\r\nxx"), Ok(5));
    assert_eq!(RespArray::expect_length(b"*1\r\n:+5\r\n"), Ok(9));
    assert_eq!(BulkString::expect_length(b"$3\r\nabc\r\n"), Ok(9));
    assert_eq!(SimpleString::expect_length(b"+hi\r\n"), Ok(5));
}

#[test]
fn test_helper_functions() {
    assert_eq!(extract_simaple_frame_data(b"+OK\r\n", b'+'), Ok(3));
    assert_eq!(extract_simaple_frame_data(b"+OK", b'+'), Err(RespError::NotComplete));
    assert_eq!(
        extract_simaple_frame_data(b"-err\r\n", b'+'),
        Err(RespError::InvalidFrameType)
    );
    assert_eq!(parse_length(b"*12\r\n...", b'*'), Ok((3, 12)));
    assert_eq!(parse_length(b"*-1\r\n", b'*'), Err(RespError::ParseIntError));
    assert_eq!(find_ctrl(b"+a\r\n+b\r\n", 1), Some(2));
    assert_eq!(find_ctrl(b"+a\r\n+b\r\n", 2), Some(6));
    assert_eq!(find_ctrl(b"+a\r\n+b\r\n", 3), None);
    assert_eq!(calc_total_length(b"*2\r\n:+1\r\n:+2\r\n", 2, 2, b'*'), Ok(14));
    assert_eq!(
        calc_total_length(b"*2\r\n:+1\r\n", 2, 2, b'*'),
        Err(RespError::NotComplete)
    );
    assert_eq!(
        calc_total_length(b"", 0, usize::MAX, b'+'),
        Err(RespError::InvalidFrameLength)
    );
}

#[test]
fn test_extract_fixed_data_consumes_literal() {
    let mut buf = BytesMut::new();
    buf.extend_from_slice(b"$-1\r\n+OK\r\n");
    assert_eq!(extract_fixed_data(&mut buf, b"$-1\r\n"), Ok(()));
    assert_eq!(&buf[..], b"+OK\r\n".as_slice());
    assert_eq!(
        extract_fixed_data(&mut buf, b"$-1\r\n"),
        Err(RespError::InvalidFrameType)
    );
    assert_eq!(&buf[..], b"+OK\r\n".as_slice());
}

#[test]
fn test_simple_string_requires_utf8() {
    let mut buf = BytesMut::new();
    buf.extend_from_slice(b"+\xff\r\n");
    assert_eq!(SimpleString::decode(&mut buf).unwrap_err(), RespError::Utf8Error);
    assert_eq!(&buf[..], b"+\xff\r\n".as_slice());

    let mut buf = BytesMut::new();
    buf.extend_from_slice("+h\u{e9}llo\r\n".as_bytes());
    let frame = SimpleString::decode(&mut buf).unwrap();
    assert_eq!(frame, SimpleString::new("h\u{e9}llo".as_bytes().to_vec()));

    let mut buf = BytesMut::new();
    buf.extend_from_slice(b"-bad \xc3\x28\r\n");
    assert_eq!(SimpleError::decode(&mut buf).unwrap_err(), RespError::Utf8Error);
}

#[test]
fn test_map_key_requires_utf8() {
    let mut buf = BytesMut::new();
    buf.extend_from_slice(b"%1\r\n+\xff\r\n:1\r\n");
    assert_eq!(RespFrame::decode(&mut buf).unwrap_err(), RespError::Utf8Error);
    assert_eq!(&buf[..], b"%1\r\n+\xff\r\n:1\r\n".as_slice());
}

#[test]
fn test_bulk_string_requires_trailing_crlf() {
    let mut buf = BytesMut::new();
    buf.extend_from_slice(b"$3\r\nabcXY");
    assert_eq!(BulkString::decode(&mut buf).unwrap_err(), RespError::InvalidFrame);
    assert_eq!(&buf[..], b"$3\r\nabcXY".as_slice());

    let mut buf = BytesMut::new();
    buf.extend_from_slice(b"*1\r\n$3\r\nabcXY");
    assert_eq!(RespFrame::decode(&mut buf).unwrap_err(), RespError::InvalidFrame);
    assert_eq!(&buf[..], b"*1\r\n$3\r\nabcXY".as_slice());
}

#[test]
fn test_lookahead_unknown_prefix_is_permanent() {
    assert_eq!(expect_frame_length(b"@x\r\n"), Err(RespError::InvalidFrameType));
    assert_eq!(expect_frame_length(b"@x"), Err(RespError::NotComplete));
    let mut buf = BytesMut::new();
    buf.extend_from_slice(b"*1\r\n@x\r\n");
    assert_eq!(RespFrame::decode(&mut buf).unwrap_err(), RespError::InvalidFrameType);
    assert_eq!(&buf[..], b"*1\r\n@x\r\n".as_slice());
}
