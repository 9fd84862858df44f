use resp_server::codec::{pong_reply, serialize_bulk, ProtocolError, RESP};

fn bulk(s: &str) -> RESP {
    RESP::BulkString(s.as_bytes().to_vec())
}

#[test]
fn parse_echo_request_round_trip() {
    let input = b"*2\r\n$4\r\nECHO\r\n$5\r\nhello\r\n";
    let (value, consumed) = RESP::parse_redis_protocol(input).unwrap();
    assert_eq!(consumed, input.len());
    match &value {
        RESP::Array(values) => {
            assert_eq!(values.len(), 2);
            match &values[0] {
                RESP::BulkString(s) => assert_eq!(s, b"ECHO"),
                _ => panic!("first element should be a bulk string"),
            }
            match &values[1] {
                RESP::BulkString(s) => assert_eq!(s, b"hello"),
                _ => panic!("second element should be a bulk string"),
            }
            let joined = RESP::get_response_value(values);
            assert_eq!(joined, b"hello".to_vec());
            let reply = serialize_bulk(&joined);
            assert_eq!(reply, b"$5\r\nhello\r\n".to_vec());
        },
        _ => panic!("expected an array"),
    }
}

#[test]
fn multiple_arguments_join_with_single_spaces() {
    let input = b"*3\r\n$4\r\nECHO\r\n$5\r\nhello\r\n$5\r\nworld\r\n";
    let (value, consumed) = RESP::parse_redis_protocol(input).unwrap();
    assert_eq!(consumed, input.len());
    match &value {
        RESP::Array(values) => {
            let joined = RESP::get_response_value(values);
            assert_eq!(joined, b"hello world".to_vec());
            let reply = serialize_bulk(&joined);
            assert_eq!(reply, b"$11\r\nhello world\r\n".to_vec());
        },
        _ => panic!("expected an array"),
    }
}

#[test]
fn empty_arguments_still_count_for_separators() {
    let values = vec![bulk("ECHO"), bulk("a"), bulk(""), bulk("b")];
    let joined = RESP::get_response_value(&values);
    assert_eq!(joined, b"a  b".to_vec());
}

#[test]
fn nested_array_flattens_one_level() {
    let values = vec![
        bulk("ECHO"),
        RESP::Array(vec![bulk("a"), bulk("b")]),
        bulk("c"),
    ];
    let joined = RESP::get_response_value(&values);
    assert_eq!(joined, b"a b c".to_vec());
}

#[test]
fn standalone_bulk_string_parses() {
    let input = b"$3\r\nfoo\r\n";
    let (value, consumed) = RESP::parse_bulk_strings(input).unwrap();
    assert_eq!(consumed, 9);
    match value {
        RESP::BulkString(s) => assert_eq!(s, b"foo".to_vec()),
        _ => panic!("expected a bulk string"),
    }
}

#[test]
fn truncated_frames_ask_for_more_bytes() {
    assert_eq!(
        RESP::parse_redis_protocol(b"").unwrap_err(),
        ProtocolError::TruncatedFrame
    );
    assert_eq!(
        RESP::parse_redis_protocol(b"*2\r\n$4\r\nEC").unwrap_err(),
        ProtocolError::TruncatedFrame
    );
    assert_eq!(
        RESP::parse_redis_protocol(b"*2\r\n").unwrap_err(),
        ProtocolError::TruncatedFrame
    );
    assert_eq!(
        RESP::parse_redis_protocol(b"$10\r\nhi\r\n").unwrap_err(),
        ProtocolError::TruncatedFrame
    );
}

#[test]
fn malformed_headers_are_invalid() {
    assert_eq!(
        RESP::parse_redis_protocol(b"HELLO\r\n").unwrap_err(),
        ProtocolError::InvalidHeader
    );
    assert_eq!(
        RESP::parse_redis_protocol(b"$abc\r\nfoo\r\n").unwrap_err(),
        ProtocolError::InvalidHeader
    );
    assert_eq!(
        RESP::parse_redis_protocol(b"*\r\n").unwrap_err(),
        ProtocolError::InvalidHeader
    );
}

#[test]
fn overflowing_length_is_a_numeric_parse_failure() {
    let input = b"$99999999999999999999999999\r\nx\r\n";
    assert_eq!(
        RESP::parse_redis_protocol(input).unwrap_err(),
        ProtocolError::InvalidHeader
    );
}

#[test]
fn serializer_writes_exact_length_prefix() {
    assert_eq!(serialize_bulk(b""), b"$0\r\n\r\n".to_vec());
    assert_eq!(serialize_bulk(b"0123456789ab"), b"$12\r\n0123456789ab\r\n".to_vec());
}

#[test]
fn pong_reply_is_the_fixed_simple_string() {
    assert_eq!(pong_reply(), b"+PONG\r\n".to_vec());
}

#[test]
fn payload_bytes_are_not_reinterpreted() {
    let input = b"*2\r\n$4\r\nECHO\r\n$4\r\na\r\nb\r\n";
    let (value, consumed) = RESP::parse_redis_protocol(input).unwrap();
    assert_eq!(consumed, input.len());
    match &value {
        RESP::Array(values) => {
            let joined = RESP::get_response_value(values);
            assert_eq!(joined, b"a\r\nb".to_vec());
        },
        _ => panic!("expected an array"),
    }
}

#[test]
fn trailing_bytes_are_left_unconsumed() {
    let input = b"*1\r\n$4\r\nPING\r\n*1\r\n$4\r\nPING\r\n";
    let (_, consumed) = RESP::parse_redis_protocol(input).unwrap();
    assert_eq!(consumed, 14);
}
