use resp_store::protocol::{
    parse_array, parse_bulk_string, parse_bytes, parse_resp, RespError, RespValue,
};

#[test]
fn test_parse_simple_string() {
    let input = "+OK\r\n";
    let (value, _) = parse_resp(input).unwrap();
    assert_eq!(value, RespValue::SimpleString("OK".to_string()));
}

#[test]
fn test_parse_error() {
    let input = "-Error message\r\n";
    let (value, _) = parse_resp(input).unwrap();
    assert_eq!(value, RespValue::Error("Error message".to_string()));
}

#[test]
fn test_parse_integer() {
    let input = ":1000\r\n";
    let (value, _) = parse_resp(input).unwrap();
    assert_eq!(value, RespValue::Integer(1000));
}

#[test]
fn test_parse_bulk_string() {
    let input = "$5\r\nhello\r\n";
    let (value, _) = parse_resp(input).unwrap();
    assert_eq!(value, RespValue::BulkString(Some("hello".to_string())));
}

#[test]
fn test_parse_null_bulk_string() {
    let input = "$-1\r\n";
    let (value, _) = parse_resp(input).unwrap();
    assert_eq!(value, RespValue::BulkString(None));
}

#[test]
fn test_parse_array() {
    let input = "*2\r\n$5\r\nhello\r\n$5\r\nworld\r\n";
    let (value, _) = parse_resp(input).unwrap();
    match value {
        RespValue::Array(items) => {
            assert_eq!(items.len(), 2);
            assert_eq!(items[0], RespValue::BulkString(Some("hello".to_string())));
            assert_eq!(items[1], RespValue::BulkString(Some("world".to_string())));
        }
        _ => panic!("Expected array"),
    }
}

#[test]
fn consumed_counts_the_bytes_of_the_frame() {
    assert_eq!(parse_resp("+OK\r\n").unwrap().1, 5);
    assert_eq!(parse_resp("+OK\r\n+MORE\r\n").unwrap().1, 5);
    assert_eq!(parse_resp(":-42\r\nrest").unwrap(), (RespValue::Integer(-42), 6));
    assert_eq!(parse_resp("$-1\r\n").unwrap().1, 5);
    assert_eq!(parse_resp("$5\r\nhello\r\n").unwrap().1, 11);
    assert_eq!(parse_resp("*2\r\n$5\r\nhello\r\n$5\r\nworld\r\n").unwrap().1, 26);
}

#[test]
fn empty_buffer_is_incomplete() {
    assert_eq!(parse_resp(""), Err(RespError::Incomplete));
}

#[test]
fn unknown_marker_is_invalid() {
    assert_eq!(parse_resp("?what\r\n"), Err(RespError::InvalidFormat));
    assert_eq!(parse_resp("OK\r\n"), Err(RespError::InvalidFormat));
}

#[test]
fn line_without_terminator_is_incomplete() {
    assert_eq!(parse_resp("+OK"), Err(RespError::Incomplete));
    assert_eq!(parse_resp("+OK\r"), Err(RespError::Incomplete));
    assert_eq!(parse_resp("-ERR"), Err(RespError::Incomplete));
    assert_eq!(parse_resp(":12"), Err(RespError::Incomplete));
    assert_eq!(parse_resp("$5"), Err(RespError::Incomplete));
    assert_eq!(parse_resp("*2\r"), Err(RespError::Incomplete));
}

#[test]
fn integers_follow_base_ten() {
    assert_eq!(parse_resp(":0\r\n").unwrap().0, RespValue::Integer(0));
    assert_eq!(parse_resp(":+7\r\n").unwrap().0, RespValue::Integer(7));
    assert_eq!(parse_resp(":007\r\n").unwrap().0, RespValue::Integer(7));
    assert_eq!(
        parse_resp(":9223372036854775807\r\n").unwrap().0,
        RespValue::Integer(i64::MAX)
    );
    assert_eq!(
        parse_resp(":-9223372036854775808\r\n").unwrap().0,
        RespValue::Integer(i64::MIN)
    );
    assert_eq!(parse_resp(":9223372036854775808\r\n"), Err(RespError::InvalidFormat));
    assert_eq!(parse_resp(":-9223372036854775809\r\n"), Err(RespError::InvalidFormat));
    assert_eq!(parse_resp(":\r\n"), Err(RespError::InvalidFormat));
    assert_eq!(parse_resp(":-\r\n"), Err(RespError::InvalidFormat));
    assert_eq!(parse_resp(":12a\r\n"), Err(RespError::InvalidFormat));
    assert_eq!(parse_resp(": 12\r\n"), Err(RespError::InvalidFormat));
}

#[test]
fn bulk_string_waits_for_its_body() {
    assert_eq!(parse_resp("$5\r\n"), Err(RespError::Incomplete));
    assert_eq!(parse_resp("$5\r\nhel"), Err(RespError::Incomplete));
    assert_eq!(parse_resp("$5\r\nhello"), Err(RespError::Incomplete));
    assert_eq!(parse_resp("$5\r\nhello\r"), Err(RespError::Incomplete));
    assert_eq!(parse_resp("$9223372036854775807\r\nabc\r\n"), Err(RespError::Incomplete));
}

#[test]
fn bulk_string_needs_its_terminator() {
    assert_eq!(parse_resp("$5\r\nhelloXY"), Err(RespError::InvalidFormat));
    assert_eq!(parse_resp("$10\r\nnonexistent\r\n"), Err(RespError::InvalidFormat));
    assert_eq!(parse_resp("$x\r\nhello\r\n"), Err(RespError::InvalidFormat));
}

#[test]
fn bulk_string_may_hold_terminators_and_be_empty() {
    assert_eq!(
        parse_resp("$4\r\na\r\nb\r\n").unwrap(),
        (RespValue::BulkString(Some("a\r\nb".to_string())), 10)
    );
    assert_eq!(
        parse_resp("$0\r\n\r\n").unwrap(),
        (RespValue::BulkString(Some(String::new())), 6)
    );
}

#[test]
fn bulk_length_counts_bytes() {
    // "é" takes two bytes.
    assert_eq!(
        parse_resp("$2\r\né\r\n").unwrap(),
        (RespValue::BulkString(Some("é".to_string())), 8)
    );
    // A length that ends inside a character is no frame.
    assert_eq!(parse_resp("$1\r\né\r\n"), Err(RespError::InvalidFormat));
}

#[test]
fn negative_lengths_other_than_minus_one_are_refused() {
    assert_eq!(parse_resp("$-2\r\n"), Err(RespError::InvalidFormat));
    assert_eq!(parse_resp("*-2\r\n"), Err(RespError::InvalidFormat));
    assert_eq!(parse_resp("*-5\r\n"), Err(RespError::InvalidFormat));
    assert_eq!(parse_resp("$-9223372036854775808\r\n"), Err(RespError::InvalidFormat));
    assert_eq!(parse_bulk_string(b"$-2\r\n"), Err(RespError::InvalidFormat));
    assert_eq!(parse_array(b"*-2\r\n"), Err(RespError::InvalidFormat));
}

#[test]
fn array_count_has_a_limit() {
    assert_eq!(parse_resp("*1048576\r\n"), Err(RespError::Incomplete));
    assert_eq!(parse_resp("*1048577\r\n"), Err(RespError::InvalidFormat));
    assert_eq!(parse_array(b"*9223372036854775807\r\n"), Err(RespError::InvalidFormat));
    assert_eq!(parse_resp("*9223372036854775808\r\n"), Err(RespError::InvalidFormat));
}

#[test]
fn null_and_empty_arrays() {
    assert_eq!(parse_resp("*-1\r\n").unwrap(), (RespValue::Array(vec![]), 5));
    assert_eq!(parse_resp("*0\r\n").unwrap(), (RespValue::Array(vec![]), 4));
}

#[test]
fn arrays_nest() {
    let input = "*2\r\n*2\r\n:1\r\n+a\r\n$1\r\nb\r\n";
    let expected = RespValue::Array(vec![
        RespValue::Array(vec![RespValue::Integer(1), RespValue::SimpleString("a".to_string())]),
        RespValue::BulkString(Some("b".to_string())),
    ]);
    assert_eq!(parse_resp(input).unwrap(), (expected, input.len()));
}

#[test]
fn array_errors_come_from_its_elements() {
    assert_eq!(parse_resp("*2\r\n:1\r\n"), Err(RespError::Incomplete));
    assert_eq!(parse_resp("*2\r\n:1\r\n?x\r\n"), Err(RespError::InvalidFormat));
    assert_eq!(parse_resp("*1\r\n$-7\r\n"), Err(RespError::InvalidFormat));
}

#[test]
fn bytes_that_are_not_text_are_no_frame() {
    assert_eq!(parse_bytes(b"+\xff\r\n"), Err(RespError::InvalidFormat));
    assert_eq!(parse_bytes(b"$1\r\n\xff\r\n"), Err(RespError::InvalidFormat));
    assert_eq!(
        parse_bytes(b"+OK\r\n").unwrap(),
        (RespValue::SimpleString("OK".to_string()), 5)
    );
}

#[test]
fn values_encode_to_wire_text() {
    assert_eq!(RespValue::SimpleString("OK".to_string()).to_string(), "+OK\r\n");
    assert_eq!(RespValue::Error("ERR x".to_string()).to_string(), "-ERR x\r\n");
    assert_eq!(RespValue::Integer(1000).to_string(), ":1000\r\n");
    assert_eq!(RespValue::Integer(-7).to_string(), ":-7\r\n");
    assert_eq!(RespValue::Integer(0).to_string(), ":0\r\n");
    assert_eq!(RespValue::Integer(i64::MIN).to_string(), ":-9223372036854775808\r\n");
    assert_eq!(RespValue::BulkString(None).to_string(), "$-1\r\n");
    assert_eq!(
        RespValue::BulkString(Some("value1".to_string())).to_string(),
        "$6\r\nvalue1\r\n"
    );
    assert_eq!(RespValue::BulkString(Some("é".to_string())).to_string(), "$2\r\né\r\n");
    assert_eq!(RespValue::Array(vec![]).to_string(), "*0\r\n");
    assert_eq!(
        RespValue::Array(vec![
            RespValue::BulkString(Some("hello".to_string())),
            RespValue::Integer(5),
        ])
        .to_string(),
        "*2\r\n$5\r\nhello\r\n:5\r\n"
    );
    assert_eq!(RespValue::Integer(12).encode(), b":12\r\n".to_vec());
}

fn samples() -> Vec<RespValue> {
    vec![
        RespValue::SimpleString("OK".to_string()),
        RespValue::SimpleString(String::new()),
        RespValue::Error("ERR something".to_string()),
        RespValue::Integer(0),
        RespValue::Integer(-15),
        RespValue::Integer(i64::MAX),
        RespValue::Integer(i64::MIN),
        RespValue::BulkString(None),
        RespValue::BulkString(Some(String::new())),
        RespValue::BulkString(Some("with\r\ninside".to_string())),
        RespValue::BulkString(Some("dé \u{1F600}".to_string())),
        RespValue::Array(vec![]),
        RespValue::Array(vec![
            RespValue::BulkString(Some("SET".to_string())),
            RespValue::Array(vec![RespValue::Integer(1), RespValue::BulkString(None)]),
            RespValue::Error("x".to_string()),
        ]),
    ]
}

#[test]
fn decoding_an_encoding_gives_the_value_back() {
    for value in samples() {
        let text = value.to_string();
        let (back, used) = parse_resp(&text).unwrap();
        assert_eq!(back, value);
        assert_eq!(used, text.len());
    }
}

#[test]
fn every_proper_prefix_of_an_encoding_is_incomplete() {
    for value in samples() {
        let bytes = value.encode();
        for cut in 0..bytes.len() {
            assert_eq!(parse_bytes(&bytes[..cut]), Err(RespError::Incomplete));
        }
    }
}

#[test]
fn two_reads_give_what_one_read_gives() {
    for value in samples() {
        let bytes = value.encode();
        let whole = parse_bytes(&bytes).unwrap();
        for cut in 0..bytes.len() {
            let mut buffer: Vec<u8> = bytes[..cut].to_vec();
            assert_eq!(parse_bytes(&buffer), Err(RespError::Incomplete));
            buffer.extend_from_slice(&bytes[cut..]);
            assert_eq!(parse_bytes(&buffer).unwrap(), whole);
        }
    }
}

#[test]
fn a_line_break_inside_a_simple_string_does_not_come_back() {
    let value = RespValue::SimpleString("a\r\nb".to_string());
    let text = value.to_string();
    assert_eq!(
        parse_resp(&text).unwrap(),
        (RespValue::SimpleString("a".to_string()), 4)
    );
}

#[test]
fn error_messages() {
    assert_eq!(RespError::InvalidFormat.to_string(), "invalid RESP format");
    assert_eq!(RespError::Incomplete.to_string(), "incomplete input");
    assert_eq!(
        RespError::InvalidLength("-2".to_string()).to_string(),
        "invalid length: -2"
    );
}
