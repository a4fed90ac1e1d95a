use rudis::protocol::{parse_command, parse_u64, serialize_response, verb_of_upper, ProtocolError, RedisCommand, RedisValue, Verb};

fn parse(text: &[u8]) -> Result<Option<RedisCommand>, ProtocolError> {
    let mut buf = text.to_vec();
    parse_command(&mut buf)
}

#[test]
fn simple_get() {
    match parse(b"GET foo\r\n") {
        Ok(Some(RedisCommand::Get { key })) => assert_eq!(key, "foo"),
        other => panic!("unexpected {:?}", other),
    }
}

#[test]
fn lower_case_verbs_are_accepted() {
    assert!(matches!(parse(b"ping\r\n"), Ok(Some(RedisCommand::Ping))));
    assert!(matches!(parse(b"Info\r\n"), Ok(Some(RedisCommand::Info))));
    assert!(matches!(parse(b"pop\r\n"), Ok(Some(RedisCommand::Pop))));
}

#[test]
fn incomplete_frame_leaves_buffer() {
    let mut buf = b"GET foo".to_vec();
    assert!(matches!(parse_command(&mut buf), Ok(None)));
    assert_eq!(buf, b"GET foo".to_vec());
    let mut empty: Vec<u8> = Vec::new();
    assert!(matches!(parse_command(&mut empty), Ok(None)));
}

#[test]
fn complete_frame_is_consumed() {
    let mut buf = b"PING\r\n".to_vec();
    assert!(matches!(parse_command(&mut buf), Ok(Some(RedisCommand::Ping))));
    assert!(buf.is_empty());
    let mut bad = b"NOPE\r\n".to_vec();
    assert_eq!(parse_command(&mut bad).unwrap_err(), ProtocolError::InvalidCommand);
    assert!(bad.is_empty());
}

#[test]
fn set_with_ttl() {
    match parse(b"SET a hello EX 1\r\n") {
        Ok(Some(RedisCommand::SetKey { key, value, ttl })) => {
            assert_eq!(key, "a");
            assert_eq!(value, b"hello".to_vec());
            assert_eq!(ttl, Some(1));
        }
        other => panic!("unexpected {:?}", other),
    }
    match parse(b"set a hello ex +42 trailing\r\n") {
        Ok(Some(RedisCommand::SetKey { ttl, .. })) => assert_eq!(ttl, Some(42)),
        other => panic!("unexpected {:?}", other),
    }
}

#[test]
fn set_ignores_bad_ttl() {
    for text in [&b"SET a b EX soon\r\n"[..], b"SET a b PX 5\r\n", b"SET a b EX\r\n", b"SET a b EX -1\r\n"] {
        match parse(text) {
            Ok(Some(RedisCommand::SetKey { ttl, .. })) => assert_eq!(ttl, None),
            other => panic!("unexpected {:?}", other),
        }
    }
}

#[test]
fn too_few_words_is_invalid_format() {
    assert_eq!(parse(b"GET\r\n").unwrap_err(), ProtocolError::InvalidFormat);
    assert_eq!(parse(b"SET a\r\n").unwrap_err(), ProtocolError::InvalidFormat);
    assert_eq!(parse(b"DEL\r\n").unwrap_err(), ProtocolError::InvalidFormat);
    assert_eq!(parse(b"KEYS\r\n").unwrap_err(), ProtocolError::InvalidFormat);
    assert_eq!(parse(b"   \r\n").unwrap_err(), ProtocolError::InvalidFormat);
}

#[test]
fn unknown_verb_is_invalid_command() {
    assert_eq!(parse(b"FLUSHALL\r\n").unwrap_err(), ProtocolError::InvalidCommand);
}

#[test]
fn non_text_is_invalid_format() {
    assert_eq!(parse(&[0xff, 0xfe, b'\r', b'\n']).unwrap_err(), ProtocolError::InvalidFormat);
}

#[test]
fn array_frame() {
    match parse(b"*3\r\n$3\r\nSET\r\n$3\r\nkey\r\n$5\r\nvalue\r\n") {
        Ok(Some(RedisCommand::SetKey { key, value, ttl })) => {
            assert_eq!(key, "key");
            assert_eq!(value, b"value".to_vec());
            assert_eq!(ttl, None);
        }
        other => panic!("unexpected {:?}", other),
    }
    match parse(b"*2\r\n$4\r\nKEYS\r\n$4\r\nfoo*\r\n") {
        Ok(Some(RedisCommand::Keys { pattern })) => assert_eq!(pattern, "foo*"),
        other => panic!("unexpected {:?}", other),
    }
    match parse(b"*2\r\n$3\r\nDEL\r\n$1\r\nx\r\n") {
        Ok(Some(RedisCommand::Delete { key })) => assert_eq!(key, "x"),
        other => panic!("unexpected {:?}", other),
    }
}

#[test]
fn short_array_frame_waits() {
    let mut buf = b"*1\r\n".to_vec();
    assert!(matches!(parse_command(&mut buf), Ok(None)));
    assert_eq!(buf, b"*1\r\n".to_vec());
}

#[test]
fn malformed_array_frame_is_invalid_format() {
    let mut buf = b"*x\r\n".to_vec();
    assert_eq!(parse_command(&mut buf).unwrap_err(), ProtocolError::InvalidFormat);
    assert!(buf.is_empty());
    assert_eq!(parse(b"*1\r\n+3\r\n").unwrap_err(), ProtocolError::InvalidFormat);
    assert_eq!(parse(b"*1\r\n$1\r\nxy\r\n").unwrap_err(), ProtocolError::InvalidFormat);
    assert_eq!(parse(b"*0\r\n").unwrap_err(), ProtocolError::InvalidFormat);
}

#[test]
fn cut_array_frames_wait_for_more() {
    for text in [&b"*2\r\n$3\r\nGE"[..], b"*2\r\n$3\r\nGET\r\n$1\r\n", b"*2", b"*2\r\n$3"] {
        let mut buf = text.to_vec();
        assert!(matches!(parse_command(&mut buf), Ok(None)));
        assert_eq!(buf, text.to_vec());
    }
    let mut buf = b"*2\r\n$3\r\nGET\r\n$1\r\n".to_vec();
    buf.extend_from_slice(b"a\r\n");
    match parse_command(&mut buf) {
        Ok(Some(RedisCommand::Get { key })) => assert_eq!(key, "a"),
        other => panic!("unexpected {:?}", other),
    }
    assert!(buf.is_empty());
}

#[test]
fn two_frames_in_one_buffer() {
    let mut buf = b"GET a\r\nGET b\r\n".to_vec();
    match parse_command(&mut buf) {
        Ok(Some(RedisCommand::Get { key })) => assert_eq!(key, "a"),
        other => panic!("unexpected {:?}", other),
    }
    assert_eq!(buf, b"GET b\r\n".to_vec());
    match parse_command(&mut buf) {
        Ok(Some(RedisCommand::Get { key })) => assert_eq!(key, "b"),
        other => panic!("unexpected {:?}", other),
    }
    assert!(buf.is_empty());
    let mut buf = b"*1\r\n$4\r\nPING\r\nPOP\r\n".to_vec();
    assert!(matches!(parse_command(&mut buf), Ok(Some(RedisCommand::Ping))));
    assert_eq!(buf, b"POP\r\n".to_vec());
}

#[test]
fn bulk_string_may_hold_line_ends() {
    match parse(b"*3\r\n$3\r\nSET\r\n$1\r\nk\r\n$4\r\na\r\nb\r\n") {
        Ok(Some(RedisCommand::SetKey { key, value, ttl })) => {
            assert_eq!(key, "k");
            assert_eq!(value, b"a\r\nb".to_vec());
            assert_eq!(ttl, None);
        }
        other => panic!("unexpected {:?}", other),
    }
}

#[test]
fn verb_of_upper_names_verbs() {
    assert_eq!(verb_of_upper(b"GET"), Verb::Get);
    assert_eq!(verb_of_upper(b"SET"), Verb::SetKey);
    assert_eq!(verb_of_upper(b"DEL"), Verb::Del);
    assert_eq!(verb_of_upper(b"KEYS"), Verb::Keys);
    assert_eq!(verb_of_upper(b"POP"), Verb::Pop);
    assert_eq!(verb_of_upper(b"PING"), Verb::Ping);
    assert_eq!(verb_of_upper(b"INFO"), Verb::Info);
    assert_eq!(verb_of_upper(b"get"), Verb::Other);
    assert_eq!(verb_of_upper(b"GETS"), Verb::Other);
}

#[test]
fn encodes_each_kind() {
    assert_eq!(serialize_response(RedisValue::String("OK".to_string())), b"+OK\r\n".to_vec());
    assert_eq!(serialize_response(RedisValue::Integer(42)), b":42\r\n".to_vec());
    assert_eq!(serialize_response(RedisValue::Integer(-7)), b":-7\r\n".to_vec());
    assert_eq!(serialize_response(RedisValue::Integer(0)), b":0\r\n".to_vec());
    assert_eq!(
        serialize_response(RedisValue::Integer(i64::MIN)),
        b":-9223372036854775808\r\n".to_vec()
    );
    assert_eq!(serialize_response(RedisValue::Bytes(b"hello".to_vec())), b"$5\r\nhello\r\n".to_vec());
    assert_eq!(serialize_response(RedisValue::Bytes(Vec::new())), b"$0\r\n\r\n".to_vec());
    assert_eq!(serialize_response(RedisValue::Nil), b"$-1\r\n".to_vec());
    assert_eq!(serialize_response(RedisValue::Error("bad".to_string())), b"-bad\r\n".to_vec());
}

#[test]
fn encodes_nested_arrays() {
    let v = RedisValue::Array(vec![
        RedisValue::Integer(1),
        RedisValue::Array(vec![RedisValue::Bytes(b"ab".to_vec()), RedisValue::Nil]),
        RedisValue::Array(Vec::new()),
    ]);
    assert_eq!(serialize_response(v), b"*3\r\n:1\r\n*2\r\n$2\r\nab\r\n$-1\r\n*0\r\n".to_vec());
}

#[test]
fn encoded_request_decodes_to_command() {
    let request = RedisValue::Array(vec![
        RedisValue::Bytes(b"SET".to_vec()),
        RedisValue::Bytes(b"name".to_vec()),
        RedisValue::Bytes(b"some bytes".to_vec()),
        RedisValue::Bytes(b"EX".to_vec()),
        RedisValue::Bytes(b"30".to_vec()),
    ]);
    let mut buf = serialize_response(request);
    match parse_command(&mut buf) {
        Ok(Some(RedisCommand::SetKey { key, value, ttl })) => {
            assert_eq!(key, "name");
            assert_eq!(value, b"some bytes".to_vec());
            assert_eq!(ttl, Some(30));
        }
        other => panic!("unexpected {:?}", other),
    }
    let mut buf = serialize_response(RedisValue::Array(vec![
        RedisValue::Bytes(b"GET".to_vec()),
        RedisValue::Bytes(b"name".to_vec()),
    ]));
    match parse_command(&mut buf) {
        Ok(Some(RedisCommand::Get { key })) => assert_eq!(key, "name"),
        other => panic!("unexpected {:?}", other),
    }
}

#[test]
fn parses_unsigned_decimals() {
    assert_eq!(parse_u64(b"0"), Some(0));
    assert_eq!(parse_u64(b"+17"), Some(17));
    assert_eq!(parse_u64(b"18446744073709551615"), Some(u64::MAX));
    assert_eq!(parse_u64(b"18446744073709551616"), None);
    assert_eq!(parse_u64(b""), None);
    assert_eq!(parse_u64(b"+"), None);
    assert_eq!(parse_u64(b"1a"), None);
    assert_eq!(parse_u64(b"-1"), None);
}

#[test]
fn protocol_error_messages() {
    assert_eq!(ProtocolError::InvalidFormat.message(), "invalid protocol format");
    assert_eq!(ProtocolError::InvalidCommand.message(), "invalid command");
}

#[test]
fn no_break_space_separates_words() {
    assert_eq!(parse("GET\u{a0}\r\n".as_bytes()).unwrap_err(), ProtocolError::InvalidFormat);
    match parse("SET a b\u{a0}EX\u{a0}5\r\n".as_bytes()) {
        Ok(Some(RedisCommand::SetKey { key, value, ttl })) => {
            assert_eq!(key, "a");
            assert_eq!(value, b"b".to_vec());
            assert_eq!(ttl, Some(5));
        }
        other => panic!("unexpected {:?}", other),
    }
}

#[test]
fn other_unicode_spaces_separate_words() {
    for space in ["\u{85}", "\u{1680}", "\u{2000}", "\u{200a}", "\u{2028}", "\u{2029}", "\u{202f}", "\u{205f}", "\u{3000}"] {
        let text = format!("SET{}k{}v{}ex{}9\r\n", space, space, space, space);
        match parse(text.as_bytes()) {
            Ok(Some(RedisCommand::SetKey { key, value, ttl })) => {
                assert_eq!(key, "k");
                assert_eq!(value, b"v".to_vec());
                assert_eq!(ttl, Some(9));
            }
            other => panic!("unexpected {:?} for {:?}", other, space),
        }
    }
    // U+200B is not White_Space: it stays inside the word.
    match parse("GET a\u{200b}b\r\n".as_bytes()) {
        Ok(Some(RedisCommand::Get { key })) => assert_eq!(key, "a\u{200b}b"),
        other => panic!("unexpected {:?}", other),
    }
}

#[test]
fn verbs_match_by_unicode_upper_case() {
    match parse("ſet a b\r\n".as_bytes()) {
        Ok(Some(RedisCommand::SetKey { key, .. })) => assert_eq!(key, "a"),
        other => panic!("unexpected {:?}", other),
    }
    assert!(matches!(parse("pıng\r\n".as_bytes()), Ok(Some(RedisCommand::Ping))));
    assert!(matches!(parse("ınfo\r\n".as_bytes()), Ok(Some(RedisCommand::Info))));
    match parse("keyſ x*\r\n".as_bytes()) {
        Ok(Some(RedisCommand::Keys { pattern })) => assert_eq!(pattern, "x*"),
        other => panic!("unexpected {:?}", other),
    }
    match parse("SET a b eX 3\r\n".as_bytes()) {
        Ok(Some(RedisCommand::SetKey { ttl, .. })) => assert_eq!(ttl, Some(3)),
        other => panic!("unexpected {:?}", other),
    }
}
