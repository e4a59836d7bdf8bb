use codecrafters_redis::resp::{message_is_readable, parse_message, parse_resp, Resp};

fn texts(v: &[&str]) -> Vec<String> {
    v.iter().map(|s| s.to_string()).collect()
}

#[test]
fn writes_simple_string() {
    assert_eq!(parse_resp(Resp::SimpleString("OK".to_string())), b"+OK\r\n".to_vec());
    assert_eq!(parse_resp(Resp::SimpleString("PONG".to_string())), b"+PONG\r\n".to_vec());
}

#[test]
fn writes_error_with_minus_prefix() {
    assert_eq!(
        parse_resp(Resp::Error("ERR unknown command".to_string())),
        b"-ERR unknown command\r\n".to_vec()
    );
}

#[test]
fn writes_integers() {
    assert_eq!(parse_resp(Resp::Integer(1000)), b":1000\r\n".to_vec());
    assert_eq!(parse_resp(Resp::Integer(0)), b":0\r\n".to_vec());
    assert_eq!(parse_resp(Resp::Integer(-42)), b":-42\r\n".to_vec());
    assert_eq!(
        parse_resp(Resp::Integer(i64::MIN)),
        b":-9223372036854775808\r\n".to_vec()
    );
}

#[test]
fn writes_bulk_string_with_byte_length() {
    assert_eq!(parse_resp(Resp::BulkString("hello".to_string())), b"$5\r\nhello\r\n".to_vec());
    assert_eq!(parse_resp(Resp::BulkString("".to_string())), b"$0\r\n\r\n".to_vec());
    assert_eq!(
        parse_resp(Resp::BulkString("é".to_string())),
        "$2\r\né\r\n".as_bytes().to_vec()
    );
}

#[test]
fn writes_arrays_of_bulk_strings() {
    assert_eq!(
        parse_resp(Resp::Array(texts(&["GET", "key"]))),
        b"*2\r\n$3\r\nGET\r\n$3\r\nkey\r\n".to_vec()
    );
    assert_eq!(parse_resp(Resp::Array(vec![])), b"*0\r\n".to_vec());
    assert_eq!(
        parse_resp(Resp::Array(texts(&["a", "bcdefghijkl"]))),
        b"*2\r\n$1\r\na\r\n$11\r\nbcdefghijkl\r\n".to_vec()
    );
}

#[test]
fn reads_simple_string_error_and_integer() {
    match parse_message("+OK\r\n") {
        Resp::SimpleString(s) => assert_eq!(s, "OK"),
        other => panic!("{:?}", other),
    }
    match parse_message("-ERR bad\r\n") {
        Resp::Error(s) => assert_eq!(s, "ERR bad"),
        other => panic!("{:?}", other),
    }
    match parse_message(":1000\r\n") {
        Resp::Integer(i) => assert_eq!(i, 1000),
        other => panic!("{:?}", other),
    }
    match parse_message(":-7\r\n") {
        Resp::Integer(i) => assert_eq!(i, -7),
        other => panic!("{:?}", other),
    }
}

#[test]
fn reads_bulk_string_as_second_line() {
    match parse_message("$5\r\nhello\r\n") {
        Resp::BulkString(s) => assert_eq!(s, "hello"),
        other => panic!("{:?}", other),
    }
}

#[test]
fn reads_array_as_every_line_of_the_body() {
    match parse_message("*2\r\n$3\r\nGET\r\n$3\r\nkey\r\n") {
        Resp::Array(v) => assert_eq!(v, texts(&["2", "$3", "GET", "$3", "key"])),
        other => panic!("{:?}", other),
    }
}

#[test]
fn reads_anything_else_as_other() {
    match parse_message("hello") {
        Resp::Other(s) => assert_eq!(s, "hello"),
        other => panic!("{:?}", other),
    }
}

#[test]
fn refuses_what_cannot_be_read() {
    assert!(!message_is_readable(""));
    assert!(!message_is_readable("+\r"));
    assert!(!message_is_readable(":abc\r\n"));
    assert!(!message_is_readable(":99999999999999999999\r\n"));
    assert!(!message_is_readable("$5\r\n"));
    assert!(message_is_readable("+\r\n"));
    assert!(message_is_readable("hello"));
    assert!(message_is_readable("*1\r\n$4\r\nPING\r\n"));
}

#[test]
fn what_is_written_is_read_back() {
    let bytes = parse_resp(Resp::SimpleString("a b".to_string()));
    match parse_message(std::str::from_utf8(&bytes).unwrap()) {
        Resp::SimpleString(s) => assert_eq!(s, "a b"),
        other => panic!("{:?}", other),
    }
    let bytes = parse_resp(Resp::Integer(-123456));
    match parse_message(std::str::from_utf8(&bytes).unwrap()) {
        Resp::Integer(i) => assert_eq!(i, -123456),
        other => panic!("{:?}", other),
    }
    let bytes = parse_resp(Resp::BulkString("héllo".to_string()));
    match parse_message(std::str::from_utf8(&bytes).unwrap()) {
        Resp::BulkString(s) => assert_eq!(s, "héllo"),
        other => panic!("{:?}", other),
    }
    let bytes = parse_resp(Resp::Error("E".to_string()));
    match parse_message(std::str::from_utf8(&bytes).unwrap()) {
        Resp::Error(s) => assert_eq!(s, "E"),
        other => panic!("{:?}", other),
    }
}
