use codecrafters_redis::redis_command::{
    array_to_command, checked_array_to_command, checked_message_to_command, message_to_command,
    RedisCommand,
};
use codecrafters_redis::resp::{parse_resp, Resp};

fn texts(v: &[&str]) -> Vec<String> {
    v.iter().map(|s| s.to_string()).collect()
}

/// The message a client sends for these words.
fn message(words: &[&str]) -> String {
    String::from_utf8(parse_resp(Resp::Array(texts(words)))).unwrap()
}

fn command(words: &[&str]) -> RedisCommand {
    message_to_command(&message(words)).unwrap()
}

#[test]
fn reads_ping_echo_get_type_llen() {
    assert!(matches!(command(&["PING"]), RedisCommand::Ping));
    assert!(matches!(command(&["ECHO", "hey"]), RedisCommand::Echo(m) if m == "hey"));
    assert!(matches!(command(&["GET", "k"]), RedisCommand::Get(k) if k == "k"));
    assert!(matches!(command(&["TYPE", "k"]), RedisCommand::TYPE(k) if k == "k"));
    assert!(matches!(command(&["LLEN", "k"]), RedisCommand::LLEN(k) if k == "k"));
}

#[test]
fn reads_set_with_and_without_px() {
    assert!(matches!(command(&["SET", "k", "v"]),
        RedisCommand::SET(k, v, None) if k == "k" && v == "v"));
    assert!(matches!(command(&["SET", "k", "v", "PX", "100"]),
        RedisCommand::SET(k, v, Some(100)) if k == "k" && v == "v"));
    assert!(matches!(command(&["SET", "k", "v", "EX", "100"]), RedisCommand::Unkown));
}

#[test]
fn reads_pushes_and_pops() {
    assert!(matches!(command(&["RPUSH", "k", "a", "b"]),
        RedisCommand::RPush(k, v) if k == "k" && v == texts(&["a", "b"])));
    assert!(matches!(command(&["LPUSH", "k"]),
        RedisCommand::LPush(k, v) if k == "k" && v.is_empty()));
    assert!(matches!(command(&["LPOP", "k"]), RedisCommand::LPOP(k, 1) if k == "k"));
    assert!(matches!(command(&["LPOP", "k", "3"]), RedisCommand::LPOP(k, 3) if k == "k"));
    assert!(matches!(command(&["BLPOP", "k", "0.5"]),
        RedisCommand::BLPOP(k, t) if k == "k" && t == "0.5"));
}

#[test]
fn reads_xadd_pairs() {
    assert!(matches!(command(&["XADD", "s", "1-1"]),
        RedisCommand::XADD(k, id, p) if k == "s" && id == "1-1" && p.is_empty()));
    match command(&["XADD", "s", "1-1", "a", "1", "b", "2"]) {
        RedisCommand::XADD(k, id, p) => {
            assert_eq!(k, "s");
            assert_eq!(id, "1-1");
            assert_eq!(p, vec![("1".to_string(), "2".to_string())]);
        }
        other => panic!("{:?}", other),
    }
}

#[test]
fn unknown_words_make_unknown_command() {
    assert!(matches!(command(&["FLUSHALL"]), RedisCommand::Unkown));
    assert!(matches!(command(&["PING", "extra"]), RedisCommand::Unkown));
    assert!(matches!(array_to_command(&vec![]), RedisCommand::Unkown));
}

#[test]
fn refuses_unreadable_numbers() {
    assert!(checked_message_to_command(&message(&["SET", "k", "v", "PX", "soon"])).is_none());
    assert!(checked_message_to_command(&message(&["LPOP", "k", "many"])).is_none());
    assert!(checked_message_to_command(&message(&["XADD", "s", "1-1", "a", "1"])).is_none());
    assert!(checked_message_to_command("").is_none());
}

#[test]
fn non_array_messages_name_no_command() {
    assert!(matches!(checked_message_to_command("+OK\r\n"), Some(None)));
    assert!(matches!(checked_message_to_command("PING"), Some(None)));
}

#[test]
fn array_to_command_reads_words_after_length_lines() {
    let arr = texts(&["2", "$3", "GET", "$3", "key"]);
    assert!(matches!(array_to_command(&arr), RedisCommand::Get(k) if k == "key"));
    let arr = texts(&["2", "$4", "LPOP", "$1", "k"]);
    assert!(matches!(checked_array_to_command(&arr), Some(RedisCommand::LPOP(k, 1)) if k == "k"));
}

#[test]
fn array_to_command_reads_words_at_odd_positions_without_a_count() {
    assert!(matches!(array_to_command(&texts(&["$4", "PING"])), RedisCommand::Ping));
    assert!(matches!(array_to_command(&texts(&["x", "y", "PING"])), RedisCommand::Unkown));
    let arr = texts(&["$3", "SET", "$3", "foo", "$3", "bar", "$2", "PX", "$3", "100"]);
    assert!(matches!(array_to_command(&arr),
        RedisCommand::SET(k, v, Some(100)) if k == "foo" && v == "bar"));
    let arr = texts(&["$5", "BLPOP", "$4", "list", "$3", "0.5"]);
    assert!(matches!(array_to_command(&arr),
        RedisCommand::BLPOP(k, t) if k == "list" && t == "0.5"));
    let arr = texts(&["$5", "RPUSH", "$1", "k", "$1", "a", "$1", "b"]);
    assert!(matches!(array_to_command(&arr),
        RedisCommand::RPush(k, v) if k == "k" && v == texts(&["a", "b"])));
    let arr = texts(&["$4", "LPOP", "$1", "k"]);
    assert!(matches!(array_to_command(&arr), RedisCommand::LPOP(k, 1) if k == "k"));
    let arr = texts(&["$4", "LPOP", "$1", "k", "$1", "2"]);
    assert!(matches!(array_to_command(&arr), RedisCommand::LPOP(k, 2) if k == "k"));
    // only the words count, not the length lines before them
    let arr = texts(&["$9", "GET", "?", "key"]);
    assert!(matches!(array_to_command(&arr), RedisCommand::Get(k) if k == "key"));
}

#[test]
fn reads_lrange_in_every_form() {
    let arr = texts(&["$6", "LRANGE", "$4", "list", "$1", "0", "$2", "-1"]);
    assert!(matches!(array_to_command(&arr),
        RedisCommand::LRANGE(k, 0, -1) if k == "list"));
    let arr = texts(&["3", "$6", "LRANGE", "$4", "list", "$1", "0", "$2", "-1"]);
    assert!(matches!(array_to_command(&arr), RedisCommand::Unkown));
    let arr = texts(&["4", "$6", "LRANGE", "$4", "list", "$1", "0", "$2", "-1"]);
    assert!(matches!(array_to_command(&arr),
        RedisCommand::LRANGE(k, 0, -1) if k == "list"));
    assert!(matches!(command(&["LRANGE", "list", "1", "-2"]),
        RedisCommand::LRANGE(k, 1, -2) if k == "list"));
    // a bound that is no i32 names no command
    let arr = texts(&["$6", "LRANGE", "$4", "list", "$1", "x", "$2", "-1"]);
    assert!(matches!(checked_array_to_command(&arr), Some(RedisCommand::Unkown)));
    assert!(matches!(array_to_command(&arr), RedisCommand::Unkown));
    assert!(matches!(command(&["LRANGE", "list", "0", "99999999999"]), RedisCommand::Unkown));
}

#[test]
fn a_count_leads_only_a_parsed_resp_array() {
    assert!(matches!(array_to_command(&texts(&["1", "PING", "x"])), RedisCommand::Ping));
    assert!(matches!(array_to_command(&texts(&["2", "PING", "x"])), RedisCommand::Ping));
    assert!(matches!(array_to_command(&texts(&["1", "XX", "PING"])), RedisCommand::Unkown));
    assert!(matches!(array_to_command(&texts(&["2", "RPUSH", "a", "k", "b"])),
        RedisCommand::RPush(k, v) if k == "k" && v.is_empty()));
    assert!(matches!(array_to_command(&texts(&["2", "LPOP", "a", "k", "b"])),
        RedisCommand::LPOP(k, 1) if k == "k"));
    // a length line that does not match its word: read at the odd positions
    assert!(matches!(array_to_command(&texts(&["1", "$5", "PING"])), RedisCommand::Unkown));
    assert!(matches!(array_to_command(&texts(&["1", "$4", "PING"])), RedisCommand::Ping));
}
