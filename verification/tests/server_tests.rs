use codecrafters_redis::radix_tree::RadixNode;
use codecrafters_redis::redis_command::RedisCommand;
use codecrafters_redis::redis_db::RedisDb;
use codecrafters_redis::redis_server::{Reply, RedisServer};

fn s(t: &str) -> String {
    t.to_string()
}

fn texts(v: &[&str]) -> Vec<String> {
    v.iter().map(|x| x.to_string()).collect()
}

fn server(clients: &[usize]) -> RedisServer {
    let mut server = RedisServer::new();
    for c in clients {
        server.add_client(*c);
    }
    server
}

fn sent(r: &[Reply]) -> Vec<(usize, String)> {
    r.iter()
        .map(|x| (x.client, String::from_utf8(x.bytes.clone()).unwrap()))
        .collect()
}

fn one(c: usize, t: &str) -> Vec<(usize, String)> {
    vec![(c, t.to_string())]
}

#[test]
fn new_db_is_empty() {
    let db = RedisDb::new();
    assert_eq!(db.last_id, 0);
    assert_eq!(db.last_sequence_number, 0);
    assert!(!db.map.contains_key("k"));
}

#[test]
fn ping_and_echo() {
    let mut sv = server(&[0]);
    assert_eq!(sent(&sv.execute(RedisCommand::Ping, 0, 0, 0)), one(0, "+PONG\r\n"));
    assert_eq!(sent(&sv.execute(RedisCommand::Echo(s("hey")), 0, 0, 0)), one(0, "$3\r\nhey\r\n"));
}

#[test]
fn get_after_set() {
    let mut sv = server(&[0, 1]);
    assert_eq!(sent(&sv.execute(RedisCommand::SET(s("k"), s("v"), None), 0, 10, 0)), one(0, "+OK\r\n"));
    assert_eq!(sent(&sv.execute(RedisCommand::Get(s("k")), 1, 20, 0)), one(1, "$1\r\nv\r\n"));
    // a missing key gets the null bulk string
    assert_eq!(sent(&sv.execute(RedisCommand::Get(s("nope")), 1, 20, 0)), one(1, "$-1\r\n"));
}

#[test]
fn set_with_px_expires() {
    let mut sv = server(&[0]);
    sv.execute(RedisCommand::SET(s("k"), s("v"), Some(100)), 0, 1000, 0);
    assert_eq!(sent(&sv.execute(RedisCommand::Get(s("k")), 0, 1100, 0)), one(0, "$1\r\nv\r\n"));
    assert_eq!(sent(&sv.execute(RedisCommand::Get(s("k")), 0, 1101, 0)), one(0, "$-1\r\n"));
    assert_eq!(sent(&sv.execute(RedisCommand::Get(s("k")), 0, 1102, 0)), one(0, "$-1\r\n"));
    assert_eq!(sent(&sv.execute(RedisCommand::TYPE(s("k")), 0, 1102, 0)), one(0, "+none\r\n"));
}

#[test]
fn rpush_lrange_llen() {
    let mut sv = server(&[0]);
    assert_eq!(
        sent(&sv.execute(RedisCommand::RPush(s("l"), texts(&["a", "b", "c"])), 0, 0, 0)),
        one(0, ":3\r\n")
    );
    assert_eq!(sent(&sv.execute(RedisCommand::RPush(s("l"), texts(&["d"])), 0, 0, 0)), one(0, ":4\r\n"));
    assert_eq!(
        sent(&sv.execute(RedisCommand::LRANGE(s("l"), 0, -1), 0, 0, 0)),
        one(0, "*4\r\n$1\r\na\r\n$1\r\nb\r\n$1\r\nc\r\n$1\r\nd\r\n")
    );
    assert_eq!(
        sent(&sv.execute(RedisCommand::LRANGE(s("l"), -2, -1), 0, 0, 0)),
        one(0, "*2\r\n$1\r\nc\r\n$1\r\nd\r\n")
    );
    assert_eq!(
        sent(&sv.execute(RedisCommand::LRANGE(s("l"), 1, 2), 0, 0, 0)),
        one(0, "*2\r\n$1\r\nb\r\n$1\r\nc\r\n")
    );
    assert_eq!(
        sent(&sv.execute(RedisCommand::LRANGE(s("l"), -100, 0), 0, 0, 0)),
        one(0, "*1\r\n$1\r\na\r\n")
    );
    assert_eq!(sent(&sv.execute(RedisCommand::LRANGE(s("none"), 0, -1), 0, 0, 0)), one(0, "*0\r\n"));
    assert_eq!(sent(&sv.execute(RedisCommand::LLEN(s("l")), 0, 0, 0)), one(0, ":4\r\n"));
    assert_eq!(sent(&sv.execute(RedisCommand::LLEN(s("none")), 0, 0, 0)), one(0, ":0\r\n"));
    assert_eq!(sent(&sv.execute(RedisCommand::TYPE(s("l")), 0, 0, 0)), one(0, "+list\r\n"));
}

#[test]
fn lpush_puts_each_value_in_front() {
    let mut sv = server(&[0]);
    assert_eq!(
        sent(&sv.execute(RedisCommand::LPush(s("l"), texts(&["a", "b", "c"])), 0, 0, 0)),
        one(0, ":3\r\n")
    );
    assert_eq!(
        sent(&sv.execute(RedisCommand::LRANGE(s("l"), 0, -1), 0, 0, 0)),
        one(0, "*3\r\n$1\r\nc\r\n$1\r\nb\r\n$1\r\na\r\n")
    );
}

#[test]
fn lpop_takes_from_the_front() {
    let mut sv = server(&[0]);
    sv.execute(RedisCommand::RPush(s("l"), texts(&["a", "b", "c", "d"])), 0, 0, 0);
    assert_eq!(sent(&sv.execute(RedisCommand::LPOP(s("l"), 1), 0, 0, 0)), one(0, "$1\r\na\r\n"));
    assert_eq!(
        sent(&sv.execute(RedisCommand::LPOP(s("l"), 2), 0, 0, 0)),
        one(0, "*2\r\n$1\r\nb\r\n$1\r\nc\r\n")
    );
    assert_eq!(sent(&sv.execute(RedisCommand::LPOP(s("l"), 5), 0, 0, 0)), one(0, "$1\r\nd\r\n"));
    assert_eq!(sent(&sv.execute(RedisCommand::LPOP(s("l"), 1), 0, 0, 0)), one(0, "$-1\r\n"));
    assert_eq!(sent(&sv.execute(RedisCommand::LPOP(s("missing"), 1), 0, 0, 0)), one(0, "$-1\r\n"));
    sv.execute(RedisCommand::RPush(s("m"), texts(&["x", "y"])), 0, 0, 0);
    assert_eq!(
        sent(&sv.execute(RedisCommand::LPOP(s("m"), -1), 0, 0, 0)),
        one(0, "*2\r\n$1\r\nx\r\n$1\r\ny\r\n")
    );
}

#[test]
fn blpop_waits_and_a_push_wakes_it() {
    let mut sv = server(&[1, 2]);
    assert_eq!(sent(&sv.execute(RedisCommand::BLPOP(s("q"), s("0")), 1, 0, 0)), vec![]);
    assert!(sv.client(1).unwrap().blocked);
    assert_eq!(
        sent(&sv.execute(RedisCommand::RPush(s("q"), texts(&["job", "other"])), 2, 0, 0)),
        vec![(1, s("*2\r\n$1\r\nq\r\n$3\r\njob\r\n")), (2, s(":2\r\n"))]
    );
    assert!(!sv.client(1).unwrap().blocked);
    assert_eq!(sv.client(1).unwrap().waiting_time, None);
    // the values the waiter did not take stay in the list
    assert_eq!(sent(&sv.execute(RedisCommand::LLEN(s("q")), 2, 0, 0)), one(2, ":1\r\n"));
    // with elements, BLPOP takes the first at once
    sv.execute(RedisCommand::RPush(s("q"), texts(&["a"])), 2, 0, 0);
    assert_eq!(
        sent(&sv.execute(RedisCommand::BLPOP(s("q"), s("0")), 1, 0, 0)),
        one(1, "$5\r\nother\r\n")
    );
}

#[test]
fn type_names_each_kind() {
    let mut sv = server(&[0]);
    sv.execute(RedisCommand::SET(s("a"), s("1"), None), 0, 0, 0);
    sv.execute(RedisCommand::XADD(s("st"), s("1-1"), vec![]), 0, 0, 0);
    assert_eq!(sent(&sv.execute(RedisCommand::TYPE(s("a")), 0, 0, 0)), one(0, "+string\r\n"));
    assert_eq!(sent(&sv.execute(RedisCommand::TYPE(s("st")), 0, 0, 0)), one(0, "+stream\r\n"));
    assert_eq!(sent(&sv.execute(RedisCommand::TYPE(s("zz")), 0, 0, 0)), one(0, "+none\r\n"));
}

#[test]
fn xadd_accepts_growing_ids_and_refuses_others() {
    let mut sv = server(&[0]);
    assert_eq!(
        sent(&sv.execute(RedisCommand::XADD(s("st"), s("1-1"), vec![(s("f"), s("v"))]), 0, 0, 0)),
        one(0, "$3\r\n1-1\r\n")
    );
    assert_eq!(
        sent(&sv.execute(RedisCommand::XADD(s("st"), s("1-1"), vec![]), 0, 0, 0)),
        one(0, "-The ID specified in XADD is equal or smaller than the target stream top item\r\n")
    );
    assert_eq!(
        sent(&sv.execute(RedisCommand::XADD(s("st"), s("0-5"), vec![]), 0, 0, 0)),
        one(0, "-The ID specified in XADD is equal or smaller than 1-1\r\n")
    );
    assert_eq!(
        sent(&sv.execute(RedisCommand::XADD(s("st"), s("1-2"), vec![]), 0, 0, 0)),
        one(0, "$3\r\n1-2\r\n")
    );
    assert_eq!(sv.redis_db.last_id, 1);
    assert_eq!(sv.redis_db.last_sequence_number, 2);
    assert_eq!(
        sent(&sv.execute(RedisCommand::XADD(s("st"), s("0-0"), vec![]), 0, 0, 0)),
        one(0, "-The ID specified in XADD is equal or smaller than 1-2\r\n")
    );
}

#[test]
fn xadd_zero_id_is_refused_at_start() {
    let mut sv = server(&[0]);
    assert_eq!(
        sent(&sv.execute(RedisCommand::XADD(s("st"), s("0-0"), vec![]), 0, 0, 0)),
        one(0, "-The ID specified in XADD is equal or smaller than the target stream top item\r\n")
    );
}

#[test]
fn r_push_and_l_push_directly() {
    let mut sv = server(&[0]);
    assert_eq!(sent(&sv.r_push(0, s("k"), texts(&["a"]))), one(0, ":1\r\n"));
    assert_eq!(sent(&sv.l_push(0, s("k"), texts(&["b"]))), one(0, ":2\r\n"));
    assert_eq!(
        sent(&sv.execute(RedisCommand::LRANGE(s("k"), 0, -1), 0, 0, 0)),
        one(0, "*2\r\n$1\r\nb\r\n$1\r\na\r\n")
    );
    // a push to a string gets no reply
    sv.execute(RedisCommand::SET(s("str"), s("x"), None), 0, 0, 0);
    assert_eq!(sent(&sv.r_push(0, s("str"), texts(&["a"]))), vec![]);
}

#[test]
fn radix_node_reads_ids_and_stays_as_it_is() {
    let mut root = RadixNode {
        value: s(""),
        children: None,
        data: None,
    };
    let node = root.new();
    assert_eq!(node.value, "");
    assert!(node.children.as_ref().unwrap().is_empty());
    assert!(node.data.is_none());
    root.add(s("1526919030474-0"), s("v"));
    assert_eq!(root.value, "");
    assert!(root.children.is_none());
}

#[test]
fn can_execute_says_where_the_server_cannot_go_on() {
    let mut sv = server(&[0, 1]);
    assert!(sv.can_execute(&RedisCommand::Ping, 0));
    assert!(!sv.can_execute(&RedisCommand::Ping, 7));
    assert!(sv.can_execute(&RedisCommand::Unkown, 0));
    assert!(sv.can_execute(&RedisCommand::XADD(s("st"), s("1-2"), vec![]), 0));
    assert!(!sv.can_execute(&RedisCommand::XADD(s("st"), s("12"), vec![]), 0));
    assert!(!sv.can_execute(&RedisCommand::XADD(s("st"), s("1-x"), vec![]), 0));
    // a waiter needs a first value
    sv.execute(RedisCommand::BLPOP(s("q"), s("0")), 1, 0, 0);
    assert!(!sv.can_execute(&RedisCommand::RPush(s("q"), vec![]), 0));
    assert!(sv.can_execute(&RedisCommand::RPush(s("q"), texts(&["a"])), 0));
    assert!(sv.can_execute(&RedisCommand::RPush(s("other"), vec![]), 0));
    sv.execute(RedisCommand::RPush(s("l"), texts(&["a"])), 0, 0, 0);
    assert!(sv.can_execute(&RedisCommand::LPOP(s("l"), -1), 0));
    assert!(sv.can_execute(&RedisCommand::LRANGE(s("l"), i32::MIN, -1), 0));
    assert!(sv.can_execute(&RedisCommand::LRANGE(s("l"), 0, i32::MIN), 0));
    assert!(sv.can_execute(&RedisCommand::LRANGE(s("missing"), 0, -1), 0));
}

#[test]
fn set_leaves_an_earlier_expiry_in_place() {
    let mut sv = server(&[0]);
    sv.execute(RedisCommand::SET(s("k"), s("v"), Some(10)), 0, 100, 0);
    sv.execute(RedisCommand::SET(s("k"), s("w"), None), 0, 105, 0);
    assert_eq!(sent(&sv.execute(RedisCommand::Get(s("k")), 0, 111, 0)), one(0, "$-1\r\n"));
}

#[test]
fn get_of_a_list_gets_no_reply() {
    let mut sv = server(&[0]);
    sv.execute(RedisCommand::RPush(s("l"), texts(&["a"])), 0, 0, 0);
    assert_eq!(sent(&sv.execute(RedisCommand::Get(s("l")), 0, 0, 0)), vec![]);
    assert_eq!(sent(&sv.execute(RedisCommand::LLEN(s("missing")), 0, 0, 0)), one(0, ":0\r\n"));
}

#[test]
fn xadd_adds_to_an_entry_of_the_same_id_and_keeps_others() {
    let mut sv = server(&[0]);
    sv.execute(RedisCommand::SET(s("str"), s("x"), None), 0, 0, 0);
    // XADD to a key holding a string answers the id and leaves the string
    assert_eq!(
        sent(&sv.execute(RedisCommand::XADD(s("str"), s("5-1"), vec![]), 0, 0, 0)),
        one(0, "$3\r\n5-1\r\n")
    );
    assert_eq!(sent(&sv.execute(RedisCommand::TYPE(s("str")), 0, 0, 0)), one(0, "+string\r\n"));
}

#[test]
fn blocked_clients_are_woken_first_come_first() {
    let mut sv = server(&[1, 2, 3]);
    sv.execute(RedisCommand::BLPOP(s("q"), s("0")), 1, 0, 0);
    sv.execute(RedisCommand::BLPOP(s("q"), s("0")), 2, 0, 0);
    assert_eq!(
        sent(&sv.execute(RedisCommand::LPush(s("q"), texts(&["x"])), 3, 0, 0)),
        vec![(1, s("*2\r\n$1\r\nq\r\n$1\r\nx\r\n")), (3, s(":1\r\n"))]
    );
    assert!(sv.client(2).unwrap().blocked);
    assert_eq!(
        sent(&sv.execute(RedisCommand::RPush(s("q"), texts(&["y"])), 3, 0, 0)),
        vec![(2, s("*2\r\n$1\r\nq\r\n$1\r\ny\r\n")), (3, s(":1\r\n"))]
    );
    assert_eq!(
        sent(&sv.execute(RedisCommand::RPush(s("q"), texts(&["z"])), 3, 0, 0)),
        one(3, ":1\r\n")
    );
}

#[test]
fn unknown_command_gets_an_error() {
    let mut sv = server(&[0]);
    assert_eq!(
        sent(&sv.execute(RedisCommand::Unkown, 0, 0, 0)),
        one(0, "-ERR unknown command\r\n")
    );
}

#[test]
fn blpop_wait_ends_after_its_timeout() {
    let mut sv = server(&[1, 2]);
    sv.execute(RedisCommand::BLPOP(s("q"), s("0.5")), 1, 1000, 500);
    assert_eq!(sv.client(1).unwrap().waiting_time, Some(1500));
    assert_eq!(sv.client(1).unwrap().waiting_key, Some(s("q")));
    sv.execute(RedisCommand::BLPOP(s("r"), s("0")), 2, 1000, 0);
    assert_eq!(sv.client(2).unwrap().waiting_time, None);
    assert!(sv.client(2).unwrap().blocked);
}

#[test]
fn expired_keys_are_gone_for_every_read() {
    let mut sv = server(&[0]);
    sv.execute(RedisCommand::SET(s("k"), s("v"), Some(10)), 0, 100, 0);
    assert_eq!(sent(&sv.execute(RedisCommand::TYPE(s("k")), 0, 110, 0)), one(0, "+string\r\n"));
    assert_eq!(sent(&sv.execute(RedisCommand::TYPE(s("k")), 0, 111, 0)), one(0, "+none\r\n"));
    sv.execute(RedisCommand::SET(s("l"), s("v"), Some(10)), 0, 100, 0);
    assert_eq!(sent(&sv.execute(RedisCommand::LLEN(s("l")), 0, 200, 0)), one(0, ":0\r\n"));
    sv.execute(RedisCommand::SET(s("m"), s("v"), Some(10)), 0, 100, 0);
    assert_eq!(sent(&sv.execute(RedisCommand::LRANGE(s("m"), 0, -1), 0, 200, 0)), one(0, "*0\r\n"));
    sv.execute(RedisCommand::SET(s("n"), s("v"), Some(10)), 0, 100, 0);
    assert_eq!(sent(&sv.execute(RedisCommand::LPOP(s("n"), 1), 0, 200, 0)), one(0, "$-1\r\n"));
    sv.execute(RedisCommand::SET(s("o"), s("v"), Some(10)), 0, 100, 0);
    assert_eq!(sent(&sv.execute(RedisCommand::BLPOP(s("o"), s("0")), 0, 200, 0)), vec![]);
    assert!(sv.client(0).unwrap().blocked);
}

#[test]
fn a_woken_lpush_keeps_the_other_values_in_front() {
    let mut sv = server(&[1, 2]);
    sv.execute(RedisCommand::RPush(s("q"), texts(&["z"])), 2, 0, 0);
    sv.execute(RedisCommand::LPOP(s("q"), 1), 2, 0, 0);
    sv.execute(RedisCommand::BLPOP(s("q"), s("0")), 1, 0, 0);
    assert_eq!(
        sent(&sv.execute(RedisCommand::LPush(s("q"), texts(&["a", "b", "c"])), 2, 0, 0)),
        vec![(1, s("*2\r\n$1\r\nq\r\n$1\r\na\r\n")), (2, s(":3\r\n"))]
    );
    assert_eq!(
        sent(&sv.execute(RedisCommand::LRANGE(s("q"), 0, -1), 2, 0, 0)),
        one(2, "*2\r\n$1\r\nc\r\n$1\r\nb\r\n")
    );
}
