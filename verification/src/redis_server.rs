//! What the server does with each command: the change to the store and the
//! replies it sends, each to a client. The server's loop (reading sockets,
//! reading the clock, writing the replies) runs around these functions.
use std::collections::HashMap;
use std::collections::VecDeque;
use vstd::prelude::*;
use vstd::string::*;
use vstd::utf8::*;

use crate::list::{range_of, List};
use crate::redis_command::{pair_texts, CommandView, RedisCommand};
use crate::redis_db::{empty_db, ClientId, DbView, RedisDb};
use crate::redis_object::{DataType, ObjectView, RedisObject};
use crate::resp::{parse_resp, resp_text, texts, null_text, Resp, RespView};
use crate::str_map::StrMap;
use crate::text::{
    int_decimal, parse_in_range, parse_u128, parse_u32, push_nat_decimal, split_dash,
    split_on_dash,
};

verus! {

broadcast use vstd::std_specs::hash::group_hash_axioms;

/// What the server keeps of a client besides its connection.
pub struct ClientState {
    pub blocked: bool,
    pub waiting_key: Option<String>,
    /// While the client waits in `BLPOP`: when the wait ends, in milliseconds
    /// since the Unix epoch (`None` for a wait without end).
    pub waiting_time: Option<u128>,
}

#[verifier::ext_equal]
pub struct ClientView {
    pub blocked: bool,
    pub waiting_key: Option<Seq<char>>,
    pub waiting_time: Option<u128>,
}

impl View for ClientState {
    type V = ClientView;

    open spec fn view(&self) -> ClientView {
        ClientView {
            blocked: self.blocked,
            waiting_key: match &self.waiting_key {
                Some(k) => Some(k@),
                None => None,
            },
            waiting_time: self.waiting_time,
        }
    }
}

/// The server's state.
#[verifier::ext_equal]
pub struct ServerView {
    pub db: DbView,
    pub clients: Map<ClientId, ClientView>,
}

/// A reply: the client it goes to and its text on the wire.
pub type Sent = Seq<(ClientId, Seq<char>)>;

/// Every client that waits on a key is a client of the server.
pub open spec fn well_formed(s: ServerView) -> bool {
    forall|k: Seq<char>, i: int|
        s.db.blocked.contains_key(k) && 0 <= i < s.db.blocked[k].len() ==> s.clients.contains_key(
            #[trigger] s.db.blocked[k][i],
        )
}

pub open spec fn reply(c: ClientId, r: RespView) -> (ClientId, Seq<char>) {
    (c, resp_text(r))
}

pub open spec fn with_db(s: ServerView, db: DbView) -> ServerView {
    ServerView { db, clients: s.clients }
}

pub open spec fn with_map(s: ServerView, map: Map<Seq<char>, ObjectView>) -> ServerView {
    with_db(s, DbView { map, ..s.db })
}

// ----- SET, GET ------------------------------------------------------------

/// `SET key value [PX ttl]`: store the string; with a time to live, note when
/// it runs out (an earlier expiry stays otherwise).
pub open spec fn set_spec(
    s: ServerView,
    c: ClientId,
    k: Seq<char>,
    v: Seq<char>,
    ttl: Option<u64>,
    now: u64,
) -> (ServerView, Sent) {
    let expiry = match ttl {
        Some(t) => s.db.expiry.insert(k, (now + t) as u128),
        None => s.db.expiry,
    };
    (
        with_db(s, DbView { map: s.db.map.insert(k, ObjectView::Str(v)), expiry, ..s.db }),
        seq![reply(c, RespView::SimpleString(seq!['O', 'K']))],
    )
}

/// Whether the key's time ran out before `now`.
pub open spec fn expired(s: ServerView, k: Seq<char>, now: u64) -> bool {
    s.db.expiry.contains_key(k) && s.db.expiry[k] < now
}

/// The store after `now` for key `k`: a key whose time ran out is removed,
/// with its expiry.
pub open spec fn expire_spec(s: ServerView, k: Seq<char>, now: u64) -> ServerView {
    if s.db.map.contains_key(k) && expired(s, k, now) {
        with_db(s, DbView { map: s.db.map.remove(k), expiry: s.db.expiry.remove(k), ..s.db })
    } else {
        s
    }
}

/// `GET key`: after removing a key whose time ran out, a string is answered
/// and a missing key gets the null bulk string; a non-string gets no reply.
pub open spec fn get_spec(s: ServerView, c: ClientId, k: Seq<char>, now: u64) -> (ServerView, Sent) {
    let s1 = expire_spec(s, k, now);
    if !s1.db.map.contains_key(k) {
        (s1, seq![(c, null_text())])
    } else {
        match s1.db.map[k] {
            ObjectView::Str(v) => (s1, seq![reply(c, RespView::BulkString(v))]),
            _ => (s1, seq![]),
        }
    }
}

// ----- RPUSH, LPUSH --------------------------------------------------------

/// Whether a client waits on `k`.
pub open spec fn has_waiter(s: ServerView, k: Seq<char>) -> bool {
    s.db.blocked.contains_key(k) && s.db.blocked[k].len() > 0
}

/// The list stored under `k` (empty for a missing key or a non-list).
pub open spec fn list_at(s: ServerView, k: Seq<char>) -> Seq<Seq<char>> {
    if s.db.map.contains_key(k) {
        match s.db.map[k] {
            ObjectView::List(l) => l,
            _ => seq![],
        }
    } else {
        seq![]
    }
}

/// The list that a push builds from the list `l`.
pub open spec fn pushed(l: Seq<Seq<char>>, vals: Seq<Seq<char>>, front: bool) -> Seq<Seq<char>> {
    if front {
        vals.reverse() + l
    } else {
        l + vals
    }
}

/// A push to a key that a client waits on: the first waiter is woken with the
/// key and the first pushed value, the other values are pushed to the list
/// (a missing key gets a list only when some are left; a non-list is left as
/// it is), and the pusher is answered the list's length after the push, the
/// value handed to the waiter counted.
pub open spec fn wake_spec(
    s: ServerView,
    c: ClientId,
    k: Seq<char>,
    vals: Seq<Seq<char>>,
    front: bool,
) -> (ServerView, Sent) {
    let w = s.db.blocked[k][0];
    let l0 = list_at(s, k);
    let rest = pushed(l0, vals.drop_first(), front);
    let map = if s.db.map.contains_key(k) {
        match s.db.map[k] {
            ObjectView::List(_) => s.db.map.insert(k, ObjectView::List(rest)),
            _ => s.db.map,
        }
    } else if rest.len() > 0 {
        s.db.map.insert(k, ObjectView::List(rest))
    } else {
        s.db.map
    };
    (
        ServerView {
            db: DbView { map, blocked: s.db.blocked.insert(k, s.db.blocked[k].drop_first()), ..s.db },
            clients: s.clients.insert(
                w,
                ClientView { blocked: false, waiting_key: None, waiting_time: None },
            ),
        },
        seq![
            reply(w, RespView::Array(seq![k, vals[0]])),
            reply(c, RespView::Integer((l0.len() + vals.len()) as int)),
        ],
    )
}

/// `RPUSH` (`front == false`) and `LPUSH` (`front == true`): wake a waiter, or
/// add the values to the list (a new one for a missing key; `LPUSH` puts each
/// value in front in turn) and answer its length; no reply for a non-list.
pub open spec fn push_spec(
    s: ServerView,
    c: ClientId,
    k: Seq<char>,
    vals: Seq<Seq<char>>,
    front: bool,
) -> (ServerView, Sent) {
    if has_waiter(s, k) {
        wake_spec(s, c, k, vals, front)
    } else if !s.db.map.contains_key(k) {
        let l = pushed(seq![], vals, front);
        (
            with_map(s, s.db.map.insert(k, ObjectView::List(l))),
            seq![reply(c, RespView::Integer(l.len() as int))],
        )
    } else {
        match s.db.map[k] {
            ObjectView::List(l0) => {
                let l = pushed(l0, vals, front);
                (
                    with_map(s, s.db.map.insert(k, ObjectView::List(l))),
                    seq![reply(c, RespView::Integer(l.len() as int))],
                )
            },
            _ => (s, seq![]),
        }
    }
}

/// The pushes the server can make: a waiter needs a first value, and a list
/// keeps a length, and the pusher gets a count, that fits an `i64`.
pub open spec fn push_ok(s: ServerView, k: Seq<char>, vals: Seq<Seq<char>>) -> bool {
    if has_waiter(s, k) {
        vals.len() > 0 && list_at(s, k).len() + vals.len() <= i64::MAX
    } else if !s.db.map.contains_key(k) {
        vals.len() <= i64::MAX
    } else {
        match s.db.map[k] {
            ObjectView::List(l0) => l0.len() + vals.len() <= i64::MAX,
            _ => true,
        }
    }
}

// ----- LRANGE, LLEN, LPOP, BLPOP -------------------------------------------

/// `start` counted from the end of a list of `n` elements when negative, and
/// not before the first element.
pub open spec fn range_start(n: int, start: int) -> int {
    if start < 0 {
        if n + start > 0 {
            n + start
        } else {
            0
        }
    } else {
        start
    }
}

/// `end` counted from the end of a list of `n` elements when negative.
pub open spec fn range_end(n: int, end: int) -> int {
    if end < 0 {
        n + end
    } else {
        end
    }
}

/// `LRANGE key start end`: the elements from `start` to `end`, both counted
/// from the end when negative (an end still negative after that reaches past
/// the last element, as the index is read as an unsigned number); the empty
/// array for a missing key; no reply for a non-list.
pub open spec fn lrange_spec(s: ServerView, c: ClientId, k: Seq<char>, start: i32, end: i32) -> (
    ServerView,
    Sent,
) {
    if !s.db.map.contains_key(k) {
        (s, seq![reply(c, RespView::Array(seq![]))])
    } else {
        match s.db.map[k] {
            ObjectView::List(l) => {
                let n = (l.len() as i64) as i32;
                let st = range_start(n as int, start as int);
                let en = range_end(n as int, end as int);
                (
                    s,
                    seq![
                        reply(
                            c,
                            RespView::Array(
                                range_of(l, (st as i32) as usize as int, (en as i32) as usize as int),
                            ),
                        ),
                    ],
                )
            },
            _ => (s, seq![]),
        }
    }
}

/// The ranges the server can take: the list's count, as an `i32`, plus a
/// negative bound fits an `i32`.
pub open spec fn lrange_ok(s: ServerView, k: Seq<char>, start: i32, end: i32) -> bool {
    s.db.map.contains_key(k) ==> match s.db.map[k] {
        ObjectView::List(l) => {
            let n = (l.len() as i64) as i32;
            &&& start < 0 ==> i32::MIN <= n + start <= i32::MAX
            &&& end < 0 ==> i32::MIN <= n + end <= i32::MAX
        },
        _ => true,
    }
}

/// `LLEN key`: the list's length, `0` for a missing key, no reply for a
/// non-list.
pub open spec fn llen_spec(s: ServerView, c: ClientId, k: Seq<char>) -> (ServerView, Sent) {
    if !s.db.map.contains_key(k) {
        (s, seq![reply(c, RespView::Integer(0))])
    } else {
        match s.db.map[k] {
            ObjectView::List(l) => (s, seq![reply(c, RespView::Integer(l.len() as int))]),
            _ => (s, seq![]),
        }
    }
}

/// How many elements `LPOP` with `count` takes from a list of `n`: all of
/// them for a negative count.
pub open spec fn pop_count(n: int, count: int) -> int {
    if 0 <= count && count < n {
        count
    } else {
        n
    }
}

/// `LPOP key [count]`: take up to `count` elements from the front; answer an
/// array for more than one, the element for one, the null bulk string for
/// none or for a missing key; no reply for a non-list.
pub open spec fn lpop_spec(s: ServerView, c: ClientId, k: Seq<char>, count: i32) -> (
    ServerView,
    Sent,
) {
    if !s.db.map.contains_key(k) {
        (s, seq![(c, null_text())])
    } else {
        match s.db.map[k] {
            ObjectView::List(l) => {
                let p = pop_count(l.len() as int, count as int);
                let answer = if p > 1 {
                    reply(c, RespView::Array(l.take(p)))
                } else if p == 1 {
                    reply(c, RespView::BulkString(l[0]))
                } else {
                    (c, null_text())
                };
                (with_map(s, s.db.map.insert(k, ObjectView::List(l.skip(p)))), seq![answer])
            },
            _ => (s, seq![]),
        }
    }
}

/// The pops the server can make: a negative count counts down once per
/// element without passing `i32::MIN`.
pub open spec fn lpop_ok(s: ServerView, k: Seq<char>, count: i32) -> bool {
    s.db.map.contains_key(k) ==> match s.db.map[k] {
        ObjectView::List(l) => count < 0 ==> l.len() <= count - i32::MIN,
        _ => true,
    }
}

/// When a wait of `timeout` milliseconds from `now` ends: never for `0`; a
/// negative timeout is read as an unsigned number of milliseconds.
pub open spec fn wait_end(now: u64, timeout: i32) -> Option<u128> {
    if timeout == 0 {
        None
    } else {
        Some((now + (timeout as u64)) as u128)
    }
}

/// The client waits on `k`, behind those already waiting, until `until`.
pub open spec fn block_spec(s: ServerView, c: ClientId, k: Seq<char>, until: Option<u128>) -> (
    ServerView,
    Sent,
) {
    let queue = if s.db.blocked.contains_key(k) {
        s.db.blocked[k]
    } else {
        seq![]
    };
    (
        ServerView {
            db: DbView { blocked: s.db.blocked.insert(k, queue.push(c)), ..s.db },
            clients: s.clients.insert(
                c,
                ClientView { blocked: true, waiting_key: Some(k), waiting_time: until },
            ),
        },
        seq![],
    )
}

/// `BLPOP key timeout`: take the first element of a non-empty list and answer
/// it; wait on an empty list or a missing key until `until`; no reply for a
/// non-list.
pub open spec fn blpop_spec(s: ServerView, c: ClientId, k: Seq<char>, until: Option<u128>) -> (
    ServerView,
    Sent,
) {
    if !s.db.map.contains_key(k) {
        block_spec(s, c, k, until)
    } else {
        match s.db.map[k] {
            ObjectView::List(l) => if l.len() > 0 {
                (
                    with_map(s, s.db.map.insert(k, ObjectView::List(l.drop_first()))),
                    seq![reply(c, RespView::BulkString(l[0]))],
                )
            } else {
                block_spec(s, c, k, until)
            },
            _ => (s, seq![]),
        }
    }
}

// ----- TYPE, ECHO, PING ----------------------------------------------------

/// The name of a value's kind.
pub open spec fn kind_name(s: ServerView, k: Seq<char>) -> Seq<char> {
    if !s.db.map.contains_key(k) {
        seq!['n', 'o', 'n', 'e']
    } else {
        match s.db.map[k] {
            ObjectView::Str(_) => seq!['s', 't', 'r', 'i', 'n', 'g'],
            ObjectView::List(_) => seq!['l', 'i', 's', 't'],
            ObjectView::Stream(_) => seq!['s', 't', 'r', 'e', 'a', 'm'],
        }
    }
}

/// `TYPE key`: the name of the value's kind.
pub open spec fn type_spec(s: ServerView, c: ClientId, k: Seq<char>) -> (ServerView, Sent) {
    (s, seq![reply(c, RespView::SimpleString(kind_name(s, k)))])
}

// ----- XADD ----------------------------------------------------------------

/// The `<milliseconds>-<sequence>` parts of an entry id.
pub open spec fn id_parts(id: Seq<char>) -> Seq<Seq<u8>> {
    split_dash(encode_utf8(id))
}

/// The ids that `XADD` reads: two `-`-separated numbers at the front, a
/// `u128` and a `u32`.
pub open spec fn id_ok(id: Seq<char>) -> bool {
    &&& id_parts(id).len() >= 2
    &&& parse_in_range(id_parts(id)[0], false, 0, u128::MAX as int) is Some
    &&& parse_in_range(id_parts(id)[1], false, 0, u32::MAX as int) is Some
}

pub open spec fn id_ms(id: Seq<char>) -> int {
    parse_in_range(id_parts(id)[0], false, 0, u128::MAX as int)->0
}

pub open spec fn id_seq(id: Seq<char>) -> int {
    parse_in_range(id_parts(id)[1], false, 0, u32::MAX as int)->0
}

/// The fields of an entry after storing `pairs` in order.
pub open spec fn with_pairs(
    m: Map<Seq<char>, Seq<char>>,
    pairs: Seq<(Seq<char>, Seq<char>)>,
) -> Map<Seq<char>, Seq<char>>
    decreases pairs.len(),
{
    if pairs.len() == 0 {
        m
    } else {
        with_pairs(m, pairs.drop_last()).insert(pairs.last().0, pairs.last().1)
    }
}

pub open spec fn xadd_top_error() -> Seq<char> {
    "The ID specified in XADD is equal or smaller than the target stream top item"@
}

pub open spec fn xadd_smaller_error(last_id: u128, last_seq: u32) -> Seq<char> {
    "The ID specified in XADD is equal or smaller than "@ + int_decimal(last_id as int) + seq!['-']
        + int_decimal(last_seq as int)
}

/// `XADD key id field value ...`: an id not above the last one is refused with
/// an error; otherwise it becomes the last id, the pairs are stored (in a new
/// stream for a missing key, in the entry of that id when the stream has
/// one), and the id is answered.
pub open spec fn xadd_spec(
    s: ServerView,
    c: ClientId,
    k: Seq<char>,
    id: Seq<char>,
    pairs: Seq<(Seq<char>, Seq<char>)>,
) -> (ServerView, Sent) {
    let ms = id_ms(id);
    let sq = id_seq(id);
    if ms == s.db.last_id && sq <= s.db.last_seq {
        (s, seq![reply(c, RespView::Error(xadd_top_error()))])
    } else if ms < s.db.last_id {
        (s, seq![reply(c, RespView::Error(xadd_smaller_error(s.db.last_id, s.db.last_seq)))])
    } else {
        let map = if !s.db.map.contains_key(k) {
            s.db.map.insert(
                k,
                ObjectView::Stream(Map::empty().insert(id, with_pairs(Map::empty(), pairs))),
            )
        } else {
            match s.db.map[k] {
                ObjectView::Stream(st) => if st.contains_key(id) {
                    s.db.map.insert(k, ObjectView::Stream(st.insert(id, with_pairs(st[id], pairs))))
                } else {
                    s.db.map
                },
                _ => s.db.map,
            }
        };
        (
            with_db(s, DbView { map, last_id: ms as u128, last_seq: sq as u32, ..s.db }),
            seq![reply(c, RespView::BulkString(id))],
        )
    }
}

// ----- dispatch ------------------------------------------------------------

pub open spec fn unknown_command_error() -> Seq<char> {
    "ERR unknown command"@
}

/// What the server does with a command of client `c` at time `now`
/// (milliseconds since the Unix epoch); `timeout` is a `BLPOP` timeout in
/// milliseconds. `TYPE`, `LLEN`, `LRANGE`, `LPOP` and `BLPOP`, as `GET` does,
/// first remove their key when its time ran out.
pub open spec fn execute_spec(
    s: ServerView,
    cmd: CommandView,
    c: ClientId,
    now: u64,
    timeout: i32,
) -> (ServerView, Sent) {
    match cmd {
        CommandView::SET(k, v, ttl) => set_spec(s, c, k, v, ttl, now),
        CommandView::Get(k) => get_spec(s, c, k, now),
        CommandView::RPush(k, vals) => push_spec(s, c, k, vals, false),
        CommandView::Echo(v) => (s, seq![reply(c, RespView::BulkString(v))]),
        CommandView::Ping => (s, seq![reply(c, RespView::SimpleString(seq!['P', 'O', 'N', 'G']))]),
        CommandView::LRANGE(k, start, end) => lrange_spec(expire_spec(s, k, now), c, k, start, end),
        CommandView::LPush(k, vals) => push_spec(s, c, k, vals, true),
        CommandView::LLEN(k) => llen_spec(expire_spec(s, k, now), c, k),
        CommandView::LPOP(k, count) => lpop_spec(expire_spec(s, k, now), c, k, count),
        CommandView::BLPOP(k, _text) => blpop_spec(
            expire_spec(s, k, now),
            c,
            k,
            wait_end(now, timeout),
        ),
        CommandView::TYPE(k) => type_spec(expire_spec(s, k, now), c, k),
        CommandView::XADD(k, id, pairs) => xadd_spec(s, c, k, id, pairs),
        CommandView::Unkown => (s, seq![reply(c, RespView::Error(unknown_command_error()))]),
    }
}

/// The commands the server carries out: a command of a client of the
/// server, within the limits of each command.
pub open spec fn execute_ok(s: ServerView, cmd: CommandView, c: ClientId) -> bool {
    &&& s.clients.contains_key(c)
    &&& match cmd {
        CommandView::RPush(k, vals) => push_ok(s, k, vals),
        CommandView::LPush(k, vals) => push_ok(s, k, vals),
        CommandView::LRANGE(k, start, end) => lrange_ok(s, k, start, end),
        CommandView::LPOP(k, count) => lpop_ok(s, k, count),
        CommandView::XADD(_k, id, _pairs) => id_ok(id),
        _ => true,
    }
}

} // verus!

verus! {

/// Bytes to send to a client.
pub struct Reply {
    pub client: ClientId,
    pub bytes: Vec<u8>,
}

/// The replies as (client, bytes).
pub open spec fn sent_bytes(r: Seq<Reply>) -> Seq<(ClientId, Seq<u8>)> {
    r.map_values(|x: Reply| (x.client, x.bytes@))
}

/// The replies' texts as (client, UTF-8 bytes).
pub open spec fn on_wire(s: Sent) -> Seq<(ClientId, Seq<u8>)> {
    s.map_values(|x: (ClientId, Seq<char>)| (x.0, encode_utf8(x.1)))
}

fn one_reply(client: ClientId, value: Resp) -> (r: Vec<Reply>)
    requires
        !(value is Other),
    ensures
        sent_bytes(r@) == on_wire(seq![reply(client, value@)]),
{
    let ghost v = value@;
    let bytes = parse_resp(value);
    let r = vec![Reply { client, bytes }];
    assert(sent_bytes(r@) =~= on_wire(seq![reply(client, v)]));
    r
}

fn null_reply(client: ClientId) -> (r: Vec<Reply>)
    ensures
        sent_bytes(r@) == on_wire(seq![(client, null_text())]),
{
    proof { reveal_strlit("$-1\r\n"); }
    let text = "$-1\r\n";
    let bytes = text.as_bytes_vec();
    let r = vec![Reply { client, bytes }];
    assert(text@ =~= null_text());
    assert(sent_bytes(r@) =~= on_wire(seq![(client, null_text())]));
    r
}

fn text_of(s: &str) -> (r: String)
    ensures
        r@ == s@,
{
    s.to_owned()
}

/// The server's state besides its connections.
pub struct RedisServer {
    pub client_map: HashMap<ClientId, ClientState>,
    pub redis_db: RedisDb,
}

pub open spec fn client_views(m: Map<ClientId, ClientState>) -> Map<ClientId, ClientView> {
    m.map_values(|c: ClientState| c@)
}

impl View for RedisServer {
    type V = ServerView;

    open spec fn view(&self) -> ServerView {
        ServerView { db: self.redis_db@, clients: client_views(self.client_map@) }
    }
}

impl RedisServer {
    pub fn new() -> (r: Self)
        ensures
            r@.clients == Map::<ClientId, ClientView>::empty(),
            r@.db == empty_db(),
            well_formed(r@),
    {
        let r = RedisServer { client_map: HashMap::new(), redis_db: RedisDb::new() };
        assert(r@.clients =~= Map::<ClientId, ClientView>::empty());
        r
    }

    /// Registers a client that is not blocked.
    pub fn add_client(&mut self, client_id: ClientId)
        requires
            well_formed(old(self)@),
        ensures
            well_formed(final(self)@),
            final(self)@ == (ServerView {
                db: old(self)@.db,
                clients: old(self)@.clients.insert(
                    client_id,
                    ClientView { blocked: false, waiting_key: None, waiting_time: None },
                ),
            }),
    {
        let ghost old_map = self.client_map@;
        self.client_map.insert(
            client_id,
            ClientState { blocked: false, waiting_key: None, waiting_time: None },
        );
        assert(client_views(self.client_map@) =~= client_views(old_map).insert(
            client_id,
            ClientView { blocked: false, waiting_key: None, waiting_time: None },
        ));
        let ghost n = self@;
        assert forall|k: Seq<char>, i: int|
            n.db.blocked.contains_key(k) && 0 <= i < n.db.blocked[k].len() implies n.clients.contains_key(
            #[trigger] n.db.blocked[k][i],
        ) by {
            assert(old(self)@.clients.contains_key(old(self)@.db.blocked[k][i]));
        }
    }

    /// The state kept of a client, if it is a client of the server.
    pub fn client(&self, client_id: ClientId) -> (r: Option<&ClientState>)
        ensures
            match r {
                Some(c) => self@.clients.contains_key(client_id) && c@ == self@.clients[client_id],
                None => !self@.clients.contains_key(client_id),
            },
    {
        self.client_map.get(&client_id)
    }

    fn set_command(&mut self, client_id: ClientId, key: String, value: String, ttl: Option<u64>, now: u64) -> (r: Vec<Reply>)
        ensures
            final(self)@ == set_spec(old(self)@, client_id, key@, value@, ttl, now).0,
            sent_bytes(r@) == on_wire(set_spec(old(self)@, client_id, key@, value@, ttl, now).1),
    {
        let ghost s = self@;
        self.redis_db.map.insert(key.clone(), RedisObject { data: DataType::STRING(value) });
        match ttl {
            Some(val) => {
                let expiry_time: u128 = now as u128 + val as u128;
                self.redis_db.expiry_map.insert(key, expiry_time);
            },
            None => {},
        }
        assert(self@ =~= set_spec(s, client_id, key@, value@, ttl, now).0);
        proof {
            reveal_strlit("OK");
            assert("OK"@ =~= seq!['O', 'K']);
        }
        one_reply(client_id, Resp::SimpleString(text_of("OK")))
    }
}


impl RedisServer {
    fn no_reply() -> (r: Vec<Reply>)
        ensures
            sent_bytes(r@) == on_wire(seq![]),
    {
        let r: Vec<Reply> = Vec::new();
        assert(sent_bytes(r@) =~= on_wire(seq![]));
        r
    }

    /// Removes `key`, with its expiry, when its time ran out before `now`.
    fn expire_key(&mut self, key: &String, now: u64)
        ensures
            final(self)@ == expire_spec(old(self)@, key@, now),
    {
        let ghost s = self@;
        if !self.redis_db.map.contains_key(key.as_str()) {
            return;
        }
        let is_expired = match self.redis_db.expiry_map.get(key.as_str()) {
            Some(exp_time) => *exp_time < now as u128,
            None => false,
        };
        if is_expired {
            self.redis_db.expiry_map.remove(key.as_str());
            self.redis_db.map.remove(key.as_str());
            assert(self@ =~= expire_spec(s, key@, now));
        }
    }

    fn get_command(&mut self, client_id: ClientId, key: String, now: u64) -> (r: Vec<Reply>)
        ensures
            final(self)@ == get_spec(old(self)@, client_id, key@, now).0,
            sent_bytes(r@) == on_wire(get_spec(old(self)@, client_id, key@, now).1),
    {
        self.expire_key(&key, now);
        match self.redis_db.map.get(key.as_str()) {
            Some(obj) => match &obj.data {
                DataType::STRING(val) => one_reply(client_id, Resp::BulkString(val.clone())),
                _ => Self::no_reply(),
            },
            None => null_reply(client_id),
        }
    }

    fn echo(&self, client_id: ClientId, value: String) -> (r: Vec<Reply>)
        ensures
            sent_bytes(r@) == on_wire(seq![reply(client_id, RespView::BulkString(value@))]),
    {
        one_reply(client_id, Resp::BulkString(value))
    }

    fn ping(&self, client_id: ClientId) -> (r: Vec<Reply>)
        ensures
            sent_bytes(r@) == on_wire(
                seq![reply(client_id, RespView::SimpleString(seq!['P', 'O', 'N', 'G']))],
            ),
    {
        proof {
            reveal_strlit("PONG");
            assert("PONG"@ =~= seq!['P', 'O', 'N', 'G']);
        }
        one_reply(client_id, Resp::SimpleString(text_of("PONG")))
    }

    fn find_type(&self, client_id: ClientId, key: String) -> (r: Vec<Reply>)
        ensures
            sent_bytes(r@) == on_wire(type_spec(self@, client_id, key@).1),
    {
        proof {
            reveal_strlit("string");
            reveal_strlit("list");
            reveal_strlit("stream");
            reveal_strlit("none");
            assert("string"@ =~= seq!['s', 't', 'r', 'i', 'n', 'g']);
            assert("list"@ =~= seq!['l', 'i', 's', 't']);
            assert("stream"@ =~= seq!['s', 't', 'r', 'e', 'a', 'm']);
            assert("none"@ =~= seq!['n', 'o', 'n', 'e']);
        }
        match self.redis_db.map.get(key.as_str()) {
            Some(obj) => match &obj.data {
                DataType::STRING(_) => one_reply(client_id, Resp::SimpleString(text_of("string"))),
                DataType::LIST(_) => one_reply(client_id, Resp::SimpleString(text_of("list"))),
                DataType::STREAM(_) => one_reply(client_id, Resp::SimpleString(text_of("stream"))),
            },
            None => one_reply(client_id, Resp::SimpleString(text_of("none"))),
        }
    }

    fn list_length(&self, client_id: ClientId, key: String) -> (r: Vec<Reply>)
        ensures
            sent_bytes(r@) == on_wire(llen_spec(self@, client_id, key@).1),
    {
        match self.redis_db.map.get(key.as_str()) {
            Some(obj) => match &obj.data {
                DataType::LIST(list) => one_reply(client_id, Resp::Integer(list.count())),
                _ => Self::no_reply(),
            },
            None => one_reply(client_id, Resp::Integer(0)),
        }
    }
}


fn two_replies(a: Vec<Reply>, b: Vec<Reply>) -> (r: Vec<Reply>)
    ensures
        sent_bytes(r@) == sent_bytes(a@) + sent_bytes(b@),
{
    let mut a = a;
    let mut b = b;
    let ghost a0 = a@;
    let ghost b0 = b@;
    a.append(&mut b);
    assert(sent_bytes(a@) =~= sent_bytes(a0) + sent_bytes(b0));
    a
}

proof fn lemma_on_wire_pair(x: (ClientId, Seq<char>), y: (ClientId, Seq<char>))
    ensures
        on_wire(seq![x, y]) == on_wire(seq![x]) + on_wire(seq![y]),
{
    assert(on_wire(seq![x, y]) =~= on_wire(seq![x]) + on_wire(seq![y]));
}

/// Well-formedness speaks only of the waiting clients and the clients.
proof fn lemma_wf_same_waiters(s: ServerView, n: ServerView)
    requires
        well_formed(s),
        n.db.blocked == s.db.blocked,
        n.clients == s.clients,
    ensures
        well_formed(n),
{
    assert forall|k: Seq<char>, i: int|
        n.db.blocked.contains_key(k) && 0 <= i < n.db.blocked[k].len() implies n.clients.contains_key(
        #[trigger] n.db.blocked[k][i],
    ) by {
        assert(s.clients.contains_key(s.db.blocked[k][i]));
    }
}

impl RedisServer {
    fn lrange(&self, client_id: ClientId, key: String, start: i32, end: i32) -> (r: Vec<Reply>)
        requires
            lrange_ok(self@, key@, start, end),
        ensures
            sent_bytes(r@) == on_wire(lrange_spec(self@, client_id, key@, start, end).1),
    {
        match self.redis_db.map.get(key.as_str()) {
            Some(obj) => match &obj.data {
                DataType::LIST(list) => {
                    let count = list.count();
                    let mut s = start;
                    let mut e = end;
                    if start < 0 {
                        let t = count as i32 + start;
                        s = if t > 0 {
                            t
                        } else {
                            0
                        };
                    }
                    if end < 0 {
                        e = count as i32 + end;
                    }
                    let values = list.range(s as usize, e as usize);
                    one_reply(client_id, Resp::Array(values))
                },
                _ => Self::no_reply(),
            },
            None => {
                let values: Vec<String> = Vec::new();
                proof {
                    assert(texts(values@) =~= Seq::<Seq<char>>::empty());
                }
                one_reply(client_id, Resp::Array(values))
            },
        }
    }

    fn left_pop(&mut self, client_id: ClientId, key: String, count: i32) -> (r: Vec<Reply>)
        requires
            lpop_ok(old(self)@, key@, count),
        ensures
            final(self)@ == lpop_spec(old(self)@, client_id, key@, count).0,
            sent_bytes(r@) == on_wire(lpop_spec(old(self)@, client_id, key@, count).1),
    {
        let ghost s = self@;
        match self.redis_db.map.remove(key.as_str()) {
            Some(obj) => match obj.data {
                DataType::LIST(mut list) => {
                    let ghost l0 = list@;
                    let mut popped: Vec<String> = Vec::new();
                    let mut left = count;
                    while left != 0
                        invariant
                            count < 0 ==> l0.len() <= count - i32::MIN,
                            popped@.len() <= l0.len(),
                            list@ == l0.skip(popped@.len() as int),
                            texts(popped@) == l0.take(popped@.len() as int),
                            left == count - popped@.len(),
                            count >= 0 ==> popped@.len() <= count,
                        ensures
                            left == 0 || list@.len() == 0,
                            count < 0 ==> list@.len() == 0,
                            list@ == l0.skip(popped@.len() as int),
                            texts(popped@) == l0.take(popped@.len() as int),
                            count >= 0 ==> popped@.len() <= count,
                        decreases list@.len(),
                    {
                        let ghost before = popped@;
                        match list.pop_front() {
                            Some(node) => {
                                popped.push(node.val);
                                proof {
                                    let k = before.len() as int;
                                    assert(texts(before).len() == before.len());
                                    assert(l0.skip(k)[0] == l0[k]);
                                    assert(l0.skip(k).drop_first() =~= l0.skip(k + 1));
                                    assert(texts(popped@) =~= l0.take(k + 1));
                                }
                            },
                            None => {
                                break ;
                            },
                        }
                        left = left - 1;
                    }
                    let n = popped.len();
                    let ghost p = n as int;
                    proof {
                        assert(p == pop_count(l0.len() as int, count as int));
                        assert(texts(popped@).len() == popped@.len());
                    }
                    self.redis_db.map.insert(key, RedisObject { data: DataType::LIST(list) });
                    assert(self@ =~= lpop_spec(s, client_id, key@, count).0);
                    if n > 1 {
                        one_reply(client_id, Resp::Array(popped))
                    } else if n == 1 {
                        proof {
                            assert(texts(popped@)[0] == popped@[0]@);
                        }
                        one_reply(client_id, Resp::BulkString(popped[0].clone()))
                    } else {
                        null_reply(client_id)
                    }
                },
                other => {
                    let ghost v = (RedisObject { data: other })@;
                    self.redis_db.map.insert(key, RedisObject { data: other });
                    assert(self@ =~= s);
                    Self::no_reply()
                },
            },
            None => {
                assert(self@ =~= s);
                null_reply(client_id)
            },
        }
    }
}


impl RedisServer {
    /// The client now waits on `key`, behind those already waiting.
    fn block_client(&mut self, client_id: ClientId, key: String, until: Option<u128>)
        requires
            well_formed(old(self)@),
            old(self)@.clients.contains_key(client_id),
        ensures
            well_formed(final(self)@),
            final(self)@ == block_spec(old(self)@, client_id, key@, until).0,
    {
        let ghost s = self@;
        let ghost old_map = self.client_map@;
        let mut queue = match self.redis_db.blocked.remove(key.as_str()) {
            Some(q) => q,
            None => VecDeque::new(),
        };
        queue.push_back(client_id);
        self.redis_db.blocked.insert(key.clone(), queue);
        self.client_map.insert(
            client_id,
            ClientState { blocked: true, waiting_key: Some(key), waiting_time: until },
        );
        proof {
            assert(client_views(self.client_map@) =~= client_views(old_map).insert(
                client_id,
                ClientView { blocked: true, waiting_key: Some(key@), waiting_time: until },
            ));
            assert(self@ =~= block_spec(s, client_id, key@, until).0);
            let n = self@;
            assert forall|k: Seq<char>, i: int|
                n.db.blocked.contains_key(k) && 0 <= i < n.db.blocked[k].len() implies n.clients.contains_key(
                #[trigger] n.db.blocked[k][i],
            ) by {
                if k != key@ || i < n.db.blocked[k].len() - 1 {
                    assert(s.clients.contains_key(s.db.blocked[k][i]));
                }
            }
        }
    }

    fn blocked_pop(&mut self, client_id: ClientId, key: String, until: Option<u128>) -> (r: Vec<Reply>)
        requires
            well_formed(old(self)@),
            old(self)@.clients.contains_key(client_id),
        ensures
            well_formed(final(self)@),
            final(self)@ == blpop_spec(old(self)@, client_id, key@, until).0,
            sent_bytes(r@) == on_wire(blpop_spec(old(self)@, client_id, key@, until).1),
    {
        let ghost s = self@;
        match self.redis_db.map.remove(key.as_str()) {
            Some(obj) => match obj.data {
                DataType::LIST(mut list) => {
                    let ghost l0 = list@;
                    match list.pop_front() {
                        Some(node) => {
                            self.redis_db.map.insert(key, RedisObject { data: DataType::LIST(list) });
                            assert(self@ =~= blpop_spec(s, client_id, key@, until).0);
                            assert forall|k: Seq<char>, i: int|
                                self@.db.blocked.contains_key(k) && 0 <= i < self@.db.blocked[k].len()
                                implies self@.clients.contains_key(#[trigger] self@.db.blocked[k][i]) by {
                                assert(s.clients.contains_key(s.db.blocked[k][i]));
                            }
                            one_reply(client_id, Resp::BulkString(node.val))
                        },
                        None => {
                            self.redis_db.map.insert(key.clone(), RedisObject { data: DataType::LIST(list) });
                            assert(self@ =~= s);
                            self.block_client(client_id, key, until);
                            Self::no_reply()
                        },
                    }
                },
                other => {
                    self.redis_db.map.insert(key, RedisObject { data: other });
                    assert(self@ =~= s);
                    Self::no_reply()
                },
            },
            None => {
                assert(self@ =~= s);
                self.block_client(client_id, key, until);
                Self::no_reply()
            },
        }
    }

    /// A push to a key that a client waits on: wakes the first waiter with the
    /// key and the first value, pushes the other values, answers the pusher
    /// the list's length after the push, and reports `Some`.
    fn check_blocked(
        &mut self,
        key: &String,
        values: &Vec<String>,
        current_client_id: ClientId,
        front: bool,
    ) -> (r: Option<Vec<Reply>>)
        requires
            well_formed(old(self)@),
            has_waiter(old(self)@, key@) ==> values@.len() > 0 && list_at(old(self)@, key@).len()
                + values@.len() <= i64::MAX,
        ensures
            well_formed(final(self)@),
            r is Some <==> has_waiter(old(self)@, key@),
            r is None ==> final(self)@ == old(self)@,
            r matches Some(replies) ==> final(self)@ == wake_spec(
                old(self)@,
                current_client_id,
                key@,
                texts(values@),
                front,
            ).0 && sent_bytes(replies@) == on_wire(
                wake_spec(old(self)@, current_client_id, key@, texts(values@), front).1,
            ),
    {
        let ghost s = self@;
        let ghost old_map = self.client_map@;
        let ghost vals = texts(values@);
        match self.redis_db.blocked.remove(key.as_str()) {
            None => {
                assert(self@ =~= s);
                None
            },
            Some(mut queue) => {
                let ghost q0 = queue@;
                match queue.pop_front() {
                    None => {
                        self.redis_db.blocked.insert(key.clone(), queue);
                        assert(self@ =~= s);
                        None
                    },
                    Some(waiting) => {
                        self.redis_db.blocked.insert(key.clone(), queue);
                        self.client_map.insert(
                            waiting,
                            ClientState { blocked: false, waiting_key: None, waiting_time: None },
                        );
                        let ghost s1 = self@;
                        proof {
                            assert(vals.len() == values@.len());
                            assert(vals.drop_first() =~= vals.subrange(1, vals.len() as int));
                        }
                        let n: i64 = match self.redis_db.map.remove(key.as_str()) {
                            Some(obj) => match obj.data {
                                DataType::LIST(mut list) => {
                                    let n0 = list.count();
                                    push_from(&mut list, values, 1, front);
                                    self.redis_db.map.insert(
                                        key.clone(),
                                        RedisObject { data: DataType::LIST(list) },
                                    );
                                    n0
                                },
                                other => {
                                    self.redis_db.map.insert(key.clone(), RedisObject { data: other });
                                    assert(self@.db.map =~= s1.db.map);
                                    0
                                },
                            },
                            None => {
                                if values.len() > 1 {
                                    let mut list = List::new();
                                    push_from(&mut list, values, 1, front);
                                    self.redis_db.map.insert(
                                        key.clone(),
                                        RedisObject { data: DataType::LIST(list) },
                                    );
                                } else {
                                    assert(self@.db.map =~= s1.db.map);
                                }
                                0
                            },
                        };
                        let mut result: Vec<String> = Vec::new();
                        result.push(key.clone());
                        result.push(values[0].clone());
                        proof {
                            assert(texts(result@) =~= seq![key@, vals[0]]);
                            assert(client_views(self.client_map@) =~= client_views(old_map).insert(
                                waiting,
                                ClientView { blocked: false, waiting_key: None, waiting_time: None },
                            ));
                            assert(n == list_at(s, key@).len());
                            assert(self@ =~= wake_spec(s, current_client_id, key@, vals, front).0);
                            assert(s.clients.contains_key(q0[0]));
                            let nv = self@;
                            assert forall|k: Seq<char>, i: int|
                                nv.db.blocked.contains_key(k) && 0 <= i < nv.db.blocked[k].len()
                                implies nv.clients.contains_key(#[trigger] nv.db.blocked[k][i]) by {
                                if k == key@ {
                                    assert(nv.db.blocked[k][i] == s.db.blocked[k][i + 1]);
                                    assert(s.clients.contains_key(s.db.blocked[k][i + 1]));
                                } else {
                                    assert(s.clients.contains_key(s.db.blocked[k][i]));
                                }
                            }
                        }
                        let total = n + values.len() as i64;
                        let first = one_reply(waiting, Resp::Array(result));
                        let second = one_reply(current_client_id, Resp::Integer(total));
                        proof {
                            lemma_on_wire_pair(
                                reply(waiting, RespView::Array(seq![key@, vals[0]])),
                                reply(current_client_id, RespView::Integer(total as int)),
                            );
                        }
                        Some(two_replies(first, second))
                    },
                }
            },
        }
    }
}


/// Adds `values[from..]` to `list`, at the back or, one by one, in front.
fn push_from(list: &mut List, values: &Vec<String>, from: usize, front: bool)
    requires
        from <= values@.len(),
        old(list)@.len() + values@.len() - from <= i64::MAX,
    ensures
        final(list)@ == pushed(
            old(list)@,
            texts(values@).subrange(from as int, values@.len() as int),
            front,
        ),
{
    let ghost l0 = list@;
    let ghost vals = texts(values@);
    let mut i: usize = from;
    while i < values.len()
        invariant
            from <= i <= values@.len(),
            vals == texts(values@),
            l0.len() + values@.len() - from <= i64::MAX,
            list@ == pushed(l0, vals.subrange(from as int, i as int), front),
        decreases values@.len() - i,
    {
        proof {
            assert(vals.subrange(from as int, i as int).len() == i - from);
            if front {
                assert(vals.subrange(from as int, i as int).reverse().len() == i - from);
            }
        }
        if front {
            list.push_front(values[i].clone());
            proof {
                assert(vals.subrange(from as int, i + 1).reverse() =~= seq![vals[i as int]]
                    + vals.subrange(from as int, i as int).reverse());
                assert(list@ =~= pushed(l0, vals.subrange(from as int, i + 1), front));
            }
        } else {
            list.push_back(values[i].clone());
            proof {
                assert(list@ =~= pushed(l0, vals.subrange(from as int, i + 1), front));
            }
        }
        i = i + 1;
    }
}

impl RedisServer {
    /// `RPUSH` (`front == false`) and `LPUSH` (`front == true`).
    fn push(&mut self, client_id: ClientId, key: String, values: Vec<String>, front: bool) -> (r: Vec<Reply>)
        requires
            well_formed(old(self)@),
            push_ok(old(self)@, key@, texts(values@)),
        ensures
            well_formed(final(self)@),
            final(self)@ == push_spec(old(self)@, client_id, key@, texts(values@), front).0,
            sent_bytes(r@) == on_wire(push_spec(old(self)@, client_id, key@, texts(values@), front).1),
    {
        proof {
            assert(texts(values@).len() == values@.len());
        }
        match self.check_blocked(&key, &values, client_id, front) {
            Some(r) => {
                return r;
            },
            None => {},
        }
        let ghost s = self@;
        let ghost vals = texts(values@);
        assert(vals.subrange(0, values@.len() as int) =~= vals);
        match self.redis_db.map.remove(key.as_str()) {
            Some(obj) => match obj.data {
                DataType::LIST(mut list) => {
                    push_from(&mut list, &values, 0, front);
                    let n = list.count();
                    self.redis_db.map.insert(key, RedisObject { data: DataType::LIST(list) });
                    assert(self@ =~= push_spec(s, client_id, key@, vals, front).0);
                    one_reply(client_id, Resp::Integer(n))
                },
                other => {
                    self.redis_db.map.insert(key, RedisObject { data: other });
                    assert(self@ =~= s);
                    Self::no_reply()
                },
            },
            None => {
                let mut list = List::new();
                push_from(&mut list, &values, 0, front);
                let n = list.count();
                self.redis_db.map.insert(key, RedisObject { data: DataType::LIST(list) });
                assert(self@ =~= push_spec(s, client_id, key@, vals, front).0);
                one_reply(client_id, Resp::Integer(n))
            },
        }
    }

    /// `RPUSH key value ...`
    pub fn r_push(&mut self, client_id: ClientId, key: String, values: Vec<String>) -> (r: Vec<Reply>)
        requires
            well_formed(old(self)@),
            push_ok(old(self)@, key@, texts(values@)),
        ensures
            well_formed(final(self)@),
            final(self)@ == push_spec(old(self)@, client_id, key@, texts(values@), false).0,
            sent_bytes(r@) == on_wire(push_spec(old(self)@, client_id, key@, texts(values@), false).1),
    {
        self.push(client_id, key, values, false)
    }

    /// `LPUSH key value ...`
    pub fn l_push(&mut self, client_id: ClientId, key: String, values: Vec<String>) -> (r: Vec<Reply>)
        requires
            well_formed(old(self)@),
            push_ok(old(self)@, key@, texts(values@)),
        ensures
            well_formed(final(self)@),
            final(self)@ == push_spec(old(self)@, client_id, key@, texts(values@), true).0,
            sent_bytes(r@) == on_wire(push_spec(old(self)@, client_id, key@, texts(values@), true).1),
    {
        self.push(client_id, key, values, true)
    }
}


/// Stores the pairs in `fields`, in order.
fn add_pairs(fields: &mut StrMap<String>, pairs: &Vec<(String, String)>)
    ensures
        final(fields)@ == with_pairs(old(fields)@, pair_texts(pairs@)),
{
    let ghost m0 = fields@;
    let ghost all = pair_texts(pairs@);
    let mut i: usize = 0;
    while i < pairs.len()
        invariant
            i <= pairs@.len(),
            all == pair_texts(pairs@),
            fields@ == with_pairs(m0, all.take(i as int)),
        decreases pairs@.len() - i,
    {
        fields.insert(pairs[i].0.clone(), pairs[i].1.clone());
        proof {
            assert(all.take(i + 1).drop_last() =~= all.take(i as int));
            assert(all.take(i + 1).last() == all[i as int]);
        }
        i = i + 1;
    }
    assert(all.take(pairs@.len() as int) =~= all);
}

impl RedisServer {
    fn xadd(&mut self, client_id: ClientId, key: &String, id: &String, key_values: Vec<(String, String)>) -> (r: Vec<Reply>)
        requires
            well_formed(old(self)@),
            id_ok(id@),
        ensures
            well_formed(final(self)@),
            final(self)@ == xadd_spec(old(self)@, client_id, key@, id@, pair_texts(key_values@)).0,
            sent_bytes(r@) == on_wire(xadd_spec(old(self)@, client_id, key@, id@, pair_texts(key_values@)).1),
    {
        let ghost s = self@;
        let ghost pairs = pair_texts(key_values@);
        let id_text = id.as_str();
        let id_split_vec = split_on_dash(id_text);
        assert(id_text.spec_bytes() == encode_utf8(id@));
        let first = id_split_vec[0].as_str();
        let second = id_split_vec[1].as_str();
        assert(first.spec_bytes() == id_parts(id@)[0]);
        assert(second.spec_bytes() == id_parts(id@)[1]);
        let id_u64: u128 = match parse_u128(first) {
            Some(v) => v,
            None => {
                proof { assert(false); }
                0
            },
        };
        let sequence_number: u32 = match parse_u32(second) {
            Some(v) => v,
            None => {
                proof { assert(false); }
                0
            },
        };
        proof {
            assert(encode_utf8(id_split_vec@[0]@) == id_parts(id@)[0]);
            assert(encode_utf8(id_split_vec@[1]@) == id_parts(id@)[1]);
        }
        let existing_id = self.redis_db.last_id;
        let existing_sq_no = self.redis_db.last_sequence_number;
        if id_u64 == self.redis_db.last_id {
            if sequence_number <= self.redis_db.last_sequence_number {
                return one_reply(
                    client_id,
                    Resp::Error(text_of("The ID specified in XADD is equal or smaller than the target stream top item")),
                );
            } else {
                self.redis_db.last_sequence_number = sequence_number;
            }
        } else if id_u64 < self.redis_db.last_id {
            let mut message = text_of("The ID specified in XADD is equal or smaller than ");
            push_nat_decimal(&mut message, existing_id);
            proof { reveal_strlit("-"); }
            message.append("-");
            push_nat_decimal(&mut message, existing_sq_no as u128);
            assert(message@ =~= xadd_smaller_error(existing_id, existing_sq_no));
            return one_reply(client_id, Resp::Error(message));
        } else {
            self.redis_db.last_id = id_u64;
            self.redis_db.last_sequence_number = sequence_number;
        }
        let ghost s1 = self@;
        match self.redis_db.map.remove(key.as_str()) {
            Some(obj) => match obj.data {
                DataType::STREAM(mut stream) => {
                    let ghost st0 = stream@;
                    match stream.remove(id.as_str()) {
                        Some(mut fields) => {
                            add_pairs(&mut fields, &key_values);
                            stream.insert(id.clone(), fields);
                            assert(stream@ =~= st0.insert(id@, with_pairs(st0[id@], pairs)));
                        },
                        None => {
                            assert(stream@ =~= st0);
                        },
                    }
                    self.redis_db.map.insert(key.clone(), RedisObject { data: DataType::STREAM(stream) });
                    assert(self@.db.map =~= xadd_spec(s, client_id, key@, id@, pairs).0.db.map);
                },
                other => {
                    self.redis_db.map.insert(key.clone(), RedisObject { data: other });
                    assert(self@.db.map =~= s.db.map);
                },
            },
            None => {
                let mut fields: StrMap<String> = StrMap::new();
                add_pairs(&mut fields, &key_values);
                let mut stream: StrMap<StrMap<String>> = StrMap::new();
                stream.insert(id.clone(), fields);
                self.redis_db.map.insert(key.clone(), RedisObject { data: DataType::STREAM(stream) });
                assert(self@.db.map =~= xadd_spec(s, client_id, key@, id@, pairs).0.db.map);
            },
        }
        assert(id_u64 == id_ms(id@) && sequence_number == id_seq(id@));
        assert(self@.db.last_id == xadd_spec(s, client_id, key@, id@, pairs).0.db.last_id);
        assert(self@.db.last_seq == xadd_spec(s, client_id, key@, id@, pairs).0.db.last_seq);
        assert(self@ =~= xadd_spec(s, client_id, key@, id@, pairs).0);
        one_reply(client_id, Resp::BulkString(id.clone()))
    }
}


impl RedisServer {
    /// Carries out a command of client `client_id` at time `now`
    /// (milliseconds since the Unix epoch), and gives the replies to send.
    /// `timeout_ms` is the wait of a `BLPOP`, in milliseconds (`0`: no end).
    pub fn execute(&mut self, cmd: RedisCommand, client_id: ClientId, now: u64, timeout_ms: i32) -> (r: Vec<Reply>)
        requires
            well_formed(old(self)@),
            execute_ok(old(self)@, cmd@, client_id),
        ensures
            well_formed(final(self)@),
            final(self)@ == execute_spec(old(self)@, cmd@, client_id, now, timeout_ms).0,
            sent_bytes(r@) == on_wire(execute_spec(old(self)@, cmd@, client_id, now, timeout_ms).1),
    {
        let ghost s = self@;
        let r = match cmd {
            RedisCommand::SET(key, value, ttl) => self.set_command(client_id, key, value, ttl, now),
            RedisCommand::Get(key) => self.get_command(client_id, key, now),
            RedisCommand::RPush(key, value) => self.r_push(client_id, key, value),
            RedisCommand::Echo(value) => self.echo(client_id, value),
            RedisCommand::Ping => self.ping(client_id),
            RedisCommand::LRANGE(key, start, end) => {
                self.expire_key(&key, now);
                self.lrange(client_id, key, start, end)
            },
            RedisCommand::LPush(key, value) => self.l_push(client_id, key, value),
            RedisCommand::LLEN(key) => {
                self.expire_key(&key, now);
                self.list_length(client_id, key)
            },
            RedisCommand::LPOP(key, count) => {
                self.expire_key(&key, now);
                self.left_pop(client_id, key, count)
            },
            RedisCommand::BLPOP(key, _timeout) => {
                self.expire_key(&key, now);
                proof { lemma_wf_same_waiters(s, self@); }
                let until: Option<u128> = if timeout_ms == 0 {
                    None
                } else {
                    Some(now as u128 + (timeout_ms as u64) as u128)
                };
                self.blocked_pop(client_id, key, until)
            },
            RedisCommand::TYPE(key) => {
                self.expire_key(&key, now);
                self.find_type(client_id, key)
            },
            RedisCommand::XADD(key, id, key_values) => self.xadd(client_id, &key, &id, key_values),
            RedisCommand::Unkown => {
                proof {
                    reveal_strlit("ERR unknown command");
                }
                one_reply(client_id, Resp::Error(text_of("ERR unknown command")))
            },
        };
        proof {
            let n = self@;
            if n.db.blocked == s.db.blocked && n.clients == s.clients {
                lemma_wf_same_waiters(s, n);
            }
        }
        r
    }
}


/// Whether an entry id can be read (see `id_ok`).
pub fn id_is_readable(id: &String) -> (r: bool)
    ensures
        r == id_ok(id@),
{
    let id_text = id.as_str();
    let parts = split_on_dash(id_text);
    if parts.len() < 2 {
        return false;
    }
    let first = parts[0].as_str();
    let second = parts[1].as_str();
    assert(first.spec_bytes() == id_parts(id@)[0]);
    assert(second.spec_bytes() == id_parts(id@)[1]);
    parse_u128(first).is_some() && parse_u32(second).is_some()
}

impl RedisServer {
    fn push_allowed(&self, key: &String, values: &Vec<String>) -> (r: bool)
        ensures
            r == push_ok(self@, key@, texts(values@)),
    {
        proof {
            assert(texts(values@).len() == values@.len());
        }
        let waiter = match self.redis_db.blocked.get(key.as_str()) {
            Some(queue) => queue.len() > 0,
            None => false,
        };
        let stored: u128 = match self.redis_db.map.get(key.as_str()) {
            Some(obj) => match &obj.data {
                DataType::LIST(list) => list.count() as u128,
                _ => 0,
            },
            None => 0,
        };
        if waiter {
            return values.len() > 0 && stored + values.len() as u128 <= i64::MAX as u128;
        }
        match self.redis_db.map.get(key.as_str()) {
            None => values.len() as u128 <= i64::MAX as u128,
            Some(obj) => match &obj.data {
                DataType::LIST(list) => list.count() as u128 + values.len() as u128
                    <= i64::MAX as u128,
                _ => true,
            },
        }
    }

    fn range_allowed(&self, key: &String, start: i32, end: i32) -> (r: bool)
        ensures
            r == lrange_ok(self@, key@, start, end),
    {
        match self.redis_db.map.get(key.as_str()) {
            None => true,
            Some(obj) => match &obj.data {
                DataType::LIST(list) => {
                    let n = list.count() as i32 as i64;
                    let start_fits = start >= 0 || (i32::MIN as i64 <= n + start as i64 && n
                        + start as i64 <= i32::MAX as i64);
                    let end_fits = end >= 0 || (i32::MIN as i64 <= n + end as i64 && n + end as i64
                        <= i32::MAX as i64);
                    start_fits && end_fits
                },
                _ => true,
            },
        }
    }

    fn pop_allowed(&self, key: &String, count: i32) -> (r: bool)
        ensures
            r == lpop_ok(self@, key@, count),
    {
        match self.redis_db.map.get(key.as_str()) {
            None => true,
            Some(obj) => match &obj.data {
                DataType::LIST(list) => count >= 0 || list.count() as i128 <= count as i128
                    - i32::MIN as i128,
                _ => true,
            },
        }
    }

    /// Whether `execute` carries out `cmd` for `client_id` (see
    /// `execute_ok`); where it does not, the server cannot go on.
    pub fn can_execute(&self, cmd: &RedisCommand, client_id: ClientId) -> (r: bool)
        ensures
            r == execute_ok(self@, cmd@, client_id),
    {
        if self.client_map.get(&client_id).is_none() {
            return false;
        }
        match cmd {
            RedisCommand::RPush(key, values) => self.push_allowed(key, values),
            RedisCommand::LPush(key, values) => self.push_allowed(key, values),
            RedisCommand::LRANGE(key, start, end) => self.range_allowed(key, *start, *end),
            RedisCommand::LPOP(key, count) => self.pop_allowed(key, *count),
            RedisCommand::XADD(_key, id, _pairs) => id_is_readable(id),
            _ => true,
        }
    }
}

} // verus!
