//! Properties of the server that span several commands.
use vstd::prelude::*;

use crate::list::range_of;
use crate::redis_command::CommandView;
use crate::redis_db::{ClientId, DbView};
use crate::redis_object::ObjectView;
use crate::redis_server::{
    block_spec, blpop_spec, execute_spec, expired, get_spec, has_waiter, id_ms, id_ok, id_seq,
    kind_name, llen_spec, lpop_spec, lrange_ok, lrange_spec, push_spec, pushed, reply, set_spec,
    type_spec, with_pairs, xadd_spec, ClientView, ServerView,
};
use crate::resp::{bulk_items_text, bulk_text, crlf, null_text, resp_text, RespView};
use crate::text::nat_decimal;

verus! {

/// A string stored by `SET` without a time to live is what a later `GET`
/// answers, while no earlier time to live of the key has run out.
pub proof fn law_get_after_set(
    s: ServerView,
    c1: ClientId,
    c2: ClientId,
    k: Seq<char>,
    v: Seq<char>,
    t1: u64,
    t2: u64,
)
    requires
        !expired(s, k, t2),
    ensures
        get_spec(set_spec(s, c1, k, v, None, t1).0, c2, k, t2) == (
            set_spec(s, c1, k, v, None, t1).0,
            seq![reply(c2, RespView::BulkString(v))],
        ),
{
}

/// A string stored by `SET .. PX ttl` at `t1` is answered by a `GET` up to
/// `t1 + ttl`, and after that the key is gone and `GET` answers the null bulk
/// string.
pub proof fn law_get_after_set_with_ttl(
    s: ServerView,
    c1: ClientId,
    c2: ClientId,
    k: Seq<char>,
    v: Seq<char>,
    ttl: u64,
    t1: u64,
    t2: u64,
)
    ensures
        ({
            let s1 = set_spec(s, c1, k, v, Some(ttl), t1).0;
            let (s2, out) = get_spec(s1, c2, k, t2);
            &&& t2 <= t1 + ttl ==> s2 == s1 && out == seq![reply(c2, RespView::BulkString(v))]
            &&& t2 > t1 + ttl ==> out == seq![(c2, null_text())] && !s2.db.map.contains_key(k)
                && !s2.db.expiry.contains_key(k)
        }),
{
}

/// `RPUSH` to a new key, with no client waiting on it, makes a list of the
/// values in order: `LRANGE key 0 -1` answers them all and `LLEN` their
/// number.
pub proof fn law_range_after_rpush(
    s: ServerView,
    c1: ClientId,
    c2: ClientId,
    k: Seq<char>,
    vals: Seq<Seq<char>>,
)
    requires
        !s.db.map.contains_key(k),
        !has_waiter(s, k),
        vals.len() <= i32::MAX,
    ensures
        ({
            let s1 = push_spec(s, c1, k, vals, false).0;
            &&& s1.db.map[k] == ObjectView::List(vals)
            &&& lrange_spec(s1, c2, k, 0i32, -1i32).1 == seq![reply(c2, RespView::Array(vals))]
            &&& llen_spec(s1, c2, k).1 == seq![reply(c2, RespView::Integer(vals.len() as int))]
        }),
{
    let s1 = push_spec(s, c1, k, vals, false).0;
    assert(vals + seq![] =~= vals) by {
        assert(Seq::<Seq<char>>::empty() + vals =~= vals);
    }
    assert(s1.db.map[k] == ObjectView::List(vals)) by {
        assert(seq![] + vals =~= vals);
    }
    let n = (vals.len() as i64) as i32;
    assert(n == vals.len());
    if vals.len() > 0 {
        assert(((n - 1) as i32) as usize as int == vals.len() - 1);
        assert(vals.subrange(0, vals.len() as int) =~= vals);
    } else {
        assert(range_of(vals, 0, ((n - 1) as i32) as usize as int) =~= vals);
    }
}

/// `LPUSH` to a new key, with no client waiting on it, puts each value in
/// front in turn: `LRANGE key 0 -1` answers the values in reverse order.
pub proof fn law_range_after_lpush(
    s: ServerView,
    c1: ClientId,
    c2: ClientId,
    k: Seq<char>,
    vals: Seq<Seq<char>>,
)
    requires
        !s.db.map.contains_key(k),
        !has_waiter(s, k),
        vals.len() <= i32::MAX,
    ensures
        lrange_spec(push_spec(s, c1, k, vals, true).0, c2, k, 0i32, -1i32).1 == seq![
            reply(c2, RespView::Array(vals.reverse())),
        ],
{
    let s1 = push_spec(s, c1, k, vals, true).0;
    let r = vals.reverse();
    assert(r + seq![] =~= r);
    assert(r.len() == vals.len());
    let n = (r.len() as i64) as i32;
    if vals.len() > 0 {
        assert(((n - 1) as i32) as usize as int == r.len() - 1);
        assert(r.subrange(0, r.len() as int) =~= r);
    } else {
        assert(range_of(r, 0, ((n - 1) as i32) as usize as int) =~= r);
    }
}

/// A value pushed with `RPUSH` to a new key is what `LPOP` then takes, and the
/// list is left empty.
pub proof fn law_lpop_after_rpush(
    s: ServerView,
    c1: ClientId,
    c2: ClientId,
    k: Seq<char>,
    v: Seq<char>,
)
    requires
        !s.db.map.contains_key(k),
        !has_waiter(s, k),
    ensures
        ({
            let s1 = push_spec(s, c1, k, seq![v], false).0;
            let (s2, out) = lpop_spec(s1, c2, k, 1);
            &&& out == seq![reply(c2, RespView::BulkString(v))]
            &&& s2.db.map[k] == ObjectView::List(seq![])
        }),
{
    assert(seq![] + seq![v] =~= seq![v]);
    assert(seq![v].skip(1) =~= Seq::<Seq<char>>::empty());
}

/// A client that waits with `BLPOP` on a key with no list is woken by the next
/// push to that key: it gets the key and the first pushed value, its wait
/// ends, the other values make the list, and the pusher gets the number of
/// values pushed.
pub proof fn law_push_wakes_waiter(
    s: ServerView,
    a: ClientId,
    b: ClientId,
    k: Seq<char>,
    vals: Seq<Seq<char>>,
    front: bool,
    until: Option<u128>,
)
    requires
        !s.db.map.contains_key(k),
        !has_waiter(s, k),
        vals.len() > 0,
    ensures
        ({
            let s1 = blpop_spec(s, a, k, until).0;
            let (s2, out) = push_spec(s1, b, k, vals, front);
            &&& blpop_spec(s, a, k, until).1 == Seq::<(ClientId, Seq<char>)>::empty()
            &&& s1.clients[a].blocked && s1.clients[a].waiting_time == until
            &&& out == seq![
                reply(a, RespView::Array(seq![k, vals[0]])),
                reply(b, RespView::Integer(vals.len() as int)),
            ]
            &&& !s2.clients[a].blocked && s2.clients[a].waiting_time is None
            &&& !has_waiter(s2, k)
            &&& vals.len() > 1 ==> s2.db.map[k] == ObjectView::List(
                pushed(seq![], vals.drop_first(), front),
            )
            &&& vals.len() == 1 ==> !s2.db.map.contains_key(k)
        }),
{
    let s1 = blpop_spec(s, a, k, until).0;
    let q = if s.db.blocked.contains_key(k) {
        s.db.blocked[k]
    } else {
        seq![]
    };
    assert(q.len() == 0);
    assert(s1.db.blocked[k] == seq![a]) by {
        assert(q.push(a) =~= seq![a]);
    }
    assert(seq![a].drop_first() =~= Seq::<ClientId>::empty());
    if front {
        assert(pushed(seq![], vals.drop_first(), front).len() == vals.len() - 1);
    }
}

/// The state after client `c` pushes each value of `vals` to `k`, one push
/// per value, in order.
pub open spec fn push_each(
    s: ServerView,
    c: ClientId,
    k: Seq<char>,
    vals: Seq<Seq<char>>,
    front: bool,
) -> ServerView
    decreases vals.len(),
{
    if vals.len() == 0 {
        s
    } else {
        push_spec(push_each(s, c, k, vals.drop_last(), front), c, k, seq![vals.last()], front).0
    }
}

/// The clients waiting on `k`, first come first.
pub open spec fn queue_of(s: ServerView, k: Seq<char>) -> Seq<ClientId> {
    if s.db.blocked.contains_key(k) {
        s.db.blocked[k]
    } else {
        seq![]
    }
}

/// Clients waiting on a key are served first come, first served. On a key
/// with no element to take (no value, or an empty list), a `BLPOP` joins the
/// end of the key's queue; so when `a` and then `b` wait there behind the
/// clients `q` already waiting, the pushes of one value each that follow wake
/// `q`'s clients in order, then `a`, then `b`, each with the value of its push.
pub proof fn law_waiters_first_come_first_served(
    s: ServerView,
    a: ClientId,
    b: ClientId,
    c: ClientId,
    k: Seq<char>,
    vals: Seq<Seq<char>>,
    ua: Option<u128>,
    ub: Option<u128>,
    front: bool,
)
    requires
        s.db.map.contains_key(k) ==> s.db.map[k] == ObjectView::List(seq![]),
    ensures
        block_spec(s, a, k, ua).0.db.blocked[k] == queue_of(s, k).push(a),
        ({
            let w = queue_of(s, k).push(a).push(b);
            let s2 = blpop_spec(blpop_spec(s, a, k, ua).0, b, k, ub).0;
            &&& s2.db.blocked[k] == w
            &&& forall|i: int|
                0 <= i < vals.len() && i < w.len() ==> push_spec(
                    #[trigger] push_each(s2, c, k, vals.take(i), front),
                    c,
                    k,
                    seq![vals[i]],
                    front,
                ).1[0] == reply(w[i], RespView::Array(seq![k, vals[i]]))
        }),
{
    let q = queue_of(s, k);
    let w = q.push(a).push(b);
    let s1 = blpop_spec(s, a, k, ua).0;
    assert(s1.db.blocked[k] =~= q.push(a));
    assert(queue_of(s1, k) == q.push(a));
    let s2 = blpop_spec(s1, b, k, ub).0;
    assert(s2.db.blocked[k] =~= w);
    assert forall|i: int| 0 <= i < vals.len() && i < w.len() implies push_spec(
        #[trigger] push_each(s2, c, k, vals.take(i), front),
        c,
        k,
        seq![vals[i]],
        front,
    ).1[0] == reply(w[i], RespView::Array(seq![k, vals[i]])) by {
        lemma_push_each_serves_queue(s2, c, k, vals, front, w, i);
        let p = push_each(s2, c, k, vals.take(i), front);
        assert(p.db.blocked[k] == w.skip(i));
        assert(w.skip(i)[0] == w[i]);
        assert(has_waiter(p, k));
    }
}

/// Pushes of one value each to a key with no element serve its queue from
/// the front, and leave the key with no element.
proof fn lemma_push_each_serves_queue(
    s: ServerView,
    c: ClientId,
    k: Seq<char>,
    vals: Seq<Seq<char>>,
    front: bool,
    w: Seq<ClientId>,
    n: int,
)
    requires
        0 <= n <= vals.len(),
        n <= w.len(),
        s.db.blocked.contains_key(k),
        s.db.blocked[k] == w,
        s.db.map.contains_key(k) ==> s.db.map[k] == ObjectView::List(seq![]),
    ensures
        ({
            let t = push_each(s, c, k, vals.take(n), front);
            &&& t.db.blocked.contains_key(k)
            &&& t.db.blocked[k] == w.skip(n)
            &&& t.db.map.contains_key(k) ==> t.db.map[k] == ObjectView::List(seq![])
        }),
    decreases n,
{
    if n == 0 {
        assert(vals.take(0).len() == 0);
        assert(w.skip(0) =~= w);
    } else {
        lemma_push_each_serves_queue(s, c, k, vals, front, w, n - 1);
        assert(vals.take(n).drop_last() =~= vals.take(n - 1));
        assert(vals.take(n).last() == vals[n - 1]);
        let p = push_each(s, c, k, vals.take(n - 1), front);
        assert(has_waiter(p, k));
        assert(seq![vals[n - 1]].drop_first() =~= Seq::<Seq<char>>::empty());
        assert(pushed(seq![], Seq::<Seq<char>>::empty(), front) =~= Seq::<Seq<char>>::empty());
        assert(w.skip(n - 1).drop_first() =~= w.skip(n));
    }
}

/// `TYPE` names the kind of what `SET` and the pushes store.
pub proof fn law_type_after_store(
    s: ServerView,
    c: ClientId,
    k: Seq<char>,
    v: Seq<char>,
    vals: Seq<Seq<char>>,
    t: u64,
)
    requires
        !has_waiter(s, k),
        s.db.map.contains_key(k) ==> s.db.map[k] is List,
    ensures
        kind_name(set_spec(s, c, k, v, None, t).0, k) == seq!['s', 't', 'r', 'i', 'n', 'g'],
        kind_name(push_spec(s, c, k, vals, false).0, k) == seq!['l', 'i', 's', 't'],
        type_spec(s, c, k).1 == seq![reply(c, RespView::SimpleString(kind_name(s, k)))],
{
}

/// An `XADD` never lowers the last stream id, and one whose id is not above
/// the last one is refused with an error and changes nothing.
pub proof fn law_xadd_ids_increase(
    s: ServerView,
    c: ClientId,
    k: Seq<char>,
    id: Seq<char>,
    pairs: Seq<(Seq<char>, Seq<char>)>,
)
    requires
        id_ok(id),
    ensures
        ({
            let (s2, out) = xadd_spec(s, c, k, id, pairs);
            &&& s2.db.last_id > s.db.last_id || (s2.db.last_id == s.db.last_id
                && s2.db.last_seq >= s.db.last_seq)
            &&& (id_ms(id) < s.db.last_id || (id_ms(id) == s.db.last_id && id_seq(id)
                <= s.db.last_seq)) ==> (s2 == s && out.len() == 1 && out[0].0 == c && out[0].1[0]
                == '-')
            &&& !(id_ms(id) < s.db.last_id || (id_ms(id) == s.db.last_id && id_seq(id)
                <= s.db.last_seq)) ==> (s2.db.last_id == id_ms(id) && s2.db.last_seq == id_seq(
                id,
            ) && out == seq![reply(c, RespView::BulkString(id))])
        }),
{
}

/// `(ms1, seq1)` comes before `(ms2, seq2)` in the order of entry ids.
pub open spec fn id_before(ms1: int, seq1: int, ms2: int, seq2: int) -> bool {
    ms1 < ms2 || (ms1 == ms2 && seq1 < seq2)
}

/// The state after client `c` sends `XADD key id pairs` for each
/// `(key, id, pairs)` of `calls`, in order.
pub open spec fn xadd_run(
    s: ServerView,
    c: ClientId,
    calls: Seq<(Seq<char>, Seq<char>, Seq<(Seq<char>, Seq<char>)>)>,
) -> ServerView
    decreases calls.len(),
{
    if calls.len() == 0 {
        s
    } else {
        let (k, id, pairs) = calls.last();
        xadd_spec(xadd_run(s, c, calls.drop_last()), c, k, id, pairs).0
    }
}

/// The ids, as `(milliseconds, sequence)`, of the calls of `calls` that the
/// server accepted, that is answered with the id itself, in order.
pub open spec fn accepted_ids(
    s: ServerView,
    c: ClientId,
    calls: Seq<(Seq<char>, Seq<char>, Seq<(Seq<char>, Seq<char>)>)>,
) -> Seq<(int, int)>
    decreases calls.len(),
{
    if calls.len() == 0 {
        seq![]
    } else {
        let (k, id, pairs) = calls.last();
        let before = accepted_ids(s, c, calls.drop_last());
        if xadd_spec(xadd_run(s, c, calls.drop_last()), c, k, id, pairs).1 == seq![
            reply(c, RespView::BulkString(id)),
        ] {
            before.push((id_ms(id), id_seq(id)))
        } else {
            before
        }
    }
}

/// Over any run of `XADD` calls, the ids the server accepts strictly increase,
/// and each is above the last id the store had before the run.
pub proof fn law_xadd_run_ids_increase(
    s: ServerView,
    c: ClientId,
    calls: Seq<(Seq<char>, Seq<char>, Seq<(Seq<char>, Seq<char>)>)>,
)
    requires
        forall|i: int| 0 <= i < calls.len() ==> id_ok(#[trigger] calls[i].1),
    ensures
        ({
            let ids = accepted_ids(s, c, calls);
            &&& forall|i: int, j: int|
                0 <= i < j < ids.len() ==> id_before(
                    #[trigger] ids[i].0,
                    ids[i].1,
                    #[trigger] ids[j].0,
                    ids[j].1,
                )
            &&& forall|i: int|
                0 <= i < ids.len() ==> id_before(
                    s.db.last_id as int,
                    s.db.last_seq as int,
                    #[trigger] ids[i].0,
                    ids[i].1,
                )
        }),
    decreases calls.len(),
{
    lemma_xadd_run(s, c, calls);
}

/// The accepted ids of a run are in order, each above the store's last id
/// before the run and none above its last id after it.
proof fn lemma_xadd_run(
    s: ServerView,
    c: ClientId,
    calls: Seq<(Seq<char>, Seq<char>, Seq<(Seq<char>, Seq<char>)>)>,
)
    requires
        forall|i: int| 0 <= i < calls.len() ==> id_ok(#[trigger] calls[i].1),
    ensures
        ({
            let ids = accepted_ids(s, c, calls);
            let e = xadd_run(s, c, calls);
            &&& forall|i: int, j: int|
                0 <= i < j < ids.len() ==> id_before(
                    #[trigger] ids[i].0,
                    ids[i].1,
                    #[trigger] ids[j].0,
                    ids[j].1,
                )
            &&& forall|i: int|
                0 <= i < ids.len() ==> id_before(
                    s.db.last_id as int,
                    s.db.last_seq as int,
                    #[trigger] ids[i].0,
                    ids[i].1,
                )
            &&& forall|i: int|
                0 <= i < ids.len() ==> !id_before(
                    e.db.last_id as int,
                    e.db.last_seq as int,
                    #[trigger] ids[i].0,
                    ids[i].1,
                )
            &&& !id_before(e.db.last_id as int, e.db.last_seq as int, s.db.last_id as int, s.db.last_seq as int)
        }),
    decreases calls.len(),
{
    if calls.len() > 0 {
        let rest = calls.drop_last();
        assert forall|i: int| 0 <= i < rest.len() implies id_ok(#[trigger] rest[i].1) by {
            assert(rest[i] == calls[i]);
        }
        lemma_xadd_run(s, c, rest);
        let (k, id, pairs) = calls.last();
        assert(id_ok(calls[calls.len() - 1].1));
        let p = xadd_run(s, c, rest);
        let (e, out) = xadd_spec(p, c, k, id, pairs);
        let before = accepted_ids(s, c, rest);
        let ok = id_before(p.db.last_id as int, p.db.last_seq as int, id_ms(id), id_seq(id));
        if ok {
            assert(out == seq![reply(c, RespView::BulkString(id))]);
        } else {
            assert(e == p);
            let t = out[0].1;
            assert(t[0] == '-');
            assert(resp_text(RespView::BulkString(id))[0] == '$');
            assert(out != seq![reply(c, RespView::BulkString(id))]);
        }
    }
}

/// An array goes on the wire as its count line followed by the bulk string of
/// each item, in order.
pub proof fn law_array_text(items: Seq<Seq<char>>)
    ensures
        resp_text(RespView::Array(items)) == seq!['*'] + nat_decimal(items.len()) + crlf()
            + items.map_values(|v: Seq<char>| bulk_text(v)).flatten(),
    decreases items.len(),
{
    lemma_bulk_items_flatten(items);
}

proof fn lemma_bulk_items_flatten(items: Seq<Seq<char>>)
    ensures
        bulk_items_text(items) == items.map_values(|v: Seq<char>| bulk_text(v)).flatten(),
    decreases items.len(),
{
    let m = items.map_values(|v: Seq<char>| bulk_text(v));
    if items.len() == 0 {
        assert(m =~= Seq::<Seq<char>>::empty());
    } else {
        let d = items.drop_last();
        lemma_bulk_items_flatten(d);
        let md = d.map_values(|v: Seq<char>| bulk_text(v));
        assert(m =~= md.push(bulk_text(items.last())));
        md.lemma_flatten_push(bulk_text(items.last()));
    }
}


/// The list under `k` is `l0`: a list value, or no value and `l0` empty.
pub open spec fn holds_list(s: ServerView, k: Seq<char>, l0: Seq<Seq<char>>) -> bool {
    if s.db.map.contains_key(k) {
        s.db.map[k] == ObjectView::List(l0)
    } else {
        l0.len() == 0
    }
}

/// With no client waiting, `RPUSH` appends the values to the list `l0` in
/// order and `LPUSH` puts each in front in turn, so the list becomes
/// `vals.reverse() + l0`; either way the pusher gets the new length and
/// nothing else of the server changes.
pub proof fn law_push_onto_list(
    s: ServerView,
    c: ClientId,
    k: Seq<char>,
    vals: Seq<Seq<char>>,
    l0: Seq<Seq<char>>,
)
    requires
        !has_waiter(s, k),
        holds_list(s, k, l0),
    ensures
        push_spec(s, c, k, vals, false) == (
            ServerView {
                db: DbView { map: s.db.map.insert(k, ObjectView::List(l0 + vals)), ..s.db },
                clients: s.clients,
            },
            seq![reply(c, RespView::Integer((l0.len() + vals.len()) as int))],
        ),
        push_spec(s, c, k, vals, true) == (
            ServerView {
                db: DbView { map: s.db.map.insert(k, ObjectView::List(vals.reverse() + l0)), ..s.db },
                clients: s.clients,
            },
            seq![reply(c, RespView::Integer((l0.len() + vals.len()) as int))],
        ),
{
    if !s.db.map.contains_key(k) {
        assert(l0 =~= Seq::<Seq<char>>::empty());
        assert(l0 + vals =~= seq![] + vals);
        assert(vals.reverse() + l0 =~= vals.reverse() + seq![]);
    }
    assert(vals.reverse().len() == vals.len());
}

/// A push to a key that clients wait on wakes the first of them with the key
/// and the first value, keeps the others waiting in order, adds the other
/// values to the list `l0` as the push would (appended, or each put in front),
/// and answers the pusher the length `l0` plus all values.
pub proof fn law_push_wakes_first_waiter(
    s: ServerView,
    c: ClientId,
    k: Seq<char>,
    vals: Seq<Seq<char>>,
    l0: Seq<Seq<char>>,
    front: bool,
)
    requires
        has_waiter(s, k),
        vals.len() > 0,
        holds_list(s, k, l0),
    ensures
        ({
            let w = s.db.blocked[k][0];
            let rest = vals.subrange(1, vals.len() as int);
            let l = if front {
                rest.reverse() + l0
            } else {
                l0 + rest
            };
            let (s2, out) = push_spec(s, c, k, vals, front);
            &&& out == seq![
                reply(w, RespView::Array(seq![k, vals[0]])),
                reply(c, RespView::Integer((l0.len() + vals.len()) as int)),
            ]
            &&& s2.db.blocked == s.db.blocked.insert(k, s.db.blocked[k].subrange(1, s.db.blocked[k].len() as int))
            &&& s2.clients == s.clients.insert(
                w,
                ClientView { blocked: false, waiting_key: None, waiting_time: None },
            )
            &&& (s.db.map.contains_key(k) || vals.len() > 1) ==> s2.db.map == s.db.map.insert(
                k,
                ObjectView::List(l),
            )
            &&& (!s.db.map.contains_key(k) && vals.len() == 1) ==> s2.db.map == s.db.map
            &&& s2.db.expiry == s.db.expiry
            &&& s2.db.last_id == s.db.last_id && s2.db.last_seq == s.db.last_seq
        }),
{
    let rest = vals.subrange(1, vals.len() as int);
    assert(vals.drop_first() =~= rest);
    let q = s.db.blocked[k];
    assert(q.drop_first() =~= q.subrange(1, q.len() as int));
    if !s.db.map.contains_key(k) {
        assert(l0 =~= Seq::<Seq<char>>::empty());
        assert(l0 + rest =~= seq![] + rest);
        assert(rest.reverse() + l0 =~= rest.reverse() + seq![]);
    }
    assert(rest.reverse().len() == rest.len());
}

/// `BLPOP` on a non-empty list answers its first element at once and leaves
/// the rest of the list; nothing else of the server changes.
pub proof fn law_blpop_takes_first(
    s: ServerView,
    c: ClientId,
    k: Seq<char>,
    l: Seq<Seq<char>>,
    until: Option<u128>,
)
    requires
        s.db.map.contains_key(k),
        s.db.map[k] == ObjectView::List(l),
        l.len() > 0,
    ensures
        blpop_spec(s, c, k, until) == (
            ServerView {
                db: DbView {
                    map: s.db.map.insert(k, ObjectView::List(l.subrange(1, l.len() as int))),
                    ..s.db
                },
                clients: s.clients,
            },
            seq![reply(c, RespView::BulkString(l[0]))],
        ),
{
    assert(l.drop_first() =~= l.subrange(1, l.len() as int));
}

/// `LPOP key count` on the list `l` takes its first `p` elements, `p` being
/// `count` when `0 <= count < |l|` and `|l|` otherwise, and leaves the rest;
/// it answers them as an array when `p > 1`, the element when `p == 1`, and
/// the null bulk string when `p == 0`.
pub proof fn law_lpop_takes_from_front(
    s: ServerView,
    c: ClientId,
    k: Seq<char>,
    l: Seq<Seq<char>>,
    count: i32,
)
    requires
        s.db.map.contains_key(k),
        s.db.map[k] == ObjectView::List(l),
    ensures
        ({
            let p: int = if 0 <= count < l.len() {
                count as int
            } else {
                l.len() as int
            };
            let (s2, out) = lpop_spec(s, c, k, count);
            &&& s2 == ServerView {
                db: DbView {
                    map: s.db.map.insert(k, ObjectView::List(l.subrange(p, l.len() as int))),
                    ..s.db
                },
                clients: s.clients,
            }
            &&& p > 1 ==> out == seq![reply(c, RespView::Array(l.subrange(0, p)))]
            &&& p == 1 ==> out == seq![reply(c, RespView::BulkString(l[0]))]
            &&& p == 0 ==> out == seq![(c, null_text())]
        }),
{
    let p: int = if 0 <= count < l.len() {
        count as int
    } else {
        l.len() as int
    };
    assert(l.skip(p) =~= l.subrange(p, l.len() as int));
    assert(l.take(p) =~= l.subrange(0, p));
}

/// `LRANGE key start end` on the list `l` of `n` elements answers the
/// elements from position `st` through position `en`, both included, where a
/// negative `start` counts from the end (and not before the first element)
/// and a negative `end` counts from the end; positions past the last element
/// are left out. (An `end` so negative that it falls before the first
/// element is read by the server as an unsigned number, and is left aside.)
pub proof fn law_lrange_window(
    s: ServerView,
    c: ClientId,
    k: Seq<char>,
    l: Seq<Seq<char>>,
    start: i32,
    end: i32,
)
    requires
        s.db.map.contains_key(k),
        s.db.map[k] == ObjectView::List(l),
        l.len() <= i32::MAX,
        end < 0 ==> l.len() + end >= 0,
    ensures
        ({
            let n = l.len() as int;
            let st: int = if start >= 0 {
                start as int
            } else if n + start > 0 {
                n + start
            } else {
                0
            };
            let en: int = if end >= 0 {
                end as int
            } else {
                n + end
            };
            let hi: int = if en + 1 < n {
                en + 1
            } else {
                n
            };
            &&& lrange_ok(s, k, start, end)
            &&& lrange_spec(s, c, k, start, end) == (
                s,
                seq![
                    reply(
                        c,
                        RespView::Array(
                            if st < hi {
                                l.subrange(st, hi)
                            } else {
                                seq![]
                            },
                        ),
                    ),
                ],
            )
        }),
{
    let n = l.len() as int;
    assert(((l.len() as i64) as i32) as int == n);
}

/// The fields of an entry `e` made by storing `pairs`, in order, over the
/// fields `m`: a field is there when it was in `m` or some pair names it; a
/// field that pairs name has the value of the last such pair; the other
/// fields keep their values.
pub open spec fn stores_pairs(
    e: Map<Seq<char>, Seq<char>>,
    m: Map<Seq<char>, Seq<char>>,
    pairs: Seq<(Seq<char>, Seq<char>)>,
) -> bool {
    &&& forall|f: Seq<char>|
        #[trigger] e.contains_key(f) <==> (m.contains_key(f) || exists|j: int|
            0 <= j < pairs.len() && pairs[j].0 == f)
    &&& forall|j: int|
        0 <= j < pairs.len() && (forall|j2: int| j < j2 < pairs.len() ==> pairs[j2].0 != pairs[j].0)
            ==> e[#[trigger] pairs[j].0] == pairs[j].1
    &&& forall|f: Seq<char>|
        m.contains_key(f) && (forall|j: int| 0 <= j < pairs.len() ==> pairs[j].0 != f) ==> e[f]
            == #[trigger] m[f]
}

proof fn lemma_with_pairs(m: Map<Seq<char>, Seq<char>>, pairs: Seq<(Seq<char>, Seq<char>)>)
    ensures
        stores_pairs(with_pairs(m, pairs), m, pairs),
    decreases pairs.len(),
{
    if pairs.len() > 0 {
        let init = pairs.drop_last();
        let last = pairs.last();
        let n = pairs.len() - 1;
        lemma_with_pairs(m, init);
        let e0 = with_pairs(m, init);
        let e = with_pairs(m, pairs);
        assert(e == e0.insert(last.0, last.1));
        assert forall|f: Seq<char>|
            #[trigger] e.contains_key(f) <==> (m.contains_key(f) || exists|j: int|
                0 <= j < pairs.len() && pairs[j].0 == f) by {
            if e0.contains_key(f) && !m.contains_key(f) {
                let j = choose|j: int| 0 <= j < init.len() && init[j].0 == f;
                assert(pairs[j] == init[j]);
            }
            if exists|j: int| 0 <= j < pairs.len() && pairs[j].0 == f {
                let j = choose|j: int| 0 <= j < pairs.len() && pairs[j].0 == f;
                if j < n {
                    assert(init[j] == pairs[j]);
                }
            }
        }
        assert forall|j: int|
            0 <= j < pairs.len() && (forall|j2: int| j < j2 < pairs.len() ==> pairs[j2].0
                != pairs[j].0) implies e[#[trigger] pairs[j].0] == pairs[j].1 by {
            if j < n {
                assert(pairs[n].0 != pairs[j].0);
                assert(init[j] == pairs[j]);
                assert forall|j2: int| j < j2 < init.len() implies init[j2].0 != init[j].0 by {
                    assert(init[j2] == pairs[j2]);
                }
            }
        }
        assert forall|f: Seq<char>|
            m.contains_key(f) && (forall|j: int| 0 <= j < pairs.len() ==> pairs[j].0 != f) implies e[f]
            == #[trigger] m[f] by {
            assert(pairs[n].0 != f);
            assert forall|j: int| 0 <= j < init.len() implies init[j].0 != f by {
                assert(init[j] == pairs[j]);
            }
        }
    }
}

/// The entries of a stream value (none for another value).
pub open spec fn entries_of(o: ObjectView) -> Map<Seq<char>, Map<Seq<char>, Seq<char>>> {
    match o {
        ObjectView::Stream(st) => st,
        _ => Map::empty(),
    }
}

/// An `XADD` whose id is above the last one answers the id, makes it the last
/// id, and stores its field/value pairs: under a missing key, a new stream
/// with one entry, the id, holding the pairs' fields; under a stream that has
/// an entry of that id, those fields added to the entry. Other keys and the
/// other entries stay as they are.
pub proof fn law_xadd_stores_pairs(
    s: ServerView,
    c: ClientId,
    k: Seq<char>,
    id: Seq<char>,
    pairs: Seq<(Seq<char>, Seq<char>)>,
)
    requires
        id_ok(id),
        id_before(s.db.last_id as int, s.db.last_seq as int, id_ms(id), id_seq(id)),
    ensures
        ({
            let (s2, out) = xadd_spec(s, c, k, id, pairs);
            &&& out == seq![reply(c, RespView::BulkString(id))]
            &&& s2.db.last_id == id_ms(id) && s2.db.last_seq == id_seq(id)
            &&& s2.db.map.remove(k) == s.db.map.remove(k)
            &&& s2.db.expiry == s.db.expiry && s2.db.blocked == s.db.blocked
            &&& s2.clients == s.clients
            &&& !s.db.map.contains_key(k) ==> {
                &&& s2.db.map.contains_key(k) && s2.db.map[k] is Stream
                &&& entries_of(s2.db.map[k]).dom() == set![id]
                &&& stores_pairs(entries_of(s2.db.map[k])[id], Map::empty(), pairs)
            }
            &&& (s.db.map.contains_key(k) && s.db.map[k] is Stream && entries_of(
                s.db.map[k],
            ).contains_key(id)) ==> {
                let st0 = entries_of(s.db.map[k]);
                let st = entries_of(s2.db.map[k]);
                &&& s2.db.map.contains_key(k) && s2.db.map[k] is Stream
                &&& st.remove(id) == st0.remove(id) && st.contains_key(id)
                &&& stores_pairs(st[id], st0[id], pairs)
            }
        }),
{
    let (s2, out) = xadd_spec(s, c, k, id, pairs);
    lemma_with_pairs(Map::empty(), pairs);
    assert(s2.db.map.remove(k) =~= s.db.map.remove(k));
    if !s.db.map.contains_key(k) {
        let st = Map::<Seq<char>, Map<Seq<char>, Seq<char>>>::empty().insert(
            id,
            with_pairs(Map::empty(), pairs),
        );
        assert(st.dom() =~= set![id]);
    } else {
        match s.db.map[k] {
            ObjectView::Stream(st0) => {
                if st0.contains_key(id) {
                    lemma_with_pairs(st0[id], pairs);
                    let st = st0.insert(id, with_pairs(st0[id], pairs));
                    assert(st.remove(id) =~= st0.remove(id));
                }
            },
            _ => {},
        }
    }
}


/// `SET key value [PX ttl]` at `now` stores the string under the key, answers
/// `+OK`, and, with a time to live, makes the key expire after `now + ttl`;
/// without one the key's expiry is left as it was.
pub proof fn law_set_stores(
    s: ServerView,
    c: ClientId,
    k: Seq<char>,
    v: Seq<char>,
    ttl: Option<u64>,
    now: u64,
)
    ensures
        ({
            let (s2, out) = set_spec(s, c, k, v, ttl, now);
            &&& out == seq![(c, seq!['+', 'O', 'K', '\r', '\n'])]
            &&& s2.db.map == s.db.map.insert(k, ObjectView::Str(v))
            &&& ttl matches Some(t) ==> s2.db.expiry == s.db.expiry.insert(k, (now + t) as u128)
            &&& ttl is None ==> s2.db.expiry == s.db.expiry
            &&& s2.db.blocked == s.db.blocked && s2.clients == s.clients
            &&& s2.db.last_id == s.db.last_id && s2.db.last_seq == s.db.last_seq
        }),
{
    assert(resp_text(RespView::SimpleString(seq!['O', 'K'])) =~= seq!['+', 'O', 'K', '\r', '\n']);
}

/// A key with no value: `GET` and `LPOP` answer the null bulk string, `LLEN`
/// answers `0`, `LRANGE` the empty array and `TYPE` `none`, and none of them
/// changes the server.
pub proof fn law_reads_of_missing_key(
    s: ServerView,
    c: ClientId,
    k: Seq<char>,
    now: u64,
    count: i32,
    start: i32,
    end: i32,
)
    requires
        !s.db.map.contains_key(k),
    ensures
        get_spec(s, c, k, now) == (s, seq![(c, seq!['$', '-', '1', '\r', '\n'])]),
        lpop_spec(s, c, k, count) == (s, seq![(c, seq!['$', '-', '1', '\r', '\n'])]),
        llen_spec(s, c, k) == (s, seq![(c, seq![':', '0', '\r', '\n'])]),
        lrange_spec(s, c, k, start, end) == (s, seq![(c, seq!['*', '0', '\r', '\n'])]),
        type_spec(s, c, k) == (s, seq![(c, seq!['+', 'n', 'o', 'n', 'e', '\r', '\n'])]),
{
    assert(resp_text(RespView::Integer(0)) =~= seq![':', '0', '\r', '\n']);
    assert(resp_text(RespView::Array(seq![])) =~= seq!['*', '0', '\r', '\n']);
    assert(resp_text(RespView::SimpleString(seq!['n', 'o', 'n', 'e'])) =~= seq![
        '+',
        'n',
        'o',
        'n',
        'e',
        '\r',
        '\n',
    ]);
}

/// `LLEN` on the list `l` answers its length and changes nothing.
pub proof fn law_llen_counts(s: ServerView, c: ClientId, k: Seq<char>, l: Seq<Seq<char>>)
    requires
        s.db.map.contains_key(k),
        s.db.map[k] == ObjectView::List(l),
    ensures
        llen_spec(s, c, k) == (s, seq![reply(c, RespView::Integer(l.len() as int))]),
{
}

/// `PING` answers `+PONG`, `ECHO` answers its message as a bulk string, and a
/// command the server does not know answers `-ERR unknown command`; none of
/// them changes the server.
pub proof fn law_execute_answers(s: ServerView, c: ClientId, m: Seq<char>, now: u64, timeout: i32)
    ensures
        execute_spec(s, CommandView::Ping, c, now, timeout) == (
            s,
            seq![(c, seq!['+', 'P', 'O', 'N', 'G', '\r', '\n'])],
        ),
        execute_spec(s, CommandView::Echo(m), c, now, timeout) == (
            s,
            seq![(c, bulk_text(m))],
        ),
        execute_spec(s, CommandView::Unkown, c, now, timeout) == (
            s,
            seq![(c, seq!['-'] + "ERR unknown command"@ + seq!['\r', '\n'])],
        ),
{
    assert(resp_text(RespView::SimpleString(seq!['P', 'O', 'N', 'G'])) =~= seq![
        '+',
        'P',
        'O',
        'N',
        'G',
        '\r',
        '\n',
    ]);
}

/// `RPUSH` and `LPUSH` as commands: with no client waiting, the list `l0`
/// under the key becomes `l0 + vals` and `vals.reverse() + l0`, and the
/// pusher gets the new length.
pub proof fn law_execute_pushes(
    s: ServerView,
    c: ClientId,
    k: Seq<char>,
    vals: Seq<Seq<char>>,
    l0: Seq<Seq<char>>,
    now: u64,
    timeout: i32,
)
    requires
        !has_waiter(s, k),
        holds_list(s, k, l0),
    ensures
        ({
            let (s2, out) = execute_spec(s, CommandView::RPush(k, vals), c, now, timeout);
            &&& s2.db.map == s.db.map.insert(k, ObjectView::List(l0 + vals))
            &&& out == seq![reply(c, RespView::Integer((l0.len() + vals.len()) as int))]
        }),
        ({
            let (s2, out) = execute_spec(s, CommandView::LPush(k, vals), c, now, timeout);
            &&& s2.db.map == s.db.map.insert(k, ObjectView::List(vals.reverse() + l0))
            &&& out == seq![reply(c, RespView::Integer((l0.len() + vals.len()) as int))]
        }),
{
    law_push_onto_list(s, c, k, vals, l0);
}

/// `BLPOP key` with a timeout of `t` milliseconds at `now`, on a key with no
/// element to take, sends nothing and makes the client wait on the key at the
/// end of its queue: without end for `t == 0`, else until `now + t` (a
/// negative `t` read as an unsigned number).
pub proof fn law_blpop_waits_until(
    s: ServerView,
    c: ClientId,
    k: Seq<char>,
    text: Seq<char>,
    now: u64,
    t: i32,
)
    requires
        s.db.map.contains_key(k) ==> s.db.map[k] == ObjectView::List(seq![]) && !expired(s, k, now),
    ensures
        ({
            let (s2, out) = execute_spec(s, CommandView::BLPOP(k, text), c, now, t);
            &&& out.len() == 0
            &&& s2.clients[c] == (ClientView {
                blocked: true,
                waiting_key: Some(k),
                waiting_time: if t == 0 {
                    None
                } else {
                    Some((now + (t as u64)) as u128)
                },
            })
            &&& s2.db.blocked[k] == queue_of(s, k).push(c)
            &&& s2.db.map == s.db.map
        }),
{
}

/// A key whose time ran out is gone for every read: `GET` and `LPOP` answer
/// the null bulk string, `LLEN` `0`, `LRANGE` the empty array and `TYPE`
/// `none`, and the key and its expiry are removed.
pub proof fn law_reads_after_expiry(
    s: ServerView,
    c: ClientId,
    k: Seq<char>,
    now: u64,
    count: i32,
    start: i32,
    end: i32,
    timeout: i32,
)
    requires
        s.db.map.contains_key(k),
        expired(s, k, now),
    ensures
        ({
            let gone = |x: ServerView| !x.db.map.contains_key(k) && !x.db.expiry.contains_key(k);
            &&& execute_spec(s, CommandView::Get(k), c, now, timeout).1 == seq![
                (c, seq!['$', '-', '1', '\r', '\n']),
            ]
            &&& execute_spec(s, CommandView::LPOP(k, count), c, now, timeout).1 == seq![
                (c, seq!['$', '-', '1', '\r', '\n']),
            ]
            &&& execute_spec(s, CommandView::LLEN(k), c, now, timeout).1 == seq![
                (c, seq![':', '0', '\r', '\n']),
            ]
            &&& execute_spec(s, CommandView::LRANGE(k, start, end), c, now, timeout).1 == seq![
                (c, seq!['*', '0', '\r', '\n']),
            ]
            &&& execute_spec(s, CommandView::TYPE(k), c, now, timeout).1 == seq![
                (c, seq!['+', 'n', 'o', 'n', 'e', '\r', '\n']),
            ]
            &&& gone(execute_spec(s, CommandView::Get(k), c, now, timeout).0)
            &&& gone(execute_spec(s, CommandView::LLEN(k), c, now, timeout).0)
            &&& gone(execute_spec(s, CommandView::TYPE(k), c, now, timeout).0)
        }),
{
    let s1 = crate::redis_server::expire_spec(s, k, now);
    law_reads_of_missing_key(s1, c, k, now, count, start, end);
}

} // verus!
