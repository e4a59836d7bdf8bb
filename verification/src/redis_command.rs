//! The commands the server understands, and how they are read from the
//! strings of a client's RESP array.
use vstd::prelude::*;
use vstd::string::*;
use vstd::utf8::*;

use crate::resp::{
    array_lines, law_array_round_trip, lemma_array_lines_no_crlf, lemma_array_lines_shape,
    law_decimal_reads_back, length_line, message_parses, no_crlf,
    parse_message, parsed_message, resp_text, texts, Resp, RespView,
};
use crate::text::{int_decimal, nat_decimal};
use crate::text::{parse_i32, parse_in_range, parse_u64, push_nat_decimal, same_text};

verus! {

/// A command of a client. `BLPOP` carries its timeout as the client wrote it
/// (seconds, possibly fractional); the server's loop turns it into a deadline.
#[derive(Debug)]
pub enum RedisCommand {
    SET(String, String, Option<u64>),
    Get(String),
    Ping,
    RPush(String, Vec<String>),
    Echo(String),
    Unkown,
    LRANGE(String, i32, i32),
    LPush(String, Vec<String>),
    LLEN(String),
    LPOP(String, i32),
    BLPOP(String, String),
    TYPE(String),
    XADD(String, String, Vec<(String, String)>),
}

/// A command with its texts as character sequences.
pub enum CommandView {
    SET(Seq<char>, Seq<char>, Option<u64>),
    Get(Seq<char>),
    Ping,
    RPush(Seq<char>, Seq<Seq<char>>),
    Echo(Seq<char>),
    Unkown,
    LRANGE(Seq<char>, i32, i32),
    LPush(Seq<char>, Seq<Seq<char>>),
    LLEN(Seq<char>),
    LPOP(Seq<char>, i32),
    BLPOP(Seq<char>, Seq<char>),
    TYPE(Seq<char>),
    XADD(Seq<char>, Seq<char>, Seq<(Seq<char>, Seq<char>)>),
}

/// The characters of each pair of strings.
pub open spec fn pair_texts(v: Seq<(String, String)>) -> Seq<(Seq<char>, Seq<char>)> {
    v.map_values(|p: (String, String)| (p.0@, p.1@))
}

impl View for RedisCommand {
    type V = CommandView;

    open spec fn view(&self) -> CommandView {
        match self {
            RedisCommand::SET(k, v, t) => CommandView::SET(k@, v@, *t),
            RedisCommand::Get(k) => CommandView::Get(k@),
            RedisCommand::Ping => CommandView::Ping,
            RedisCommand::RPush(k, v) => CommandView::RPush(k@, texts(v@)),
            RedisCommand::Echo(m) => CommandView::Echo(m@),
            RedisCommand::Unkown => CommandView::Unkown,
            RedisCommand::LRANGE(k, s, e) => CommandView::LRANGE(k@, *s, *e),
            RedisCommand::LPush(k, v) => CommandView::LPush(k@, texts(v@)),
            RedisCommand::LLEN(k) => CommandView::LLEN(k@),
            RedisCommand::LPOP(k, c) => CommandView::LPOP(k@, *c),
            RedisCommand::BLPOP(k, t) => CommandView::BLPOP(k@, t@),
            RedisCommand::TYPE(k) => CommandView::TYPE(k@),
            RedisCommand::XADD(k, id, kv) => CommandView::XADD(k@, id@, pair_texts(kv@)),
        }
    }
}

pub open spec fn w_ping() -> Seq<char> {
    seq!['P', 'I', 'N', 'G']
}

pub open spec fn w_get() -> Seq<char> {
    seq!['G', 'E', 'T']
}

pub open spec fn w_set() -> Seq<char> {
    seq!['S', 'E', 'T']
}

pub open spec fn w_px() -> Seq<char> {
    seq!['P', 'X']
}

pub open spec fn w_llen() -> Seq<char> {
    seq!['L', 'L', 'E', 'N']
}

pub open spec fn w_echo() -> Seq<char> {
    seq!['E', 'C', 'H', 'O']
}

pub open spec fn w_lpop() -> Seq<char> {
    seq!['L', 'P', 'O', 'P']
}

pub open spec fn w_blpop() -> Seq<char> {
    seq!['B', 'L', 'P', 'O', 'P']
}

pub open spec fn w_rpush() -> Seq<char> {
    seq!['R', 'P', 'U', 'S', 'H']
}

pub open spec fn w_lpush() -> Seq<char> {
    seq!['L', 'P', 'U', 'S', 'H']
}

pub open spec fn w_xadd() -> Seq<char> {
    seq!['X', 'A', 'D', 'D']
}

pub open spec fn w_type() -> Seq<char> {
    seq!['T', 'Y', 'P', 'E']
}


pub open spec fn w_lrange() -> Seq<char> {
    seq!['L', 'R', 'A', 'N', 'G', 'E']
}

/// Whether a command array is what `parse_message` makes of a RESP array:
/// `[count, $len, word, $len, word, ...]`, with `count` the number of words in
/// decimal and each `$len` the byte length of the word after it.
pub open spec fn has_count(arr: Seq<Seq<char>>) -> bool {
    &&& arr.len() % 2 == 1
    &&& arr[0] == nat_decimal(((arr.len() - 1) / 2) as nat)
    &&& forall|i: int|
        0 <= i < (arr.len() - 1) / 2 ==> #[trigger] arr[2 * i + 1] == length_line(arr[2 * i + 2])
}

/// Where the first word of a command array stands: after the count and the
/// first `$<length>` line, or after the first `$<length>` line alone.
pub open spec fn first_word(arr: Seq<Seq<char>>) -> int {
    if has_count(arr) {
        2
    } else {
        1
    }
}

/// The number of words in a command array: one per `$<length>` line.
pub open spec fn word_count(arr: Seq<Seq<char>>) -> nat {
    if has_count(arr) {
        ((arr.len() - 1) / 2) as nat
    } else {
        (arr.len() / 2) as nat
    }
}

/// The strings of a command array that name the command and its arguments:
/// each word follows its `$<length>` line, so the words stand at positions
/// 1, 3, 5, ... or, after a leading count, at 2, 4, 6, ...
pub open spec fn command_words(arr: Seq<Seq<char>>) -> Seq<Seq<char>> {
    Seq::new(word_count(arr), |i: int| arr[2 * i + first_word(arr)])
}

/// The field/value pairs of an `XADD` whose words are `a`: of the words after
/// the id, those at odd positions, taken two by two.
pub open spec fn xadd_pairs(a: Seq<Seq<char>>) -> Seq<(Seq<char>, Seq<char>)> {
    let picked = Seq::new(((a.len() - 3) / 2) as nat, |i: int| a[3 + 2 * i + 1]);
    Seq::new((picked.len() / 2) as nat, |j: int| (picked[2 * j], picked[2 * j + 1]))
}

/// The number that `parse::<u64>()` reads from a text.
pub open spec fn text_u64(t: Seq<char>) -> Option<int> {
    parse_in_range(encode_utf8(t), false, 0, u64::MAX as int)
}

/// The number that `parse::<i32>()` reads from a text.
pub open spec fn text_i32(t: Seq<char>) -> Option<int> {
    parse_in_range(encode_utf8(t), true, i32::MIN as int, i32::MAX as int)
}

/// The words that `array_to_command` reads: a `SET .. PX` time in
/// milliseconds that is a `u64`, an `LPOP` count that is an `i32`, and an
/// `XADD` whose picked field/value words pair up. (An `LRANGE` whose bounds
/// are no `i32`s names no command.)
pub open spec fn words_ok(a: Seq<Seq<char>>) -> bool {
    &&& (a.len() == 5 && a[0] == w_set() && a[3] == w_px()) ==> text_u64(a[4]) is Some
    &&& (a.len() == 3 && a[0] == w_lpop()) ==> text_i32(a[2]) is Some
    &&& (a.len() >= 3 && a[0] == w_xadd()) ==> ((a.len() - 3) / 2) % 2 == 0
}

/// The command that the words `a` name.
pub open spec fn command_from_words(a: Seq<Seq<char>>) -> CommandView {
    if a.len() == 1 && a[0] == w_ping() {
        CommandView::Ping
    } else if a.len() == 2 && a[0] == w_get() {
        CommandView::Get(a[1])
    } else if a.len() == 3 && a[0] == w_set() {
        CommandView::SET(a[1], a[2], None)
    } else if a.len() == 5 && a[0] == w_set() && a[3] == w_px() {
        CommandView::SET(a[1], a[2], Some(text_u64(a[4])->0 as u64))
    } else if a.len() == 2 && a[0] == w_llen() {
        CommandView::LLEN(a[1])
    } else if a.len() == 2 && a[0] == w_echo() {
        CommandView::Echo(a[1])
    } else if a.len() == 2 && a[0] == w_lpop() {
        CommandView::LPOP(a[1], 1)
    } else if a.len() == 3 && a[0] == w_lpop() {
        CommandView::LPOP(a[1], text_i32(a[2])->0 as i32)
    } else if a.len() == 4 && a[0] == w_lrange() && text_i32(a[2]) is Some && text_i32(a[3])
        is Some {
        CommandView::LRANGE(a[1], text_i32(a[2])->0 as i32, text_i32(a[3])->0 as i32)
    } else if a.len() == 3 && a[0] == w_blpop() {
        CommandView::BLPOP(a[1], a[2])
    } else if a.len() >= 2 && a[0] == w_rpush() {
        CommandView::RPush(a[1], a.subrange(2, a.len() as int))
    } else if a.len() >= 2 && a[0] == w_lpush() {
        CommandView::LPush(a[1], a.subrange(2, a.len() as int))
    } else if a.len() >= 3 && a[0] == w_xadd() {
        CommandView::XADD(a[1], a[2], xadd_pairs(a))
    } else if a.len() == 2 && a[0] == w_type() {
        CommandView::TYPE(a[1])
    } else {
        CommandView::Unkown
    }
}

/// The command arrays that `array_to_command` reads.
pub open spec fn command_ok(arr: Seq<Seq<char>>) -> bool {
    words_ok(command_words(arr))
}

/// The command that a command array names.
pub open spec fn command_of(arr: Seq<Seq<char>>) -> CommandView {
    command_from_words(command_words(arr))
}

fn word_is(words: &Vec<String>, i: usize, w: &str) -> (r: bool)
    requires
        i < words@.len(),
    ensures
        r == (words@[i as int]@ == w@),
{
    same_text(words[i].as_str(), w)
}

/// Whether the array is a parsed RESP array (see `has_count`).
fn begins_with_count(arr: &Vec<String>) -> (r: bool)
    ensures
        r == has_count(texts(arr@)),
{
    let ghost a = texts(arr@);
    let len = arr.len();
    if len % 2 != 1 {
        return false;
    }
    let n = (len - 1) / 2;
    let mut count = String::new();
    push_nat_decimal(&mut count, n as u128);
    assert(count@ =~= nat_decimal(n as nat));
    if !same_text(arr[0].as_str(), count.as_str()) {
        return false;
    }
    let mut i: usize = 0;
    while i < n
        invariant
            a == texts(arr@),
            len == arr@.len(),
            len % 2 == 1,
            n == (len - 1) / 2,
            i <= n,
            a[0] == nat_decimal(n as nat),
            forall|j: int| 0 <= j < i ==> #[trigger] a[2 * j + 1] == length_line(a[2 * j + 2]),
        decreases n - i,
    {
        let word = arr[2 * i + 2].as_str();
        proof {
            reveal_strlit("$");
        }
        let mut line = String::new();
        line.append("$");
        let b = word.as_bytes().len();
        push_nat_decimal(&mut line, b as u128);
        assert(line@ =~= length_line(word@));
        if !same_text(arr[2 * i + 1].as_str(), line.as_str()) {
            assert(a[2 * i + 1] != length_line(a[2 * i + 2]));
            return false;
        }
        i = i + 1;
    }
    true
}

/// Copies of the words of a command array.
fn words_of(arr: &Vec<String>) -> (r: Vec<String>)
    ensures
        texts(r@) == command_words(texts(arr@)),
{
    let ghost a = command_words(texts(arr@));
    let off: usize = if begins_with_count(arr) {
        2
    } else {
        1
    };
    let len = arr.len();
    let n: usize = if off == 2 {
        (len - 1) / 2
    } else {
        len / 2
    };
    assert(n == a.len());
    let mut out: Vec<String> = Vec::new();
    let mut i: usize = 0;
    while i < n
        invariant
            len == arr@.len(),
            n == a.len(),
            off == first_word(texts(arr@)),
            a == command_words(texts(arr@)),
            i <= n,
            texts(out@) == a.subrange(0, i as int),
        decreases n - i,
    {
        let ghost before = out@;
        assert(2 * i + off < len);
        out.push(arr[2 * i + off].clone());
        proof {
            assert(texts(before).len() == before.len());
            assert forall|j: int| 0 <= j < out@.len() implies #[trigger] texts(out@)[j]
                == a.subrange(0, i + 1)[j] by {
                if j < before.len() {
                    assert(texts(before)[j] == a.subrange(0, i as int)[j]);
                }
            }
            assert(texts(out@) =~= a.subrange(0, i + 1));
        }
        i = i + 1;
    }
    assert(a.subrange(0, n as int) =~= a);
    out
}

/// Copies of the words `from..to`.
fn words_from(words: &Vec<String>, from: usize, to: usize) -> (r: Vec<String>)
    requires
        from <= to <= words@.len(),
    ensures
        texts(r@) == texts(words@).subrange(from as int, to as int),
{
    let ghost a = texts(words@);
    let mut out: Vec<String> = Vec::new();
    let mut i = from;
    while i < to
        invariant
            from <= i <= to <= words@.len(),
            a == texts(words@),
            texts(out@) == a.subrange(from as int, i as int),
        decreases to - i,
    {
        let ghost before = out@;
        out.push(words[i].clone());
        proof {
            assert(texts(before).len() == before.len());
            assert forall|j: int| 0 <= j < out@.len() implies #[trigger] texts(out@)[j]
                == a.subrange(from as int, i + 1)[j] by {
                if j < before.len() {
                    assert(texts(before)[j] == a.subrange(from as int, i as int)[j]);
                }
            }
            assert(texts(out@) =~= a.subrange(from as int, i + 1));
        }
        i = i + 1;
    }
    out
}

/// The field/value pairs of an `XADD` of `n` words.
fn xadd_pairs_of(words: &Vec<String>) -> (r: Vec<(String, String)>)
    requires
        words@.len() >= 3,
        ((words@.len() - 3) / 2) % 2 == 0,
    ensures
        pair_texts(r@) == xadd_pairs(texts(words@)),
{
    let ghost a = texts(words@);
    let ghost want = xadd_pairs(a);
    let n = words.len();
    let count = ((n - 3) / 2) / 2;
    let mut out: Vec<(String, String)> = Vec::new();
    let mut j: usize = 0;
    while j < count
        invariant
            n == words@.len(),
            n >= 3,
            count == ((n - 3) / 2) / 2,
            a == texts(words@),
            want == xadd_pairs(a),
            j <= count,
            pair_texts(out@) == want.subrange(0, j as int),
        decreases count - j,
    {
        // picked[2j] is word 3 + 4j + 1, picked[2j + 1] is word 3 + 4j + 3
        let field = words[4 * j + 4].clone();
        let value = words[4 * j + 6].clone();
        let ghost before = out@;
        out.push((field, value));
        proof {
            assert(pair_texts(before).len() == before.len());
            assert forall|k: int| 0 <= k < out@.len() implies #[trigger] pair_texts(out@)[k]
                == want.subrange(0, j + 1)[k] by {
                if k < before.len() {
                    assert(pair_texts(before)[k] == want.subrange(0, j as int)[k]);
                }
            }
            assert(pair_texts(out@) =~= want.subrange(0, j + 1));
        }
        j = j + 1;
    }
    assert(want.subrange(0, count as int) =~= want);
    out
}

/// The command that a list of words names, or `None` where reading it would
/// fail (see `words_ok`).
fn command_from(words: &Vec<String>) -> (r: Option<RedisCommand>)
    ensures
        r is Some <==> words_ok(texts(words@)),
        r matches Some(c) ==> c@ == command_from_words(texts(words@)),
{
    let ghost a = texts(words@);
    let n = words.len();
    proof {
        assert(a.len() == n);
        reveal_strlit("PING");
        assert("PING"@ =~= w_ping());
        reveal_strlit("GET");
        assert("GET"@ =~= w_get());
        reveal_strlit("SET");
        assert("SET"@ =~= w_set());
        reveal_strlit("PX");
        assert("PX"@ =~= w_px());
        reveal_strlit("LLEN");
        assert("LLEN"@ =~= w_llen());
        reveal_strlit("ECHO");
        assert("ECHO"@ =~= w_echo());
        reveal_strlit("LPOP");
        assert("LPOP"@ =~= w_lpop());
        reveal_strlit("LRANGE");
        assert("LRANGE"@ =~= w_lrange());
        reveal_strlit("BLPOP");
        assert("BLPOP"@ =~= w_blpop());
        reveal_strlit("RPUSH");
        assert("RPUSH"@ =~= w_rpush());
        reveal_strlit("LPUSH");
        assert("LPUSH"@ =~= w_lpush());
        reveal_strlit("XADD");
        assert("XADD"@ =~= w_xadd());
        reveal_strlit("TYPE");
        assert("TYPE"@ =~= w_type());
    }
    if n == 0 {
        return Some(RedisCommand::Unkown);
    }
    if n == 1 && word_is(words, 0, "PING") {
        Some(RedisCommand::Ping)
    } else if n == 2 && word_is(words, 0, "GET") {
        Some(RedisCommand::Get(words[1].clone()))
    } else if n == 3 && word_is(words, 0, "SET") {
        Some(RedisCommand::SET(words[1].clone(), words[2].clone(), None))
    } else if n == 5 && word_is(words, 0, "SET") && word_is(words, 3, "PX") {
        match parse_u64(words[4].as_str()) {
            Some(ttl) => Some(RedisCommand::SET(words[1].clone(), words[2].clone(), Some(ttl))),
            None => None,
        }
    } else if n == 2 && word_is(words, 0, "LLEN") {
        Some(RedisCommand::LLEN(words[1].clone()))
    } else if n == 2 && word_is(words, 0, "ECHO") {
        Some(RedisCommand::Echo(words[1].clone()))
    } else if n == 2 && word_is(words, 0, "LPOP") {
        Some(RedisCommand::LPOP(words[1].clone(), 1))
    } else if n == 3 && word_is(words, 0, "LPOP") {
        match parse_i32(words[2].as_str()) {
            Some(count) => Some(RedisCommand::LPOP(words[1].clone(), count)),
            None => None,
        }
    } else if n == 4 && word_is(words, 0, "LRANGE") {
        match (parse_i32(words[2].as_str()), parse_i32(words[3].as_str())) {
            (Some(start), Some(end)) => Some(RedisCommand::LRANGE(words[1].clone(), start, end)),
            _ => Some(RedisCommand::Unkown),
        }
    } else if n == 3 && word_is(words, 0, "BLPOP") {
        Some(RedisCommand::BLPOP(words[1].clone(), words[2].clone()))
    } else if n >= 2 && word_is(words, 0, "RPUSH") {
        let values = words_from(words, 2, n);
        Some(RedisCommand::RPush(words[1].clone(), values))
    } else if n >= 2 && word_is(words, 0, "LPUSH") {
        let values = words_from(words, 2, n);
        Some(RedisCommand::LPush(words[1].clone(), values))
    } else if n >= 3 && word_is(words, 0, "XADD") {
        if ((n - 3) / 2) % 2 == 0 {
            let pairs = xadd_pairs_of(words);
            Some(RedisCommand::XADD(words[1].clone(), words[2].clone(), pairs))
        } else {
            None
        }
    } else if n == 2 && word_is(words, 0, "TYPE") {
        Some(RedisCommand::TYPE(words[1].clone()))
    } else {
        Some(RedisCommand::Unkown)
    }
}

/// The command a command array names, or `None` where reading it would fail
/// (a `PX` time that is no `u64`, an `LPOP` count that is no `i32`, an
/// `XADD` whose field/value words do not pair up).
pub fn checked_array_to_command(command_array: &Vec<String>) -> (r: Option<RedisCommand>)
    ensures
        r is Some <==> command_ok(texts(command_array@)),
        r matches Some(c) ==> c@ == command_of(texts(command_array@)),
{
    let words = words_of(command_array);
    command_from(&words)
}

/// The command that a command array names (see `command_of`).
pub fn array_to_command(command_array: &Vec<String>) -> (r: RedisCommand)
    requires
        command_ok(texts(command_array@)),
    ensures
        r@ == command_of(texts(command_array@)),
{
    match checked_array_to_command(command_array) {
        Some(c) => c,
        None => {
            proof { assert(false); }
            RedisCommand::Unkown
        },
    }
}

} // verus!

verus! {

/// The non-empty strings of an array, in order.
pub open spec fn non_empty(items: Seq<Seq<char>>) -> Seq<Seq<char>> {
    items.filter(|s: Seq<char>| s.len() > 0)
}

/// The command that a message names: for an array, the command of its
/// non-empty strings; nothing for any other value.
pub open spec fn message_command(m: Seq<u8>) -> Option<CommandView> {
    match parsed_message(m) {
        RespView::Array(items) => Some(command_of(non_empty(items))),
        _ => None,
    }
}

/// The messages whose command can be read: any but an array whose strings do
/// not make a readable command.
pub open spec fn message_command_ok(m: Seq<u8>) -> bool {
    match parsed_message(m) {
        RespView::Array(items) => command_ok(non_empty(items)),
        _ => true,
    }
}

fn keep_non_empty(items: Vec<String>) -> (r: Vec<String>)
    ensures
        texts(r@) == non_empty(texts(items@)),
{
    let ghost all = texts(items@);
    let mut out: Vec<String> = Vec::new();
    let mut i: usize = 0;
    while i < items.len()
        invariant
            all == texts(items@),
            i <= items@.len(),
            texts(out@) == non_empty(all.take(i as int)),
        decreases items@.len() - i,
    {
        let ghost before = out@;
        proof {
            reveal_with_fuel(Seq::<_>::filter, 1);
            assert(all.take(i + 1).drop_last() =~= all.take(i as int));
            assert(texts(before).len() == before.len());
        }
        let t = items[i].as_str();
        let l = t.as_bytes().len();
        proof {
            assert(t@ == items@[i as int]@);
            assert(l == encode_utf8(t@).len());
        }
        if l != 0 {
            out.push(items[i].clone());
            proof {
                assert(texts(out@) =~= texts(before).push(items@[i as int]@));
            }
        } else {
            proof {
                assert(items@[i as int]@.len() == 0) by {
                    if items@[i as int]@.len() > 0 {
                        lemma_first_char_has_bytes(items@[i as int]@);
                    }
                }
            }
        }
        i = i + 1;
    }
    assert(all.take(items@.len() as int) =~= all);
    out
}

proof fn lemma_first_char_has_bytes(s: Seq<char>)
    requires
        s.len() > 0,
    ensures
        encode_utf8(s).len() > 0,
{
    encode_utf8_first_scalar(s);
}

/// What a client's message asks: `Some(Some(command))` for an array that
/// names a command, `Some(None)` for a message that is no array, and `None`
/// for a message that cannot be read.
pub fn checked_message_to_command(message: &str) -> (r: Option<Option<RedisCommand>>)
    ensures
        r is Some <==> (message_parses(message.spec_bytes()) && message_command_ok(
            message.spec_bytes(),
        )),
        r matches Some(c) ==> match c {
            Some(cmd) => message_command(message.spec_bytes()) == Some(cmd@),
            None => message_command(message.spec_bytes()) is None,
        },
{
    if !crate::resp::message_is_readable(message) {
        return None;
    }
    match parse_message(message) {
        Resp::Array(arr) => {
            let command_array = keep_non_empty(arr);
            match checked_array_to_command(&command_array) {
                Some(c) => Some(Some(c)),
                None => None,
            }
        },
        _ => Some(None),
    }
}

/// What a client's message asks (see `message_command`).
pub fn message_to_command(message: &str) -> (r: Option<RedisCommand>)
    requires
        message_parses(message.spec_bytes()),
        message_command_ok(message.spec_bytes()),
    ensures
        match r {
            Some(cmd) => message_command(message.spec_bytes()) == Some(cmd@),
            None => message_command(message.spec_bytes()) is None,
        },
{
    match checked_message_to_command(message) {
        Some(c) => c,
        None => {
            proof { assert(false); }
            None
        },
    }
}

} // verus!

verus! {

proof fn lemma_filter_all(items: Seq<Seq<char>>)
    requires
        forall|i: int| 0 <= i < items.len() ==> (#[trigger] items[i]).len() > 0,
    ensures
        non_empty(items) == items,
    decreases items.len(),
{
    reveal_with_fuel(Seq::<_>::filter, 1);
    if items.len() > 0 {
        let init = items.drop_last();
        assert forall|i: int| 0 <= i < init.len() implies (#[trigger] init[i]).len() > 0 by {
            assert(init[i] == items[i]);
        }
        lemma_filter_all(init);
        assert(init.push(items.last()) =~= items);
    }
}

/// A command written as a RESP array of bulk strings, each word non-empty and
/// free of "\r\n", is read back as the command its words name, and can be
/// read exactly when its words can.
pub proof fn law_command_round_trip(words: Seq<Seq<char>>)
    requires
        forall|i: int|
            0 <= i < words.len() ==> (#[trigger] words[i]).len() > 0 && no_crlf(
                encode_utf8(words[i]),
            ),
    ensures
        message_parses(encode_utf8(resp_text(RespView::Array(words)))),
        message_command_ok(encode_utf8(resp_text(RespView::Array(words)))) == words_ok(words),
        message_command(encode_utf8(resp_text(RespView::Array(words)))) == Some(
            command_from_words(words),
        ),
{
    law_array_round_trip(words);
    lemma_array_lines_no_crlf(words);
    let al = array_lines(words);
    let lines = seq![nat_decimal(words.len())] + al;
    assert forall|i: int| 0 <= i < lines.len() implies (#[trigger] lines[i]).len() > 0 by {
        if i > 0 {
            let j = i - 1;
            if j % 2 == 0 {
                assert(al[2 * (j / 2)].len() > 0);
            } else {
                assert(al[2 * (j / 2) + 1] == words[j / 2]);
            }
            assert(lines[i] == al[j]);
        }
    }
    lemma_filter_all(lines);
    lemma_words_of_lines(words);
}

proof fn lemma_words_of_lines(words: Seq<Seq<char>>)
    requires
        array_lines(words).len() == 2 * words.len(),
        forall|i: int| 0 <= i < words.len() ==> #[trigger] array_lines(words)[2 * i + 1] == words[i],
    ensures
        command_words(seq![nat_decimal(words.len())] + array_lines(words)) == words,
{
    let al = array_lines(words);
    let lines = seq![nat_decimal(words.len())] + al;
    assert(lines.len() == 1 + 2 * words.len());
    assert((lines.len() - 1) / 2 == words.len());
    assert(lines[0] == nat_decimal(words.len()));
    lemma_array_lines_shape(words);
    assert forall|i: int| 0 <= i < (lines.len() - 1) / 2 implies #[trigger] lines[2 * i + 1]
        == length_line(lines[2 * i + 2]) by {
        assert(lines[2 * i + 1] == al[2 * i]);
        assert(lines[2 * i + 2] == al[2 * i + 1]);
    }
    assert(has_count(lines));
    assert(first_word(lines) == 2);
    assert(word_count(lines) == words.len());
    assert forall|i: int| 0 <= i < words.len() implies #[trigger] command_words(lines)[i]
        == words[i] by {
        assert(lines[2 * i + 2] == al[2 * i + 1]);
    }
    assert(command_words(lines) =~= words);
}


/// An array that is not a parsed RESP array (see `has_count`) is read from
/// the strings at positions 1, 3, 5, ... alone: two such arrays with the same strings there
/// name the same command, and are both readable or both not.
pub proof fn law_only_odd_positions_count(a: Seq<Seq<char>>, b: Seq<Seq<char>>)
    requires
        !has_count(a),
        !has_count(b),
        a.len() / 2 == b.len() / 2,
        forall|i: int| 0 <= i < a.len() / 2 ==> #[trigger] odd_string(a, i) == odd_string(b, i),
    ensures
        command_of(a) == command_of(b),
        command_ok(a) == command_ok(b),
{
    assert forall|i: int| 0 <= i < word_count(a) implies command_words(a)[i] == command_words(b)[i] by {
        assert(odd_string(a, i) == odd_string(b, i));
    }
    assert(command_words(a) =~= command_words(b));
}

/// The string at position `2 * i + 1` of an array.
pub open spec fn odd_string(a: Seq<Seq<char>>, i: int) -> Seq<char> {
    a[2 * i + 1]
}


/// What each list of words names: the command word, case-sensitive, then its
/// arguments. `RPUSH` and `LPUSH` take every word after the key as a value,
/// in order; `LPOP` without a count takes one element.
pub proof fn law_words_name_commands(k: Seq<char>, v: Seq<char>, vs: Seq<Seq<char>>)
    ensures
        command_from_words(seq![seq!['P', 'I', 'N', 'G']]) == CommandView::Ping,
        command_from_words(seq![seq!['G', 'E', 'T'], k]) == CommandView::Get(k),
        command_from_words(seq![seq!['S', 'E', 'T'], k, v]) == CommandView::SET(k, v, None),
        command_from_words(seq![seq!['L', 'L', 'E', 'N'], k]) == CommandView::LLEN(k),
        command_from_words(seq![seq!['E', 'C', 'H', 'O'], k]) == CommandView::Echo(k),
        command_from_words(seq![seq!['T', 'Y', 'P', 'E'], k]) == CommandView::TYPE(k),
        command_from_words(seq![seq!['L', 'P', 'O', 'P'], k]) == CommandView::LPOP(k, 1),
        command_from_words(seq![seq!['B', 'L', 'P', 'O', 'P'], k, v]) == CommandView::BLPOP(k, v),
        command_from_words(seq![seq!['R', 'P', 'U', 'S', 'H'], k] + vs) == CommandView::RPush(k, vs),
        command_from_words(seq![seq!['L', 'P', 'U', 'S', 'H'], k] + vs) == CommandView::LPush(k, vs),
{
    lemma_reads_ping(k, v, vs);
    lemma_reads_get(k, v, vs);
    lemma_reads_set(k, v, vs);
    lemma_reads_llen(k, v, vs);
    lemma_reads_echo(k, v, vs);
    lemma_reads_type(k, v, vs);
    lemma_reads_lpop(k, v, vs);
    lemma_reads_blpop(k, v, vs);
    lemma_reads_rpush(k, v, vs);
    lemma_reads_lpush(k, v, vs);
}

proof fn lemma_reads_ping(k: Seq<char>, v: Seq<char>, vs: Seq<Seq<char>>)
    ensures
        command_from_words(seq![seq!['P', 'I', 'N', 'G']]) == CommandView::Ping,
{
    let a = seq![seq!['P', 'I', 'N', 'G']];
    assert(a[0] =~= w_ping());
}

proof fn lemma_reads_get(k: Seq<char>, v: Seq<char>, vs: Seq<Seq<char>>)
    ensures
        command_from_words(seq![seq!['G', 'E', 'T'], k]) == CommandView::Get(k),
{
    let a = seq![seq!['G', 'E', 'T'], k];
    assert(a[0] =~= w_get());
}

proof fn lemma_reads_set(k: Seq<char>, v: Seq<char>, vs: Seq<Seq<char>>)
    ensures
        command_from_words(seq![seq!['S', 'E', 'T'], k, v]) == CommandView::SET(k, v, None),
{
    let a = seq![seq!['S', 'E', 'T'], k, v];
    assert(a[0] =~= w_set());
}

proof fn lemma_reads_llen(k: Seq<char>, v: Seq<char>, vs: Seq<Seq<char>>)
    ensures
        command_from_words(seq![seq!['L', 'L', 'E', 'N'], k]) == CommandView::LLEN(k),
{
    let a = seq![seq!['L', 'L', 'E', 'N'], k];
    assert(a[0] =~= w_llen());
}

proof fn lemma_reads_echo(k: Seq<char>, v: Seq<char>, vs: Seq<Seq<char>>)
    ensures
        command_from_words(seq![seq!['E', 'C', 'H', 'O'], k]) == CommandView::Echo(k),
{
    let a = seq![seq!['E', 'C', 'H', 'O'], k];
    assert(a[0] =~= w_echo());
}

proof fn lemma_reads_type(k: Seq<char>, v: Seq<char>, vs: Seq<Seq<char>>)
    ensures
        command_from_words(seq![seq!['T', 'Y', 'P', 'E'], k]) == CommandView::TYPE(k),
{
    let a = seq![seq!['T', 'Y', 'P', 'E'], k];
    assert(a[0] =~= w_type());
}

proof fn lemma_reads_lpop(k: Seq<char>, v: Seq<char>, vs: Seq<Seq<char>>)
    ensures
        command_from_words(seq![seq!['L', 'P', 'O', 'P'], k]) == CommandView::LPOP(k, 1),
{
    let a = seq![seq!['L', 'P', 'O', 'P'], k];
    assert(a[0] =~= w_lpop());
}

proof fn lemma_reads_blpop(k: Seq<char>, v: Seq<char>, vs: Seq<Seq<char>>)
    ensures
        command_from_words(seq![seq!['B', 'L', 'P', 'O', 'P'], k, v]) == CommandView::BLPOP(k, v),
{
    let a = seq![seq!['B', 'L', 'P', 'O', 'P'], k, v];
    assert(a[0] =~= w_blpop());
}

proof fn lemma_reads_rpush(k: Seq<char>, v: Seq<char>, vs: Seq<Seq<char>>)
    ensures
        command_from_words(seq![seq!['R', 'P', 'U', 'S', 'H'], k] + vs) == CommandView::RPush(k, vs),
{
    let a = seq![seq!['R', 'P', 'U', 'S', 'H'], k] + vs;
    assert(a[0] =~= w_rpush());
    assert(a.subrange(2, a.len() as int) =~= vs);
}

proof fn lemma_reads_lpush(k: Seq<char>, v: Seq<char>, vs: Seq<Seq<char>>)
    ensures
        command_from_words(seq![seq!['L', 'P', 'U', 'S', 'H'], k] + vs) == CommandView::LPush(k, vs),
{
    let a = seq![seq!['L', 'P', 'U', 'S', 'H'], k] + vs;
    assert(a[0] =~= w_lpush());
    assert(a.subrange(2, a.len() as int) =~= vs);
}

/// The commands with numbers: a `PX` time, an `LPOP` count and `LRANGE`
/// bounds are the numbers their words read as; an `LRANGE` whose bounds do
/// not both read as `i32`s names no command.
pub proof fn law_words_with_numbers(
    k: Seq<char>,
    v: Seq<char>,
    t: Seq<char>,
    b1: Seq<char>,
    b2: Seq<char>,
    ms: u64,
    n: i32,
    start: i32,
    end: i32,
)
    ensures
        text_u64(t) == Some(ms as int) ==> command_from_words(
            seq![seq!['S', 'E', 'T'], k, v, seq!['P', 'X'], t],
        ) == CommandView::SET(k, v, Some(ms)),
        text_i32(t) == Some(n as int) ==> command_from_words(seq![seq!['L', 'P', 'O', 'P'], k, t])
            == CommandView::LPOP(k, n),
        text_i32(b1) == Some(start as int) && text_i32(b2) == Some(end as int) ==> command_from_words(
            seq![seq!['L', 'R', 'A', 'N', 'G', 'E'], k, b1, b2],
        ) == CommandView::LRANGE(k, start, end),
        text_i32(b1) is None || text_i32(b2) is None ==> command_from_words(
            seq![seq!['L', 'R', 'A', 'N', 'G', 'E'], k, b1, b2],
        ) == CommandView::Unkown,
{
    assert(w_lrange()[1] != w_rpush()[1] && w_lrange()[1] != w_lpush()[1]);
    assert(w_lrange()[0] != w_xadd()[0] && w_lrange()[0] != w_type()[0]);
}

/// `XADD key id w0 w1 w2 ...`: the field/value pairs are the words after the
/// id at odd positions, taken two by two: `(w1, w3)`, `(w5, w7)`, ...
pub proof fn law_xadd_words(k: Seq<char>, id: Seq<char>, ws: Seq<Seq<char>>)
    ensures
        ({
            let cmd = command_from_words(seq![seq!['X', 'A', 'D', 'D'], k, id] + ws);
            &&& cmd matches CommandView::XADD(k2, id2, pairs)
            &&& k2 == k && id2 == id
            &&& pairs.len() == (ws.len() / 2) / 2
            &&& forall|j: int|
                0 <= j < pairs.len() ==> #[trigger] pairs[j] == (ws[4 * j + 1], ws[4 * j + 3])
        }),
{
    let a = seq![seq!['X', 'A', 'D', 'D'], k, id] + ws;
    assert(a[0] == w_xadd() && a[1] == k && a[2] == id);
    assert(w_xadd()[0] != w_ping()[0] && w_xadd()[0] != w_get()[0] && w_xadd()[0] != w_set()[0]);
    assert(w_xadd()[0] != w_llen()[0] && w_xadd()[0] != w_echo()[0] && w_xadd()[0] != w_lpop()[0]);
    assert(w_xadd()[0] != w_lrange()[0] && w_xadd()[0] != w_blpop()[0]);
    assert(w_xadd()[0] != w_rpush()[0] && w_xadd()[0] != w_lpush()[0]);
    let pairs = xadd_pairs(a);
    assert forall|j: int| 0 <= j < pairs.len() implies #[trigger] pairs[j] == (
        ws[4 * j + 1],
        ws[4 * j + 3],
    ) by {
        assert(a[3 + 4 * j + 1] == ws[4 * j + 1]);
        assert(a[3 + 4 * j + 3] == ws[4 * j + 3]);
    }
}

/// A command array is read from the strings after its `$<length>` lines: at
/// positions 2, 4, 6, ... of a parsed RESP array, at 1, 3, 5, ... otherwise.
pub proof fn law_words_of_arrays(arr: Seq<Seq<char>>)
    ensures
        has_count(arr) ==> command_of(arr) == command_from_words(
            Seq::new(((arr.len() - 1) / 2) as nat, |i: int| arr[2 * i + 2]),
        ),
        !has_count(arr) ==> command_of(arr) == command_from_words(
            Seq::new((arr.len() / 2) as nat, |i: int| arr[2 * i + 1]),
        ),
{
    if has_count(arr) {
        assert(command_words(arr) =~= Seq::new(((arr.len() - 1) / 2) as nat, |i: int| arr[2 * i + 2]));
    } else {
        assert(command_words(arr) =~= Seq::new((arr.len() / 2) as nat, |i: int| arr[2 * i + 1]));
    }
}


/// Numbers written in decimal are read as themselves: `SET k v PX <ms>`,
/// `LPOP k <n>` and `LRANGE k <start> <end>` carry those numbers.
pub proof fn law_decimal_arguments(k: Seq<char>, v: Seq<char>, ms: u64, n: i32, start: i32, end: i32)
    ensures
        command_from_words(seq![seq!['S', 'E', 'T'], k, v, seq!['P', 'X'], int_decimal(ms as int)])
            == CommandView::SET(k, v, Some(ms)),
        command_from_words(seq![seq!['L', 'P', 'O', 'P'], k, int_decimal(n as int)])
            == CommandView::LPOP(k, n),
        command_from_words(
            seq![seq!['L', 'R', 'A', 'N', 'G', 'E'], k, int_decimal(start as int), int_decimal(end as int)],
        ) == CommandView::LRANGE(k, start, end),
{
    law_decimal_reads_back(ms as int, 0, u64::MAX as int);
    law_decimal_reads_back(n as int, i32::MIN as int, i32::MAX as int);
    law_decimal_reads_back(start as int, i32::MIN as int, i32::MAX as int);
    law_decimal_reads_back(end as int, i32::MIN as int, i32::MAX as int);
    law_words_with_numbers(k, v, int_decimal(ms as int), int_decimal(start as int), int_decimal(end as int), ms, n, start, end);
    law_words_with_numbers(k, v, int_decimal(n as int), int_decimal(start as int), int_decimal(end as int), ms, n, start, end);
}

} // verus!
