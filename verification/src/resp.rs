//! The RESP wire format: writing replies and reading client messages.
//!
//! | Prefix | Type          | Example                            |
//! | ------ | ------------- | ---------------------------------- |
//! | `+`    | Simple String | `+OK\r\n`                          |
//! | `-`    | Error         | `-ERR unknown command\r\n`         |
//! | `:`    | Integer       | `:1000\r\n`                        |
//! | `$`    | Bulk String   | `$5\r\nhello\r\n`                  |
//! | `*`    | Array         | `*2\r\n$3\r\nGET\r\n$3\r\nkey\r\n` |
use vstd::prelude::*;
use vstd::string::*;
use vstd::utf8::*;

use crate::text::{
    all_digits, digit_char, digits_value, int_decimal, is_digit_byte, lemma_ascii_byte_is_boundary,
    lemma_boundary_between, lemma_encode_ascii_char, lemma_encode_utf8_concat, parse_integer, lemma_boundary_after_ascii, nat_decimal, parse_i64,
    parse_in_range, push_int_decimal, push_nat_decimal, substring,
};

verus! {

broadcast use vstd::utf8::group_utf8_lib;

/// A RESP value.
#[derive(Debug)]
pub enum Resp {
    SimpleString(String),
    Error(String),
    Integer(i64),
    BulkString(String),
    Array(Vec<String>),
    Other(String),
}

/// A RESP value with its texts as character sequences.
pub enum RespView {
    SimpleString(Seq<char>),
    Error(Seq<char>),
    Integer(int),
    BulkString(Seq<char>),
    Array(Seq<Seq<char>>),
    Other(Seq<char>),
}

/// The characters that each byte sequence encodes.
pub open spec fn decoded(pieces: Seq<Seq<u8>>) -> Seq<Seq<char>> {
    pieces.map_values(|p: Seq<u8>| decode_utf8(p))
}

/// The characters of each string.
pub open spec fn texts(v: Seq<String>) -> Seq<Seq<char>> {
    v.map_values(|s: String| s@)
}

impl View for Resp {
    type V = RespView;

    open spec fn view(&self) -> RespView {
        match self {
            Resp::SimpleString(s) => RespView::SimpleString(s@),
            Resp::Error(s) => RespView::Error(s@),
            Resp::Integer(i) => RespView::Integer(*i as int),
            Resp::BulkString(s) => RespView::BulkString(s@),
            Resp::Array(v) => RespView::Array(texts(v@)),
            Resp::Other(s) => RespView::Other(s@),
        }
    }
}

// ---------------------------------------------------------------------------
// Writing
// ---------------------------------------------------------------------------

pub open spec fn crlf() -> Seq<char> {
    seq!['\r', '\n']
}

/// `$<byte length>\r\n<text>\r\n`
pub open spec fn bulk_text(v: Seq<char>) -> Seq<char> {
    seq!['$'] + nat_decimal(encode_utf8(v).len()) + crlf() + v + crlf()
}

/// The bulk strings of `items`, one after the other.
pub open spec fn bulk_items_text(items: Seq<Seq<char>>) -> Seq<char>
    decreases items.len(),
{
    if items.len() == 0 {
        seq![]
    } else {
        bulk_items_text(items.drop_last()) + bulk_text(items.last())
    }
}

/// The text of a RESP value on the wire (nothing for `Other`, which has no form).
pub open spec fn resp_text(r: RespView) -> Seq<char> {
    match r {
        RespView::SimpleString(v) => seq!['+'] + v + crlf(),
        RespView::Error(v) => seq!['-'] + v + crlf(),
        RespView::Integer(i) => seq![':'] + int_decimal(i) + crlf(),
        RespView::BulkString(v) => bulk_text(v),
        RespView::Array(items) => seq!['*'] + nat_decimal(items.len()) + crlf() + bulk_items_text(
            items,
        ),
        RespView::Other(_) => seq![],
    }
}

/// The null bulk string, `$-1\r\n`, sent where there is no value.
pub open spec fn null_text() -> Seq<char> {
    seq!['$', '-', '1', '\r', '\n']
}

fn push_crlf(out: &mut String)
    ensures
        final(out)@ == old(out)@ + crlf(),
{
    proof { reveal_strlit("\r\n"); }
    out.append("\r\n");
}

fn push_bulk(out: &mut String, val: &str)
    ensures
        final(out)@ == old(out)@ + bulk_text(val@),
{
    proof { reveal_strlit("$"); }
    out.append("$");
    let n = val.as_bytes().len();
    push_nat_decimal(out, n as u128);
    push_crlf(out);
    out.append(val);
    push_crlf(out);
    assert(final(out)@ =~= old(out)@ + bulk_text(val@));
}

/// The bytes of a RESP value on the wire. An `Error` is written with the `-`
/// prefix of the table above; `Other` has no wire form and is not accepted.
pub fn parse_resp(value: Resp) -> (bytes: Vec<u8>)
    requires
        !(value is Other),
    ensures
        bytes@ == encode_utf8(resp_text(value@)),
{
    let ghost v = value@;
    let mut out = String::new();
    match value {
        Resp::SimpleString(val) => {
            proof { reveal_strlit("+"); }
            out.append("+");
            out.append(val.as_str());
            push_crlf(&mut out);
        },
        Resp::Error(val) => {
            proof { reveal_strlit("-"); }
            out.append("-");
            out.append(val.as_str());
            push_crlf(&mut out);
        },
        Resp::Integer(val) => {
            proof { reveal_strlit(":"); }
            out.append(":");
            push_int_decimal(&mut out, val);
            push_crlf(&mut out);
        },
        Resp::BulkString(val) => {
            push_bulk(&mut out, val.as_str());
        },
        Resp::Array(items) => {
            proof { reveal_strlit("*"); }
            out.append("*");
            push_nat_decimal(&mut out, items.len() as u128);
            push_crlf(&mut out);
            let ghost head = out@;
            let ghost all = texts(items@);
            let mut i: usize = 0;
            while i < items.len()
                invariant
                    i <= items@.len(),
                    all == texts(items@),
                    out@ == head + bulk_items_text(all.take(i as int)),
                decreases items@.len() - i,
            {
                push_bulk(&mut out, items[i].as_str());
                proof {
                    assert(all.take(i + 1).drop_last() =~= all.take(i as int));
                    assert(all.take(i + 1).last() == items@[i as int]@);
                }
                i = i + 1;
            }
            assert(all.take(items@.len() as int) =~= all);
        },
        Resp::Other(_) => {
            proof { assert(false); }
        },
    }
    assert(out@ =~= resp_text(v));
    out.as_str().as_bytes_vec()
}

// ---------------------------------------------------------------------------
// Reading
// ---------------------------------------------------------------------------

/// Whether a "\r\n" starts at byte `i`.
pub open spec fn crlf_at(b: Seq<u8>, i: int) -> bool {
    0 <= i && i + 1 < b.len() && b[i] == 13 && b[i + 1] == 10
}

/// The pieces of `b` between "\r\n" separators, as `str::split("\r\n")` finds
/// them, scanning on from byte `pos` with the current piece begun at `start`.
pub open spec fn split_crlf_from(b: Seq<u8>, start: int, pos: int) -> Seq<Seq<u8>>
    decreases b.len() - pos,
{
    if pos + 1 >= b.len() {
        seq![b.subrange(start, b.len() as int)]
    } else if crlf_at(b, pos) {
        seq![b.subrange(start, pos)] + split_crlf_from(b, pos + 2, pos + 2)
    } else {
        split_crlf_from(b, start, pos + 1)
    }
}

/// The pieces of `b` between "\r\n" separators.
pub open spec fn split_crlf(b: Seq<u8>) -> Seq<Seq<u8>> {
    split_crlf_from(b, 0, 0)
}

/// The bytes of a message between its type byte and its last two bytes.
pub open spec fn message_body(m: Seq<u8>) -> Seq<u8> {
    m.subrange(1, m.len() - 2)
}

pub open spec fn has_type_prefix(m: Seq<u8>) -> bool {
    m[0] == 43 || m[0] == 45 || m[0] == 58 || m[0] == 36 || m[0] == 42
}

/// The messages that `parse_message` reads: a non-empty text whose body
/// (for the five typed prefixes) lies between character boundaries, whose
/// integer fits in an `i64`, and whose bulk string has a second line.
pub open spec fn message_parses(m: Seq<u8>) -> bool {
    &&& m.len() > 0
    &&& has_type_prefix(m) ==> {
        &&& m.len() >= 3
        &&& is_char_boundary(m, m.len() - 2)
        &&& m[0] == 58 ==> parse_in_range(
            message_body(m),
            true,
            i64::MIN as int,
            i64::MAX as int,
        ) is Some
        &&& m[0] == 36 ==> split_crlf(message_body(m)).len() >= 2
    }
}

/// What `parse_message` reads from the bytes of a message.
pub open spec fn parsed_message(m: Seq<u8>) -> RespView {
    let body = message_body(m);
    if m[0] == 43 {
        RespView::SimpleString(decode_utf8(body))
    } else if m[0] == 45 {
        RespView::Error(decode_utf8(body))
    } else if m[0] == 58 {
        RespView::Integer(parse_in_range(body, true, i64::MIN as int, i64::MAX as int)->0)
    } else if m[0] == 36 {
        RespView::BulkString(decode_utf8(split_crlf(body)[1]))
    } else if m[0] == 42 {
        RespView::Array(decoded(split_crlf(body)))
    } else {
        RespView::Other(decode_utf8(m))
    }
}

/// The pieces of the bytes `from..to` of `message` between "\r\n" separators.
fn split_lines(message: &str, from: usize, to: usize) -> (pieces: Vec<String>)
    requires
        from <= to <= message.spec_bytes().len(),
        is_char_boundary(message.spec_bytes(), from as int),
        is_char_boundary(message.spec_bytes(), to as int),
    ensures
        texts(pieces@) == decoded(split_crlf(message.spec_bytes().subrange(from as int, to as int))),
{
    let bytes = message.as_bytes();
    let ghost m = message.spec_bytes();
    let ghost b = m.subrange(from as int, to as int);
    let len = to - from;
    let mut pieces: Vec<String> = Vec::new();
    let mut start: usize = 0;
    let mut pos: usize = 0;
    let ghost mut done: Seq<Seq<u8>> = seq![];
    while len - pos >= 2
        invariant
            bytes@ == m,
            m == message.spec_bytes(),
            valid_utf8(m),
            b == m.subrange(from as int, to as int),
            from <= to <= m.len(),
            len == to - from,
            start <= pos <= len,
            is_char_boundary(m, (from + start) as int),
            is_char_boundary(m, to as int),
            done + split_crlf_from(b, start as int, pos as int) == split_crlf(b),
            texts(pieces@) == decoded(done),
        decreases len - pos,
    {
        if bytes[from + pos] == 13 && bytes[from + pos + 1] == 10 {
            proof {
                lemma_ascii_byte_is_boundary(m, (from + pos) as int);
                lemma_boundary_after_ascii(m, (from + pos) as int);
                lemma_boundary_after_ascii(m, (from + pos + 1) as int);
            }
            let piece = substring(message, from + start, from + pos);
            let ghost before = pieces@;
            pieces.push(piece);
            proof {
                let p = b.subrange(start as int, pos as int);
                assert(m.subrange((from + start) as int, (from + pos) as int) =~= p);
                assert(crlf_at(b, pos as int));
                assert(split_crlf_from(b, start as int, pos as int) == seq![p] + split_crlf_from(
                    b,
                    pos + 2,
                    pos + 2,
                ));
                assert(done.push(p) + split_crlf_from(b, pos + 2, pos + 2) =~= done + (seq![p]
                    + split_crlf_from(b, pos + 2, pos + 2)));
                assert(texts(before).len() == before.len());
                assert(decoded(done).len() == done.len());
                assert(before.len() == done.len());
                assert(pieces@.len() == done.push(p).len());
                assert(piece@ == decode_utf8(p));
                assert forall|i: int| 0 <= i < pieces@.len() implies #[trigger] texts(pieces@)[i]
                    == decoded(done.push(p))[i] by {
                    if i < before.len() {
                        assert(texts(before)[i] == decoded(done)[i]);
                    }
                }
                assert(texts(pieces@) =~= decoded(done.push(p)));
                done = done.push(p);
            }
            pos = pos + 2;
            start = pos;
        } else {
            proof {
                assert(!crlf_at(b, pos as int));
            }
            pos = pos + 1;
        }
    }
    let last = substring(message, from + start, to);
    let ghost before = pieces@;
    pieces.push(last);
    proof {
        let p = b.subrange(start as int, len as int);
        assert(m.subrange((from + start) as int, to as int) =~= p);
        assert(split_crlf_from(b, start as int, pos as int) == seq![p]);
        assert(done.push(p) =~= done + seq![p]);
        assert forall|i: int| 0 <= i < pieces@.len() implies #[trigger] texts(pieces@)[i]
            == decoded(done.push(p))[i] by {
            if i < before.len() {
                assert(texts(before)[i] == decoded(done)[i]);
            }
        }
        assert(texts(pieces@) =~= decoded(done.push(p)));
    }
    pieces
}

/// Reads a client message. The body is the text between the type character
/// and the last two bytes; a bulk string is the second "\r\n"-separated piece
/// of the body, and an array holds every piece of the body.
pub fn parse_message(message: &str) -> (r: Resp)
    requires
        message_parses(message.spec_bytes()),
    ensures
        r@ == parsed_message(message.spec_bytes()),
{
    let bytes = message.as_bytes();
    let ghost m = message.spec_bytes();
    let n = bytes.len();
    let first = bytes[0];
    if first == 43 || first == 45 || first == 58 || first == 36 || first == 42 {
        proof {
            is_char_boundary_start_end_of_seq(m);
            lemma_boundary_after_ascii(m, 0);
        }
        let ghost body = message_body(m);
        assert(body =~= m.subrange(1, (n - 2) as int));
        if first == 43 {
            let value = substring(message, 1, n - 2);
            Resp::SimpleString(value)
        } else if first == 45 {
            let value = substring(message, 1, n - 2);
            Resp::Error(value)
        } else if first == 58 {
            let text = substring(message, 1, n - 2);
            proof {
                assert(encode_utf8(text@) == body);
            }
            match parse_i64(text.as_str()) {
                Some(v) => Resp::Integer(v),
                None => {
                    proof { assert(false); }
                    Resp::Integer(0)
                },
            }
        } else if first == 36 {
            let mut values = split_lines(message, 1, n - 2);
            let ghost vs = values@;
            proof {
                assert(body =~= m.subrange(1, (n - 2) as int));
                assert(texts(vs).len() == vs.len());
                assert(texts(vs)[1] == vs[1]@);
            }
            let value = values.remove(1);
            Resp::BulkString(value)
        } else {
            let values = split_lines(message, 1, n - 2);
            Resp::Array(values)
        }
    } else {
        proof {
            encode_utf8_decode_utf8(message@);
        }
        Resp::Other(message.to_owned())
    }
}

} // verus!

verus! {

// ---------------------------------------------------------------------------
// What reading gives back of writing
// ---------------------------------------------------------------------------

/// No "\r\n" starts anywhere in `b`.
pub open spec fn no_crlf(b: Seq<u8>) -> bool {
    forall|i: int| !#[trigger] crlf_at(b, i)
}

/// The lines of `lines`, with "\r\n" between each two.
pub open spec fn join_crlf(lines: Seq<Seq<u8>>) -> Seq<u8>
    decreases lines.len(),
{
    if lines.len() == 0 {
        seq![]
    } else if lines.len() == 1 {
        lines[0]
    } else {
        join_crlf(lines.drop_last()) + seq![13u8, 10u8] + lines.last()
    }
}

proof fn lemma_split_shift(b: Seq<u8>, d: int, start: int, pos: int)
    requires
        0 <= d <= start <= pos <= b.len(),
    ensures
        split_crlf_from(b, start, pos) == split_crlf_from(
            b.subrange(d, b.len() as int),
            start - d,
            pos - d,
        ),
    decreases b.len() - pos,
{
    let c = b.subrange(d, b.len() as int);
    if pos + 1 >= b.len() {
        assert(b.subrange(start, b.len() as int) =~= c.subrange(start - d, c.len() as int));
    } else if crlf_at(b, pos) {
        assert(crlf_at(c, pos - d));
        lemma_split_shift(b, d, pos + 2, pos + 2);
        assert(b.subrange(start, pos) =~= c.subrange(start - d, pos - d));
    } else {
        assert(!crlf_at(c, pos - d));
        lemma_split_shift(b, d, start, pos + 1);
    }
}

proof fn lemma_split_skip(b: Seq<u8>, start: int, pos: int, k: int)
    requires
        0 <= start <= pos <= k <= b.len(),
        forall|i: int| pos <= i < k ==> !#[trigger] crlf_at(b, i),
    ensures
        split_crlf_from(b, start, pos) == split_crlf_from(b, start, k),
    decreases k - pos,
{
    if pos < k {
        if pos + 1 >= b.len() {
            assert(k + 1 >= b.len());
        } else {
            assert(!crlf_at(b, pos));
            lemma_split_skip(b, start, pos + 1, k);
        }
    }
}

/// A line with no "\r\n" is read as one piece.
pub proof fn lemma_split_single(x: Seq<u8>)
    requires
        no_crlf(x),
    ensures
        split_crlf(x) == seq![x],
{
    lemma_split_skip(x, 0, 0, x.len() as int);
    assert(x.subrange(0, x.len() as int) =~= x);
}

/// A first line with no "\r\n", then "\r\n", then the rest.
pub proof fn lemma_split_head(x: Seq<u8>, y: Seq<u8>)
    requires
        no_crlf(x),
    ensures
        split_crlf(x + seq![13u8, 10u8] + y) == seq![x] + split_crlf(y),
{
    let b = x + seq![13u8, 10u8] + y;
    let n = x.len() as int;
    assert forall|i: int| 0 <= i < n implies !#[trigger] crlf_at(b, i) by {
        if i + 1 < n {
            assert(!crlf_at(x, i));
            assert(b[i] == x[i] && b[i + 1] == x[i + 1]);
        } else {
            assert(b[i + 1] == 13);
        }
    }
    lemma_split_skip(b, 0, 0, n);
    assert(crlf_at(b, n));
    lemma_split_shift(b, n + 2, n + 2, n + 2);
    assert(b.subrange(n + 2, b.len() as int) =~= y);
    assert(b.subrange(0, n) =~= x);
}

proof fn lemma_join_crlf_front(lines: Seq<Seq<u8>>)
    requires
        lines.len() >= 2,
    ensures
        join_crlf(lines) == lines[0] + seq![13u8, 10u8] + join_crlf(lines.drop_first()),
    decreases lines.len(),
{
    if lines.len() > 2 {
        lemma_join_crlf_front(lines.drop_last());
        assert(lines.drop_last().drop_first() =~= lines.drop_first().drop_last());
        assert(lines.drop_last()[0] == lines[0]);
        assert(lines.drop_first().last() == lines.last());
        assert(join_crlf(lines.drop_first()) == join_crlf(lines.drop_first().drop_last()) + seq![
            13u8,
            10u8,
        ] + lines.drop_first().last());
        assert(join_crlf(lines) =~= lines[0] + seq![13u8, 10u8] + join_crlf(lines.drop_first()));
    } else {
        assert(lines.drop_last() =~= seq![lines[0]]);
        assert(lines.drop_first() =~= seq![lines[1]]);
        assert(join_crlf(lines.drop_last()) == lines[0]);
        assert(join_crlf(lines.drop_first()) == lines[1]);
    }
}

/// Lines joined by "\r\n" are split back into the same lines.
pub proof fn lemma_split_join(lines: Seq<Seq<u8>>)
    requires
        lines.len() >= 1,
        forall|i: int| 0 <= i < lines.len() ==> no_crlf(#[trigger] lines[i]),
    ensures
        split_crlf(join_crlf(lines)) == lines,
    decreases lines.len(),
{
    if lines.len() == 1 {
        lemma_split_single(lines[0]);
        assert(lines =~= seq![lines[0]]);
    } else {
        lemma_join_crlf_front(lines);
        let rest = lines.drop_first();
        assert forall|i: int| 0 <= i < rest.len() implies no_crlf(#[trigger] rest[i]) by {
            assert(rest[i] == lines[i + 1]);
        }
        lemma_split_join(rest);
        lemma_split_head(lines[0], join_crlf(rest));
        assert(seq![lines[0]] + rest =~= lines);
    }
}

/// The bytes of decimal digits read back as the number.
pub proof fn lemma_nat_decimal_digits(n: nat)
    ensures
        all_digits(encode_utf8(nat_decimal(n))),
        digits_value(encode_utf8(nat_decimal(n))) == n,
        encode_utf8(nat_decimal(n)).len() == nat_decimal(n).len(),
        no_crlf(encode_utf8(nat_decimal(n))),
    decreases n,
{
    let d = (n % 10) as int;
    let c = digit_char(d);
    assert(c as u8 == 48 + d && (c as u32) < 0x80) by {
        if d == 0 {
        } else if d == 1 {
        } else if d == 2 {
        } else if d == 3 {
        } else if d == 4 {
        } else if d == 5 {
        } else if d == 6 {
        } else if d == 7 {
        } else if d == 8 {
        } else {
        }
    }
    lemma_encode_ascii_char(c);
    let e = encode_utf8(nat_decimal(n));
    if n < 10 {
        assert(e =~= seq![c as u8]);
        assert(e.drop_last() =~= Seq::<u8>::empty());
        assert(digits_value(e.drop_last()) == 0);
        assert(e.last() == c as u8);
        assert(digits_value(e) == n);
    } else {
        lemma_nat_decimal_digits(n / 10);
        lemma_encode_utf8_concat(nat_decimal(n / 10), seq![c]);
        let p = encode_utf8(nat_decimal(n / 10));
        assert(e =~= p + seq![c as u8]);
        assert(e.drop_last() =~= p);
        assert(e.last() == c as u8);
        assert(digits_value(e) == (n / 10) * 10 + d);
        assert forall|i: int| 0 <= i < e.len() implies is_digit_byte(#[trigger] e[i]) by {
            if i < p.len() {
                assert(e[i] == p[i]);
            }
        }
    }
    assert forall|i: int| !#[trigger] crlf_at(e, i) by {
        if 0 <= i < e.len() {
            assert(is_digit_byte(e[i]));
        }
    }
}

} // verus!

verus! {

/// The lines of each text, with "\r\n" between each two.
pub open spec fn join_text(lines: Seq<Seq<char>>) -> Seq<char>
    decreases lines.len(),
{
    if lines.len() == 0 {
        seq![]
    } else if lines.len() == 1 {
        lines[0]
    } else {
        join_text(lines.drop_last()) + crlf() + lines.last()
    }
}

/// The lines that the bulk strings of `items` make: for each item, `$` with
/// its byte length, then the item itself.
pub open spec fn array_lines(items: Seq<Seq<char>>) -> Seq<Seq<char>>
    decreases items.len(),
{
    if items.len() == 0 {
        seq![]
    } else {
        array_lines(items.drop_last()) + seq![length_line(items.last()), items.last()]
    }
}

/// The line before a bulk string: `$` and its byte length.
pub open spec fn length_line(v: Seq<char>) -> Seq<char> {
    seq!['$'] + nat_decimal(encode_utf8(v).len())
}

/// The lines of an array's bulk strings come in pairs: each item's length
/// line, then the item.
pub proof fn lemma_array_lines_shape(items: Seq<Seq<char>>)
    ensures
        array_lines(items).len() == 2 * items.len(),
        forall|i: int|
            0 <= i < items.len() ==> #[trigger] array_lines(items)[2 * i] == length_line(items[i])
                && array_lines(items)[2 * i + 1] == items[i],
    decreases items.len(),
{
    if items.len() > 0 {
        let init = items.drop_last();
        lemma_array_lines_shape(init);
        assert forall|i: int| 0 <= i < items.len() implies #[trigger] array_lines(items)[2 * i]
            == length_line(items[i]) && array_lines(items)[2 * i + 1] == items[i] by {
            if i < init.len() {
                assert(array_lines(init)[2 * i] == length_line(init[i]));
                assert(init[i] == items[i]);
            }
        }
    }
}

/// The UTF-8 bytes of each text.
pub open spec fn encoded(lines: Seq<Seq<char>>) -> Seq<Seq<u8>> {
    lines.map_values(|l: Seq<char>| encode_utf8(l))
}

proof fn lemma_encode_crlf()
    ensures
        encode_utf8(crlf()) == seq![13u8, 10u8],
{
    assert(is_ascii_chars(crlf()));
    is_ascii_chars_encode_utf8(crlf());
    assert(encode_utf8(crlf()) =~= seq![13u8, 10u8]);
}

/// A message of one type character, a body and "\r\n".
proof fn lemma_framed(p: char, body: Seq<char>)
    requires
        (p as u32) < 0x80,
    ensures
        ({
            let m = encode_utf8(seq![p] + body + crlf());
            &&& m.len() >= 3
            &&& m[0] == p as u8
            &&& message_body(m) == encode_utf8(body)
            &&& is_char_boundary(m, m.len() - 2)
        }),
{
    let m = encode_utf8(seq![p] + body + crlf());
    lemma_encode_utf8_concat(seq![p] + body, crlf());
    lemma_encode_utf8_concat(seq![p], body);
    lemma_encode_ascii_char(p);
    lemma_encode_crlf();
    let e = encode_utf8(body);
    assert(m =~= seq![p as u8] + e + seq![13u8, 10u8]);
    assert(message_body(m) =~= e);
    lemma_boundary_between(seq![p] + body, crlf());
}

proof fn lemma_encode_join(lines: Seq<Seq<char>>)
    requires
        lines.len() >= 1,
    ensures
        encode_utf8(join_text(lines)) == join_crlf(encoded(lines)),
    decreases lines.len(),
{
    if lines.len() > 1 {
        let init = lines.drop_last();
        lemma_encode_join(init);
        assert(encoded(lines).drop_last() =~= encoded(init));
        assert(encoded(lines).last() == encode_utf8(lines.last()));
        lemma_encode_utf8_concat(join_text(init) + crlf(), lines.last());
        lemma_encode_utf8_concat(join_text(init), crlf());
        lemma_encode_crlf();
    }
}

proof fn lemma_array_text(h: Seq<char>, items: Seq<Seq<char>>)
    ensures
        h + crlf() + bulk_items_text(items) == join_text(seq![h] + array_lines(items)) + crlf(),
    decreases items.len(),
{
    if items.len() == 0 {
        assert(seq![h] + array_lines(items) =~= seq![h]);
        assert(bulk_items_text(items) =~= Seq::<char>::empty());
        assert(h + crlf() + bulk_items_text(items) =~= h + crlf());
    } else {
        let init = items.drop_last();
        let x = items.last();
        let s = seq!['$'] + nat_decimal(encode_utf8(x).len());
        lemma_array_text(h, init);
        let lines = seq![h] + array_lines(items);
        let before = seq![h] + array_lines(init);
        assert(lines =~= before + seq![s, x]);
        assert(lines.drop_last() =~= before.push(s));
        assert(lines.drop_last().drop_last() =~= before);
        assert(join_text(lines) == join_text(before.push(s)) + crlf() + x);
        assert(join_text(before.push(s)) == join_text(before) + crlf() + s);
        assert(h + crlf() + bulk_items_text(items) =~= join_text(lines) + crlf());
    }
}

pub proof fn lemma_array_lines_no_crlf(items: Seq<Seq<char>>)
    requires
        forall|i: int| 0 <= i < items.len() ==> no_crlf(encode_utf8(#[trigger] items[i])),
    ensures
        forall|i: int|
            0 <= i < array_lines(items).len() ==> no_crlf(encode_utf8(#[trigger] array_lines(items)[i])),
        array_lines(items).len() == 2 * items.len(),
        forall|i: int|
            0 <= i < items.len() ==> #[trigger] array_lines(items)[2 * i + 1] == items[i],
        forall|i: int|
            0 <= i < items.len() ==> (#[trigger] array_lines(items)[2 * i]).len() > 0,
    decreases items.len(),
{
    if items.len() > 0 {
        let init = items.drop_last();
        let x = items.last();
        let n = encode_utf8(x).len();
        let s = seq!['$'] + nat_decimal(n);
        assert forall|i: int| 0 <= i < init.len() implies no_crlf(encode_utf8(#[trigger] init[i])) by {
            assert(init[i] == items[i]);
        }
        lemma_array_lines_no_crlf(init);
        lemma_nat_decimal_digits(n);
        lemma_encode_utf8_concat(seq!['$'], nat_decimal(n));
        lemma_encode_ascii_char('$');
        let d = encode_utf8(nat_decimal(n));
        let e = encode_utf8(s);
        assert(e =~= seq![36u8] + d);
        assert forall|i: int| !#[trigger] crlf_at(e, i) by {
            if 0 <= i && i + 1 < e.len() {
                if i == 0 {
                } else {
                    assert(e[i] == d[i - 1]);
                    assert(is_digit_byte(d[i - 1]));
                }
            }
        }
        let lines = array_lines(items);
        assert(lines == array_lines(init) + seq![s, x]);
        assert forall|i: int| 0 <= i < items.len() implies #[trigger] lines[2 * i + 1] == items[i] by {
            if i < init.len() {
                assert(array_lines(init)[2 * i + 1] == init[i]);
            }
        }
        assert forall|i: int| 0 <= i < items.len() implies (#[trigger] lines[2 * i]).len() > 0 by {
            if i < init.len() {
                assert(array_lines(init)[2 * i].len() > 0);
            }
        }
        assert forall|i: int| 0 <= i < lines.len() implies no_crlf(
            encode_utf8(#[trigger] lines[i]),
        ) by {
            if i < array_lines(init).len() {
                assert(lines[i] == array_lines(init)[i]);
            } else if i == array_lines(init).len() {
                assert(lines[i] == s);
            } else {
                assert(lines[i] == x);
            }
        }
    }
}

/// Decoding the encoding of texts gives the texts back.
proof fn lemma_decoded_encoded(lines: Seq<Seq<char>>)
    ensures
        decoded(encoded(lines)) == lines,
{
    assert forall|i: int| 0 <= i < lines.len() implies #[trigger] decoded(encoded(lines))[i]
        == lines[i] by {
        encode_utf8_decode_utf8(lines[i]);
    }
    assert(decoded(encoded(lines)) =~= lines);
}

/// A simple string, once written, is read back as the same simple string.
pub proof fn law_simple_string_round_trip(s: Seq<char>)
    ensures
        message_parses(encode_utf8(resp_text(RespView::SimpleString(s)))),
        parsed_message(encode_utf8(resp_text(RespView::SimpleString(s)))) == RespView::SimpleString(
            s,
        ),
{
    lemma_framed('+', s);
}

/// An error, once written, is read back as the same error.
pub proof fn law_error_round_trip(s: Seq<char>)
    ensures
        message_parses(encode_utf8(resp_text(RespView::Error(s)))),
        parsed_message(encode_utf8(resp_text(RespView::Error(s)))) == RespView::Error(s),
{
    lemma_framed('-', s);
}

/// An integer of the `i64` range, once written, is read back as the same integer.
pub proof fn law_integer_round_trip(i: int)
    requires
        i64::MIN <= i <= i64::MAX,
    ensures
        message_parses(encode_utf8(resp_text(RespView::Integer(i)))),
        parsed_message(encode_utf8(resp_text(RespView::Integer(i)))) == RespView::Integer(i),
{
    lemma_framed(':', int_decimal(i));
    let body = encode_utf8(int_decimal(i));
    if i < 0 {
        let n = (-i) as nat;
        lemma_nat_decimal_digits(n);
        lemma_encode_utf8_concat(seq!['-'], nat_decimal(n));
        lemma_encode_ascii_char('-');
        assert(body =~= seq![45u8] + encode_utf8(nat_decimal(n)));
        assert(body.drop_first() =~= encode_utf8(nat_decimal(n)));
        assert(parse_integer(body, true) == Some(i));
    } else {
        lemma_nat_decimal_digits(i as nat);
        assert(is_digit_byte(body[0]));
        assert(parse_integer(body, true) == Some(i));
    }
}

/// A number written in decimal is read back as that number by a reading of
/// any integer range that holds it, and by none that does not.
pub proof fn law_decimal_reads_back(i: int, lo: int, hi: int)
    ensures
        parse_in_range(encode_utf8(int_decimal(i)), true, lo, hi) == (if lo <= i <= hi {
            Some(i)
        } else {
            None
        }),
        i >= 0 ==> parse_in_range(encode_utf8(int_decimal(i)), false, lo, hi) == (if lo <= i <= hi {
            Some(i)
        } else {
            None
        }),
{
    let body = encode_utf8(int_decimal(i));
    if i < 0 {
        let n = (-i) as nat;
        lemma_nat_decimal_digits(n);
        lemma_encode_utf8_concat(seq!['-'], nat_decimal(n));
        lemma_encode_ascii_char('-');
        assert(body =~= seq![45u8] + encode_utf8(nat_decimal(n)));
        assert(body.drop_first() =~= encode_utf8(nat_decimal(n)));
        assert(parse_integer(body, true) == Some(i));
    } else {
        lemma_nat_decimal_digits(i as nat);
        assert(is_digit_byte(body[0]));
        assert(parse_integer(body, true) == Some(i));
        assert(parse_integer(body, false) == Some(i));
    }
}

/// A bulk string with no "\r\n" in it, once written, is read back as the same
/// bulk string.
pub proof fn law_bulk_string_round_trip(s: Seq<char>)
    requires
        no_crlf(encode_utf8(s)),
    ensures
        message_parses(encode_utf8(resp_text(RespView::BulkString(s)))),
        parsed_message(encode_utf8(resp_text(RespView::BulkString(s)))) == RespView::BulkString(s),
{
    let d = nat_decimal(encode_utf8(s).len());
    let body = d + crlf() + s;
    assert(resp_text(RespView::BulkString(s)) =~= seq!['$'] + body + crlf());
    lemma_framed('$', body);
    lemma_encode_utf8_concat(d + crlf(), s);
    lemma_encode_utf8_concat(d, crlf());
    lemma_encode_crlf();
    lemma_nat_decimal_digits(encode_utf8(s).len());
    lemma_split_head(encode_utf8(d), encode_utf8(s));
    lemma_split_single(encode_utf8(s));
    assert(split_crlf(encode_utf8(body)) =~= seq![encode_utf8(d), encode_utf8(s)]);
    encode_utf8_decode_utf8(s);
}

/// An array of texts with no "\r\n" in them, once written, is read back as
/// every line of the written body: the item count, then for each item the
/// `$`-line of its length and the item itself.
pub proof fn law_array_round_trip(items: Seq<Seq<char>>)
    requires
        forall|i: int| 0 <= i < items.len() ==> no_crlf(encode_utf8(#[trigger] items[i])),
    ensures
        message_parses(encode_utf8(resp_text(RespView::Array(items)))),
        parsed_message(encode_utf8(resp_text(RespView::Array(items)))) == RespView::Array(
            seq![nat_decimal(items.len())] + array_lines(items),
        ),
{
    let h = nat_decimal(items.len());
    let lines = seq![h] + array_lines(items);
    lemma_array_text(h, items);
    assert(resp_text(RespView::Array(items)) =~= seq!['*'] + (h + crlf() + bulk_items_text(items)));
    assert(seq!['*'] + (join_text(lines) + crlf()) =~= seq!['*'] + join_text(lines) + crlf());
    assert(resp_text(RespView::Array(items)) =~= seq!['*'] + join_text(lines) + crlf());
    lemma_framed('*', join_text(lines));
    lemma_encode_join(lines);
    lemma_array_lines_no_crlf(items);
    lemma_nat_decimal_digits(items.len());
    assert forall|i: int| 0 <= i < encoded(lines).len() implies no_crlf(
        #[trigger] encoded(lines)[i],
    ) by {
        if i > 0 {
            assert(lines[i] == array_lines(items)[i - 1]);
        }
    }
    lemma_split_join(encoded(lines));
    lemma_decoded_encoded(lines);
}

} // verus!

verus! {

/// Whether `parse_message` reads `message` (see `message_parses`).
pub fn message_is_readable(message: &str) -> (r: bool)
    ensures
        r == message_parses(message.spec_bytes()),
{
    let bytes = message.as_bytes();
    let ghost m = message.spec_bytes();
    let n = bytes.len();
    if n == 0 {
        return false;
    }
    let first = bytes[0];
    if !(first == 43 || first == 45 || first == 58 || first == 36 || first == 42) {
        return true;
    }
    if n < 3 || !message.is_char_boundary(n - 2) {
        return false;
    }
    proof {
        is_char_boundary_start_end_of_seq(m);
        lemma_boundary_after_ascii(m, 0);
        assert(message_body(m) =~= m.subrange(1, (n - 2) as int));
    }
    if first == 58 {
        let text = substring(message, 1, n - 2);
        parse_i64(text.as_str()).is_some()
    } else if first == 36 {
        let pieces = split_lines(message, 1, n - 2);
        proof {
            assert(texts(pieces@).len() == pieces@.len());
        }
        pieces.len() >= 2
    } else {
        true
    }
}

} // verus!
