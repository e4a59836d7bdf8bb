//! Text helpers shared by the wire format and the command reader: decimal
//! numbers written and read the way Rust's `Display` and `FromStr` do it,
//! byte-exact substrings of a `&str`, and text comparison.
use vstd::prelude::*;
use vstd::string::*;
use vstd::utf8::*;

verus! {

broadcast use vstd::utf8::group_utf8_lib;

// ---------------------------------------------------------------------------
// UTF-8 facts
// ---------------------------------------------------------------------------

/// Encoding a concatenation encodes each part in turn.
pub proof fn lemma_encode_utf8_concat(a: Seq<char>, b: Seq<char>)
    ensures
        encode_utf8(a + b) == encode_utf8(a) + encode_utf8(b),
    decreases a.len(),
{
    if a.len() == 0 {
        assert(a + b =~= b);
        assert(encode_utf8(a) =~= Seq::<u8>::empty());
        assert(encode_utf8(a) + encode_utf8(b) =~= encode_utf8(b));
    } else {
        lemma_encode_utf8_concat(a.drop_first(), b);
        assert((a + b).drop_first() =~= a.drop_first() + b);
        assert((a + b)[0] == a[0]);
        assert(encode_utf8(a + b) =~= encode_utf8(a) + encode_utf8(b));
    }
}

/// An ASCII character is encoded as the single byte of its code.
pub proof fn lemma_encode_ascii_char(c: char)
    requires
        (c as u32) < 0x80,
    ensures
        encode_utf8(seq![c]) == seq![c as u8],
{
    assert(is_ascii_chars(seq![c]));
    is_ascii_chars_encode_utf8(seq![c]);
    assert(encode_utf8(seq![c]) =~= seq![c as u8]);
}

/// The end of the encoding of `a` is a character boundary of the encoding of `a + b`.
pub proof fn lemma_boundary_between(a: Seq<char>, b: Seq<char>)
    ensures
        is_char_boundary(encode_utf8(a + b), encode_utf8(a).len() as int),
    decreases a.len(),
{
    if a.len() == 0 {
        assert(encode_utf8(a).len() == 0);
    } else {
        let whole = encode_utf8(a + b);
        let rest = a.drop_first();
        lemma_boundary_between(rest, b);
        assert((a + b).drop_first() =~= rest + b);
        assert((a + b)[0] == a[0]);
        encode_utf8_first_scalar(a + b);
        lemma_encode_utf8_concat(seq![a[0]], rest);
        assert(seq![a[0]] + rest =~= a);
        assert(encode_utf8(seq![a[0]]) =~= encode_scalar(a[0] as u32) + encode_utf8(
            seq![a[0]].drop_first(),
        ));
        assert(seq![a[0]].drop_first() =~= Seq::<char>::empty());
        assert(encode_utf8(seq![a[0]]) =~= encode_scalar(a[0] as u32));
        assert(pop_first_scalar(whole) =~= encode_utf8(rest + b));
    }
}

/// In valid UTF-8, the byte after a one-byte character starts a new character.
pub proof fn lemma_boundary_after_ascii(bytes: Seq<u8>, j: int)
    requires
        valid_utf8(bytes),
        is_char_boundary(bytes, j),
        0 <= j < bytes.len(),
        bytes[j] < 0x80,
    ensures
        is_char_boundary(bytes, j + 1),
    decreases bytes.len(),
{
    let rest = pop_first_scalar(bytes);
    let l = length_of_first_scalar(bytes);
    if j == 0 {
        assert(is_leading_byte_width_1(bytes[0]));
        assert(l == 1);
        assert(is_char_boundary(rest, 0));
    } else {
        assert(is_char_boundary(rest, j - l));
        assert(rest[j - l] == bytes[j]);
        lemma_boundary_after_ascii(rest, j - l);
    }
}

/// A byte below 0x80 always starts a character.
pub proof fn lemma_ascii_byte_is_boundary(bytes: Seq<u8>, j: int)
    requires
        valid_utf8(bytes),
        0 <= j < bytes.len(),
        bytes[j] < 0x80,
    ensures
        is_char_boundary(bytes, j),
{
    is_char_boundary_iff_not_is_continuation_byte(bytes, j);
}

// ---------------------------------------------------------------------------
// Substrings and comparison
// ---------------------------------------------------------------------------

/// The text between two character boundaries of `s`, given as byte offsets
/// (what `s[from..to].to_string()` gives).
pub fn substring(s: &str, from: usize, to: usize) -> (r: String)
    requires
        from <= to <= s.spec_bytes().len(),
        is_char_boundary(s.spec_bytes(), from as int),
        is_char_boundary(s.spec_bytes(), to as int),
    ensures
        encode_utf8(r@) == s.spec_bytes().subrange(from as int, to as int),
        r@ == decode_utf8(s.spec_bytes().subrange(from as int, to as int)),
{
    let ghost bytes = s.spec_bytes();
    let (left, _right) = s.split_at(to);
    let ghost lb = left.spec_bytes();
    proof {
        assert(lb =~= bytes.subrange(0, to as int));
        if from < to {
            is_char_boundary_iff_not_is_continuation_byte(bytes, from as int);
            is_char_boundary_iff_not_is_continuation_byte(lb, from as int);
        } else {
            is_char_boundary_start_end_of_seq(lb);
        }
    }
    let (_skip, mid) = left.split_at(from);
    let r = mid.to_owned();
    proof {
        assert(mid.spec_bytes() =~= bytes.subrange(from as int, to as int));
        encode_utf8_decode_utf8(r@);
    }
    r
}

/// Whether two texts hold the same characters.
pub fn same_text(a: &str, b: &str) -> (r: bool)
    ensures
        r == (a@ == b@),
{
    let x = a.as_bytes();
    let y = b.as_bytes();
    proof {
        encode_utf8_decode_utf8(a@);
        encode_utf8_decode_utf8(b@);
    }
    if x.len() != y.len() {
        return false;
    }
    let mut i: usize = 0;
    while i < x.len()
        invariant
            x@ == a.spec_bytes(),
            y@ == b.spec_bytes(),
            x@.len() == y@.len(),
            i <= x@.len(),
            forall|j: int| 0 <= j < i ==> x@[j] == y@[j],
        decreases x@.len() - i,
    {
        if x[i] != y[i] {
            return false;
        }
        i = i + 1;
    }
    assert(x@ =~= y@);
    true
}

// ---------------------------------------------------------------------------
// Writing decimal numbers
// ---------------------------------------------------------------------------

/// The character of a decimal digit.
pub open spec fn digit_char(d: int) -> char {
    if d == 0 {
        '0'
    } else if d == 1 {
        '1'
    } else if d == 2 {
        '2'
    } else if d == 3 {
        '3'
    } else if d == 4 {
        '4'
    } else if d == 5 {
        '5'
    } else if d == 6 {
        '6'
    } else if d == 7 {
        '7'
    } else if d == 8 {
        '8'
    } else {
        '9'
    }
}

/// The decimal digits of `n`, most significant first, without leading zeros.
pub open spec fn nat_decimal(n: nat) -> Seq<char>
    decreases n,
{
    if n < 10 {
        seq![digit_char(n as int)]
    } else {
        nat_decimal(n / 10) + seq![digit_char((n % 10) as int)]
    }
}

/// `i` written in decimal, with a leading `-` when negative.
pub open spec fn int_decimal(i: int) -> Seq<char> {
    if i < 0 {
        seq!['-'] + nat_decimal((-i) as nat)
    } else {
        nat_decimal(i as nat)
    }
}

fn digit_str(d: u8) -> (s: &'static str)
    requires
        d < 10,
    ensures
        s@ == seq![digit_char(d as int)],
{
    if d == 0 {
        proof { reveal_strlit("0"); }
        "0"
    } else if d == 1 {
        proof { reveal_strlit("1"); }
        "1"
    } else if d == 2 {
        proof { reveal_strlit("2"); }
        "2"
    } else if d == 3 {
        proof { reveal_strlit("3"); }
        "3"
    } else if d == 4 {
        proof { reveal_strlit("4"); }
        "4"
    } else if d == 5 {
        proof { reveal_strlit("5"); }
        "5"
    } else if d == 6 {
        proof { reveal_strlit("6"); }
        "6"
    } else if d == 7 {
        proof { reveal_strlit("7"); }
        "7"
    } else if d == 8 {
        proof { reveal_strlit("8"); }
        "8"
    } else {
        proof { reveal_strlit("9"); }
        "9"
    }
}

/// Appends `n` in decimal.
pub fn push_nat_decimal(out: &mut String, n: u128)
    ensures
        final(out)@ == old(out)@ + nat_decimal(n as nat),
    decreases n,
{
    if n >= 10 {
        push_nat_decimal(out, n / 10);
    }
    let d = (n % 10) as u8;
    out.append(digit_str(d));
    proof {
        if n >= 10 {
            assert(final(out)@ =~= old(out)@ + nat_decimal(n as nat));
        } else {
            assert(final(out)@ =~= old(out)@ + nat_decimal(n as nat));
        }
    }
}

/// Appends `v` in decimal, as `format!("{v}")` writes it.
pub fn push_int_decimal(out: &mut String, v: i64)
    ensures
        final(out)@ == old(out)@ + int_decimal(v as int),
{
    if v < 0 {
        proof { reveal_strlit("-"); }
        out.append("-");
        let m: u128 = (0i128 - v as i128) as u128;
        push_nat_decimal(out, m);
        assert(final(out)@ =~= old(out)@ + int_decimal(v as int));
    } else {
        push_nat_decimal(out, v as u128);
    }
}

// ---------------------------------------------------------------------------
// Reading decimal numbers
// ---------------------------------------------------------------------------

pub open spec fn is_digit_byte(b: u8) -> bool {
    48 <= b <= 57
}

/// The value of a run of decimal digit bytes.
pub open spec fn digits_value(s: Seq<u8>) -> nat
    decreases s.len(),
{
    if s.len() == 0 {
        0
    } else {
        digits_value(s.drop_last()) * 10 + (s.last() - 48) as nat
    }
}

/// One or more decimal digit bytes.
pub open spec fn all_digits(s: Seq<u8>) -> bool {
    s.len() > 0 && forall|i: int| 0 <= i < s.len() ==> is_digit_byte(#[trigger] s[i])
}

/// The integer that Rust's `FromStr` for integer types reads from these bytes,
/// before the check against the type's range: an optional `+` (or `-` when
/// `signed`), then one or more decimal digits.
pub open spec fn parse_integer(s: Seq<u8>, signed: bool) -> Option<int> {
    if s.len() > 0 && s[0] == 43 {
        if all_digits(s.drop_first()) {
            Some(digits_value(s.drop_first()) as int)
        } else {
            None
        }
    } else if signed && s.len() > 0 && s[0] == 45 {
        if all_digits(s.drop_first()) {
            Some(-(digits_value(s.drop_first()) as int))
        } else {
            None
        }
    } else if all_digits(s) {
        Some(digits_value(s) as int)
    } else {
        None
    }
}

/// What `str::parse` gives for an integer type of range `lo..=hi`.
pub open spec fn parse_in_range(s: Seq<u8>, signed: bool, lo: int, hi: int) -> Option<int> {
    match parse_integer(s, signed) {
        Some(v) => if lo <= v && v <= hi {
            Some(v)
        } else {
            None
        },
        None => None,
    }
}

proof fn lemma_digits_prefix_monotone(s: Seq<u8>, j: int, k: int)
    requires
        0 <= j <= k <= s.len(),
    ensures
        digits_value(s.subrange(0, j)) <= digits_value(s.subrange(0, k)),
    decreases k - j,
{
    if j < k {
        lemma_digits_prefix_monotone(s, j, k - 1);
        assert(s.subrange(0, k).drop_last() =~= s.subrange(0, k - 1));
    }
}

/// The digits from `start` on, with their value when it fits in a `u128`.
fn read_digits(s: &[u8], start: usize) -> (r: Option<u128>)
    requires
        start <= s@.len(),
    ensures
        match r {
            Some(v) => all_digits(s@.subrange(start as int, s@.len() as int)) && v == digits_value(
                s@.subrange(start as int, s@.len() as int),
            ),
            None => !all_digits(s@.subrange(start as int, s@.len() as int)) || digits_value(
                s@.subrange(start as int, s@.len() as int),
            ) > u128::MAX,
        },
{
    let ghost full = s@.subrange(start as int, s@.len() as int);
    if start >= s.len() {
        return None;
    }
    let mut acc: u128 = 0;
    let mut i: usize = start;
    while i < s.len()
        invariant
            start <= i <= s@.len(),
            full == s@.subrange(start as int, s@.len() as int),
            acc == digits_value(full.subrange(0, i - start)),
            forall|j: int| 0 <= j < i - start ==> is_digit_byte(#[trigger] full[j]),
        decreases s@.len() - i,
    {
        let b = s[i];
        if b < 48 || b > 57 {
            assert(!is_digit_byte(full[i - start]));
            return None;
        }
        let d = (b - 48) as u128;
        assert(full.subrange(0, i + 1 - start).drop_last() =~= full.subrange(0, i - start));
        match acc.checked_mul(10) {
            Some(t) => match t.checked_add(d) {
                Some(u) => {
                    acc = u;
                },
                None => {
                    proof {
                        lemma_digits_prefix_monotone(full, i + 1 - start, full.len() as int);
                        assert(full.subrange(0, full.len() as int) =~= full);
                    }
                    return None;
                },
            },
            None => {
                proof {
                    lemma_digits_prefix_monotone(full, i + 1 - start, full.len() as int);
                    assert(full.subrange(0, full.len() as int) =~= full);
                }
                return None;
            },
        }
        i = i + 1;
    }
    assert(full.subrange(0, full.len() as int) =~= full);
    Some(acc)
}

/// Reads an integer as Rust's `FromStr` does, without the range check:
/// `Some((negative, magnitude))` whenever the magnitude fits in a `u128`.
fn read_integer(s: &[u8], signed: bool) -> (r: Option<(bool, u128)>)
    ensures
        match r {
            Some((neg, m)) => parse_integer(s@, signed) == Some(
                if neg {
                    -(m as int)
                } else {
                    m as int
                },
            ) && (!neg || m > 0 || signed),
            None => match parse_integer(s@, signed) {
                Some(v) => v > u128::MAX || v < -(u128::MAX as int),
                None => true,
            },
        },
{
    if s.len() > 0 && s[0] == 43 {
        assert(s@.drop_first() =~= s@.subrange(1, s@.len() as int));
        match read_digits(s, 1) {
            Some(m) => Some((false, m)),
            None => None,
        }
    } else if signed && s.len() > 0 && s[0] == 45 {
        assert(s@.drop_first() =~= s@.subrange(1, s@.len() as int));
        match read_digits(s, 1) {
            Some(m) => Some((true, m)),
            None => None,
        }
    } else {
        assert(s@ =~= s@.subrange(0, s@.len() as int));
        match read_digits(s, 0) {
            Some(m) => Some((false, m)),
            None => None,
        }
    }
}

/// `s.parse::<u64>()`, with `None` for an error.
pub fn parse_u64(s: &str) -> (r: Option<u64>)
    ensures
        r is Some <==> parse_in_range(s.spec_bytes(), false, 0, u64::MAX as int) is Some,
        r matches Some(v) ==> parse_in_range(s.spec_bytes(), false, 0, u64::MAX as int) == Some(
            v as int,
        ),
{
    match read_integer(s.as_bytes(), false) {
        Some((neg, m)) => if !neg && m <= u64::MAX as u128 {
            Some(m as u64)
        } else {
            None
        },
        None => None,
    }
}

/// `s.parse::<u32>()`, with `None` for an error.
pub fn parse_u32(s: &str) -> (r: Option<u32>)
    ensures
        r is Some <==> parse_in_range(s.spec_bytes(), false, 0, u32::MAX as int) is Some,
        r matches Some(v) ==> parse_in_range(s.spec_bytes(), false, 0, u32::MAX as int) == Some(
            v as int,
        ),
{
    match read_integer(s.as_bytes(), false) {
        Some((neg, m)) => if !neg && m <= u32::MAX as u128 {
            Some(m as u32)
        } else {
            None
        },
        None => None,
    }
}

/// `s.parse::<usize>()`, with `None` for an error.
pub fn parse_usize(s: &str) -> (r: Option<usize>)
    ensures
        r is Some <==> parse_in_range(s.spec_bytes(), false, 0, usize::MAX as int) is Some,
        r matches Some(v) ==> parse_in_range(s.spec_bytes(), false, 0, usize::MAX as int) == Some(
            v as int,
        ),
{
    match read_integer(s.as_bytes(), false) {
        Some((neg, m)) => if !neg && m <= usize::MAX as u128 {
            Some(m as usize)
        } else {
            None
        },
        None => None,
    }
}

/// `s.parse::<u128>()`, with `None` for an error.
pub fn parse_u128(s: &str) -> (r: Option<u128>)
    ensures
        r is Some <==> parse_in_range(s.spec_bytes(), false, 0, u128::MAX as int) is Some,
        r matches Some(v) ==> parse_in_range(s.spec_bytes(), false, 0, u128::MAX as int) == Some(
            v as int,
        ),
{
    match read_integer(s.as_bytes(), false) {
        Some((neg, m)) => if !neg {
            Some(m)
        } else {
            None
        },
        None => None,
    }
}

/// The integer of a signed reading, when it lies in `lo..=hi`.
fn signed_in_range(neg: bool, m: u128, lo: i64, hi: i64) -> (r: Option<i64>)
    requires
        lo <= 0 <= hi,
    ensures
        r matches Some(v) ==> v == (if neg {
            -(m as int)
        } else {
            m as int
        }),
        r is Some <==> lo <= (if neg {
            -(m as int)
        } else {
            m as int
        }) <= hi,
{
    if neg {
        if m <= (0i128 - lo as i128) as u128 {
            Some((0i128 - m as i128) as i64)
        } else {
            None
        }
    } else {
        if m <= hi as u128 {
            Some(m as i64)
        } else {
            None
        }
    }
}

/// `s.parse::<i64>()`, with `None` for an error.
pub fn parse_i64(s: &str) -> (r: Option<i64>)
    ensures
        r is Some <==> parse_in_range(s.spec_bytes(), true, i64::MIN as int, i64::MAX as int) is Some,
        r matches Some(v) ==> parse_in_range(
            s.spec_bytes(),
            true,
            i64::MIN as int,
            i64::MAX as int,
        ) == Some(v as int),
{
    match read_integer(s.as_bytes(), true) {
        Some((neg, m)) => signed_in_range(neg, m, i64::MIN, i64::MAX),
        None => None,
    }
}

/// `s.parse::<i32>()`, with `None` for an error.
pub fn parse_i32(s: &str) -> (r: Option<i32>)
    ensures
        r is Some <==> parse_in_range(s.spec_bytes(), true, i32::MIN as int, i32::MAX as int) is Some,
        r matches Some(v) ==> parse_in_range(
            s.spec_bytes(),
            true,
            i32::MIN as int,
            i32::MAX as int,
        ) == Some(v as int),
{
    match read_integer(s.as_bytes(), true) {
        Some((neg, m)) => match signed_in_range(neg, m, i32::MIN as i64, i32::MAX as i64) {
            Some(v) => Some(v as i32),
            None => None,
        },
        None => None,
    }
}

} // verus!

verus! {

/// The pieces of `b` between `-` bytes, as `str::split("-")` finds them,
/// scanning on from byte `pos` with the current piece begun at `start`.
pub open spec fn split_dash_from(b: Seq<u8>, start: int, pos: int) -> Seq<Seq<u8>>
    decreases b.len() - pos,
{
    if pos >= b.len() {
        seq![b.subrange(start, b.len() as int)]
    } else if b[pos] == 45 {
        seq![b.subrange(start, pos)] + split_dash_from(b, pos + 1, pos + 1)
    } else {
        split_dash_from(b, start, pos + 1)
    }
}

/// The pieces of `b` between `-` bytes.
pub open spec fn split_dash(b: Seq<u8>) -> Seq<Seq<u8>> {
    split_dash_from(b, 0, 0)
}

/// The pieces of `s` between `-` characters (`s.split("-")`), each given
/// with its UTF-8 bytes.
pub fn split_on_dash(s: &str) -> (pieces: Vec<String>)
    ensures
        pieces@.len() == split_dash(s.spec_bytes()).len(),
        forall|i: int|
            0 <= i < pieces@.len() ==> encode_utf8(#[trigger] pieces@[i]@) == split_dash(
                s.spec_bytes(),
            )[i],
{
    let bytes = s.as_bytes();
    let ghost b = s.spec_bytes();
    let len = bytes.len();
    let mut pieces: Vec<String> = Vec::new();
    let mut start: usize = 0;
    let mut pos: usize = 0;
    let ghost mut done: Seq<Seq<u8>> = seq![];
    proof {
        is_char_boundary_start_end_of_seq(b);
    }
    while pos < len
        invariant
            bytes@ == b,
            b == s.spec_bytes(),
            valid_utf8(b),
            len == b.len(),
            start <= pos <= len,
            is_char_boundary(b, start as int),
            is_char_boundary(b, len as int),
            done + split_dash_from(b, start as int, pos as int) == split_dash(b),
            pieces@.len() == done.len(),
            forall|i: int| 0 <= i < pieces@.len() ==> encode_utf8(#[trigger] pieces@[i]@) == done[i],
        decreases len - pos,
    {
        if bytes[pos] == 45 {
            proof {
                lemma_ascii_byte_is_boundary(b, pos as int);
                lemma_boundary_after_ascii(b, pos as int);
            }
            let piece = substring(s, start, pos);
            pieces.push(piece);
            proof {
                let p = b.subrange(start as int, pos as int);
                assert(done.push(p) + split_dash_from(b, pos + 1, pos + 1) =~= done + (seq![p]
                    + split_dash_from(b, pos + 1, pos + 1)));
                done = done.push(p);
            }
            pos = pos + 1;
            start = pos;
        } else {
            pos = pos + 1;
        }
    }
    let last = substring(s, start, len);
    pieces.push(last);
    proof {
        let p = b.subrange(start as int, len as int);
        assert(done.push(p) =~= done + seq![p]);
        done = done.push(p);
    }
    pieces
}

} // verus!
