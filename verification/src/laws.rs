use crate::grammar::{
    after_item, after_member, blanks, document, ends_number, items_from, lemma_literal_len,
    literal_len, members_from, string_from, text_from, unescaped, value_at,
};
use crate::number::{
    digit_run, exponent_digits, fraction_end, is_decimal, is_digit, is_number_text,
    lemma_digit_run_bounds,
};
use crate::render::{
    as_chars, escape, escape_prefix, escaped_char, quoted, render, render_items, render_member,
    render_members, separator,
};
use crate::serializer::Serialize;
use crate::values::{
    distinct_keys, items_eq, json_eq, lemma_position, lemma_put_distinct, lookup, members_eq,
    position_from, put, Json, Values,
};
use vstd::prelude::*;
use vstd::utf8::{
    char_is_scalar, char_u32_cast, encode_utf8, encode_utf8_decode_utf8, encode_utf8_valid_utf8,
    is_ascii_chars, is_ascii_chars_encode_utf8,
};

verus! {

/// A document as the parser gives it: every number is a number literal, and no
/// object holds a key twice.
pub open spec fn well_formed(j: Json) -> bool
    decreases j,
{
    match j {
        Json::Number(n) => is_number_text(n),
        Json::Object(m) => distinct_keys(m) && forall|i: int|
            0 <= i < m.len() ==> well_formed((#[trigger] m[i]).1),
        Json::Array(a) => forall|i: int| 0 <= i < a.len() ==> well_formed(#[trigger] a[i]),
        _ => true,
    }
}

/// The bytes `w` stand in `s` from `i` on.
pub open spec fn stands(s: Seq<u8>, i: int, w: Seq<u8>) -> bool {
    &&& 0 <= i
    &&& i + w.len() <= s.len()
    &&& forall|k: int| 0 <= k < w.len() ==> #[trigger] s[i + k] == w[k]
}

/// Bytes stand somewhere when their two parts stand there one behind the other.
pub proof fn lemma_stands_split(s: Seq<u8>, i: int, a: Seq<u8>, b: Seq<u8>)
    requires
        0 <= i,
    ensures
        stands(s, i, a + b) <==> stands(s, i, a) && stands(s, i + a.len(), b),
{
    let w = a + b;
    if stands(s, i, w) {
        assert forall|k: int| 0 <= k < a.len() implies #[trigger] s[i + k] == a[k] by {
            assert(w[k] == a[k]);
        }
        assert forall|k: int| 0 <= k < b.len() implies #[trigger] s[i + a.len() + k] == b[k] by {
            assert(w[a.len() + k] == b[k]);
            assert(s[i + (a.len() + k)] == w[a.len() + k]);
        }
    }
    if stands(s, i, a) && stands(s, i + a.len(), b) {
        assert forall|k: int| 0 <= k < w.len() implies #[trigger] s[i + k] == w[k] by {
            if k >= a.len() {
                assert(s[i + a.len() + (k - a.len())] == b[k - a.len()]);
            }
        }
    }
}

/// The UTF-8 bytes of two texts one behind the other are the bytes of the first
/// and then those of the second.
pub proof fn lemma_encode_concat(a: Seq<char>, b: Seq<char>)
    ensures
        encode_utf8(a + b) == encode_utf8(a) + encode_utf8(b),
    decreases a.len(),
{
    if a.len() == 0 {
        assert(a + b =~= b);
        assert(encode_utf8(a) + encode_utf8(b) =~= encode_utf8(b));
    } else {
        lemma_encode_concat(a.drop_first(), b);
        assert((a + b).drop_first() =~= a.drop_first() + b);
        assert((a + b)[0] == a[0]);
        assert(encode_utf8(a + b) =~= encode_utf8(a) + encode_utf8(b));
    }
}

/// A byte with one of the leading marks of UTF-8 set is no ASCII byte.
proof fn lemma_marked_bytes(y: u8)
    by (bit_vector)
    ensures
        (0xC0u8 | y) >= 0x80,
        (0xE0u8 | y) >= 0x80,
        (0xF0u8 | y) >= 0x80,
        (0x80u8 | y) >= 0x80,
{
}

/// A scalar below 128 is its own low seven bits.
proof fn lemma_low_bits(v: u32)
    by (bit_vector)
    requires
        v <= 0x7F,
    ensures
        (v & 0x7F) == v,
{
}

/// The UTF-8 bytes of one character: the character itself where it is ASCII, and
/// bytes that are no ASCII bytes where it is not.
pub proof fn lemma_scalar_bytes(c: char)
    ensures
        encode_utf8(seq![c]).len() >= 1,
        c as u32 <= 0x7F ==> encode_utf8(seq![c]) == seq![c as u8],
        c as u32 > 0x7F ==> forall|k: int|
            0 <= k < encode_utf8(seq![c]).len() ==> #[trigger] encode_utf8(seq![c])[k] >= 0x80,
{
    let v = c as u32;
    let w = seq![c];
    assert(w.drop_first() =~= Seq::<char>::empty());
    assert(encode_utf8(w.drop_first()) =~= Seq::<u8>::empty());
    let e = encode_utf8(w);
    assert(e =~= vstd::utf8::encode_scalar(v));
    lemma_marked_bytes(((v >> 6) & 0x1F) as u8);
    lemma_marked_bytes(((v >> 12) & 0x0F) as u8);
    lemma_marked_bytes(((v >> 18) & 0x7) as u8);
    lemma_marked_bytes((v & 0x3F) as u8);
    lemma_marked_bytes(((v >> 6) & 0x3F) as u8);
    lemma_marked_bytes(((v >> 12) & 0x3F) as u8);
    if v <= 0x7F {
        lemma_low_bits(v);
        assert(e =~= seq![c as u8]);
    }
}

/// Bytes that are neither a quote nor a backslash are read into a string literal
/// as they are.
pub proof fn lemma_plain_bytes(s: Seq<u8>, i: int, b: Seq<u8>, acc: Seq<u8>)
    requires
        stands(s, i, b),
        forall|k: int| 0 <= k < b.len() ==> #[trigger] b[k] != 34 && b[k] != 92,
    ensures
        string_from(s, i, acc) == string_from(s, i + b.len(), acc + b),
    decreases b.len(),
{
    if b.len() == 0 {
        assert(acc + b =~= acc);
    } else {
        assert(s[i + 0] == b[0]);
        let rest = b.drop_first();
        assert(b =~= seq![b[0]] + rest);
        lemma_stands_split(s, i, seq![b[0]], rest);
        assert forall|k: int| 0 <= k < rest.len() implies #[trigger] rest[k] != 34 && rest[k]
            != 92 by {
            assert(rest[k] == b[k + 1]);
        }
        lemma_plain_bytes(s, i + 1, rest, acc.push(b[0]));
        assert(acc.push(b[0]) + rest =~= acc + b);
    }
}

/// The escaped form of a text goes on, character by character, behind the escaped
/// form of the text before it.
pub proof fn lemma_escape_concat(a: Seq<char>, b: Seq<char>, n: nat)
    requires
        n <= b.len(),
    ensures
        escape_prefix(a + b, a.len() + n) == escape(a) + escape_prefix(b, n),
    decreases n,
{
    if n == 0 {
        lemma_escape_prefix_of(a, b, a.len());
        assert(escape(a) + escape_prefix(b, 0) =~= escape(a));
    } else {
        lemma_escape_concat(a, b, (n - 1) as nat);
        assert((a + b)[a.len() + n - 1] == b[n - 1]);
        assert(escape_prefix(a + b, a.len() + n) =~= escape(a) + escape_prefix(b, n));
    }
}

/// The escaped form of the first characters of a text does not depend on what
/// follows them.
pub proof fn lemma_escape_prefix_of(a: Seq<char>, b: Seq<char>, n: nat)
    requires
        n <= a.len(),
    ensures
        escape_prefix(a + b, n) == escape_prefix(a, n),
    decreases n,
{
    if n > 0 {
        lemma_escape_prefix_of(a, b, (n - 1) as nat);
        assert((a + b)[n - 1] == a[n - 1]);
    }
}

/// The escaped form of a text is that of its first character and then that of
/// the rest.
pub proof fn lemma_escape_first(u: Seq<char>)
    requires
        u.len() > 0,
    ensures
        escape(u) == escaped_char(u[0]) + escape(u.drop_first()),
{
    let a = seq![u[0]];
    let b = u.drop_first();
    assert(a + b =~= u);
    lemma_escape_concat(a, b, b.len());
    assert(escape_prefix(a, 0) =~= Seq::<char>::empty());
    assert(escape(a) =~= escaped_char(u[0]));
}

/// A string literal that holds the bytes of the escaped form of `u` and a closing
/// quote reads as the bytes of `u`.
pub proof fn lemma_string_round_trip(s: Seq<u8>, i: int, u: Seq<char>, acc: Seq<u8>)
    requires
        stands(s, i, encode_utf8(escape(u)) + seq![34u8]),
    ensures
        string_from(s, i, acc) == Some(
            (acc + encode_utf8(u), i + encode_utf8(escape(u)).len() + 1),
        ),
    decreases u.len(),
{
    lemma_stands_split(s, i, encode_utf8(escape(u)), seq![34u8]);
    if u.len() == 0 {
        assert(escape(u) =~= Seq::<char>::empty());
        assert(s[i + 0] == seq![34u8][0]);
        assert(acc + encode_utf8(u) =~= acc);
    } else {
        let c = u[0];
        let rest = u.drop_first();
        lemma_escape_first(u);
        lemma_encode_concat(escaped_char(c), escape(rest));
        assert(u =~= seq![c] + rest);
        lemma_encode_concat(seq![c], rest);
        lemma_scalar_bytes(c);
        lemma_scalar_bytes('\\');
        lemma_scalar_bytes('"');
        let e = encode_utf8(escaped_char(c));
        let one = encode_utf8(seq![c]);
        assert(encode_utf8(escape(u)) + seq![34u8] =~= e + (encode_utf8(escape(rest)) + seq![
            34u8,
        ]));
        lemma_stands_split(s, i, e, encode_utf8(escape(rest)) + seq![34u8]);
        if c == '\\' || c == '"' {
            assert(escaped_char(c) =~= seq!['\\'] + seq![c]);
            lemma_encode_concat(seq!['\\'], seq![c]);
            assert(e =~= seq![92u8, c as u8]);
            assert(s[i + 0] == e[0]);
            assert(s[i + 1] == e[1]);
            assert(unescaped(s[i + 1]) == Some(s[i + 1]));
            lemma_string_round_trip(s, i + 2, rest, acc.push(c as u8));
            assert(acc.push(c as u8) + encode_utf8(rest) =~= acc + encode_utf8(u));
        } else {
            assert(escaped_char(c) =~= seq![c]);
            assert forall|k: int| 0 <= k < one.len() implies #[trigger] one[k] != 34 && one[k]
                != 92 by {
                if c as u32 <= 0x7F {
                    assert(one =~= seq![c as u8]);
                    assert(one[k] == c as u8);
                    char_is_scalar(c);
                    char_u32_cast(c, c as u32);
                    assert(c as u32 != 34 && c as u32 != 92);
                } else {
                    assert(one[k] >= 0x80);
                }
            }
            lemma_plain_bytes(s, i, one, acc);
            lemma_string_round_trip(s, i + one.len(), rest, acc + one);
            assert((acc + one) + encode_utf8(rest) =~= acc + encode_utf8(u));
        }
    }
}

/// A string literal that holds the bytes of the escaped form of `u` and a closing
/// quote reads as the text `u`.
pub proof fn lemma_text_from(s: Seq<u8>, i: int, u: Seq<char>)
    requires
        stands(s, i, encode_utf8(escape(u)) + seq![34u8]),
    ensures
        text_from(s, i) == Some((u, i + encode_utf8(escape(u)).len() + 1)),
{
    lemma_string_round_trip(s, i, u, Seq::empty());
    assert(Seq::<u8>::empty() + encode_utf8(u) =~= encode_utf8(u));
    encode_utf8_valid_utf8(u);
    encode_utf8_decode_utf8(u);
}

/// A decimal literal starts with a digit and holds no byte that ends a number
/// literal.
pub proof fn lemma_decimal_bytes(u: Seq<u8>)
    requires
        is_decimal(u),
    ensures
        u.len() > 0,
        is_digit(u[0]),
        forall|k: int| 0 <= k < u.len() ==> !ends_number(#[trigger] u[k]) && u[k] < 128,
{
    let a = digit_run(u, 0);
    let b = fraction_end(u, a);
    let c = exponent_digits(u, b);
    lemma_digit_run_bounds(u, 0);
    if a < u.len() && u[a] == 46 {
        lemma_digit_run_bounds(u, a + 1);
    }
    if b < u.len() {
        lemma_digit_run_bounds(u, c);
    }
    assert forall|k: int| 0 <= k < u.len() implies !ends_number(#[trigger] u[k]) && u[k]
        < 128 by {
        if k < a {
            assert(is_digit(u[k]));
        } else if k < b {
            if k > a {
                assert(is_digit(u[k]));
            }
        } else if k >= c {
            assert(is_digit(u[k]));
        }
    }
}

/// A number literal runs as far as to the first byte that ends it.
pub proof fn lemma_literal_len_exact(s: Seq<u8>, p: int, q: int)
    requires
        0 <= p <= q <= s.len(),
        forall|x: int| p <= x < q ==> !ends_number(#[trigger] s[x]),
        q == s.len() || ends_number(s[q]),
    ensures
        p + literal_len(s, p) == q,
    decreases q - p,
{
    if p < q {
        lemma_literal_len_exact(s, p + 1, q);
    }
}

/// The comma that stands before every item but the first, as a byte.
pub open spec fn comma(n: nat) -> Seq<u8> {
    if n > 1 {
        seq![44u8]
    } else {
        Seq::empty()
    }
}

/// The bytes of a string: a quote, the UTF-8 bytes of the escaped text, a quote.
pub open spec fn wire_text(t: Seq<char>) -> Seq<u8> {
    seq![34u8] + encode_utf8(escape(t)) + seq![34u8]
}

/// The bytes of the compact text of a document.
pub open spec fn wire(j: Json) -> Seq<u8>
    decreases j, 0nat,
{
    match j {
        Json::Text(t) => wire_text(t),
        Json::Number(n) => n,
        Json::Object(m) => seq![123u8] + wire_members(m, 0) + seq![125u8],
        Json::Array(a) => seq![91u8] + wire_items(a, 0) + seq![93u8],
        Json::Null => seq![110u8, 117u8, 108u8, 108u8],
        Json::Boolean(b) => if b {
            seq![116u8, 114u8, 117u8, 101u8]
        } else {
            seq![102u8, 97u8, 108u8, 115u8, 101u8]
        },
    }
}

/// The bytes of the items of `a` from the one at place `n` on, with the comma
/// before each of them but the first of the array.
pub open spec fn wire_items(a: Seq<Json>, n: nat) -> Seq<u8>
    decreases a, a.len() - n,
{
    if n >= a.len() {
        Seq::empty()
    } else {
        comma(n + 1) + wire(a[n as int]) + wire_items(a, n + 1)
    }
}

/// The bytes of one member: the key as a string, a colon, the value.
pub open spec fn wire_member(key: Seq<char>, value: Seq<u8>) -> Seq<u8> {
    wire_text(key) + seq![58u8] + value
}

/// The bytes of the members of `m` from the one at place `n` on, with the comma
/// before each of them but the first of the object.
pub open spec fn wire_members(m: Seq<(Seq<char>, Json)>, n: nat) -> Seq<u8>
    decreases m, m.len() - n,
{
    if n >= m.len() {
        Seq::empty()
    } else {
        comma(n + 1) + wire_member(m[n as int].0, wire(m[n as int].1)) + wire_members(m, n + 1)
    }
}

/// The bytes with which the text of a value can start.
pub open spec fn opens_value(b: u8) -> bool {
    b == 34 || b == 91 || b == 123 || b == 110 || b == 116 || b == 102 || b == 45 || is_digit(b)
}

/// The bytes of a value are not empty and start as the text of a value can.
pub proof fn lemma_wire_first(j: Json)
    requires
        j is Number ==> is_number_text(j->Number_0),
    ensures
        wire(j).len() > 0,
        opens_value(wire(j)[0]),
{
    match j {
        Json::Number(n) => {
            if !(n.len() > 0 && n[0] == 45) {
                lemma_decimal_bytes(n);
            }
        },
        _ => {},
    }
}

/// Where the bytes of `j` stand at `i`, and behind them the text ends or a byte
/// stands that ends a number literal, the value at `i` is `j`.
pub proof fn lemma_value_round_trip(s: Seq<u8>, i: int, j: Json)
    requires
        well_formed(j),
        stands(s, i, wire(j)),
        i + wire(j).len() == s.len() || ends_number(s[i + wire(j).len()]),
    ensures
        value_at(s, i) == Some((j, i + wire(j).len())),
    decreases j, 0nat,
{
    let w = wire(j);
    lemma_wire_first(j);
    assert(s[i + 0] == w[0]);
    match j {
        Json::Text(t) => {
            let body = encode_utf8(escape(t));
            assert(w =~= seq![34u8] + (body + seq![34u8]));
            lemma_stands_split(s, i, seq![34u8], body + seq![34u8]);
            lemma_text_from(s, i + 1, t);
        },
        Json::Number(n) => {
            assert(s.subrange(i, i + n.len()) =~= n) by {
                assert forall|k: int| 0 <= k < n.len() implies s[i + k] == n[k] by {}
            }
            let d = if s[i] == 45 {
                i + 1
            } else {
                i
            };
            let u = if n[0] == 45 {
                n.skip(1)
            } else {
                n
            };
            lemma_decimal_bytes(u);
            assert(s.subrange(d, i + n.len()) =~= u);
            assert forall|x: int| d + 1 <= x < i + n.len() implies !ends_number(
                #[trigger] s[x],
            ) by {
                assert(s[x] == s[i + (x - i)]);
                assert(s[x] == u[x - d]);
            }
            lemma_literal_len_exact(s, d + 1, i + n.len());
        },
        Json::Object(m) => {
            let body = wire_members(m, 0);
            lemma_stands_split(s, i, seq![123u8] + body, seq![125u8]);
            lemma_stands_split(s, i, seq![123u8], body);
            assert(s[i + 1 + body.len() + 0] == seq![125u8][0]);
            if m.len() == 0 {
                assert(body =~= Seq::<u8>::empty());
                assert(m =~= Seq::<(Seq<char>, Json)>::empty());
            } else {
                let first = wire_member(m[0].0, wire(m[0].1));
                assert(body =~= first + wire_members(m, 1)) by {
                    assert(comma(1) =~= Seq::<u8>::empty());
                }
                assert(first[0] == 34);
                lemma_stands_split(s, i + 1, first, wire_members(m, 1));
                assert(s[i + 1 + 0] == first[0]);
                assert(stands(s, i + 1, first + wire_members(m, 1) + seq![125u8])) by {
                    lemma_stands_split(s, i + 1, body, seq![125u8]);
                }
                lemma_members_round_trip(s, i + 1, m, 0);
                assert(m.take(0) =~= Seq::<(Seq<char>, Json)>::empty());
            }
        },
        Json::Array(a) => {
            let body = wire_items(a, 0);
            lemma_stands_split(s, i, seq![91u8] + body, seq![93u8]);
            lemma_stands_split(s, i, seq![91u8], body);
            assert(s[i + 1 + body.len() + 0] == seq![93u8][0]);
            if a.len() == 0 {
                assert(body =~= Seq::<u8>::empty());
                assert(a =~= Seq::<Json>::empty());
            } else {
                let first = wire(a[0]);
                assert(body =~= first + wire_items(a, 1)) by {
                    assert(comma(1) =~= Seq::<u8>::empty());
                }
                assert(well_formed(a[0]));
                lemma_wire_first(a[0]);
                lemma_stands_split(s, i + 1, first, wire_items(a, 1));
                assert(s[i + 1 + 0] == first[0]);
                assert(stands(s, i + 1, first + wire_items(a, 1) + seq![93u8])) by {
                    lemma_stands_split(s, i + 1, body, seq![93u8]);
                }
                lemma_items_round_trip(s, i + 1, a, 0);
                assert(a.take(0) =~= Seq::<Json>::empty());
            }
        },
        Json::Null => {
            assert(s.subrange(i + 1, i + 4) =~= seq![117u8, 108u8, 108u8]) by {
                assert(s[i + 1] == w[1]);
                assert(s[i + 2] == w[2]);
                assert(s[i + 3] == w[3]);
            }
        },
        Json::Boolean(b) => {
            assert(s[i + 1] == w[1]);
            assert(s[i + 2] == w[2]);
            assert(s[i + 3] == w[3]);
            if b {
                assert(s.subrange(i + 1, i + 4) =~= seq![114u8, 117u8, 101u8]);
            } else {
                assert(s[i + 4] == w[4]);
                assert(s.subrange(i + 1, i + 5) =~= seq![97u8, 108u8, 115u8, 101u8]);
            }
        },
    }
}

/// Where the bytes of the items of `a` from place `n` on stand at `p`, and the
/// closing bracket behind them, the array that is read on from `p` behind the
/// first `n` items is `a`.
pub proof fn lemma_items_round_trip(s: Seq<u8>, p: int, a: Seq<Json>, n: nat)
    requires
        n < a.len(),
        forall|i: int| 0 <= i < a.len() ==> well_formed(#[trigger] a[i]),
        stands(s, p, wire(a[n as int]) + wire_items(a, n + 1) + seq![93u8]),
    ensures
        items_from(s, p, a.take(n as int)) == Some(
            (Json::Array(a), p + wire(a[n as int]).len() + wire_items(a, n + 1).len() + 1),
        ),
    decreases a, a.len() - n,
{
    let item = wire(a[n as int]);
    let rest = wire_items(a, n + 1);
    assert(well_formed(a[n as int]));
    lemma_wire_first(a[n as int]);
    assert(item + rest + seq![93u8] =~= item + (rest + seq![93u8]));
    lemma_stands_split(s, p, item, rest + seq![93u8]);
    lemma_stands_split(s, p + item.len(), rest, seq![93u8]);
    let k = p + item.len();
    let acc = a.take(n as int).push(a[n as int]);
    assert(acc =~= a.take(n as int + 1));
    if n + 1 == a.len() {
        assert(rest =~= Seq::<u8>::empty());
        assert(s[k + 0] == seq![93u8][0]);
        lemma_value_round_trip(s, p, a[n as int]);
        assert(a.take(n as int + 1) =~= a);
    } else {
        let next = wire(a[n as int + 1]);
        let after = wire_items(a, n + 2);
        assert(rest =~= seq![44u8] + (next + after));
        lemma_stands_split(s, k, seq![44u8], next + after);
        assert(s[k + 0] == seq![44u8][0]);
        lemma_value_round_trip(s, p, a[n as int]);
        assert(well_formed(a[n as int + 1]));
        lemma_wire_first(a[n as int + 1]);
        lemma_stands_split(s, k + 1, next, after);
        assert(s[k + 1 + 0] == next[0]);
        assert(stands(s, k + 1, next + after + seq![93u8])) by {
            assert(stands(s, k, rest + seq![93u8])) by {
                lemma_stands_split(s, k, rest, seq![93u8]);
            }
            assert(rest + seq![93u8] =~= seq![44u8] + (next + after + seq![93u8]));
            lemma_stands_split(s, k, seq![44u8], next + after + seq![93u8]);
        }
        lemma_items_round_trip(s, k + 1, a, n + 1);
    }
}

/// Where the bytes of the members of `m` from place `n` on stand at `p`, and the
/// closing brace behind them, the object that is read on from behind the quote at
/// `p` behind the first `n` members is `m`.
pub proof fn lemma_members_round_trip(s: Seq<u8>, p: int, m: Seq<(Seq<char>, Json)>, n: nat)
    requires
        n < m.len(),
        well_formed(Json::Object(m)),
        stands(
            s,
            p,
            wire_member(m[n as int].0, wire(m[n as int].1)) + wire_members(m, n + 1) + seq![
                125u8,
            ],
        ),
    ensures
        members_from(s, p + 1, m.take(n as int)) == Some(
            (
                Json::Object(m),
                p + wire_member(m[n as int].0, wire(m[n as int].1)).len() + wire_members(
                    m,
                    n + 1,
                ).len() + 1,
            ),
        ),
    decreases m, m.len() - n,
{
    let key = m[n as int].0;
    let value = m[n as int].1;
    let text = wire(value);
    let member = wire_member(key, text);
    let rest = wire_members(m, n + 1);
    let name = encode_utf8(escape(key));
    assert(well_formed(value));
    lemma_wire_first(value);
    // the key
    assert(member + rest + seq![125u8] =~= seq![34u8] + (name + seq![34u8]) + (seq![58u8] + text
        + (rest + seq![125u8])));
    lemma_stands_split(
        s,
        p,
        seq![34u8] + (name + seq![34u8]),
        seq![58u8] + text + (rest + seq![125u8]),
    );
    lemma_stands_split(s, p, seq![34u8], name + seq![34u8]);
    lemma_text_from(s, p + 1, key);
    let k = p + 1 + name.len() + 1;
    // the colon and the value
    lemma_stands_split(s, k, seq![58u8] + text, rest + seq![125u8]);
    lemma_stands_split(s, k, seq![58u8], text);
    assert(s[k + 0] == seq![58u8][0]);
    assert(s[k + 1 + 0] == text[0]);
    let e = k + 1 + text.len();
    lemma_stands_split(s, e, rest, seq![125u8]);
    // the place of the key among the members read so far
    let acc = m.take(n as int);
    lemma_position(acc, key, 0);
    if position_from(acc, key, 0) < acc.len() {
        assert(m[position_from(acc, key, 0)].0 == acc[position_from(acc, key, 0)].0);
    }
    assert(put(acc, key, value) =~= m.take(n as int + 1));
    if n + 1 == m.len() {
        assert(rest =~= Seq::<u8>::empty());
        assert(s[e + 0] == seq![125u8][0]);
        lemma_value_round_trip(s, k + 1, value);
        assert(m.take(n as int + 1) =~= m);
    } else {
        let next = wire_member(m[n as int + 1].0, wire(m[n as int + 1].1));
        let after = wire_members(m, n + 2);
        assert(rest =~= seq![44u8] + (next + after));
        lemma_stands_split(s, e, seq![44u8], next + after);
        assert(s[e + 0] == seq![44u8][0]);
        lemma_value_round_trip(s, k + 1, value);
        assert(next[0] == 34);
        lemma_stands_split(s, e + 1, next, after);
        assert(s[e + 1 + 0] == next[0]);
        assert(stands(s, e + 1, next + after + seq![125u8])) by {
            assert(stands(s, e, rest + seq![125u8])) by {
                lemma_stands_split(s, e, rest, seq![125u8]);
            }
            assert(rest + seq![125u8] =~= seq![44u8] + (next + after + seq![125u8]));
            lemma_stands_split(s, e, seq![44u8], next + after + seq![125u8]);
        }
        lemma_members_round_trip(s, e + 1, m, n + 1);
    }
}

/// The text of the items of `a` from the one at place `n` on, with the comma before
/// each of them but the first of the array.
pub open spec fn items_rest(a: Seq<Json>, n: nat) -> Seq<char>
    decreases a.len() - n,
{
    if n >= a.len() {
        Seq::empty()
    } else {
        separator(n + 1) + render(a[n as int]) + items_rest(a, n + 1)
    }
}

/// The text of the members of `m` from the one at place `n` on, with the comma
/// before each of them but the first of the object.
pub open spec fn members_rest(m: Seq<(Seq<char>, Json)>, n: nat) -> Seq<char>
    decreases m.len() - n,
{
    if n >= m.len() {
        Seq::empty()
    } else {
        separator(n + 1) + render_member(m[n as int].0, render(m[n as int].1)) + members_rest(
            m,
            n + 1,
        )
    }
}

/// The text of an array's items is the text of the first `n` and then that of
/// the rest.
pub proof fn lemma_items_rest(a: Seq<Json>, n: nat)
    requires
        n <= a.len(),
    ensures
        render_items(a, a.len()) == render_items(a, n) + items_rest(a, n),
    decreases a.len() - n,
{
    if n == a.len() {
        assert(render_items(a, n) + items_rest(a, n) =~= render_items(a, n));
    } else {
        lemma_items_rest(a, n + 1);
        assert(render_items(a, n + 1) + items_rest(a, n + 1) =~= render_items(a, n) + items_rest(
            a,
            n,
        ));
    }
}

/// The text of an object's members is the text of the first `n` and then that of
/// the rest.
pub proof fn lemma_members_rest(m: Seq<(Seq<char>, Json)>, n: nat)
    requires
        n <= m.len(),
    ensures
        render_members(m, m.len()) == render_members(m, n) + members_rest(m, n),
    decreases m.len() - n,
{
    if n == m.len() {
        assert(render_members(m, n) + members_rest(m, n) =~= render_members(m, n));
    } else {
        lemma_members_rest(m, n + 1);
        assert(render_members(m, n + 1) + members_rest(m, n + 1) =~= render_members(m, n)
            + members_rest(m, n));
    }
}

/// The UTF-8 bytes of a string's text: a quote, the bytes of the escaped text, a
/// quote.
pub proof fn lemma_wire_text(t: Seq<char>)
    ensures
        encode_utf8(quoted(escape(t))) == wire_text(t),
{
    lemma_encode_concat(seq!['"'] + escape(t), seq!['"']);
    lemma_encode_concat(seq!['"'], escape(t));
    lemma_scalar_bytes('"');
}

/// The UTF-8 bytes of the compact text of a well-formed document.
pub proof fn lemma_wire(j: Json)
    requires
        well_formed(j),
    ensures
        encode_utf8(render(j)) == wire(j),
    decreases j, 0nat,
{
    match j {
        Json::Text(t) => {
            lemma_wire_text(t);
        },
        Json::Number(n) => {
            let u = if n[0] == 45 {
                n.skip(1)
            } else {
                n
            };
            lemma_decimal_bytes(u);
            let w = as_chars(n);
            assert forall|k: int| 0 <= k < n.len() implies n[k] < 128 by {
                if n[0] == 45 && k > 0 {
                    assert(n[k] == u[k - 1]);
                }
            }
            assert(is_ascii_chars(w));
            is_ascii_chars_encode_utf8(w);
            assert(encode_utf8(w) =~= n) by {
                assert forall|k: int| 0 <= k < n.len() implies encode_utf8(w)[k] == n[k] by {
                    assert(w[k] as u8 == encode_utf8(w)[k]);
                }
            }
        },
        Json::Object(m) => {
            let body = render_members(m, m.len());
            lemma_members_rest(m, 0);
            assert(body =~= members_rest(m, 0));
            lemma_wire_members(m, 0);
            lemma_encode_concat(seq!['{'] + body, seq!['}']);
            lemma_encode_concat(seq!['{'], body);
            lemma_scalar_bytes('{');
            lemma_scalar_bytes('}');
        },
        Json::Array(a) => {
            let body = render_items(a, a.len());
            lemma_items_rest(a, 0);
            assert(body =~= items_rest(a, 0));
            lemma_wire_items(a, 0);
            lemma_encode_concat(seq!['['] + body, seq![']']);
            lemma_encode_concat(seq!['['], body);
            lemma_scalar_bytes('[');
            lemma_scalar_bytes(']');
        },
        Json::Null => {
            let w = seq!['n', 'u', 'l', 'l'];
            assert(is_ascii_chars(w));
            is_ascii_chars_encode_utf8(w);
            assert(encode_utf8(w) =~= wire(j)) by {
                assert(w[0] as u8 == encode_utf8(w)[0]);
                assert(w[1] as u8 == encode_utf8(w)[1]);
                assert(w[2] as u8 == encode_utf8(w)[2]);
                assert(w[3] as u8 == encode_utf8(w)[3]);
            }
        },
        Json::Boolean(b) => {
            let w = render(j);
            assert(is_ascii_chars(w));
            is_ascii_chars_encode_utf8(w);
            assert(encode_utf8(w) =~= wire(j)) by {
                assert(w[0] as u8 == encode_utf8(w)[0]);
                assert(w[1] as u8 == encode_utf8(w)[1]);
                assert(w[2] as u8 == encode_utf8(w)[2]);
                assert(w[3] as u8 == encode_utf8(w)[3]);
                if !b {
                    assert(w[4] as u8 == encode_utf8(w)[4]);
                }
            }
        },
    }
}

/// The UTF-8 bytes of the comma before an item.
pub proof fn lemma_wire_comma(n: nat)
    ensures
        encode_utf8(separator(n)) == comma(n),
{
    if n > 1 {
        lemma_scalar_bytes(',');
    }
}

/// The UTF-8 bytes of the text of the items of an array from place `n` on.
pub proof fn lemma_wire_items(a: Seq<Json>, n: nat)
    requires
        forall|i: int| 0 <= i < a.len() ==> well_formed(#[trigger] a[i]),
        n <= a.len(),
    ensures
        encode_utf8(items_rest(a, n)) == wire_items(a, n),
    decreases a, a.len() - n,
{
    if n < a.len() {
        let item = render(a[n as int]);
        assert(well_formed(a[n as int]));
        lemma_wire(a[n as int]);
        lemma_wire_items(a, n + 1);
        lemma_wire_comma(n + 1);
        lemma_encode_concat(separator(n + 1) + item, items_rest(a, n + 1));
        lemma_encode_concat(separator(n + 1), item);
    }
}

/// The UTF-8 bytes of the text of the members of an object from place `n` on.
pub proof fn lemma_wire_members(m: Seq<(Seq<char>, Json)>, n: nat)
    requires
        well_formed(Json::Object(m)),
        n <= m.len(),
    ensures
        encode_utf8(members_rest(m, n)) == wire_members(m, n),
    decreases m, m.len() - n,
{
    if n < m.len() {
        let key = m[n as int].0;
        let value = render(m[n as int].1);
        let member = render_member(key, value);
        assert(well_formed(m[n as int].1));
        lemma_wire(m[n as int].1);
        lemma_wire_members(m, n + 1);
        lemma_wire_comma(n + 1);
        lemma_wire_text(key);
        lemma_scalar_bytes(':');
        lemma_encode_concat(quoted(escape(key)) + seq![':'], value);
        lemma_encode_concat(quoted(escape(key)), seq![':']);
        lemma_encode_concat(separator(n + 1) + member, members_rest(m, n + 1));
        lemma_encode_concat(separator(n + 1), member);
    }
}

/// Rendering and then parsing gives the document back. This holds of every
/// well-formed document, whatever its strings and keys hold: the UTF-8 bytes of
/// its compact text are a document, and that document is the one that was
/// rendered.
pub proof fn lemma_round_trip(j: Json)
    requires
        well_formed(j),
    ensures
        document(encode_utf8(render(j))) == Some(j),
{
    lemma_wire(j);
    let s = wire(j);
    assert(stands(s, 0, s));
    lemma_wire_first(j);
    lemma_value_round_trip(s, 0, j);
}

/// A boolean comes back from its text.
pub proof fn lemma_boolean_round_trip(b: bool)
    ensures
        document(encode_utf8(render(Json::Boolean(b)))) == Some(Json::Boolean(b)),
{
    lemma_round_trip(Json::Boolean(b));
}

/// A number comes back from its text.
pub proof fn lemma_number_round_trip(n: Seq<u8>)
    requires
        is_number_text(n),
    ensures
        document(encode_utf8(render(Json::Number(n)))) == Some(Json::Number(n)),
{
    lemma_round_trip(Json::Number(n));
}

/// A string comes back from its text, whatever it holds: quotes, backslashes,
/// control characters and characters of more than one byte too.
pub proof fn lemma_text_round_trip(t: Seq<char>)
    ensures
        document(encode_utf8(render(Json::Text(t)))) == Some(Json::Text(t)),
{
    lemma_round_trip(Json::Text(t));
}

/// A document in whose objects no key stands twice.
pub open spec fn keys_distinct(j: Json) -> bool
    decreases j,
{
    match j {
        Json::Object(m) => distinct_keys(m) && forall|i: int|
            0 <= i < m.len() ==> keys_distinct((#[trigger] m[i]).1),
        Json::Array(a) => forall|i: int| 0 <= i < a.len() ==> keys_distinct(#[trigger] a[i]),
        _ => true,
    }
}

/// A document in whose objects no key stands twice is equal to itself.
pub proof fn lemma_equal_to_itself(j: Json)
    requires
        keys_distinct(j),
    ensures
        json_eq(j, j),
    decreases j, 0nat,
{
    match j {
        Json::Object(m) => {
            lemma_members_equal_to_themselves(m, m.len());
        },
        Json::Array(a) => {
            lemma_items_equal_to_themselves(a, a.len());
        },
        _ => {},
    }
}

/// The first `n` items of a list are equal to themselves.
pub proof fn lemma_items_equal_to_themselves(a: Seq<Json>, n: nat)
    requires
        forall|i: int| 0 <= i < a.len() ==> keys_distinct(#[trigger] a[i]),
        n <= a.len(),
    ensures
        items_eq(a, a, n),
    decreases a, n,
{
    if n > 0 {
        lemma_items_equal_to_themselves(a, (n - 1) as nat);
        assert(keys_distinct(a[n - 1]));
        lemma_equal_to_itself(a[n - 1]);
    }
}

/// The first `n` members of an object with distinct keys are equal to themselves.
pub proof fn lemma_members_equal_to_themselves(m: Seq<(Seq<char>, Json)>, n: nat)
    requires
        keys_distinct(Json::Object(m)),
        n <= m.len(),
    ensures
        members_eq(m, m, n),
    decreases m, n,
{
    if n > 0 {
        lemma_members_equal_to_themselves(m, (n - 1) as nat);
        let key = m[n - 1].0;
        lemma_position(m, key, 0);
        let p = position_from(m, key, 0);
        if p < n - 1 {
            assert(m[p].0 != m[n - 1].0);
        }
        if p > n - 1 {
            assert(m[n - 1].0 != key);
        }
        assert(lookup(m, key) == Some(m[n - 1].1));
        assert(keys_distinct(m[n - 1].1));
        lemma_equal_to_itself(m[n - 1].1);
    }
}

/// A well-formed document has no key twice in any object.
pub proof fn lemma_well_formed_distinct(j: Json)
    requires
        well_formed(j),
    ensures
        keys_distinct(j),
    decreases j,
{
    match j {
        Json::Object(m) => {
            assert forall|i: int| 0 <= i < m.len() implies keys_distinct((#[trigger] m[i]).1) by {
                assert(well_formed(m[i].1));
                lemma_well_formed_distinct(m[i].1);
            }
        },
        Json::Array(a) => {
            assert forall|i: int| 0 <= i < a.len() implies keys_distinct(#[trigger] a[i]) by {
                assert(well_formed(a[i]));
                lemma_well_formed_distinct(a[i]);
            }
        },
        _ => {},
    }
}

/// Rendering and then parsing gives a document that is equal to the one that was
/// rendered, for every well-formed document.
pub proof fn lemma_round_trip_equal(j: Json)
    requires
        well_formed(j),
    ensures
        document(encode_utf8(render(j))) matches Some(k) && json_eq(k, j),
{
    lemma_round_trip(j);
    lemma_well_formed_distinct(j);
    lemma_equal_to_itself(j);
}

/// Serializing is a function of a settled value: the trees that two calls of
/// `serialize` give for it have the same content and the same compact text.
pub proof fn lemma_serialize_deterministic<S: Serialize>(x: S, a: Values, b: Values)
    requires
        x.settled(),
        call_ensures(S::serialize, (&x,), a),
        call_ensures(S::serialize, (&x,), b),
    ensures
        a@ == b@,
        render(a@) == render(b@),
{
}

/// Every document that a text holds is well formed: whatever the text, its numbers
/// are number literals and its objects hold each key once.
pub proof fn lemma_document_well_formed(s: Seq<u8>)
    ensures
        document(s) matches Some(j) ==> well_formed(j),
{
    lemma_value_well_formed(s, 0int + blanks(s, 0));
}

/// The value at `i` is well formed.
pub proof fn lemma_value_well_formed(s: Seq<u8>, i: int)
    ensures
        value_at(s, i) matches Some((j, _)) ==> well_formed(j),
    decreases s.len() - i, 1nat,
{
    if 0 <= i < s.len() {
        let j = i + 1 + blanks(s, i + 1);
        if s[i] == 91 {
            if j < s.len() && s[j] != 93 {
                lemma_items_well_formed(s, j, Seq::empty());
            }
        } else if s[i] == 123 {
            if j < s.len() && s[j] == 34 {
                lemma_members_well_formed(s, j + 1, Seq::empty());
            }
        } else if is_digit(s[i]) || s[i] == 45 {
            let d = if s[i] == 45 {
                i + 1
            } else {
                i
            };
            let end = d + 1 + literal_len(s, d + 1);
            if 0 <= d < s.len() && is_digit(s[d]) && is_decimal(s.subrange(d, end)) {
                lemma_literal_len(s, d + 1);
                let text = s.subrange(i, end);
                if s[i] == 45 {
                    assert(text.skip(1) =~= s.subrange(d, end));
                } else {
                    assert(text[0] == s[i]);
                }
            }
        }
    }
}

/// The array that is read on behind well-formed items is well formed.
pub proof fn lemma_items_well_formed(s: Seq<u8>, j: int, acc: Seq<Json>)
    requires
        forall|i: int| 0 <= i < acc.len() ==> well_formed(#[trigger] acc[i]),
    ensures
        items_from(s, j, acc) matches Some((v, _)) ==> well_formed(v),
    decreases s.len() - j, 2nat,
{
    lemma_value_well_formed(s, j);
    match value_at(s, j) {
        Some((v, k)) => {
            if j < k <= s.len() {
                lemma_after_item_well_formed(s, k, acc.push(v));
            }
        },
        None => {},
    }
}

/// The array whose items so far are well formed is well formed.
pub proof fn lemma_after_item_well_formed(s: Seq<u8>, k: int, acc: Seq<Json>)
    requires
        forall|i: int| 0 <= i < acc.len() ==> well_formed(#[trigger] acc[i]),
    ensures
        after_item(s, k, acc) matches Some((v, _)) ==> well_formed(v),
    decreases s.len() - k, 0nat,
{
    let m = k + blanks(s, k);
    let n = m + 1 + blanks(s, m + 1);
    if 0 <= k && m < s.len() && s[m] == 44 && n < s.len() {
        lemma_items_well_formed(s, n, acc);
    }
}

/// The members are well formed: no key twice, and every value well formed.
pub open spec fn members_well_formed(m: Seq<(Seq<char>, Json)>) -> bool {
    well_formed(Json::Object(m))
}

/// The object that is read on behind well-formed members is well formed.
pub proof fn lemma_members_well_formed(s: Seq<u8>, j: int, acc: Seq<(Seq<char>, Json)>)
    requires
        members_well_formed(acc),
    ensures
        members_from(s, j, acc) matches Some((v, _)) ==> well_formed(v),
    decreases s.len() - j, 2nat,
{
    match text_from(s, j) {
        Some((key, k)) => {
            let m = k + blanks(s, k);
            let n = m + 1 + blanks(s, m + 1);
            if k > j && m < s.len() && s[m] == 58 && n < s.len() {
                lemma_value_well_formed(s, n);
                match value_at(s, n) {
                    Some((v, p)) => {
                        if n < p <= s.len() {
                            lemma_put_well_formed(acc, key, v);
                            lemma_after_member_well_formed(s, p, put(acc, key, v));
                        }
                    },
                    None => {},
                }
            }
        },
        None => {},
    }
}

/// The object whose members so far are well formed is well formed.
pub proof fn lemma_after_member_well_formed(s: Seq<u8>, p: int, acc: Seq<(Seq<char>, Json)>)
    requires
        members_well_formed(acc),
    ensures
        after_member(s, p, acc) matches Some((v, _)) ==> well_formed(v),
    decreases s.len() - p, 0nat,
{
    let q = p + blanks(s, p);
    let r = q + 1 + blanks(s, q + 1);
    if 0 <= p && q < s.len() && s[q] == 44 && r < s.len() && s[r] == 34 {
        lemma_members_well_formed(s, r + 1, acc);
    }
}

/// Putting a well-formed value among well-formed members leaves them well formed.
pub proof fn lemma_put_well_formed(m: Seq<(Seq<char>, Json)>, key: Seq<char>, value: Json)
    requires
        members_well_formed(m),
        well_formed(value),
    ensures
        members_well_formed(put(m, key, value)),
{
    lemma_put_distinct(m, key, value);
    lemma_position(m, key, 0);
    let p = put(m, key, value);
    let at = position_from(m, key, 0);
    assert forall|i: int| 0 <= i < p.len() implies well_formed((#[trigger] p[i]).1) by {
        if i != at {
            assert(well_formed(m[i].1));
        }
    }
}

} // verus!
