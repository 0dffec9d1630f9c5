use crate::number::{is_decimal, is_digit};
use crate::values::{put, Json};
use vstd::prelude::*;
use vstd::utf8::{decode_utf8, valid_utf8};

verus! {

/// The bytes that may stand between the tokens of a document.
pub open spec fn is_whitespace(b: u8) -> bool {
    9 <= b <= 13 || b == 32
}

/// The number of whitespace bytes that stand in a row from `i` on.
pub open spec fn blanks(s: Seq<u8>, i: int) -> nat
    decreases s.len() - i,
{
    if 0 <= i < s.len() && is_whitespace(s[i]) {
        1 + blanks(s, i + 1)
    } else {
        0
    }
}

/// The bytes that end a number literal: a backslash, a space, a comma, a closing
/// bracket or brace, a line feed, a carriage return.
pub open spec fn ends_number(b: u8) -> bool {
    b == 92 || b == 32 || b == 44 || b == 93 || b == 125 || b == 10 || b == 13
}

/// The number of bytes from `i` on that stand before the next byte that ends a
/// number literal, or before the end of the text.
pub open spec fn literal_len(s: Seq<u8>, i: int) -> nat
    decreases s.len() - i,
{
    if 0 <= i < s.len() && !ends_number(s[i]) {
        1 + literal_len(s, i + 1)
    } else {
        0
    }
}

/// The byte that an escape stands for, by the byte behind its backslash.
pub open spec fn unescaped(e: u8) -> Option<u8> {
    if e == 34 || e == 92 || e == 47 {
        Some(e)
    } else if e == 98 {
        Some(8u8)
    } else if e == 102 {
        Some(12u8)
    } else if e == 116 {
        Some(9u8)
    } else if e == 114 {
        Some(13u8)
    } else if e == 110 {
        Some(10u8)
    } else {
        None
    }
}

/// The rest of a string literal that goes on at `i`, behind the bytes `acc` that
/// were read already: all its bytes and the place behind the closing quote. Every
/// byte stands for itself; an escape is the byte it stands for, but for `\u`, which
/// is passed over and stands for nothing.
pub open spec fn string_from(s: Seq<u8>, i: int, acc: Seq<u8>) -> Option<(Seq<u8>, int)>
    decreases s.len() - i,
{
    if i < 0 || i >= s.len() {
        None
    } else if s[i] == 34 {
        Some((acc, i + 1))
    } else if s[i] == 92 {
        if i + 1 >= s.len() {
            None
        } else if s[i + 1] == 117 {
            string_from(s, i + 2, acc)
        } else {
            match unescaped(s[i + 1]) {
                Some(c) => string_from(s, i + 2, acc.push(c)),
                None => None,
            }
        }
    } else {
        string_from(s, i + 1, acc.push(s[i]))
    }
}

/// The text of the string literal that goes on at `i`, and the place behind its
/// closing quote: the bytes of the literal, read as UTF-8.
pub open spec fn text_from(s: Seq<u8>, i: int) -> Option<(Seq<char>, int)> {
    match string_from(s, i, Seq::empty()) {
        Some((bytes, k)) => if valid_utf8(bytes) {
            Some((decode_utf8(bytes), k))
        } else {
            None
        },
        None => None,
    }
}

/// The number whose literal starts at `i`, with a digit or with a minus sign and a
/// digit, and goes on to the next byte that ends a number literal.
pub open spec fn number_at(s: Seq<u8>, i: int) -> Option<(Json, int)> {
    let d = if s[i] == 45 {
        i + 1
    } else {
        i
    };
    let end = d + 1 + literal_len(s, d + 1);
    if 0 <= d < s.len() && is_digit(s[d]) && is_decimal(s.subrange(d, end)) {
        Some((Json::Number(s.subrange(i, end)), end))
    } else {
        None
    }
}

/// Whether the bytes `w` stand in `s` from `i` on.
pub open spec fn has_bytes(s: Seq<u8>, i: int, w: Seq<u8>) -> bool {
    0 <= i && i + w.len() <= s.len() && s.subrange(i, i + w.len()) == w
}

/// The value that starts at `i`, and the place behind it.
pub open spec fn value_at(s: Seq<u8>, i: int) -> Option<(Json, int)>
    decreases s.len() - i, 1nat,
{
    if i < 0 || i >= s.len() {
        None
    } else if s[i] == 91 {
        let j = i + 1 + blanks(s, i + 1);
        if j >= s.len() {
            None
        } else if s[j] == 93 {
            Some((Json::Array(Seq::empty()), j + 1))
        } else {
            items_from(s, j, Seq::empty())
        }
    } else if s[i] == 123 {
        let j = i + 1 + blanks(s, i + 1);
        if j >= s.len() {
            None
        } else if s[j] == 125 {
            Some((Json::Object(Seq::empty()), j + 1))
        } else if s[j] == 34 {
            members_from(s, j + 1, Seq::empty())
        } else {
            None
        }
    } else if s[i] == 34 {
        match text_from(s, i + 1) {
            Some((t, k)) => Some((Json::Text(t), k)),
            None => None,
        }
    } else if is_digit(s[i]) || s[i] == 45 {
        number_at(s, i)
    } else if s[i] == 116 {
        if has_bytes(s, i + 1, seq![114u8, 117u8, 101u8]) {
            Some((Json::Boolean(true), i + 4))
        } else {
            None
        }
    } else if s[i] == 102 {
        if has_bytes(s, i + 1, seq![97u8, 108u8, 115u8, 101u8]) {
            Some((Json::Boolean(false), i + 5))
        } else {
            None
        }
    } else if s[i] == 110 {
        if has_bytes(s, i + 1, seq![117u8, 108u8, 108u8]) {
            Some((Json::Null, i + 4))
        } else {
            None
        }
    } else {
        None
    }
}

/// The array whose next item starts at `j`, behind the items `acc`.
pub open spec fn items_from(s: Seq<u8>, j: int, acc: Seq<Json>) -> Option<(Json, int)>
    decreases s.len() - j, 2nat,
{
    match value_at(s, j) {
        Some((v, k)) => if j < k <= s.len() {
            after_item(s, k, acc.push(v))
        } else {
            None
        },
        None => None,
    }
}

/// The array whose items so far are `acc`, the last of them ending at `k`: a comma
/// and the next item follow, or the closing bracket.
pub open spec fn after_item(s: Seq<u8>, k: int, acc: Seq<Json>) -> Option<(Json, int)>
    decreases s.len() - k, 0nat,
{
    let m = k + blanks(s, k);
    let n = m + 1 + blanks(s, m + 1);
    if k < 0 || m >= s.len() {
        None
    } else if s[m] == 44 {
        if n < s.len() {
            items_from(s, n, acc)
        } else {
            None
        }
    } else if s[m] == 93 {
        Some((Json::Array(acc), m + 1))
    } else {
        None
    }
}

/// The object whose next key starts at `j`, behind its opening quote, and whose
/// members so far are `acc`. A key that came before gets the new value.
pub open spec fn members_from(s: Seq<u8>, j: int, acc: Seq<(Seq<char>, Json)>) -> Option<
    (Json, int),
>
    decreases s.len() - j, 2nat,
{
    match text_from(s, j) {
        Some((key, k)) => {
            let m = k + blanks(s, k);
            let n = m + 1 + blanks(s, m + 1);
            if k <= j || m >= s.len() || s[m] != 58 || n >= s.len() {
                None
            } else {
                match value_at(s, n) {
                    Some((v, p)) => if n < p <= s.len() {
                        after_member(s, p, put(acc, key, v))
                    } else {
                        None
                    },
                    None => None,
                }
            }
        },
        None => None,
    }
}

/// The object whose members so far are `acc`, the last of them ending at `p`: a
/// comma and the next member follow, or the closing brace.
pub open spec fn after_member(s: Seq<u8>, p: int, acc: Seq<(Seq<char>, Json)>) -> Option<
    (Json, int),
>
    decreases s.len() - p, 0nat,
{
    let q = p + blanks(s, p);
    let r = q + 1 + blanks(s, q + 1);
    if p < 0 || q >= s.len() {
        None
    } else if s[q] == 44 {
        if r < s.len() && s[r] == 34 {
            members_from(s, r + 1, acc)
        } else {
            None
        }
    } else if s[q] == 125 {
        Some((Json::Object(acc), q + 1))
    } else {
        None
    }
}

/// The document that `s` holds from `i` on: whitespace, one value, whitespace, and
/// then the end of the text. `None` where `s` holds anything else.
pub open spec fn document_from(s: Seq<u8>, i: int) -> Option<Json> {
    match value_at(s, i + blanks(s, i)) {
        Some((v, k)) => if k + blanks(s, k) == s.len() {
            Some(v)
        } else {
            None
        },
        None => None,
    }
}

/// The document that `s` holds.
pub open spec fn document(s: Seq<u8>) -> Option<Json> {
    document_from(s, 0)
}

/// Whitespace never runs past the end of the text, and behind it stands a byte
/// that is none.
pub proof fn lemma_blanks(s: Seq<u8>, i: int)
    requires
        0 <= i <= s.len(),
    ensures
        i + blanks(s, i) <= s.len(),
        i + blanks(s, i) < s.len() ==> !is_whitespace(s[i + blanks(s, i)]),
        forall|x: int| i <= x < i + blanks(s, i) ==> is_whitespace(#[trigger] s[x]),
    decreases s.len() - i,
{
    if i < s.len() && is_whitespace(s[i]) {
        lemma_blanks(s, i + 1);
    }
}

/// A number literal never runs past the end of the text, and behind it stands a
/// byte that ends it.
pub proof fn lemma_literal_len(s: Seq<u8>, i: int)
    requires
        0 <= i <= s.len(),
    ensures
        i + literal_len(s, i) <= s.len(),
        i + literal_len(s, i) < s.len() ==> ends_number(s[i + literal_len(s, i)]),
        forall|x: int| i <= x < i + literal_len(s, i) ==> !ends_number(#[trigger] s[x]),
    decreases s.len() - i,
{
    if i < s.len() && !ends_number(s[i]) {
        lemma_literal_len(s, i + 1);
    }
}

/// A string literal ends behind the place where it went on, and within the text.
pub proof fn lemma_string_advances(s: Seq<u8>, i: int, acc: Seq<u8>)
    ensures
        string_from(s, i, acc) matches Some((_, k)) ==> i < k <= s.len(),
    decreases s.len() - i,
{
    if 0 <= i < s.len() && s[i] != 34 {
        if s[i] == 92 {
            if i + 1 < s.len() {
                if s[i + 1] == 117 {
                    lemma_string_advances(s, i + 2, acc);
                } else if unescaped(s[i + 1]) is Some {
                    lemma_string_advances(s, i + 2, acc.push(unescaped(s[i + 1])->0));
                }
            }
        } else {
            lemma_string_advances(s, i + 1, acc.push(s[i]));
        }
    }
}

/// A value ends behind the place where it starts, and within the text.
pub proof fn lemma_value_advances(s: Seq<u8>, i: int)
    ensures
        value_at(s, i) matches Some((_, k)) ==> i < k <= s.len(),
    decreases s.len() - i, 1nat,
{
    if 0 <= i < s.len() {
        if s[i] == 91 {
            lemma_blanks(s, i + 1);
            if i + 1 + blanks(s, i + 1) < s.len() {
                lemma_items_advance(s, i + 1 + blanks(s, i + 1), Seq::empty());
            }
        } else if s[i] == 123 {
            lemma_blanks(s, i + 1);
            if i + 1 + blanks(s, i + 1) < s.len() {
                lemma_members_advance(s, i + 1 + blanks(s, i + 1) + 1, Seq::empty());
            }
        } else if s[i] == 34 {
            lemma_string_advances(s, i + 1, Seq::empty());
        } else if is_digit(s[i]) || s[i] == 45 {
            let d = if s[i] == 45 {
                i + 1
            } else {
                i
            };
            if d < s.len() {
                lemma_literal_len(s, d + 1);
            }
        }
    }
}

/// An array ends behind the place where its next item starts, and within the text.
pub proof fn lemma_items_advance(s: Seq<u8>, j: int, acc: Seq<Json>)
    ensures
        items_from(s, j, acc) matches Some((_, k)) ==> j < k <= s.len(),
    decreases s.len() - j, 2nat,
{
    match value_at(s, j) {
        Some((v, k)) => {
            if j < k <= s.len() {
                lemma_after_item_advances(s, k, acc.push(v));
            }
        },
        None => {},
    }
}

/// An array ends behind the place where its last item ended, and within the text.
pub proof fn lemma_after_item_advances(s: Seq<u8>, k: int, acc: Seq<Json>)
    ensures
        after_item(s, k, acc) matches Some((_, e)) ==> k < e <= s.len(),
    decreases s.len() - k, 0nat,
{
    let m = k + blanks(s, k);
    let n = m + 1 + blanks(s, m + 1);
    if 0 <= k && m < s.len() && s[m] == 44 && n < s.len() {
        lemma_items_advance(s, n, acc);
    }
}

/// An object ends behind the place where its next key starts, and within the text.
pub proof fn lemma_members_advance(s: Seq<u8>, j: int, acc: Seq<(Seq<char>, Json)>)
    ensures
        members_from(s, j, acc) matches Some((_, e)) ==> j < e <= s.len(),
    decreases s.len() - j, 2nat,
{
    lemma_string_advances(s, j, Seq::empty());
    match text_from(s, j) {
        Some((key, k)) => {
            let m = k + blanks(s, k);
            let n = m + 1 + blanks(s, m + 1);
            if k > j && m < s.len() && s[m] == 58 && n < s.len() {
                match value_at(s, n) {
                    Some((v, p)) => {
                        if n < p <= s.len() {
                            lemma_after_member_advances(s, p, put(acc, key, v));
                        }
                    },
                    None => {},
                }
            }
        },
        None => {},
    }
}

/// An object ends behind the place where its last member ended, and within the text.
pub proof fn lemma_after_member_advances(s: Seq<u8>, p: int, acc: Seq<(Seq<char>, Json)>)
    ensures
        after_member(s, p, acc) matches Some((_, e)) ==> p < e <= s.len(),
    decreases s.len() - p, 0nat,
{
    let q = p + blanks(s, p);
    let r = q + 1 + blanks(s, q + 1);
    if 0 <= p && q < s.len() && s[q] == 44 && r < s.len() && s[r] == 34 {
        lemma_members_advance(s, r + 1, acc);
    }
}

} // verus!
