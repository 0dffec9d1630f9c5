use crate::strings::chars_of;
use crate::values::Json;
use vstd::prelude::*;
use vstd::string::*;

verus! {

/// Each byte as the character with that code.
pub open spec fn as_chars(b: Seq<u8>) -> Seq<char> {
    Seq::new(b.len(), |i: int| b[i] as char)
}

/// A character as it stands inside a rendered string: a backslash before a
/// backslash or a quote, and nothing before any other character.
pub open spec fn escaped_char(c: char) -> Seq<char> {
    if c == '\\' {
        seq!['\\', '\\']
    } else if c == '"' {
        seq!['\\', '"']
    } else {
        seq![c]
    }
}

/// The first `n` characters of `t` as they stand inside a rendered string.
pub open spec fn escape_prefix(t: Seq<char>, n: nat) -> Seq<char>
    decreases n,
{
    if n == 0 || n > t.len() {
        Seq::empty()
    } else {
        escape_prefix(t, (n - 1) as nat) + escaped_char(t[n - 1])
    }
}

/// A text as it stands inside a rendered string.
pub open spec fn escape(t: Seq<char>) -> Seq<char> {
    escape_prefix(t, t.len())
}

/// A text between two quotes.
pub open spec fn quoted(t: Seq<char>) -> Seq<char> {
    seq!['"'] + t + seq!['"']
}

/// The comma that stands before every item but the first.
pub open spec fn separator(n: nat) -> Seq<char> {
    if n > 1 {
        seq![',']
    } else {
        Seq::empty()
    }
}

/// The compact text of a document: no whitespace, strings between quotes with
/// backslashes and quotes escaped, numbers as their literals, the items of an array
/// and the members of an object in their order with commas between them. The key of
/// a member stands as a string does.
pub open spec fn render(j: Json) -> Seq<char>
    decreases j, 0nat,
{
    match j {
        Json::Text(t) => quoted(escape(t)),
        Json::Number(n) => as_chars(n),
        Json::Object(m) => seq!['{'] + render_members(m, m.len()) + seq!['}'],
        Json::Array(a) => seq!['['] + render_items(a, a.len()) + seq![']'],
        Json::Null => seq!['n', 'u', 'l', 'l'],
        Json::Boolean(b) => if b {
            seq!['t', 'r', 'u', 'e']
        } else {
            seq!['f', 'a', 'l', 's', 'e']
        },
    }
}

/// The text of the first `n` items of `a`.
pub open spec fn render_items(a: Seq<Json>, n: nat) -> Seq<char>
    decreases a, n,
{
    if n == 0 || n > a.len() {
        Seq::empty()
    } else {
        render_items(a, (n - 1) as nat) + separator(n) + render(a[n - 1])
    }
}

/// The text of one member: the key as a string, escaped and between quotes, a
/// colon, the value.
pub open spec fn render_member(key: Seq<char>, value: Seq<char>) -> Seq<char> {
    quoted(escape(key)) + seq![':'] + value
}

/// The text of the first `n` members of `m`.
pub open spec fn render_members(m: Seq<(Seq<char>, Json)>, n: nat) -> Seq<char>
    decreases m, n,
{
    if n == 0 || n > m.len() {
        Seq::empty()
    } else {
        render_members(m, (n - 1) as nat) + separator(n) + render_member(
            m[n - 1].0,
            render(m[n - 1].1),
        )
    }
}

/// Puts `t` at the end of `out`, with its backslashes and quotes escaped.
pub fn push_escaped(out: &mut String, t: &str)
    ensures
        final(out)@ == old(out)@ + escape(t@),
{
    let chars = chars_of(t);
    let mut i: usize = 0;
    assert(out@ =~= old(out)@ + escape_prefix(t@, 0));
    while i < chars.len()
        invariant
            i <= chars@.len(),
            chars@ == t@,
            out@ == old(out)@ + escape_prefix(t@, i as nat),
        decreases chars@.len() - i,
    {
        let c = chars[i];
        let ghost before = out@;
        if c == '\\' {
            out.push('\\');
            out.push('\\');
        } else if c == '"' {
            out.push('\\');
            out.push('"');
        } else {
            out.push(c);
        }
        assert(out@ =~= before + escaped_char(c));
        assert(out@ =~= old(out)@ + escape_prefix(t@, (i + 1) as nat));
        i += 1;
    }
}

/// Puts the bytes `b` at the end of `out`, each as the character with its code.
pub fn push_bytes(out: &mut String, b: &[u8])
    ensures
        final(out)@ == old(out)@ + as_chars(b@),
{
    let mut i: usize = 0;
    assert(out@ =~= old(out)@ + as_chars(b@).take(0));
    while i < b.len()
        invariant
            i <= b@.len(),
            out@ == old(out)@ + as_chars(b@).take(i as int),
        decreases b@.len() - i,
    {
        let ghost before = out@;
        out.push(b[i] as char);
        assert(out@ =~= old(out)@ + as_chars(b@).take(i + 1));
        i += 1;
    }
    assert(as_chars(b@).take(i as int) =~= as_chars(b@));
}

} // verus!
