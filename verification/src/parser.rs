use crate::error::ParseError;
use crate::grammar::{
    after_item, after_member, blanks, document_from, has_bytes, lemma_literal_len,
    lemma_value_advances, literal_len, string_from, text_from, unescaped, value_at,
};
use crate::number::{is_number_text, Number};
use crate::values::{lemma_array_view, list_view, put, Json, Members, Values};
use vstd::prelude::*;
use vstd::string::*;

verus! {

/// A cursor over the bytes of a text.
pub struct Parser<'a> {
    source: &'a [u8],
    index: usize,
    length: usize,
}

/// A container that is being read: an array with the items read so far, or an
/// object with the members read so far and the key whose value comes next.
enum StackBlock {
    Array(Vec<Values>),
    Struct(Members, String),
}

/// What a container that is being read holds.
enum Frame {
    Array(Seq<Json>),
    Object(Seq<(Seq<char>, Json)>, Seq<char>),
}

impl View for StackBlock {
    type V = Frame;

    closed spec fn view(&self) -> Frame {
        match self {
            StackBlock::Array(a) => Frame::Array(list_view(a@)),
            StackBlock::Struct(m, key) => Frame::Object(m@, key@),
        }
    }
}

/// The containers of a stack, from the outermost to the innermost.
spec fn frames(stack: Seq<StackBlock>) -> Seq<Frame> {
    Seq::new(stack.len(), |i: int| stack[i]@)
}

/// The document that comes out when the value `v`, which ends at `k`, is handed to
/// the innermost open container and the text is read on from there.
spec fn resume(s: Seq<u8>, open: Seq<Frame>, v: Json, k: int) -> Option<Json>
    decreases open.len(),
{
    if open.len() == 0 {
        if k + blanks(s, k) == s.len() {
            Some(v)
        } else {
            None
        }
    } else {
        let closed = match open.last() {
            Frame::Array(acc) => after_item(s, k, acc.push(v)),
            Frame::Object(acc, key) => after_member(s, k, put(acc, key, v)),
        };
        match closed {
            Some((w, e)) => resume(s, open.drop_last(), w, e),
            None => None,
        }
    }
}

/// The document that comes out when the value that starts at `i` is read and
/// handed to the innermost open container.
spec fn pending(s: Seq<u8>, open: Seq<Frame>, i: int) -> Option<Json> {
    match value_at(s, i) {
        Some((v, k)) => resume(s, open, v, k),
        None => None,
    }
}

impl<'a> Parser<'a> {
    #[verifier::type_invariant]
    spec fn in_bounds(self) -> bool {
        self.index <= self.length && self.length == self.source@.len()
    }

    /// The bytes of the text.
    pub closed spec fn bytes(&self) -> Seq<u8> {
        self.source@
    }

    /// The place of the next byte that will be read.
    pub closed spec fn position(&self) -> int {
        self.index as int
    }

    /// A cursor at the start of `source`.
    pub fn new(source: &'a str) -> (r: Self)
        ensures
            r.bytes() == source.spec_bytes(),
            r.position() == 0,
    {
        let bytes = source.as_bytes();
        Parser { source: bytes, index: 0, length: bytes.len() }
    }

    /// Whether the cursor stands at the end of the text.
    pub fn is_eof(&self) -> (r: bool)
        ensures
            r == (self.position() == self.bytes().len()),
            0 <= self.position() <= self.bytes().len(),
    {
        proof {
            use_type_invariant(self);
        }
        self.index == self.length
    }

    /// The byte under the cursor.
    fn read_byte(&self) -> (b: u8)
        requires
            self.position() < self.bytes().len(),
        ensures
            b == self.bytes()[self.position()],
    {
        self.source[self.index]
    }

    /// Moves the cursor over one byte.
    fn bump(&mut self)
        requires
            old(self).position() < old(self).bytes().len(),
        ensures
            final(self).bytes() == old(self).bytes(),
            final(self).position() == old(self).position() + 1,
    {
        proof {
            use_type_invariant(&*self);
        }
        self.index = self.index + 1;
    }

    /// The failure that every byte out of place gives.
    fn unexpected_character<T: Sized>(&mut self) -> (r: Result<T, ParseError>)
        ensures
            r matches Err(e) && e@ == Seq::<char>::empty(),
            *final(self) == *old(self),
    {
        Err(ParseError::new())
    }

    /// Reads one byte; fails at the end of the text.
    fn expect_byte(&mut self) -> (r: Result<u8, ParseError>)
        ensures
            final(self).bytes() == old(self).bytes(),
            0 <= old(self).position() <= old(self).bytes().len(),
            match r {
                Ok(b) => old(self).position() < old(self).bytes().len() && b == old(self).bytes()[old(self).position()] && final(self).position() == old(self).position()
                    + 1,
                Err(e) => old(self).position() == old(self).bytes().len() && e@ == Seq::<
                    char,
                >::empty() && final(self).position() == old(self).position(),
            },
    {
        if self.is_eof() {
            return Err(ParseError::new());
        }
        let ch = self.read_byte();
        self.bump();
        Ok(ch)
    }

    /// Passes over whitespace and reads the byte behind it; fails where the text
    /// ends first.
    fn expect_byte_ignore_whitespace(&mut self) -> (r: Result<u8, ParseError>)
        ensures
            final(self).bytes() == old(self).bytes(),
            0 <= old(self).position() <= old(self).bytes().len(),
            match r {
                Ok(b) => {
                    let j = old(self).position() + blanks(old(self).bytes(), old(self).position());
                    j < old(self).bytes().len() && b == old(self).bytes()[j] && final(self).position() == j + 1
                },
                Err(e) => old(self).position() + blanks(old(self).bytes(), old(self).position())
                    >= old(self).bytes().len() && e@ == Seq::<char>::empty(),
            },
    {
        proof {
            use_type_invariant(&*self);
        }
        loop
            invariant
                self.bytes() == old(self).bytes(),
                0 <= old(self).position() <= self.position() <= self.bytes().len(),
                old(self).position() + blanks(old(self).bytes(), old(self).position())
                    == self.position() + blanks(self.bytes(), self.position()),
            decreases self.bytes().len() - self.position(),
        {
            match self.expect_byte() {
                Err(e) => {
                    return Err(e);
                },
                Ok(ch) => {
                    if !(9 <= ch && ch <= 13 || ch == 32) {
                        return Ok(ch);
                    }
                },
            }
        }
    }

    /// Passes over whitespace; fails where anything else stands before the end of
    /// the text.
    fn expect_eof(&mut self) -> (r: Result<(), ParseError>)
        ensures
            final(self).bytes() == old(self).bytes(),
            match r {
                Ok(_) => old(self).position() + blanks(old(self).bytes(), old(self).position())
                    == old(self).bytes().len() && final(self).position() == final(self).bytes().len(),
                Err(e) => old(self).position() + blanks(old(self).bytes(), old(self).position())
                    != old(self).bytes().len() && e@ == Seq::<char>::empty(),
            },
    {
        proof {
            use_type_invariant(&*self);
        }
        while !self.is_eof()
            invariant
                self.bytes() == old(self).bytes(),
                0 <= old(self).position() <= self.position() <= self.bytes().len(),
                old(self).position() + blanks(old(self).bytes(), old(self).position())
                    == self.position() + blanks(self.bytes(), self.position()),
            decreases self.bytes().len() - self.position(),
        {
            let ch = self.read_byte();
            self.bump();
            if !(9 <= ch && ch <= 13 || ch == 32) {
                return self.unexpected_character();
            }
        }
        Ok(())
    }

    /// Reads the bytes of `word`; fails where the text holds anything else.
    fn expect_sequence(&mut self, word: &[u8]) -> (r: Result<(), ParseError>)
        ensures
            final(self).bytes() == old(self).bytes(),
            match r {
                Ok(_) => has_bytes(old(self).bytes(), old(self).position(), word@) && final(self).position() == old(self).position() + word@.len(),
                Err(e) => !has_bytes(old(self).bytes(), old(self).position(), word@) && e@
                    == Seq::<char>::empty(),
            },
    {
        proof {
            use_type_invariant(&*self);
        }
        let ghost s = self.bytes();
        let ghost start = self.position();
        let mut n: usize = 0;
        while n < word.len()
            invariant
                self.bytes() == s,
                s == old(self).bytes(),
                start == old(self).position(),
                n <= word@.len(),
                self.position() == start + n,
                0 <= start,
                self.position() <= s.len(),
                s.subrange(start, start + n) == word@.take(n as int),
            decreases word@.len() - n,
        {
            match self.expect_byte() {
                Err(e) => {
                    return Err(e);
                },
                Ok(ch) => {
                    if ch != word[n] {
                        proof {
                            if has_bytes(s, start, word@) {
                                assert(s.subrange(start, start + word@.len())[n as int]
                                    == word@[n as int]);
                            }
                        }
                        return self.unexpected_character();
                    }
                    assert(s.subrange(start, start + n + 1) =~= word@.take(n + 1));
                },
            }
            n += 1;
        }
        assert(word@.take(n as int) =~= word@);
        Ok(())
    }

    /// Reads the bytes of a string literal from behind its opening quote to its
    /// closing quote.
    fn expect_bytes(&mut self) -> (r: Result<Vec<u8>, ParseError>)
        ensures
            final(self).bytes() == old(self).bytes(),
            match r {
                Ok(t) => string_from(old(self).bytes(), old(self).position(), Seq::empty())
                    == Some((t@, final(self).position())) && old(self).position() < final(
                    self).position() <= old(self).bytes().len(),
                Err(e) => string_from(old(self).bytes(), old(self).position(), Seq::empty())
                    is None && e@ == Seq::<char>::empty(),
            },
    {
        proof {
            use_type_invariant(&*self);
        }
        let ghost s = self.bytes();
        let ghost start = self.position();
        let mut string: Vec<u8> = Vec::new();
        loop
            invariant
                self.bytes() == s,
                s == old(self).bytes(),
                start == old(self).position(),
                0 <= start <= self.position() <= s.len(),
                string_from(s, start, Seq::empty()) == string_from(s, self.position(), string@),
            decreases s.len() - self.position(),
        {
            if self.is_eof() {
                return self.unexpected_character();
            }
            let ch = self.read_byte();
            self.bump();
            if ch == 34 {
                return Ok(string);
            }
            if ch == 92 {
                let escaped = match self.expect_byte() {
                    Err(e) => {
                        return Err(e);
                    },
                    Ok(b) => b,
                };
                if escaped != 117 {
                    let plain: u8 = if escaped == 34 || escaped == 92 || escaped == 47 {
                        escaped
                    } else if escaped == 98 {
                        8
                    } else if escaped == 102 {
                        12
                    } else if escaped == 116 {
                        9
                    } else if escaped == 114 {
                        13
                    } else if escaped == 110 {
                        10
                    } else {
                        return self.unexpected_character();
                    };
                    assert(unescaped(escaped) == Some(plain));
                    string.push(plain);
                }
            } else {
                string.push(ch);
            }
        }
    }

    /// Reads a string literal from behind its opening quote to its closing quote:
    /// the text that its bytes encode.
    fn expect_string(&mut self) -> (r: Result<String, ParseError>)
        ensures
            final(self).bytes() == old(self).bytes(),
            match r {
                Ok(t) => text_from(old(self).bytes(), old(self).position()) == Some(
                    (t@, final(self).position()),
                ) && old(self).position() < final(self).position() <= old(self).bytes().len(),
                Err(e) => text_from(old(self).bytes(), old(self).position()) is None && e@
                    == Seq::<char>::empty(),
            },
    {
        let bytes = match self.expect_bytes() {
            Ok(b) => b,
            Err(e) => {
                return Err(e);
            },
        };
        match String::from_utf8(bytes) {
            Ok(text) => Ok(text),
            Err(_) => self.unexpected_character(),
        }
    }

    /// Reads the rest of a number literal whose first byte, `num`, was read before.
    fn expect_number(&mut self, num: u8) -> (r: Result<Number, ()>)
        requires
            0 < old(self).position() <= old(self).bytes().len(),
            old(self).bytes()[old(self).position() - 1] == num,
        ensures
            final(self).bytes() == old(self).bytes(),
            final(self).position() == old(self).position() + literal_len(
                old(self).bytes(),
                old(self).position(),
            ),
            final(self).position() <= old(self).bytes().len(),
            match r {
                Ok(n) => n@ == old(self).bytes().subrange(
                    old(self).position() - 1,
                    final(self).position(),
                ) && is_number_text(n@),
                Err(_) => !is_number_text(
                    old(self).bytes().subrange(old(self).position() - 1, final(self).position()),
                ),
            },
    {
        proof {
            use_type_invariant(&*self);
        }
        let ghost s = self.bytes();
        let ghost start = self.position();
        let mut text: Vec<u8> = Vec::new();
        text.push(num);
        assert(text@ =~= s.subrange(start - 1, start));
        loop
            invariant
                self.bytes() == s,
                s == old(self).bytes(),
                start == old(self).position(),
                0 < start <= self.position() <= s.len(),
                text@ == s.subrange(start - 1, self.position()),
                start + literal_len(s, start) == self.position() + literal_len(
                    s,
                    self.position(),
                ),
            ensures
                literal_len(s, self.position()) == 0,
            decreases s.len() - self.position(),
        {
            if self.is_eof() {
                break ;
            }
            let b = self.read_byte();
            if b == 92 || b == 32 || b == 44 || b == 93 || b == 125 || b == 10 || b == 13 {
                break ;
            }
            text.push(b);
            self.bump();
            assert(text@ =~= s.subrange(start - 1, self.position()));
        }
        match Number::from_bytes(text) {
            Some(n) => Ok(n),
            None => Err(()),
        }
    }

    /// Reads, from behind the opening quote of a key, the key, the colon behind it
    /// and the first byte of the value that follows.
    fn expect_key(&mut self) -> (r: Result<(String, u8), ParseError>)
        ensures
            final(self).bytes() == old(self).bytes(),
            match r {
                Ok((key, b)) => {
                    let s = old(self).bytes();
                    let found = text_from(s, old(self).position())->0;
                    let k = found.1;
                    let m = k + blanks(s, k);
                    let n = m + 1 + blanks(s, m + 1);
                    &&& text_from(s, old(self).position()) == Some((key@, k))
                    &&& old(self).position() < k
                    &&& m < s.len()
                    &&& s[m] == 58
                    &&& n < s.len()
                    &&& b == s[n]
                    &&& final(self).position() == n + 1
                },
                Err(e) => {
                    let s = old(self).bytes();
                    &&& e@ == Seq::<char>::empty()
                    &&& match text_from(s, old(self).position()) {
                        Some((_, k)) => {
                            let m = k + blanks(s, k);
                            let n = m + 1 + blanks(s, m + 1);
                            m >= s.len() || s[m] != 58 || n >= s.len()
                        },
                        None => true,
                    }
                },
            },
    {
        let key = match self.expect_string() {
            Ok(t) => t,
            Err(e) => {
                return Err(e);
            },
        };
        let colon = match self.expect_byte_ignore_whitespace() {
            Ok(b) => b,
            Err(e) => {
                return Err(e);
            },
        };
        if colon != 58 {
            return self.unexpected_character();
        }
        let ch = match self.expect_byte_ignore_whitespace() {
            Ok(b) => b,
            Err(e) => {
                return Err(e);
            },
        };
        Ok((key, ch))
    }

    /// Reads the rest of a value that is neither an array nor an object and whose
    /// first byte, `ch`, was read before: a string, a number, `true`, `false` or
    /// `null`.
    fn expect_scalar(&mut self, ch: u8) -> (r: Result<Values, ParseError>)
        requires
            0 < old(self).position() <= old(self).bytes().len(),
            old(self).bytes()[old(self).position() - 1] == ch,
            ch != 91,
            ch != 123,
        ensures
            final(self).bytes() == old(self).bytes(),
            match r {
                Ok(v) => value_at(old(self).bytes(), old(self).position() - 1) == Some(
                    (v@, final(self).position()),
                ) && old(self).position() <= final(self).position() <= old(self).bytes().len(),
                Err(e) => value_at(old(self).bytes(), old(self).position() - 1) is None && e@
                    == Seq::<char>::empty(),
            },
    {
        let ghost s = self.bytes();
        let ghost i = self.position() - 1;
        if ch == 34 {
            match self.expect_string() {
                Ok(t) => Ok(Values::String(t)),
                Err(e) => Err(e),
            }
        } else if 48 <= ch && ch <= 57 {
            proof {
                lemma_literal_len(s, self.position());
            }
            match self.expect_number(ch) {
                Ok(n) => Ok(Values::Number(n)),
                Err(_) => self.unexpected_character(),
            }
        } else if ch == 45 {
            let digit = match self.expect_byte() {
                Ok(b) => b,
                Err(e) => {
                    return Err(e);
                },
            };
            if !(48 <= digit && digit <= 57) {
                return self.unexpected_character();
            }
            proof {
                lemma_literal_len(s, self.position());
            }
            match self.expect_number(digit) {
                Ok(n) => {
                    let m = n.negated();
                    assert(m@ =~= s.subrange(i, self.position()));
                    Ok(Values::Number(m))
                },
                Err(_) => self.unexpected_character(),
            }
        } else if ch == 116 {
            let word: [u8; 3] = [114, 117, 101];
            assert(word@ =~= seq![114u8, 117u8, 101u8]);
            match self.expect_sequence(word.as_slice()) {
                Ok(_) => Ok(Values::Boolean(true)),
                Err(e) => Err(e),
            }
        } else if ch == 102 {
            let word: [u8; 4] = [97, 108, 115, 101];
            assert(word@ =~= seq![97u8, 108u8, 115u8, 101u8]);
            match self.expect_sequence(word.as_slice()) {
                Ok(_) => Ok(Values::Boolean(false)),
                Err(e) => Err(e),
            }
        } else if ch == 110 {
            let word: [u8; 3] = [117, 108, 108];
            assert(word@ =~= seq![117u8, 108u8, 108u8]);
            match self.expect_sequence(word.as_slice()) {
                Ok(_) => Ok(Values::Null),
                Err(e) => Err(e),
            }
        } else {
            self.unexpected_character()
        }
    }

    /// Reads the document that the text holds from the cursor on: whitespace, one
    /// value, whitespace, the end of the text, where the cursor then stands. Arrays
    /// and objects that are being read wait on a stack, so that no nesting is too
    /// deep. Every other text fails, with an empty message.
    pub fn parse(&mut self) -> (r: Result<Values, ParseError>)
        ensures
            final(self).bytes() == old(self).bytes(),
            match r {
                Ok(v) => document_from(old(self).bytes(), old(self).position()) == Some(v@)
                    && final(self).position() == old(self).bytes().len(),
                Err(e) => document_from(old(self).bytes(), old(self).position()) is None && e@
                    == Seq::<char>::empty(),
            },
    {
        proof {
            use_type_invariant(&*self);
        }
        let ghost s = self.bytes();
        let ghost start = self.position();
        let mut stack: Vec<StackBlock> = Vec::with_capacity(3);
        let mut ch = match self.expect_byte_ignore_whitespace() {
            Ok(b) => b,
            Err(e) => {
                return Err(e);
            },
        };
        assert(frames(stack@) =~= Seq::<Frame>::empty());
        loop
            invariant
                self.bytes() == s,
                s == old(self).bytes(),
                start == old(self).position(),
                0 < self.position() <= s.len(),
                ch == s[self.position() - 1],
                document_from(s, start) == pending(s, frames(stack@), self.position() - 1),
            decreases s.len() - self.position(),
        {
            let ghost i = self.position() - 1;
            let ghost open = frames(stack@);
            let mut value = if ch == 91 {
                let next = match self.expect_byte_ignore_whitespace() {
                    Ok(b) => b,
                    Err(e) => {
                        return Err(e);
                    },
                };
                if next != 93 {
                    let block = StackBlock::Array(Vec::with_capacity(2));
                    proof {
                        lemma_value_advances(s, self.position() - 1);
                        assert(block@ == Frame::Array(Seq::<Json>::empty())) by {
                            assert(list_view(block->Array_0@) =~= Seq::<Json>::empty());
                        }
                        assert(frames(stack@.push(block)) =~= open.push(block@));
                        assert(open.push(block@).drop_last() =~= open);
                    }
                    stack.push(block);
                    ch = next;
                    continue ;
                }
                let list: Vec<Values> = Vec::new();
                proof {
                    lemma_array_view(list);
                    assert(list_view(list@) =~= Seq::<Json>::empty());
                }
                Values::Array(list)
            } else if ch == 123 {
                let next = match self.expect_byte_ignore_whitespace() {
                    Ok(b) => b,
                    Err(e) => {
                        return Err(e);
                    },
                };
                if next != 125 {
                    if next != 34 {
                        return self.unexpected_character();
                    }
                    let (key, first) = match self.expect_key() {
                        Ok(p) => p,
                        Err(e) => {
                            return Err(e);
                        },
                    };
                    let block = StackBlock::Struct(Members::new(), key);
                    proof {
                        lemma_value_advances(s, self.position() - 1);
                        assert(frames(stack@.push(block)) =~= open.push(block@));
                        assert(open.push(block@).drop_last() =~= open);
                    }
                    stack.push(block);
                    ch = first;
                    continue ;
                }
                Values::Struct(Members::new())
            } else {
                match self.expect_scalar(ch) {
                    Ok(v) => v,
                    Err(e) => {
                        return Err(e);
                    },
                }
            };
            assert(value_at(s, i) == Some((value@, self.position())));
            loop
                invariant_except_break
                    document_from(s, start) == resume(
                        s,
                        frames(stack@),
                        value@,
                        self.position(),
                    ),
                invariant
                    self.bytes() == s,
                    s == old(self).bytes(),
                    start == old(self).position(),
                    0 <= i < self.position() <= s.len(),
                ensures
                    self.bytes() == s,
                    i + 1 < self.position() <= s.len(),
                    ch == s[self.position() - 1],
                    document_from(s, start) == pending(s, frames(stack@), self.position() - 1),
                decreases s.len() - self.position(),
            {
                let ghost open = frames(stack@);
                let ghost rest = open.drop_last();
                match stack.pop() {
                    None => {
                        match self.expect_eof() {
                            Ok(_) => {
                                return Ok(value);
                            },
                            Err(e) => {
                                return Err(e);
                            },
                        }
                    },
                    Some(StackBlock::Array(mut array)) => {
                        let ghost acc = list_view(array@).push(value@);
                        assert(frames(stack@) =~= rest);
                        array.push(value);
                        assert(list_view(array@) =~= acc);
                        let next = match self.expect_byte_ignore_whitespace() {
                            Ok(b) => b,
                            Err(e) => {
                                return Err(e);
                            },
                        };
                        if next == 44 {
                            let first = match self.expect_byte_ignore_whitespace() {
                                Ok(b) => b,
                                Err(e) => {
                                    return Err(e);
                                },
                            };
                            let block = StackBlock::Array(array);
                            proof {
                                lemma_value_advances(s, self.position() - 1);
                                assert(frames(stack@.push(block)) =~= rest.push(block@));
                                assert(rest.push(block@).drop_last() =~= rest);
                            }
                            stack.push(block);
                            ch = first;
                            break ;
                        } else if next == 93 {
                            proof {
                                lemma_array_view(array);
                            }
                            value = Values::Array(array);
                        } else {
                            return self.unexpected_character();
                        }
                    },
                    Some(StackBlock::Struct(mut object, key)) => {
                        let ghost acc = put(object@, key@, value@);
                        assert(frames(stack@) =~= rest);
                        object.insert(key, value);
                        let next = match self.expect_byte_ignore_whitespace() {
                            Ok(b) => b,
                            Err(e) => {
                                return Err(e);
                            },
                        };
                        if next == 44 {
                            let quote = match self.expect_byte_ignore_whitespace() {
                                Ok(b) => b,
                                Err(e) => {
                                    return Err(e);
                                },
                            };
                            if quote != 34 {
                                return self.unexpected_character();
                            }
                            let (name, first) = match self.expect_key() {
                                Ok(p) => p,
                                Err(e) => {
                                    return Err(e);
                                },
                            };
                            let block = StackBlock::Struct(object, name);
                            proof {
                                lemma_value_advances(s, self.position() - 1);
                                assert(frames(stack@.push(block)) =~= rest.push(block@));
                                assert(rest.push(block@).drop_last() =~= rest);
                            }
                            stack.push(block);
                            ch = first;
                            break ;
                        } else if next == 125 {
                            value = Values::Struct(object);
                        } else {
                            return self.unexpected_character();
                        }
                    },
                }
            }
        }
    }
}

} // verus!
