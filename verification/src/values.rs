use crate::number::Number;
use crate::render::{
    as_chars, escape, push_bytes, push_escaped, quoted, render, render_items, render_member,
    render_members, separator,
};
use vstd::string::*;
use vstd::prelude::*;

verus! {

/// The mathematical content of a JSON document. Text is a sequence of characters, a
/// number is the bytes of its literal, and the members of an object stand in the
/// order in which their keys first came.
pub enum Json {
    Text(Seq<char>),
    Number(Seq<u8>),
    Object(Seq<(Seq<char>, Json)>),
    Array(Seq<Json>),
    Null,
    Boolean(bool),
}

/// The first place at or behind `from` where `key` stands in `m`, or the length of
/// `m` where it stands nowhere.
pub open spec fn position_from(m: Seq<(Seq<char>, Json)>, key: Seq<char>, from: int) -> int
    decreases m.len() - from,
{
    if from < 0 || from >= m.len() {
        m.len() as int
    } else if m[from].0 == key {
        from
    } else {
        position_from(m, key, from + 1)
    }
}

/// The value that `m` holds under `key`.
pub open spec fn lookup(m: Seq<(Seq<char>, Json)>, key: Seq<char>) -> Option<Json> {
    let i = position_from(m, key, 0);
    if i < m.len() {
        Some(m[i].1)
    } else {
        None
    }
}

/// `m` with `value` under `key`: in the place of the value that was there, or at the
/// end where the key is new.
pub open spec fn put(m: Seq<(Seq<char>, Json)>, key: Seq<char>, value: Json) -> Seq<
    (Seq<char>, Json),
> {
    let i = position_from(m, key, 0);
    if i < m.len() {
        m.update(i, (key, value))
    } else {
        m.push((key, value))
    }
}

/// `m` without the member under `key`.
pub open spec fn without(m: Seq<(Seq<char>, Json)>, key: Seq<char>) -> Seq<(Seq<char>, Json)> {
    let i = position_from(m, key, 0);
    if i < m.len() {
        m.remove(i)
    } else {
        m
    }
}

/// No key stands twice in `m`.
pub open spec fn distinct_keys(m: Seq<(Seq<char>, Json)>) -> bool {
    forall|i: int, j: int| 0 <= i < j < m.len() ==> m[i].0 != m[j].0
}

/// The place of a key lies within the members or at their end; the key stands
/// there, and nowhere before.
pub proof fn lemma_position(m: Seq<(Seq<char>, Json)>, key: Seq<char>, from: int)
    requires
        0 <= from <= m.len(),
    ensures
        from <= position_from(m, key, from) <= m.len(),
        position_from(m, key, from) < m.len() ==> m[position_from(m, key, from)].0 == key,
        forall|i: int| from <= i < position_from(m, key, from) ==> (#[trigger] m[i]).0 != key,
    decreases m.len() - from,
{
    if from < m.len() && m[from].0 != key {
        lemma_position(m, key, from + 1);
    }
}

/// Putting a member keeps the keys distinct.
pub proof fn lemma_put_distinct(m: Seq<(Seq<char>, Json)>, key: Seq<char>, value: Json)
    requires
        distinct_keys(m),
    ensures
        distinct_keys(put(m, key, value)),
        lookup(put(m, key, value), key) == Some(value),
{
    lemma_position(m, key, 0);
    let i = position_from(m, key, 0);
    let p = put(m, key, value);
    assert forall|a: int, b: int| 0 <= a < b < p.len() implies p[a].0 != p[b].0 by {
        if i < m.len() {
            assert(m[a].0 != m[b].0);
        } else if b < m.len() {
            assert(m[a].0 != m[b].0);
        } else {
            assert(m[a].0 != key);
        }
    }
    lemma_position(p, key, 0);
    let k = position_from(p, key, 0);
    if i < m.len() {
        assert(p[i].0 == key);
        if k < i {
            assert(m[k].0 != key);
        }
    } else {
        assert(p[m.len() as int].0 == key);
        if k < m.len() {
            assert(m[k].0 != key);
        }
    }
}

/// Taking a member out keeps the keys distinct, and the key is then absent.
pub proof fn lemma_without_distinct(m: Seq<(Seq<char>, Json)>, key: Seq<char>)
    requires
        distinct_keys(m),
    ensures
        distinct_keys(without(m, key)),
        lookup(without(m, key), key) is None,
{
    lemma_position(m, key, 0);
    let i = position_from(m, key, 0);
    let p = without(m, key);
    if i < m.len() {
        assert forall|a: int, b: int| 0 <= a < b < p.len() implies p[a].0 != p[b].0 by {
            let a0 = if a < i { a } else { a + 1 };
            let b0 = if b < i { b } else { b + 1 };
            assert(m[a0].0 != m[b0].0);
        }
    }
    lemma_position(p, key, 0);
    let k = position_from(p, key, 0);
    if k < p.len() {
        if i < m.len() {
            let k0 = if k < i { k } else { k + 1 };
            assert(m[k0].0 == key);
            if k0 < i {
                assert(m[k0].0 != key);
            } else {
                assert(m[i].0 != m[k0].0);
            }
        } else {
            assert(m[k].0 != key);
        }
    }
}

/// The members of an object: values under distinct keys, in the order in which the
/// keys first came.
#[derive(Debug)]
pub struct Members {
    entries: Vec<(String, Values)>,
}

/// A JSON document as a tree.
#[derive(Debug)]
pub enum Values {
    /// A string.
    String(String),
    /// A number.
    Number(Number),
    /// An object.
    Struct(Members),
    /// An array.
    Array(Vec<Values>),
    /// The value `null`.
    Null,
    /// The value `true` or `false`.
    Boolean(bool),
}

impl View for Members {
    type V = Seq<(Seq<char>, Json)>;

    closed spec fn view(&self) -> Seq<(Seq<char>, Json)>
        decreases self,
    {
        Seq::new(
            self.entries@.len(),
            |i: int|
                if 0 <= i < self.entries@.len() {
                    (self.entries@[i].0@, self.entries@[i].1@)
                } else {
                    (Seq::empty(), Json::Null)
                },
        )
    }
}

impl View for Values {
    type V = Json;

    open spec fn view(&self) -> Json
        decreases self,
    {
        match self {
            Values::String(s) => Json::Text(s@),
            Values::Number(n) => Json::Number(n@),
            Values::Struct(m) => Json::Object(m@),
            Values::Array(a) => Json::Array(
                Seq::new(a@.len(), |i: int| if 0 <= i < a@.len() { a@[i]@ } else { Json::Null }),
            ),
            Values::Null => Json::Null,
            Values::Boolean(b) => Json::Boolean(*b),
        }
    }
}

/// The contents of a list of trees.
pub open spec fn list_view(a: Seq<Values>) -> Seq<Json> {
    Seq::new(a.len(), |i: int| a[i]@)
}

/// An array's content is the contents of its items, in their order.
pub proof fn lemma_array_view(a: Vec<Values>)
    ensures
        Values::Array(a)@ == Json::Array(list_view(a@)),
{
    assert(Values::Array(a)@->Array_0 =~= list_view(a@));
}

/// The contents of a list of keys and trees.
pub open spec fn pairs_view(e: Seq<(String, Values)>) -> Seq<(Seq<char>, Json)> {
    Seq::new(e.len(), |i: int| (e[i].0@, e[i].1@))
}

impl Members {
    proof fn lemma_view(self)
        ensures
            self@ == pairs_view(self.entries@),
    {
        assert(self@ =~= pairs_view(self.entries@));
    }

    #[verifier::type_invariant]
    spec fn distinct(self) -> bool {
        distinct_keys(self@)
    }

    /// No members.
    pub fn new() -> (r: Members)
        ensures
            r@ == Seq::<(Seq<char>, Json)>::empty(),
    {
        let r = Members { entries: Vec::new() };
        assert(r@ =~= Seq::<(Seq<char>, Json)>::empty());
        r
    }

    /// The keys and values, in the order of the members.
    pub fn into_entries(self) -> (r: Vec<(String, Values)>)
        ensures
            pairs_view(r@) == self@,
    {
        proof {
            self.lemma_view();
        }
        self.entries
    }

    /// The number of members. No key stands twice among them.
    pub fn len(&self) -> (r: usize)
        ensures
            r == self@.len(),
            distinct_keys(self@),
    {
        proof {
            use_type_invariant(self);
        }
        self.entries.len()
    }

    /// Whether there is no member.
    pub fn is_empty(&self) -> (r: bool)
        ensures
            r == (self@.len() == 0),
    {
        self.entries.len() == 0
    }

    /// The place of `key` among the entries.
    fn find(&self, key: &String) -> (r: usize)
        ensures
            r == position_from(self@, key@, 0),
            r <= self@.len(),
    {
        let mut i: usize = 0;
        while i < self.entries.len()
            invariant
                i <= self.entries@.len(),
                self@.len() == self.entries@.len(),
                position_from(self@, key@, 0) == position_from(self@, key@, i as int),
            decreases self.entries@.len() - i,
        {
            assert(self@[i as int].0 == self.entries@[i as int].0@);
            if self.entries[i].0 == *key {
                return i;
            }
            i += 1;
        }
        i
    }

    /// Whether a member stands under `key`.
    pub fn contains_key(&self, key: &str) -> (r: bool)
        ensures
            r == lookup(self@, key@) is Some,
    {
        let k = key.to_owned();
        self.find(&k) < self.entries.len()
    }

    /// The value under `key`.
    pub fn get(&self, key: &str) -> (r: Option<&Values>)
        ensures
            r is Some <==> lookup(self@, key@) is Some,
            r is Some ==> Some(r->0@) == lookup(self@, key@),
    {
        let k = key.to_owned();
        let i = self.find(&k);
        if i < self.entries.len() {
            Some(&self.entries[i].1)
        } else {
            None
        }
    }

    /// The key and the value at place `i`, in the order of the members; `None`
    /// where there are not so many members.
    pub fn entry(&self, i: usize) -> (r: Option<(&String, &Values)>)
        ensures
            match r {
                Some(e) => i < self@.len() && e.0@ == self@[i as int].0 && e.1@ == self@[i as int].1,
                None => i >= self@.len(),
            },
    {
        if i < self.entries.len() {
            Some((&self.entries[i].0, &self.entries[i].1))
        } else {
            None
        }
    }

    /// Puts `value` under `key`: in the place of the value that was there, or at the
    /// end where the key is new.
    pub fn insert(&mut self, key: String, value: Values)
        ensures
            final(self)@ == put(old(self)@, key@, value@),
            lookup(final(self)@, key@) == Some(value@),
            distinct_keys(final(self)@),
    {
        proof {
            use_type_invariant(&*self);
            lemma_put_distinct(self@, key@, value@);
        }
        let i = self.find(&key);
        let mut entries: Vec<(String, Values)> = Vec::new();
        std::mem::swap(&mut entries, &mut self.entries);
        if i < entries.len() {
            entries.set(i, (key, value));
        } else {
            entries.push((key, value));
        }
        proof {
            old(self).lemma_view();
            (Members { entries }).lemma_view();
            assert(pairs_view(entries@) =~= put(old(self)@, key@, value@));
        }
        self.entries = entries;
    }

    /// Takes the member under `key` out and returns its value. The key is absent
    /// afterwards.
    pub fn remove(&mut self, key: &str) -> (r: Option<Values>)
        ensures
            final(self)@ == without(old(self)@, key@),
            lookup(final(self)@, key@) is None,
            distinct_keys(final(self)@),
            r is Some <==> lookup(old(self)@, key@) is Some,
            r is Some ==> Some(r->0@) == lookup(old(self)@, key@),
    {
        proof {
            use_type_invariant(&*self);
            lemma_without_distinct(self@, key@);
        }
        let k = key.to_owned();
        let i = self.find(&k);
        if i < self.entries.len() {
            let mut entries: Vec<(String, Values)> = Vec::new();
            std::mem::swap(&mut entries, &mut self.entries);
            let e = entries.remove(i);
            proof {
                old(self).lemma_view();
                (Members { entries }).lemma_view();
                assert(pairs_view(entries@) =~= without(old(self)@, key@));
            }
            self.entries = entries;
            Some(e.1)
        } else {
            None
        }
    }
}

/// A copy of each tree of a list, in the same order.
pub fn clone_list(a: &Vec<Values>) -> (r: Vec<Values>)
    ensures
        list_view(r@) == list_view(a@),
    decreases a,
{
    let mut r: Vec<Values> = Vec::with_capacity(a.len());
    let mut i: usize = 0;
    while i < a.len()
        invariant
            i <= a@.len(),
            r@.len() == i,
            forall|j: int| 0 <= j < i ==> r@[j]@ == a@[j]@,
        decreases a@.len() - i,
    {
        r.push(a[i].clone());
        i += 1;
    }
    assert(list_view(r@) =~= list_view(a@));
    r
}

impl Clone for Members {
    fn clone(&self) -> (r: Self)
        ensures
            r@ == self@,
        decreases self,
    {
        proof {
            use_type_invariant(self);
            self.lemma_view();
        }
        let mut entries: Vec<(String, Values)> = Vec::with_capacity(self.entries.len());
        let mut i: usize = 0;
        while i < self.entries.len()
            invariant
                i <= self.entries@.len(),
                entries@.len() == i,
                forall|j: int|
                    0 <= j < i ==> entries@[j].0@ == self.entries@[j].0@ && entries@[j].1@
                        == self.entries@[j].1@,
            decreases self.entries@.len() - i,
        {
            entries.push((self.entries[i].0.clone(), self.entries[i].1.clone()));
            i += 1;
        }
        proof {
            (Members { entries }).lemma_view();
            assert(pairs_view(entries@) =~= pairs_view(self.entries@));
        }
        Members { entries }
    }
}

impl Clone for Values {
    fn clone(&self) -> (r: Self)
        ensures
            r@ == self@,
        decreases self,
    {
        match self {
            Values::String(s) => Values::String(s.clone()),
            Values::Number(n) => Values::Number(n.duplicate()),
            Values::Struct(m) => Values::Struct(m.clone()),
            Values::Array(a) => {
                let b = clone_list(a);
                proof {
                    lemma_array_view(*a);
                    lemma_array_view(b);
                }
                Values::Array(b)
            },
            Values::Null => Values::Null,
            Values::Boolean(b) => Values::Boolean(*b),
        }
    }
}

/// The name of the shape of a document.
pub open spec fn kind_name(j: Json) -> Seq<char> {
    match j {
        Json::Text(_) => "string"@,
        Json::Number(_) => "number"@,
        Json::Object(_) => "struct"@,
        Json::Null => "null"@,
        Json::Array(_) => "array"@,
        Json::Boolean(_) => "boolean"@,
    }
}

impl Values {
    /// The name of the shape of a string.
    pub const STRING: &'static str = "string";

    /// The name of the shape of an object.
    pub const STRUCT: &'static str = "struct";

    /// The name of the shape of a number.
    pub const NUMBER: &'static str = "number";

    /// The name of the shape of `null`.
    pub const NULL: &'static str = "null";

    /// The name of the shape of an array.
    pub const ARRAY: &'static str = "array";

    /// The name of the shape of a boolean.
    pub const BOOLEAN: &'static str = "boolean";

    /// A copy of the members, where the value is an object.
    pub fn get_struct(&self) -> (r: Option<Members>)
        ensures
            match self@ {
                Json::Object(m) => r is Some && r->0@ == m,
                _ => r is None,
            },
    {
        match self {
            Values::Struct(map) => Some(map.clone()),
            _ => None,
        }
    }

    /// The truth value, where the value is a boolean.
    pub fn get_bool(&self) -> (r: Option<bool>)
        ensures
            match self@ {
                Json::Boolean(b) => r == Some(b),
                _ => r is None,
            },
    {
        match self {
            Values::Boolean(b) => Some(*b),
            _ => None,
        }
    }

    /// A copy of the text, where the value is a string.
    pub fn get_string(&self) -> (r: Option<String>)
        ensures
            match self@ {
                Json::Text(t) => r is Some && r->0@ == t,
                _ => r is None,
            },
    {
        match self {
            Values::String(string) => Some(string.clone()),
            _ => None,
        }
    }

    /// A copy of the number, where the value is a number.
    pub fn get_number(&self) -> (r: Option<Number>)
        ensures
            match self@ {
                Json::Number(n) => r is Some && r->0@ == n,
                _ => r is None,
            },
    {
        match self {
            Values::Number(num) => Some(num.duplicate()),
            _ => None,
        }
    }

    /// A copy of the items, where the value is an array.
    pub fn get_list_opt(&self) -> (r: Option<Vec<Values>>)
        ensures
            match self@ {
                Json::Array(a) => r is Some && list_view(r->0@) == a,
                _ => r is None,
            },
    {
        match self {
            Values::Array(arr) => {
                proof {
                    lemma_array_view(*arr);
                }
                Some(clone_list(arr))
            },
            _ => None,
        }
    }

    /// A copy of the items, where the value is an array, and no items otherwise.
    pub fn get_list(&self) -> (r: Vec<Values>)
        ensures
            match self@ {
                Json::Array(a) => list_view(r@) == a,
                _ => r@.len() == 0,
            },
    {
        match self.get_list_opt() {
            Some(list) => list,
            None => Vec::new(),
        }
    }

    /// The name of the value's shape: one of the six constants of this type.
    pub fn get_type_as_string(&self) -> (r: &'static str)
        ensures
            r@ == kind_name(self@),
    {
        match self {
            Values::String(_) => "string",
            Values::Number(_) => "number",
            Values::Struct(_) => "struct",
            Values::Null => "null",
            Values::Array(_) => "array",
            Values::Boolean(_) => "boolean",
        }
    }

    /// Whether the value is a boolean.
    pub fn is_bool(&self) -> (r: bool)
        ensures
            r == self@ is Boolean,
    {
        matches!(self, Values::Boolean(_))
    }

    /// Whether the value is `null`.
    pub fn is_null(&self) -> (r: bool)
        ensures
            r == self@ is Null,
    {
        matches!(self, Values::Null)
    }

    /// Whether the value is a string.
    pub fn is_string(&self) -> (r: bool)
        ensures
            r == self@ is Text,
    {
        matches!(self, Values::String(_))
    }

    /// Whether the value is a number.
    pub fn is_number(&self) -> (r: bool)
        ensures
            r == self@ is Number,
    {
        matches!(self, Values::Number(_))
    }

    /// Whether the value is an object.
    pub fn is_struct(&self) -> (r: bool)
        ensures
            r == self@ is Object,
    {
        matches!(self, Values::Struct(_))
    }

    /// Whether the value is an array.
    pub fn is_array(&self) -> (r: bool)
        ensures
            r == self@ is Array,
    {
        matches!(self, Values::Array(_))
    }
}

/// Puts the compact text of the items of `a`, with commas between them, at the end
/// of `out`.
pub fn write_list(a: &Vec<Values>, out: &mut String)
    ensures
        final(out)@ == old(out)@ + render_items(list_view(a@), a@.len()),
    decreases a,
{
    let ghost items = list_view(a@);
    let mut i: usize = 0;
    assert(out@ =~= old(out)@ + render_items(items, 0));
    while i < a.len()
        invariant
            i <= a@.len(),
            items == list_view(a@),
            out@ == old(out)@ + render_items(items, i as nat),
        decreases a@.len() - i,
    {
        let ghost before = out@;
        if i > 0 {
            out.push(',');
        }
        assert(out@ =~= before + separator((i + 1) as nat));
        a[i].write_to(out);
        assert(out@ =~= old(out)@ + render_items(items, (i + 1) as nat));
        i += 1;
    }
}

impl Members {
    /// Puts the compact text of the members, with commas between them, at the end
    /// of `out`.
    pub fn write_to(&self, out: &mut String)
        ensures
            final(out)@ == old(out)@ + render_members(self@, self@.len()),
        decreases self,
    {
        proof {
            self.lemma_view();
        }
        let mut i: usize = 0;
        assert(out@ =~= old(out)@ + render_members(self@, 0));
        while i < self.entries.len()
            invariant
                i <= self.entries@.len(),
                self@ == pairs_view(self.entries@),
                out@ == old(out)@ + render_members(self@, i as nat),
            decreases self.entries@.len() - i,
        {
            let ghost before = out@;
            if i > 0 {
                out.push(',');
            }
            out.push('"');
            push_escaped(out, self.entries[i].0.as_str());
            out.push('"');
            out.push(':');
            self.entries[i].1.write_to(out);
            assert(out@ =~= before + separator((i + 1) as nat) + render_member(
                self@[i as int].0,
                render(self@[i as int].1),
            ));
            assert(out@ =~= old(out)@ + render_members(self@, (i + 1) as nat));
            i += 1;
        }
    }
}

impl Values {
    /// Puts the compact text of the value at the end of `out`.
    pub fn write_to(&self, out: &mut String)
        ensures
            final(out)@ == old(out)@ + render(self@),
        decreases self,
    {
        match self {
            Values::String(s) => {
                out.push('"');
                push_escaped(out, s.as_str());
                out.push('"');
                assert(out@ =~= old(out)@ + quoted(escape(s@)));
            },
            Values::Number(n) => {
                push_bytes(out, n.as_bytes());
            },
            Values::Struct(m) => {
                out.push('{');
                m.write_to(out);
                out.push('}');
                assert(out@ =~= old(out)@ + render(self@));
            },
            Values::Array(a) => {
                proof {
                    lemma_array_view(*a);
                }
                out.push('[');
                write_list(a, out);
                out.push(']');
                assert(out@ =~= old(out)@ + render(self@));
            },
            Values::Null => {
                out.push('n');
                out.push('u');
                out.push('l');
                out.push('l');
                assert(out@ =~= old(out)@ + render(self@));
            },
            Values::Boolean(b) => {
                if *b {
                    out.push('t');
                    out.push('r');
                    out.push('u');
                    out.push('e');
                } else {
                    out.push('f');
                    out.push('a');
                    out.push('l');
                    out.push('s');
                    out.push('e');
                }
                assert(out@ =~= old(out)@ + render(self@));
            },
        }
    }

    /// The compact text of the value.
    pub fn to_string(&self) -> (r: String)
        ensures
            r@ == render(self@),
    {
        let mut out = String::new();
        self.write_to(&mut out);
        assert(out@ =~= render(self@));
        out
    }
}

/// Equality of documents. Two values of one shape are equal when their contents
/// are: arrays item by item, objects when they have as many members and every key
/// of the first holds an equal value in the second. A number and a string are equal
/// when the number's literal is the string's text. Nothing else is equal.
pub open spec fn json_eq(a: Json, b: Json) -> bool
    decreases a,
{
    match (a, b) {
        (Json::Null, Json::Null) => true,
        (Json::Text(x), Json::Text(y)) => x == y,
        (Json::Number(n), Json::Text(t)) => as_chars(n) == t,
        (Json::Text(t), Json::Number(n)) => as_chars(n) == t,
        (Json::Number(x), Json::Number(y)) => x == y,
        (Json::Boolean(x), Json::Boolean(y)) => x == y,
        (Json::Object(x), Json::Object(y)) => members_eq(x, y, x.len()),
        (Json::Array(x), Json::Array(y)) => items_eq(x, y, x.len()),
        _ => false,
    }
}

/// The two lists are as long, and the first `n` items of `x` equal those of `y`.
pub open spec fn items_eq(x: Seq<Json>, y: Seq<Json>, n: nat) -> bool
    decreases x, n,
{
    &&& x.len() == y.len()
    &&& n <= x.len()
    &&& (n > 0 ==> items_eq(x, y, (n - 1) as nat) && json_eq(x[n - 1], y[n - 1]))
}

/// The two objects have as many members, and under the key of each of the first
/// `n` members of `x` the object `y` holds an equal value.
pub open spec fn members_eq(x: Seq<(Seq<char>, Json)>, y: Seq<(Seq<char>, Json)>, n: nat) -> bool
    decreases x, n,
{
    &&& x.len() == y.len()
    &&& n <= x.len()
    &&& (n > 0 ==> members_eq(x, y, (n - 1) as nat) && match lookup(y, x[n - 1].0) {
        Some(v) => json_eq(x[n - 1].1, v),
        None => false,
    })
}

/// Whether the two lists hold equal items in the same order.
pub fn list_equals(a: &Vec<Values>, b: &Vec<Values>) -> (r: bool)
    ensures
        r == items_eq(list_view(a@), list_view(b@), a@.len()),
    decreases a,
{
    let ghost x = list_view(a@);
    let ghost y = list_view(b@);
    if a.len() != b.len() {
        return false;
    }
    let mut i: usize = 0;
    while i < a.len()
        invariant
            i <= a@.len(),
            a@.len() == b@.len(),
            x == list_view(a@),
            y == list_view(b@),
            items_eq(x, y, i as nat),
        decreases a@.len() - i,
    {
        if !a[i].equals(&b[i]) {
            proof {
                if items_eq(x, y, a@.len() as nat) {
                    lemma_items_eq_prefix(x, y, a@.len() as nat, (i + 1) as nat);
                }
            }
            return false;
        }
        i += 1;
    }
    true
}

/// Lists that are equal up to `n` are equal up to every `k` below `n`.
pub proof fn lemma_items_eq_prefix(x: Seq<Json>, y: Seq<Json>, n: nat, k: nat)
    requires
        items_eq(x, y, n),
        k <= n,
    ensures
        items_eq(x, y, k),
    decreases n,
{
    if k < n {
        lemma_items_eq_prefix(x, y, (n - 1) as nat, k);
    }
}

/// Objects that are equal up to `n` are equal up to every `k` below `n`.
pub proof fn lemma_members_eq_prefix(
    x: Seq<(Seq<char>, Json)>,
    y: Seq<(Seq<char>, Json)>,
    n: nat,
    k: nat,
)
    requires
        members_eq(x, y, n),
        k <= n,
    ensures
        members_eq(x, y, k),
    decreases n,
{
    if k < n {
        lemma_members_eq_prefix(x, y, (n - 1) as nat, k);
    }
}

impl Members {
    /// Whether the two objects have as many members and hold equal values under
    /// the keys of the first.
    pub fn equals(&self, other: &Members) -> (r: bool)
        ensures
            r == members_eq(self@, other@, self@.len()),
        decreases self,
    {
        proof {
            self.lemma_view();
            other.lemma_view();
        }
        if self.entries.len() != other.entries.len() {
            return false;
        }
        let mut i: usize = 0;
        while i < self.entries.len()
            invariant
                i <= self.entries@.len(),
                self@ == pairs_view(self.entries@),
                other@ == pairs_view(other.entries@),
                self.entries@.len() == other.entries@.len(),
                members_eq(self@, other@, i as nat),
            decreases self.entries@.len() - i,
        {
            let at = other.find(&self.entries[i].0);
            let same = at < other.entries.len() && self.entries[i].1.equals(&other.entries[at].1);
            if !same {
                proof {
                    if members_eq(self@, other@, self@.len()) {
                        lemma_members_eq_prefix(self@, other@, self@.len(), (i + 1) as nat);
                    }
                }
                return false;
            }
            i += 1;
        }
        true
    }
}

impl Values {
    /// Whether the two values are equal documents.
    pub fn equals(&self, other: &Values) -> (r: bool)
        ensures
            r == json_eq(self@, other@),
        decreases self,
    {
        match (self, other) {
            (Values::Null, Values::Null) => true,
            (Values::String(a), Values::String(b)) => *a == *b,
            (Values::Number(a), Values::String(b)) => {
                let mut text = String::new();
                push_bytes(&mut text, a.as_bytes());
                assert(text@ =~= as_chars(a@));
                text == *b
            },
            (Values::String(b), Values::Number(a)) => {
                let mut text = String::new();
                push_bytes(&mut text, a.as_bytes());
                assert(text@ =~= as_chars(a@));
                text == *b
            },
            (Values::Number(a), Values::Number(b)) => a.equals(b),
            (Values::Boolean(a), Values::Boolean(b)) => *a == *b,
            (Values::Struct(a), Values::Struct(b)) => {
                let r = a.equals(b);
                assert(r == json_eq(self@, other@));
                r
            },
            (Values::Array(a), Values::Array(b)) => {
                proof {
                    lemma_array_view(*a);
                    lemma_array_view(*b);
                }
                let r = list_equals(a, b);
                assert(r == json_eq(self@, other@));
                r
            },
            _ => false,
        }
    }
}

} // verus!
