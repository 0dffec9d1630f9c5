use crate::number::{integer_text, Number};
use crate::render::render;
use crate::values::{lemma_array_view, list_view, put, Json, Members, Values};
use vstd::prelude::*;
use vstd::string::*;

verus! {

/// Turning a value into a JSON tree. For a settled value the tree is a function of
/// the value, so two calls on one value give trees with the same content and the
/// same text.
pub trait Serialize {
    /// Whether the tree that stands for the value is a function of the value. It is
    /// for every value but a collection of the standard library whose keys do not
    /// hash or compare as that collection expects.
    open spec fn settled(&self) -> bool {
        true
    }

    /// The content of the tree that stands for the value. An implementation that
    /// is to be verified says here what `serialize` gives.
    open spec fn content(&self) -> Json {
        arbitrary()
    }

    /// The tree that stands for the value.
    fn serialize(&self) -> (r: Values)
        ensures
            self.settled() ==> r@ == self.content(),
    ;

    /// The compact text of the tree that stands for the value.
    fn json(&self) -> (r: String)
        ensures
            self.settled() ==> r@ == render(self.content()),
    {
        self.serialize().to_string()
    }
}

impl<S: Serialize> Serialize for Option<S> {
    open spec fn settled(&self) -> bool {
        match self {
            None => true,
            Some(s) => s.settled(),
        }
    }

    open spec fn content(&self) -> Json {
        match self {
            None => Json::Null,
            Some(s) => s.content(),
        }
    }

    fn serialize(&self) -> (r: Values) {
        match self {
            None => Values::Null,
            Some(s) => s.serialize(),
        }
    }
}

impl<R: Serialize, E: Serialize> Serialize for Result<R, E> {
    open spec fn settled(&self) -> bool {
        match self {
            Err(e) => e.settled(),
            Ok(r) => r.settled(),
        }
    }

    open spec fn content(&self) -> Json {
        match self {
            Err(e) => e.content(),
            Ok(r) => r.content(),
        }
    }

    fn serialize(&self) -> (r: Values) {
        match self {
            Err(e) => e.serialize(),
            Ok(r) => r.serialize(),
        }
    }
}

/// The contents of the trees that stand for the items of a list.
pub open spec fn contents<T: Serialize>(items: Seq<T>) -> Seq<Json> {
    Seq::new(items.len(), |i: int| items[i].content())
}

/// Every item of the list is settled.
pub open spec fn all_settled<T: Serialize>(items: Seq<T>) -> bool {
    forall|i: int| 0 <= i < items.len() ==> (#[trigger] items[i]).settled()
}

/// The trees that stand for the items of a slice, in their order.
pub fn serialize_items<T: Serialize>(items: &[T]) -> (r: Vec<Values>)
    ensures
        r@.len() == items@.len(),
        all_settled(items@) ==> list_view(r@) == contents(items@),
{
    let mut out: Vec<Values> = Vec::with_capacity(items.len());
    let mut i: usize = 0;
    while i < items.len()
        invariant
            i <= items@.len(),
            out@.len() == i,
            forall|k: int|
                0 <= k < i ==> (#[trigger] items@[k]).settled() ==> out@[k]@ == items@[k].content(),
        decreases items@.len() - i,
    {
        out.push(items[i].serialize());
        i += 1;
    }
    proof {
        if all_settled(items@) {
            assert(list_view(out@) =~= contents(items@));
        }
    }
    out
}

impl<T: Serialize> Serialize for Vec<T> {
    open spec fn settled(&self) -> bool {
        all_settled(self@)
    }

    open spec fn content(&self) -> Json {
        Json::Array(contents(self@))
    }

    fn serialize(&self) -> (r: Values) {
        let items = serialize_items(self.as_slice());
        proof {
            lemma_array_view(items);
        }
        Values::Array(items)
    }
}

impl<T: Serialize> Serialize for &[T] {
    open spec fn settled(&self) -> bool {
        all_settled(self@)
    }

    open spec fn content(&self) -> Json {
        Json::Array(contents(self@))
    }

    fn serialize(&self) -> (r: Values) {
        let items = serialize_items(*self);
        proof {
            lemma_array_view(items);
        }
        Values::Array(items)
    }
}

impl Serialize for str {
    open spec fn content(&self) -> Json {
        Json::Text(self@)
    }

    fn serialize(&self) -> (r: Values) {
        Values::String(self.to_owned())
    }
}

impl Serialize for &str {
    open spec fn content(&self) -> Json {
        Json::Text(self@)
    }

    fn serialize(&self) -> (r: Values) {
        Values::String((*self).to_owned())
    }
}

impl Serialize for String {
    open spec fn content(&self) -> Json {
        Json::Text(self@)
    }

    fn serialize(&self) -> (r: Values) {
        Values::String(self.clone())
    }
}

impl Serialize for char {
    open spec fn content(&self) -> Json {
        Json::Text(seq![*self])
    }

    fn serialize(&self) -> (r: Values) {
        let mut text = String::new();
        text.push(*self);
        assert(text@ =~= seq![*self]);
        Values::String(text)
    }
}

impl Serialize for bool {
    open spec fn content(&self) -> Json {
        Json::Boolean(*self)
    }

    fn serialize(&self) -> (r: Values) {
        Values::Boolean(*self)
    }
}

impl Serialize for usize {
    open spec fn content(&self) -> Json {
        Json::Number(integer_text(*self as int))
    }

    fn serialize(&self) -> (r: Values) {
        Values::Number(Number::from_u128(*self as u128))
    }
}

impl Serialize for u8 {
    open spec fn content(&self) -> Json {
        Json::Number(integer_text(*self as int))
    }

    fn serialize(&self) -> (r: Values) {
        Values::Number(Number::from_u128(*self as u128))
    }
}

impl Serialize for u16 {
    open spec fn content(&self) -> Json {
        Json::Number(integer_text(*self as int))
    }

    fn serialize(&self) -> (r: Values) {
        Values::Number(Number::from_u128(*self as u128))
    }
}

impl Serialize for u32 {
    open spec fn content(&self) -> Json {
        Json::Number(integer_text(*self as int))
    }

    fn serialize(&self) -> (r: Values) {
        Values::Number(Number::from_u128(*self as u128))
    }
}

impl Serialize for u64 {
    open spec fn content(&self) -> Json {
        Json::Number(integer_text(*self as int))
    }

    fn serialize(&self) -> (r: Values) {
        Values::Number(Number::from_u128(*self as u128))
    }
}

impl Serialize for u128 {
    open spec fn content(&self) -> Json {
        Json::Number(integer_text(*self as int))
    }

    fn serialize(&self) -> (r: Values) {
        Values::Number(Number::from_u128(*self))
    }
}

impl Serialize for isize {
    open spec fn content(&self) -> Json {
        Json::Number(integer_text(*self as int))
    }

    fn serialize(&self) -> (r: Values) {
        Values::Number(Number::from_i128(*self as i128))
    }
}

impl Serialize for i8 {
    open spec fn content(&self) -> Json {
        Json::Number(integer_text(*self as int))
    }

    fn serialize(&self) -> (r: Values) {
        Values::Number(Number::from_i128(*self as i128))
    }
}

impl Serialize for i16 {
    open spec fn content(&self) -> Json {
        Json::Number(integer_text(*self as int))
    }

    fn serialize(&self) -> (r: Values) {
        Values::Number(Number::from_i128(*self as i128))
    }
}

impl Serialize for i32 {
    open spec fn content(&self) -> Json {
        Json::Number(integer_text(*self as int))
    }

    fn serialize(&self) -> (r: Values) {
        Values::Number(Number::from_i128(*self as i128))
    }
}

impl Serialize for i64 {
    open spec fn content(&self) -> Json {
        Json::Number(integer_text(*self as int))
    }

    fn serialize(&self) -> (r: Values) {
        Values::Number(Number::from_i128(*self as i128))
    }
}

impl Serialize for i128 {
    open spec fn content(&self) -> Json {
        Json::Number(integer_text(*self as int))
    }

    fn serialize(&self) -> (r: Values) {
        Values::Number(Number::from_i128(*self))
    }
}

impl Serialize for Values {
    open spec fn content(&self) -> Json {
        self@
    }

    fn serialize(&self) -> (r: Values) {
        self.clone()
    }
}

/// The key under which a member stands whose key is the document `j`: the text of
/// a string as it stands, and the compact text of any other document.
pub open spec fn key_text(j: Json) -> Seq<char> {
    match j {
        Json::Text(t) => t,
        _ => render(j),
    }
}

/// The members that the first `n` of the entries give, each put under the text of
/// its key: of two entries whose keys have the same text the later one stays.
pub open spec fn pairs_content<K: Serialize, V: Serialize>(entries: Seq<(K, V)>, n: nat) -> Seq<
    (Seq<char>, Json),
>
    decreases n,
{
    if n == 0 || n > entries.len() {
        Seq::empty()
    } else {
        put(
            pairs_content(entries, (n - 1) as nat),
            key_text(entries[n - 1].0.content()),
            entries[n - 1].1.content(),
        )
    }
}

/// Every key and every value of the entries is settled.
pub open spec fn pairs_settled<K: Serialize, V: Serialize>(entries: Seq<(K, V)>) -> bool {
    forall|i: int|
        0 <= i < entries.len() ==> (#[trigger] entries[i]).0.settled() && entries[i].1.settled()
}

/// The object that stands for the entries of a map, taken in the order in which
/// the caller walked it.
pub fn serialize_entries<K: Serialize, V: Serialize>(entries: &Vec<(&K, &V)>) -> (r: Values)
    ensures
        r@ is Object,
        pairs_settled(entries@.unref()) ==> r@ == Json::Object(
            pairs_content(entries@.unref(), entries@.len()),
        ),
{
    let ghost pairs = entries@.unref();
    let mut map = Members::new();
    let mut i: usize = 0;
    while i < entries.len()
        invariant
            i <= entries@.len(),
            pairs == entries@.unref(),
            pairs_settled(pairs) ==> map@ == pairs_content(pairs, i as nat),
        decreases entries@.len() - i,
    {
        let key = match entries[i].0.serialize() {
            Values::String(t) => t,
            other => other.to_string(),
        };
        assert(pairs[i as int] == (*entries@[i as int].0, *entries@[i as int].1));
        map.insert(key, entries[i].1.serialize());
        i += 1;
    }
    Values::Struct(map)
}

} // verus!
