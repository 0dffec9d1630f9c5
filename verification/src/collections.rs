use crate::construct::{entries_from, reads_entries, reads_list};
use crate::error::ParseError;
use crate::serializer::{
    all_settled, contents, pairs_content, pairs_settled, serialize_entries, Serialize,
};
use crate::values::{lemma_array_view, list_view, Json, Values};
use crate::walks::{next_hash_entry, next_hash_item};
use std::collections::{HashMap, HashSet};
use std::hash::{Hash, RandomState};
use vstd::prelude::*;
use vstd::std_specs::hash::*;
use vstd::std_specs::iter::IteratorSpec;

verus! {

/// `walk` lists the entries of `map`: as many as the map holds, each of them an
/// entry of the map, and every key of the map among them.
pub open spec fn lists<K, V>(walk: Seq<(&K, &V)>, map: Map<K, V>) -> bool {
    &&& walk.len() == map.dom().len()
    &&& forall|i: int|
        0 <= i < walk.len() ==> map.contains_key(*(#[trigger] walk[i]).0) && map[*walk[i].0]
            == *walk[i].1
    &&& forall|k: K| #[trigger] map.contains_key(k) ==> walk.contains((&k, &map[k]))
}

/// `walk` lists the items of `set`: as many as the set holds, none of them twice,
/// and together they are the set.
pub open spec fn lists_all<I>(walk: Seq<&I>, set: Set<I>) -> bool {
    &&& walk.len() == set.len()
    &&& walk.no_duplicates()
    &&& walk.unref().to_set() == set
}

/// The map that putting the first `n` of the entries into an empty map gives.
pub open spec fn collected<K, V>(entries: Seq<(K, V)>, n: int) -> Map<K, V>
    decreases n,
{
    if n <= 0 || n > entries.len() {
        Map::empty()
    } else {
        collected(entries, n - 1).insert(entries[n - 1].0, entries[n - 1].1)
    }
}

/// The set that putting the first `n` of the items into an empty set gives.
pub open spec fn gathered<I>(items: Seq<I>, n: int) -> Set<I>
    decreases n,
{
    if n <= 0 || n > items.len() {
        Set::empty()
    } else {
        gathered(items, n - 1).insert(items[n - 1])
    }
}

/// The map that putting the entries into an empty map one by one gives: of two
/// entries with the same key the later one stays.
pub open spec fn collected_all<K, V>(entries: Seq<(K, V)>) -> Map<K, V> {
    collected(entries, entries.len() as int)
}

/// The set that putting the items into an empty set one by one gives.
pub open spec fn gathered_all<I>(items: Seq<I>) -> Set<I> {
    gathered(items, items.len() as int)
}

/// The trees that stand for the items of a walk, in its order.
pub fn serialize_walk<I: Serialize>(walk: &Vec<&I>) -> (r: Values)
    ensures
        r@ is Array,
        all_settled(walk@.unref()) ==> r@ == Json::Array(contents(walk@.unref())),
{
    let ghost items = walk@.unref();
    let mut out: Vec<Values> = Vec::with_capacity(walk.len());
    let mut i: usize = 0;
    while i < walk.len()
        invariant
            i <= walk@.len(),
            out@.len() == i,
            items == walk@.unref(),
            forall|k: int|
                0 <= k < i ==> (#[trigger] items[k]).settled() ==> out@[k]@ == items[k].content(),
        decreases walk@.len() - i,
    {
        assert(items[i as int] == *walk@[i as int]);
        out.push(walk[i].serialize());
        i += 1;
    }
    proof {
        lemma_array_view(out);
        if all_settled(items) {
            assert(list_view(out@) =~= contents(items));
        }
    }
    Values::Array(out)
}

/// The entries of `map`, in the order in which this walk meets them. Where the
/// keys hash and compare as the standard map expects, the walk lists the map.
pub fn hash_map_entries<'a, K, V>(map: &'a HashMap<K, V>) -> (r: Vec<(&'a K, &'a V)>)
    ensures
        obeys_key_model::<K>() && builds_valid_hashers::<RandomState>() ==> lists(r@, map@)
            && r@.unref() == vstd::std_specs::hash::into_iter(spec_hash_map_iter(map)),
{
    broadcast use {axiom_spec_hash_map_iter, axiom_spec_hash_map_len};

    let mut out: Vec<(&'a K, &'a V)> = Vec::new();
    let mut it = map.iter();
    let ghost whole = it.remaining();
    let mut left: usize = map.len();
    assert(out@ + it.remaining() =~= whole);
    while left > 0
        invariant
            left + out@.len() == map.len(),
            out@ + it.remaining() == whole,
        ensures
            out@ + it.remaining() == whole,
            out@.len() == map.len() || it.remaining().len() == 0,
        decreases left,
    {
        let ghost before = it.remaining();
        match next_hash_entry(&mut it) {
            Some(e) => {
                assert(out@.push(e) + it.remaining() =~= out@ + before);
                out.push(e);
            },
            None => {
                break ;
            },
        }
        left -= 1;
    }
    proof {
        if obeys_key_model::<K>() && builds_valid_hashers::<RandomState>() {
            assert(whole == spec_hash_map_iter(map).remaining());
            assert(whole.len() == map.len());
            assert(it.remaining().len() == 0);
            assert(out@ =~= whole);
        }
    }
    out
}

/// A hash map is serialized as an object: its entries, in the order in which a
/// walk over the map meets them, each under the text of its key. It is settled
/// where its keys hash and compare as the standard map expects and its keys and
/// values are settled.
impl<K: Serialize, V: Serialize> Serialize for HashMap<K, V> {
    open spec fn settled(&self) -> bool {
        &&& obeys_key_model::<K>()
        &&& builds_valid_hashers::<RandomState>()
        &&& pairs_settled(vstd::std_specs::hash::into_iter(spec_hash_map_iter(self)))
    }

    open spec fn content(&self) -> Json {
        let walk = vstd::std_specs::hash::into_iter(spec_hash_map_iter(self));
        Json::Object(pairs_content(walk, walk.len()))
    }

    fn serialize(&self) -> (r: Values) {
        let entries = hash_map_entries(self);
        serialize_entries(&entries)
    }
}

impl<K, V> TryFrom<Values> for HashMap<K, V> where
    K: TryFrom<Values, Error = ParseError> + Eq + Hash,
    V: TryFrom<Values, Error = ParseError>,
 {
    type Error = ParseError;

    /// The hash map that an object stands for: its members are read as entries in
    /// their order and put into the map one by one. The first error of a conversion is
    /// handed on as it is.
    fn try_from(value: Values) -> (r: Result<HashMap<K, V>, ParseError>)
        ensures
            match r {
                Ok(map) => exists|list: Vec<(K, V)>| #[trigger]
                    reads_entries::<K, V>(value@, Ok(list)) && (obeys_key_model::<K>()
                        && builds_valid_hashers::<RandomState>() ==> map@ == collected_all(list@)),
                Err(e) => reads_entries::<K, V>(value@, Err(e)),
            },
    {
        let ghost whole = value@;
        match entries_from::<K, V>(value) {
            Ok(list) => {
                let ghost all = list@;
                let ghost witness = list;
                let mut map: HashMap<K, V> = HashMap::new();
                for entry in it: list
                    invariant
                        it.seq() == all,
                        obeys_key_model::<K>() && builds_valid_hashers::<RandomState>() ==> map@
                            == collected(all, it.index()),
                {
                    let (key, item) = entry;
                    let _ = map.insert(key, item);
                }
                assert(reads_entries::<K, V>(whole, Ok(witness)));
                Ok(map)
            },
            Err(e) => Err(e),
        }
    }
}

impl<K, V> vstd::std_specs::convert::TryFromSpecImpl<Values> for HashMap<K, V> where
    K: TryFrom<Values, Error = ParseError> + Eq + Hash,
    V: TryFrom<Values, Error = ParseError>,
 {
    open spec fn obeys_try_from_spec() -> bool {
        false
    }

    open spec fn try_from_spec(v: Values) -> Result<Self, ParseError> {
        arbitrary()
    }
}

/// The items of `set`, in the order in which this walk meets them. Where the
/// items hash and compare as the standard set expects, the walk lists the set.
pub fn hash_set_items<'a, I>(set: &'a HashSet<I>) -> (r: Vec<&'a I>)
    ensures
        obeys_key_model::<I>() && builds_valid_hashers::<RandomState>() ==> lists_all(r@, set@)
            && r@.unref() == into_iter_hash_keys(spec_hash_keys_iter(set)),
{
    broadcast use axiom_spec_hash_keys_iter;

    let mut out: Vec<&'a I> = Vec::new();
    let mut it = set.iter();
    let ghost whole = it.remaining();
    let mut left: usize = set.len();
    assert(out@ + it.remaining() =~= whole);
    while left > 0
        invariant
            left + out@.len() == set.len(),
            out@ + it.remaining() == whole,
        ensures
            out@ + it.remaining() == whole,
            out@.len() == set.len() || it.remaining().len() == 0,
        decreases left,
    {
        let ghost before = it.remaining();
        match next_hash_item(&mut it) {
            Some(e) => {
                assert(out@.push(e) + it.remaining() =~= out@ + before);
                out.push(e);
            },
            None => {
                break ;
            },
        }
        left -= 1;
    }
    proof {
        if obeys_key_model::<I>() && builds_valid_hashers::<RandomState>() {
            broadcast use axiom_spec_hash_set_len;
            assert(whole == spec_hash_keys_iter(set).remaining());
            assert(whole.len() == set.len());
            assert(it.remaining().len() == 0);
            assert(out@ =~= whole);
        }
    }
    out
}

/// A hash set is serialized as an array: its items, in the order in which a walk
/// over the set meets them. It is settled where its items hash and compare as the
/// standard set expects and are settled.
impl<I: Serialize> Serialize for HashSet<I> {
    open spec fn settled(&self) -> bool {
        &&& obeys_key_model::<I>()
        &&& builds_valid_hashers::<RandomState>()
        &&& all_settled(into_iter_hash_keys(spec_hash_keys_iter(self)))
    }

    open spec fn content(&self) -> Json {
        Json::Array(contents(into_iter_hash_keys(spec_hash_keys_iter(self))))
    }

    fn serialize(&self) -> (r: Values) {
        let items = hash_set_items(self);
        serialize_walk(&items)
    }
}

impl<I> TryFrom<Values> for HashSet<I> where
    I: TryFrom<Values, Error = ParseError> + Eq + Hash,
 {
    type Error = ParseError;

    /// The hash set that an array stands for: its items are converted in their order
    /// and put into the set one by one.
    fn try_from(value: Values) -> (r: Result<HashSet<I>, ParseError>)
        ensures
            match r {
                Ok(set) => exists|list: Vec<I>| #[trigger]
                    reads_list::<I>(value@, Ok(list)) && (obeys_key_model::<I>()
                        && builds_valid_hashers::<RandomState>() ==> set@ == gathered_all(list@)),
                Err(e) => reads_list::<I>(value@, Err(e)),
            },
    {
        let ghost whole = value@;
        match Vec::<I>::try_from(value) {
            Ok(list) => {
                let ghost all = list@;
                let ghost witness = list;
                let mut set: HashSet<I> = HashSet::new();
                for item in it: list
                    invariant
                        it.seq() == all,
                        obeys_key_model::<I>() && builds_valid_hashers::<RandomState>() ==> set@
                            == gathered(all, it.index()),
                {
                    let _ = set.insert(item);
                }
                assert(reads_list::<I>(whole, Ok(witness)));
                Ok(set)
            },
            Err(e) => Err(e),
        }
    }
}

impl<I> vstd::std_specs::convert::TryFromSpecImpl<Values> for HashSet<I> where
    I: TryFrom<Values, Error = ParseError> + Eq + Hash,
 {
    open spec fn obeys_try_from_spec() -> bool {
        false
    }

    open spec fn try_from_spec(v: Values) -> Result<Self, ParseError> {
        arbitrary()
    }
}

} // verus!
