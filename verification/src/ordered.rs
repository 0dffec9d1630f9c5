use crate::collections::{
    collected, collected_all, gathered, gathered_all, lists, lists_all, serialize_walk,
};
use crate::construct::{entries_from, reads_entries, reads_list};
use crate::error::ParseError;
use crate::serializer::{
    all_settled, contents, pairs_content, pairs_settled, serialize_entries, Serialize,
};
use crate::values::{Json, Values};
use crate::walks::{next_tree_entry, next_tree_item};
use std::collections::{BTreeMap, BTreeSet};
use vstd::prelude::*;
use vstd::std_specs::btree::*;
use vstd::std_specs::iter::IteratorSpec;

verus! {

/// The keys of a walk over a map.
pub open spec fn walk_keys<K, V>(walk: Seq<(&K, &V)>) -> Seq<K> {
    walk.map_values(|kv: (&K, &V)| *kv.0)
}

/// The entries of `map`, in the order in which a walk meets them: where the keys
/// compare as the standard map expects, that is the order of the keys.
pub fn tree_map_entries<'a, K, V>(map: &'a BTreeMap<K, V>) -> (r: Vec<(&'a K, &'a V)>)
    ensures
        key_obeys_cmp_spec::<K>() ==> lists(r@, map@) && increasing_seq(walk_keys(r@))
            && r@.unref() == vstd::std_specs::btree::into_iter(spec_btree_map_iter(map)),
{
    broadcast use {axiom_spec_btree_map_iter, axiom_spec_btree_map_len};

    let mut out: Vec<(&'a K, &'a V)> = Vec::new();
    let mut it = map.iter();
    let ghost whole = it.remaining();
    let mut left: usize = map.len();
    assert(out@ + it.remaining() =~= whole);
    while left > 0
        invariant
            left + out@.len() == map.len(),
            out@ + it.remaining() == whole,
        ensures
            out@ + it.remaining() == whole,
            out@.len() == map.len() || it.remaining().len() == 0,
        decreases left,
    {
        let ghost before = it.remaining();
        match next_tree_entry(&mut it) {
            Some(e) => {
                assert(out@.push(e) + it.remaining() =~= out@ + before);
                out.push(e);
            },
            None => {
                break ;
            },
        }
        left -= 1;
    }
    proof {
        if key_obeys_cmp_spec::<K>() {
            assert(whole == spec_btree_map_iter(map).remaining());
            assert(whole.len() == map.len());
            assert(it.remaining().len() == 0);
            assert(out@ =~= whole);
        }
    }
    out
}

/// A tree map is serialized as an object: its entries in the order of a walk,
/// which is the order of the keys, each under the text of its key. It is settled
/// where its keys compare as the standard map expects and its keys and values are
/// settled.
impl<K: Serialize, V: Serialize> Serialize for BTreeMap<K, V> {
    open spec fn settled(&self) -> bool {
        key_obeys_cmp_spec::<K>() && pairs_settled(
            vstd::std_specs::btree::into_iter(spec_btree_map_iter(self)),
        )
    }

    open spec fn content(&self) -> Json {
        let walk = vstd::std_specs::btree::into_iter(spec_btree_map_iter(self));
        Json::Object(pairs_content(walk, walk.len()))
    }

    fn serialize(&self) -> (r: Values) {
        let entries = tree_map_entries(self);
        serialize_entries(&entries)
    }
}

impl<K, V> TryFrom<Values> for BTreeMap<K, V> where
    K: TryFrom<Values, Error = ParseError> + Ord,
    V: TryFrom<Values, Error = ParseError>,
 {
    type Error = ParseError;

    /// The tree map that an object stands for: its members are read as entries in
    /// their order and put into the map one by one. The first error of a conversion is
    /// handed on as it is.
    fn try_from(value: Values) -> (r: Result<BTreeMap<K, V>, ParseError>)
        ensures
            match r {
                Ok(map) => exists|list: Vec<(K, V)>| #[trigger]
                    reads_entries::<K, V>(value@, Ok(list)) && (vstd::laws_cmp::obeys_cmp::<K>()
                        ==> map@ == collected_all(list@)),
                Err(e) => reads_entries::<K, V>(value@, Err(e)),
            },
    {
        let ghost whole = value@;
        match entries_from::<K, V>(value) {
            Ok(list) => {
                let ghost all = list@;
                let ghost witness = list;
                let mut map: BTreeMap<K, V> = BTreeMap::new();
                for entry in it: list
                    invariant
                        it.seq() == all,
                        vstd::laws_cmp::obeys_cmp::<K>() ==> map@ == collected(all, it.index()),
                {
                    let (key, item) = entry;
                    let _ = map.insert(key, item);
                }
                assert(reads_entries::<K, V>(whole, Ok(witness)));
                Ok(map)
            },
            Err(e) => Err(e),
        }
    }
}

impl<K, V> vstd::std_specs::convert::TryFromSpecImpl<Values> for BTreeMap<K, V> where
    K: TryFrom<Values, Error = ParseError> + Ord,
    V: TryFrom<Values, Error = ParseError>,
 {
    open spec fn obeys_try_from_spec() -> bool {
        false
    }

    open spec fn try_from_spec(v: Values) -> Result<Self, ParseError> {
        arbitrary()
    }
}

/// The items of `set`, in the order in which a walk meets them: where the items
/// compare as the standard set expects, that is their order.
pub fn tree_set_items<'a, I>(set: &'a BTreeSet<I>) -> (r: Vec<&'a I>)
    ensures
        key_obeys_cmp_spec::<I>() ==> lists_all(r@, set@) && increasing_seq(r@) && r@.unref()
            == into_iter_btree_keys(spec_btree_keys_iter(set)),
{
    broadcast use {axiom_spec_btree_keys_iter, axiom_spec_btree_set_len};

    let mut out: Vec<&'a I> = Vec::new();
    let mut it = set.iter();
    let ghost whole = it.remaining();
    let mut left: usize = set.len();
    assert(out@ + it.remaining() =~= whole);
    while left > 0
        invariant
            left + out@.len() == set.len(),
            out@ + it.remaining() == whole,
        ensures
            out@ + it.remaining() == whole,
            out@.len() == set.len() || it.remaining().len() == 0,
        decreases left,
    {
        let ghost before = it.remaining();
        match next_tree_item(&mut it) {
            Some(e) => {
                assert(out@.push(e) + it.remaining() =~= out@ + before);
                out.push(e);
            },
            None => {
                break ;
            },
        }
        left -= 1;
    }
    proof {
        if key_obeys_cmp_spec::<I>() {
            assert(whole == spec_btree_keys_iter(set).remaining());
            assert(whole.len() == set.len());
            assert(it.remaining().len() == 0);
            assert(out@ =~= whole);
        }
    }
    out
}

/// A tree set is serialized as an array: its items in the order of a walk, which is
/// their order. It is settled where its items compare as the standard set expects
/// and are settled.
impl<I: Serialize> Serialize for BTreeSet<I> {
    open spec fn settled(&self) -> bool {
        key_obeys_cmp_spec::<I>() && all_settled(into_iter_btree_keys(spec_btree_keys_iter(self)))
    }

    open spec fn content(&self) -> Json {
        Json::Array(contents(into_iter_btree_keys(spec_btree_keys_iter(self))))
    }

    fn serialize(&self) -> (r: Values) {
        let items = tree_set_items(self);
        serialize_walk(&items)
    }
}

impl<I> TryFrom<Values> for BTreeSet<I> where
    I: TryFrom<Values, Error = ParseError> + Ord,
 {
    type Error = ParseError;

    /// The tree set that an array stands for: its items are converted in their order
    /// and put into the set one by one.
    fn try_from(value: Values) -> (r: Result<BTreeSet<I>, ParseError>)
        ensures
            match r {
                Ok(set) => exists|list: Vec<I>| #[trigger]
                    reads_list::<I>(value@, Ok(list)) && (vstd::laws_cmp::obeys_cmp::<I>() ==> set@
                        == gathered_all(list@)),
                Err(e) => reads_list::<I>(value@, Err(e)),
            },
    {
        let ghost whole = value@;
        match Vec::<I>::try_from(value) {
            Ok(list) => {
                let ghost all = list@;
                let ghost witness = list;
                let mut set: BTreeSet<I> = BTreeSet::new();
                for item in it: list
                    invariant
                        it.seq() == all,
                        vstd::laws_cmp::obeys_cmp::<I>() ==> set@ == gathered(all, it.index()),
                {
                    let _ = set.insert(item);
                }
                assert(reads_list::<I>(whole, Ok(witness)));
                Ok(set)
            },
            Err(e) => Err(e),
        }
    }
}

impl<I> vstd::std_specs::convert::TryFromSpecImpl<Values> for BTreeSet<I> where
    I: TryFrom<Values, Error = ParseError> + Ord,
 {
    open spec fn obeys_try_from_spec() -> bool {
        false
    }

    open spec fn try_from_spec(v: Values) -> Result<Self, ParseError> {
        arbitrary()
    }
}

} // verus!
