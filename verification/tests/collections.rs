use std::collections::{BTreeMap, BTreeSet, HashMap, HashSet};

use wjp::collections::{hash_map_entries, hash_set_items, serialize_walk};
use wjp::ordered::{tree_map_entries, tree_set_items};
use wjp::{Deserialize, Number, ParseError, Parser, Serialize, Values};

fn num(text: &str) -> Values {
    Values::Number(Number::from_literal(text).unwrap())
}

#[test]
fn a_tree_map_is_serialized_in_the_order_of_its_keys() {
    let mut map = BTreeMap::new();
    map.insert(3u8, true);
    map.insert(1u8, false);
    map.insert(2u8, true);
    assert_eq!(tree_map_entries(&map), vec![(&1u8, &false), (&2u8, &true), (&3u8, &true)]);
    let tree = map.serialize();
    assert_eq!(tree.to_string(), "{\"1\":false,\"2\":true,\"3\":true}");
    assert_eq!(BTreeMap::<u8, bool>::try_from(tree), Ok(map));
    assert_eq!(BTreeMap::<u8, bool>::try_from(Values::Null), Err(ParseError::new()));
    let empty: BTreeMap<String, u8> = BTreeMap::new();
    assert_eq!(empty.serialize().to_string(), "{}");
}

#[test]
fn a_tree_set_is_serialized_in_its_order() {
    let set: BTreeSet<u16> = [30u16, 10, 20].into_iter().collect();
    assert_eq!(tree_set_items(&set), vec![&10u16, &20, &30]);
    let tree = set.serialize();
    assert_eq!(tree.to_string(), "[10,20,30]");
    assert_eq!(BTreeSet::<u16>::try_from(tree), Ok(set));
    assert_eq!(BTreeSet::<u16>::try_from(Values::Boolean(true)), Err(ParseError::new()));
    let twice = Values::Array(vec![num("5"), num("5")]);
    assert_eq!(BTreeSet::<u16>::try_from(twice).unwrap().len(), 1);
}

#[test]
fn a_hash_map_is_serialized_entry_by_entry() {
    let mut map = HashMap::new();
    map.insert("a".to_string(), 1u8);
    map.insert("b".to_string(), 2u8);
    let entries = hash_map_entries(&map);
    assert_eq!(entries.len(), 2);
    assert!(entries.contains(&(&"a".to_string(), &1u8)));
    assert!(entries.contains(&(&"b".to_string(), &2u8)));
    let text = map.serialize().to_string();
    assert!(text == "{\"a\":1,\"b\":2}" || text == "{\"b\":2,\"a\":1}", "{}", text);
    let numbers: HashMap<u8, bool> = [(7u8, true)].into_iter().collect();
    let tree = numbers.serialize();
    assert_eq!(tree.to_string(), "{\"7\":true}");
    assert_eq!(HashMap::<u8, bool>::try_from(tree), Ok(numbers));
    let later = Parser::new("{\"1\":true,\"1\":false}").parse().unwrap();
    let read = HashMap::<u8, bool>::try_from(later).unwrap();
    assert_eq!(read.get(&1u8), Some(&false));
    assert_eq!(HashMap::<u8, bool>::try_from(Values::Array(vec![])), Err(ParseError::new()));
}

#[test]
fn a_hash_set_is_serialized_item_by_item() {
    let set: HashSet<u8> = [4u8].into_iter().collect();
    assert_eq!(hash_set_items(&set), vec![&4u8]);
    let tree = set.serialize();
    assert_eq!(tree.to_string(), "[4]");
    assert_eq!(HashSet::<u8>::try_from(tree), Ok(set));
    let two: HashSet<bool> = [true, false].into_iter().collect();
    let text = two.serialize().to_string();
    assert!(text == "[true,false]" || text == "[false,true]", "{}", text);
    assert_eq!(HashSet::<u8>::try_from(Values::Null), Err(ParseError::new()));
    let (a, b) = (1u8, 2u8);
    assert_eq!(serialize_walk(&vec![&a, &b]).to_string(), "[1,2]");
}

#[test]
fn a_map_with_string_keys_comes_back() {
    let mut map = HashMap::new();
    map.insert("Hello".to_string(), 1u8);
    map.insert("a\"b \u{20ac}".to_string(), 2u8);
    let text = map.serialize().to_string();
    assert_eq!(HashMap::<String, u8>::deserialize(text), Ok(map));
    let mut tree = BTreeMap::new();
    tree.insert("x".to_string(), vec![true]);
    tree.insert("y".to_string(), vec![]);
    let text = tree.serialize().to_string();
    assert_eq!(text, "{\"x\":[true],\"y\":[]}");
    assert_eq!(BTreeMap::<String, Vec<bool>>::deserialize_str(&text), Ok(tree));
}

#[test]
fn nested_collections_are_read() {
    let text = "{\"1\":{\"a\":[1,2],\"b\":[]},\"2\":{}}";
    let read = BTreeMap::<u8, BTreeMap<String, BTreeSet<u8>>>::deserialize_str(text).unwrap();
    assert_eq!(read.len(), 2);
    assert_eq!(read[&1u8]["a"], [1u8, 2].into_iter().collect::<BTreeSet<u8>>());
    assert!(read[&1u8]["b"].is_empty());
    assert!(read[&2u8].is_empty());
    assert_eq!(
        HashMap::<u8, HashSet<bool>>::deserialize_str("{\"7\":[true,true]}").unwrap()[&7u8].len(),
        1
    );
}

#[test]
fn collections_inside_collections_are_serialized() {
    let mut inner = BTreeMap::new();
    inner.insert("a".to_string(), [2u8, 1].into_iter().collect::<BTreeSet<u8>>());
    let mut outer = BTreeMap::new();
    outer.insert(1u8, vec![inner]);
    let text = outer.json();
    assert_eq!(text, "{\"1\":[{\"a\":[1,2]}]}");
    assert_eq!(BTreeMap::<u8, Vec<BTreeMap<String, BTreeSet<u8>>>>::deserialize(text), Ok(outer));
    let one: HashMap<bool, HashSet<u8>> = [(true, [3u8].into_iter().collect())].into_iter().collect();
    assert_eq!(one.json(), "{\"true\":[3]}");
    assert_eq!(one.json(), one.json());
}
