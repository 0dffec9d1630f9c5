use wjp::construct::{entries_from, key_from};
use wjp::serializer::serialize_entries;
use wjp::{Deserialize, Members, Number, ParseError, Parser, Serialize, SerializeHelper, Values};

fn num(text: &str) -> Values {
    Values::Number(Number::from_literal(text).unwrap())
}

fn object(pairs: Vec<(&str, Values)>) -> Members {
    let mut m = Members::new();
    for (k, v) in pairs {
        m.insert(k.to_string(), v);
    }
    m
}

#[test]
fn a_missing_field_is_an_error() {
    let mut m = object(vec![("a", Values::Boolean(true))]);
    assert_eq!(m.get_val_res("b", |v: &Values| v.get_bool()), Err(ParseError::new()));
    assert_eq!(m.get_val_opt("b", |v: &Values| v.get_bool()), None);
    assert_eq!(m.rm_val("b", |v: Values| v.get_bool()), Err(ParseError::new()));
    assert_eq!(m.map_val("b", bool::try_from), Err(ParseError::new()));
    assert_eq!(m.map_ref_val("b", |v: &Values| bool::try_from(v.clone())), Err(ParseError::new()));
    assert_eq!(m.map_val_and_err("b", |v: Values| v.get_bool().ok_or(7u8)), Err(ParseError::new()));
    assert_eq!(m.map_opt_val("b", |v: Values| v.get_bool()), Err(ParseError::new()));
    assert_eq!(m.len(), 1);
}

#[test]
fn a_field_of_the_wrong_shape_is_an_error() {
    let mut m = object(vec![("a", Values::Null), ("b", Values::Null), ("c", Values::Null)]);
    assert_eq!(m.get_val_res("a", |v: &Values| v.get_bool()), Err(ParseError::new()));
    assert_eq!(m.get_val_opt("a", |v: &Values| v.get_bool()), None);
    assert_eq!(m.rm_val("a", |v: Values| v.get_bool()), Err(ParseError::new()));
    assert_eq!(m.map_val("b", |_v: Values| Err::<bool, ParseError>(ParseError::new().with_msg("no"))),
        Err(ParseError::new().with_msg("no")));
    assert_eq!(m.map_val_and_err("c", |v: Values| v.get_bool().ok_or(7u8)), Err(ParseError::new()));
    assert!(m.is_empty());
}

#[test]
fn reading_leaves_a_field_and_taking_removes_it() {
    let mut m = object(vec![("a", Values::Boolean(true)), ("b", num("5")), ("c", Values::Null)]);
    assert_eq!(m.get_val_unsafe("a", |v: &Values| v.get_bool()), true);
    assert_eq!(m.get_val_opt("a", |v: &Values| v.get_bool()), Some(true));
    assert_eq!(m.get_val_res("a", |v: &Values| v.get_bool()), Ok(true));
    assert_eq!(m.map_ref_val("b", |v: &Values| u8::try_from(v.clone())), Ok(5u8));
    assert_eq!(m.len(), 3);
    assert_eq!(m.rm_val("a", |v: Values| v.get_bool()), Ok(true));
    assert_eq!(m.len(), 2);
    assert_eq!(m.map_val("b", u8::try_from), Ok(5u8));
    assert_eq!(m.map_opt_val("c", |v: Values| v.get_bool()), Ok(None));
    assert!(m.is_empty());
    assert_eq!(m.map_val("b", u8::try_from), Err(ParseError::new()));
}

#[test]
fn integers_are_read_within_their_width() {
    assert_eq!(u8::try_from(num("255")), Ok(255u8));
    assert_eq!(u8::try_from(num("256")), Err(ParseError::new()));
    assert_eq!(u8::try_from(num("-1")), Err(ParseError::new()));
    assert_eq!(u8::try_from(num("1.5")), Err(ParseError::new()));
    assert_eq!(u8::try_from(Values::String("1".to_string())), Err(ParseError::new()));
    assert_eq!(u16::try_from(num("65535")), Ok(u16::MAX));
    assert_eq!(u32::try_from(num("4294967296")), Err(ParseError::new()));
    assert_eq!(u64::try_from(num("18446744073709551615")), Ok(u64::MAX));
    assert_eq!(u128::try_from(num("340282366920938463463374607431768211455")), Ok(u128::MAX));
    assert_eq!(usize::try_from(num("12")), Ok(12usize));
    assert_eq!(i8::try_from(num("-128")), Ok(i8::MIN));
    assert_eq!(i8::try_from(num("128")), Err(ParseError::new()));
    assert_eq!(i16::try_from(num("-32769")), Err(ParseError::new()));
    assert_eq!(i32::try_from(num("-2147483648")), Ok(i32::MIN));
    assert_eq!(i64::try_from(num("9223372036854775807")), Ok(i64::MAX));
    assert_eq!(i128::try_from(num("-170141183460469231731687303715884105728")), Ok(i128::MIN));
    assert_eq!(isize::try_from(num("-7")), Ok(-7isize));
}

#[test]
fn scalars_are_read_from_their_shape_only() {
    assert_eq!(bool::try_from(Values::Boolean(true)), Ok(true));
    assert_eq!(bool::try_from(Values::Null), Err(ParseError::new()));
    assert_eq!(String::try_from(Values::String("x".to_string())), Ok("x".to_string()));
    assert_eq!(String::try_from(num("1")), Err(ParseError::new()));
    assert_eq!(char::try_from(Values::String("xyz".to_string())), Ok('x'));
    assert_eq!(char::try_from(Values::String(String::new())), Err(ParseError::new()));
    assert_eq!(char::try_from(Values::Null), Err(ParseError::new()));
}

#[test]
fn lists_are_read_item_by_item_in_their_order() {
    let list = Values::Array(vec![num("1"), num("2"), num("3")]);
    assert_eq!(Vec::<u8>::try_from(list), Ok(vec![1u8, 2, 3]));
    let mixed = Values::Array(vec![num("1"), Values::Null]);
    assert_eq!(Vec::<u8>::try_from(mixed), Err(ParseError::new()));
    assert_eq!(Vec::<u8>::try_from(Values::Null), Err(ParseError::new()));
    assert_eq!(Vec::<u8>::deserialize_str("[4, 5]"), Ok(vec![4u8, 5]));
    assert_eq!(Vec::<u8>::deserialize(String::from("[4, 5")), Err(ParseError::new()));
}

#[test]
fn integers_and_text_are_serialized() {
    assert_eq!(0u8.json(), "0");
    assert_eq!(255u8.json(), "255");
    assert_eq!(u16::MAX.json(), "65535");
    assert_eq!(u32::MAX.json(), "4294967295");
    assert_eq!(u64::MAX.json(), "18446744073709551615");
    assert_eq!(u128::MAX.json(), "340282366920938463463374607431768211455");
    assert_eq!(17usize.json(), "17");
    assert_eq!((-1i8).json(), "-1");
    assert_eq!(i16::MIN.json(), "-32768");
    assert_eq!(i32::MIN.json(), "-2147483648");
    assert_eq!(i64::MIN.json(), "-9223372036854775808");
    assert_eq!(i128::MIN.json(), "-170141183460469231731687303715884105728");
    assert_eq!((-3isize).json(), "-3");
    assert_eq!('x'.json(), "\"x\"");
    assert_eq!("a\"b".json(), "\"a\\\"b\"");
    assert_eq!(String::from("s").json(), "\"s\"");
    let slice: &[bool] = &[true, false];
    assert_eq!(slice.json(), "[true,false]");
    assert_eq!(Some(5u8).json(), "5");
    assert_eq!(Values::Null.json(), "null");
}

#[test]
fn serializing_twice_gives_the_same_text() {
    let x = vec![Some(3u8), None, Some(4u8)];
    assert_eq!(x.serialize().to_string(), x.serialize().to_string());
    assert_eq!(x.json(), "[3,null,4]");
    assert_eq!(x.serialize(), x.serialize());
}

#[test]
fn values_come_back_from_their_text() {
    let tree = Values::Struct(object(vec![
        ("list", Values::Array(vec![num("1"), num("-2.5e3"), Values::Null, Values::Boolean(false)])),
        ("text", Values::String("a \"quoted\" \\ back\nslash".to_string())),
        ("inner", Values::Struct(object(vec![("k", Values::Array(vec![]))]))),
        ("empty", Values::Struct(Members::new())),
    ]));
    let text = tree.to_string();
    let back = Parser::new(&text).parse().unwrap();
    assert_eq!(back, tree);
    assert_eq!(back.to_string(), text);
    for b in [true, false] {
        assert_eq!(Parser::new(&b.json()).parse(), Ok(Values::Boolean(b)));
    }
    for f in [0.0f64, 1.5, -2.25, 1e21, 1e-7, 123456789.125] {
        let v = num(&format!("{}", f));
        let again = Parser::new(&v.to_string()).parse().unwrap();
        assert_eq!(again, v);
        assert_eq!(again.get_number().unwrap().to_text().parse::<f64>().unwrap(), f);
    }
    let s = Values::String("plain text".to_string());
    assert_eq!(Parser::new(&s.to_string()).parse(), Ok(s));
}

#[test]
fn text_that_is_not_ascii_comes_back() {
    for text in ["é", "\u{20ac}", "a\u{20ac}\"b\\c\u{1f600}", "日本語"] {
        let s = Values::String(text.to_string());
        let back = Parser::new(&s.to_string()).parse().unwrap();
        assert_eq!(back, Values::String(text.to_string()));
        assert_eq!(back.get_string().unwrap(), text);
    }
    let tree = Values::Struct(object(vec![
        ("k\u{e9}y", Values::Array(vec![Values::String("\u{20ac}".to_string())])),
        ("a\"b", Values::Null),
        ("c\\d", Values::Boolean(true)),
    ]));
    let text = tree.to_string();
    assert_eq!(text, "{\"k\u{e9}y\":[\"\u{20ac}\"],\"a\\\"b\":null,\"c\\\\d\":true}");
    assert_eq!(Parser::new(&text).parse(), Ok(tree));
}

#[test]
fn a_key_is_rendered_as_a_string_is() {
    let tree = Values::Struct(object(vec![("a\"b", Values::Null)]));
    assert_eq!(tree.to_string(), "{\"a\\\"b\":null}");
    assert_eq!(Parser::new(&tree.to_string()).parse(), Ok(tree));
}

#[test]
fn a_field_is_taken_out_at_most_once() {
    let mut m = object(vec![("a", Values::Boolean(true)), ("b", Values::Null)]);
    assert_eq!(m.rm_val("a", |v: Values| v.get_bool()), Ok(true));
    assert!(!m.contains_key("a"));
    assert_eq!(m.rm_val("a", |v: Values| v.get_bool()), Err(ParseError::new()));
    assert_eq!(m.get("b"), Some(&Values::Null));
    assert_eq!(m.len(), 1);
}

#[test]
fn entries_of_a_map_become_members_under_the_text_of_their_keys() {
    let (k1, v1, k2, v2, k3, v3) = (1u8, true, 2u8, false, 1u8, false);
    let entries = vec![(&k1, &v1), (&k2, &v2), (&k3, &v3)];
    let tree = serialize_entries(&entries);
    assert_eq!(tree.to_string(), "{\"1\":false,\"2\":false}");
    let (a, b) = ("x\"y".to_string(), 7u8);
    assert_eq!(serialize_entries(&vec![(&a, &b)]).to_string(), "{\"x\\\"y\":7}");
    let back = entries_from::<u8, bool>(tree).unwrap();
    assert_eq!(back, vec![(1u8, false), (2u8, false)]);
    assert_eq!(entries_from::<u8, bool>(Values::Null), Err(ParseError::new()));
    let bad_key = Values::Struct(object(vec![("k", Values::Boolean(true))]));
    assert_eq!(entries_from::<u8, bool>(bad_key), Err(ParseError::new()));
    let bad_value = Values::Struct(object(vec![("1", Values::Null)]));
    assert_eq!(entries_from::<u8, bool>(bad_value), Err(ParseError::new()));
    assert_eq!(key_from::<u8>("12"), Ok(12u8));
    assert_eq!(key_from::<u8>("x"), Err(ParseError::new()));
    assert_eq!(key_from::<String>("Hello"), Ok("Hello".to_string()));
    assert_eq!(key_from::<String>("12"), Ok("12".to_string()));
    assert_eq!(key_from::<bool>("true"), Ok(true));
}

#[test]
fn errors_carry_their_message() {
    assert_eq!(ParseError::new().message(), "");
    assert_eq!(ParseError::new().with_msg("bad").message(), "bad");
    assert_eq!(ParseError::from(String::from("m")).message(), "m");
    assert_eq!(ParseError::from(()), ParseError::new());
    assert_eq!(ParseError::default(), ParseError::new());
}

#[test]
fn a_parser_reads_its_text_once() {
    let mut p = Parser::new(" [1] ");
    assert!(!p.is_eof());
    assert_eq!(p.parse(), Ok(Values::Array(vec![num("1")])));
    assert!(p.is_eof());
    assert_eq!(p.parse(), Err(ParseError::new()));
}

#[derive(Debug, PartialEq)]
struct Picky;

impl TryFrom<Values> for Picky {
    type Error = ParseError;
    fn try_from(value: Values) -> Result<Self, Self::Error> {
        if value.is_null() {
            Ok(Picky)
        } else if value.is_number() {
            Err(ParseError::new().with_msg("a number"))
        } else {
            Err(ParseError::new().with_msg("not null"))
        }
    }
}

#[test]
fn the_first_failing_item_gives_the_error() {
    let list = Values::Array(vec![Values::Null, num("1"), Values::Boolean(true)]);
    assert_eq!(Vec::<Picky>::try_from(list), Err(ParseError::new().with_msg("a number")));
    let list = Values::Array(vec![Values::Boolean(true), num("1")]);
    assert_eq!(Vec::<Picky>::try_from(list), Err(ParseError::new().with_msg("not null")));
    let members = Values::Struct(object(vec![("1", num("2")), ("2", Values::Boolean(true))]));
    assert_eq!(entries_from::<u8, Picky>(members), Err(ParseError::new().with_msg("a number")));
}

#[test]
fn the_error_of_a_conversion_is_handed_on_as_it_is() {
    let list = Values::Array(vec![Values::Null, Values::Boolean(true), num("1")]);
    assert_eq!(Vec::<Picky>::try_from(list), Err(ParseError::new().with_msg("not null")));
    let fine = Values::Array(vec![Values::Null, Values::Null]);
    assert_eq!(Vec::<Picky>::try_from(fine), Ok(vec![Picky, Picky]));
    let members = Values::Struct(object(vec![("1", Values::Null), ("2", Values::Boolean(true))]));
    assert_eq!(
        entries_from::<u8, Picky>(members),
        Err(ParseError::new().with_msg("not null"))
    );
    assert_eq!(Picky::deserialize_str("7"), Err(ParseError::new().with_msg("a number")));
    assert_eq!(Picky::deserialize_str("null"), Ok(Picky));
    assert_eq!(Picky::deserialize_str("nul"), Err(ParseError::new()));
}

#[test]
fn a_number_whose_value_is_an_integer_is_read_as_one() {
    assert_eq!(usize::try_from(num("1.0")), Ok(1usize));
    assert_eq!(u8::try_from(num("1e2")), Ok(100u8));
    assert_eq!(u8::try_from(num("1.")), Ok(1u8));
    assert_eq!(u8::try_from(num("100e-2")), Ok(1u8));
    assert_eq!(u8::try_from(num("1.50e1")), Ok(15u8));
    assert_eq!(u8::try_from(num("0.5e1")), Ok(5u8));
    assert_eq!(u8::try_from(num("120E-1")), Ok(12u8));
    assert_eq!(u8::try_from(num("0.0")), Ok(0u8));
    assert_eq!(u8::try_from(num("0.000e-5")), Ok(0u8));
    assert_eq!(u8::try_from(num("0e99999999999999999999999999999999999999999999")), Ok(0u8));
    assert_eq!(u8::try_from(num("0e-99999999999999999999999999999999999999999999")), Ok(0u8));
    assert_eq!(u8::try_from(num("007.00")), Ok(7u8));
    assert_eq!(u16::try_from(num("2.56e2")), Ok(256u16));
    assert_eq!(u8::try_from(num("2.56e2")), Err(ParseError::new()));
    assert_eq!(u8::try_from(num("1.5")), Err(ParseError::new()));
    assert_eq!(u8::try_from(num("12e-1")), Err(ParseError::new()));
    assert_eq!(u8::try_from(num("1e-1")), Err(ParseError::new()));
    assert_eq!(u8::try_from(num("1.05e1")), Err(ParseError::new()));
    assert_eq!(u8::try_from(num("-0")), Err(ParseError::new()));
    assert_eq!(u128::try_from(num("340282366920938463463374607431768211455.0")), Ok(u128::MAX));
    assert_eq!(u128::try_from(num("3.40282366920938463463374607431768211455e38")), Ok(u128::MAX));
    assert_eq!(u128::try_from(num("1e38")), Ok(100000000000000000000000000000000000000u128));
    assert_eq!(u128::try_from(num("1e39")), Err(ParseError::new()));
    assert_eq!(u128::try_from(num("34028236692093846346337460743176821145.5e1")), Ok(u128::MAX));
    assert_eq!(u128::try_from(num("34028236692093846346337460743176821145.6e1")), Err(ParseError::new()));
    assert_eq!(u8::try_from(num("1e99999999999999999999999999999999999999999999")), Err(ParseError::new()));
    assert_eq!(u8::try_from(num("1e-99999999999999999999999999999999999999999999")), Err(ParseError::new()));
    assert_eq!(i8::try_from(num("-1.0")), Ok(-1i8));
    assert_eq!(i8::try_from(num("-1.28e2")), Ok(i8::MIN));
    assert_eq!(i8::try_from(num("1.28e2")), Err(ParseError::new()));
    assert_eq!(i8::try_from(num("-0.0")), Ok(0i8));
    assert_eq!(i8::try_from(num("-1.5")), Err(ParseError::new()));
    assert_eq!(Vec::<u8>::deserialize_str("[1.0, 2e0, 30e-1]"), Ok(vec![1u8, 2, 3]));
}
