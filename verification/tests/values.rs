use wjp::{Members, Number, Serialize, Values};

fn number(value: f64) -> Values {
    Values::Number(Number::from_literal(&format!("{}", value)).unwrap())
}

struct Hello {
    hello: String,
}

impl Serialize for Hello {
    fn serialize(&self) -> Values {
        let mut m = Members::new();
        m.insert(String::from("hello"), self.hello.serialize());
        Values::Struct(m)
    }
}

#[test]
pub fn display_on_bool_true() {
    let bool = Values::Boolean(true);
    assert_eq!(bool.to_string(), "true")
}

#[test]
pub fn display_on_bool_false() {
    let bool = Values::Boolean(false);
    assert_eq!(bool.to_string(), "false")
}

#[test]
pub fn display_on_null() {
    let null = Values::Null;
    assert_eq!(null.to_string(), "null")
}

#[test]
pub fn display_on_arr() {
    let arr = vec![Values::Null, Values::Null];
    let null = Values::Array(arr);
    assert_eq!(null.to_string(), "[null,null]")
}

#[test]
pub fn display_on_num() {
    let num = number(1.56);
    assert_eq!(num.to_string(), "1.56")
}

#[test]
pub fn display_on_string() {
    let num = Values::String(String::from("TEST TEST TEST"));
    assert_eq!(num.to_string(), "\"TEST TEST TEST\"")
}

#[test]
pub fn display_on_struct() {
    let struc = Hello {
        hello: String::from("Moin"),
    }
    .serialize();
    assert_eq!(struc.to_string(), "{\"hello\":\"Moin\"}");
}

#[test]
pub fn display_on_arr_with_struct() {
    let arr = vec![
        Hello {
            hello: String::from("Moin"),
        },
        Hello {
            hello: String::from("IDK"),
        },
        Hello {
            hello: String::from("Hel\"lo"),
        },
    ];
    assert_eq!(
        arr.serialize().to_string(),
        "[{\"hello\":\"Moin\"},{\"hello\":\"IDK\"},{\"hello\":\"Hel\\\"lo\"}]"
    );
}

#[test]
pub fn with_empty_params() {
    assert_eq!(Members::new(), Members::new());
    assert!(Members::new().is_empty());
}

#[test]
pub fn with_filled_params() {
    let mut map = Members::new();
    map.insert(String::from("test"), 123.serialize());
    let mut built = Members::new();
    built.insert(String::from("test"), Serialize::serialize(&123));
    assert_eq!(built, map)
}

#[test]
fn accessors_give_the_payload_of_the_matching_shape_only() {
    let text = Values::String("a".to_string());
    assert_eq!(text.get_string(), Some("a".to_string()));
    assert_eq!(text.get_bool(), None);
    assert_eq!(text.get_number(), None);
    assert_eq!(text.get_struct(), None);
    assert_eq!(text.get_list_opt(), None);
    assert_eq!(text.get_list(), vec![]);
    assert_eq!(Values::Boolean(true).get_bool(), Some(true));
    assert_eq!(number(2.5).get_number().unwrap().to_text(), "2.5");
    assert_eq!(Values::Array(vec![Values::Null]).get_list(), vec![Values::Null]);
    assert_eq!(Values::Struct(Members::new()).get_struct(), Some(Members::new()));
}

#[test]
fn shapes_have_their_names() {
    assert_eq!(Values::String(String::new()).get_type_as_string(), Values::STRING);
    assert_eq!(number(1.0).get_type_as_string(), Values::NUMBER);
    assert_eq!(Values::Struct(Members::new()).get_type_as_string(), Values::STRUCT);
    assert_eq!(Values::Null.get_type_as_string(), Values::NULL);
    assert_eq!(Values::Array(vec![]).get_type_as_string(), Values::ARRAY);
    assert_eq!(Values::Boolean(false).get_type_as_string(), Values::BOOLEAN);
    assert_eq!(Values::STRING, "string");
    assert_eq!(Values::STRUCT, "struct");
    assert_eq!(Values::NUMBER, "number");
    assert_eq!(Values::NULL, "null");
    assert_eq!(Values::ARRAY, "array");
    assert_eq!(Values::BOOLEAN, "boolean");
    assert!(Values::Boolean(true).is_bool() && !Values::Null.is_bool());
    assert!(Values::Null.is_null() && !Values::Boolean(true).is_null());
    assert!(Values::String(String::new()).is_string() && !Values::Null.is_string());
    assert!(number(0.0).is_number() && !Values::Null.is_number());
    assert!(Values::Struct(Members::new()).is_struct() && !Values::Null.is_struct());
    assert!(Values::Array(vec![]).is_array() && !Values::Null.is_array());
    assert_eq!(wjp::NULL, Values::Null);
}

#[test]
fn a_number_equals_the_string_of_its_literal() {
    assert_eq!(number(12.5), Values::String("12.5".to_string()));
    assert_eq!(Values::String("12.5".to_string()), number(12.5));
    assert_ne!(number(12.5), Values::String("12.50".to_string()));
    assert_ne!(number(1.0), Values::Boolean(true));
    assert_ne!(Values::Null, Values::Boolean(false));
    assert_eq!(number(3.0), number(3.0));
    assert_ne!(number(3.0), number(4.0));
}

#[test]
fn objects_are_equal_whatever_the_order_of_their_members() {
    let mut a = Members::new();
    a.insert("x".to_string(), Values::Null);
    a.insert("y".to_string(), Values::Boolean(true));
    let mut b = Members::new();
    b.insert("y".to_string(), Values::Boolean(true));
    b.insert("x".to_string(), Values::Null);
    assert_eq!(Values::Struct(a.clone()), Values::Struct(b));
    let mut c = Members::new();
    c.insert("x".to_string(), Values::Null);
    assert_ne!(Values::Struct(a.clone()), Values::Struct(c));
    assert_eq!(Values::Struct(a).to_string(), "{\"x\":null,\"y\":true}");
}

#[test]
fn members_keep_one_value_for_a_key() {
    let mut m = Members::new();
    m.insert("a".to_string(), Values::Null);
    m.insert("b".to_string(), Values::Boolean(true));
    m.insert("a".to_string(), Values::Boolean(false));
    assert_eq!(m.len(), 2);
    assert_eq!(m.get("a"), Some(&Values::Boolean(false)));
    assert_eq!(m.entry(0).unwrap().0, "a");
    assert_eq!(m.entry(1).unwrap().0, "b");
    assert!(m.entry(2).is_none());
    assert!(m.contains_key("b"));
    assert_eq!(m.remove("a"), Some(Values::Boolean(false)));
    assert_eq!(m.remove("a"), None);
    assert_eq!(m.get("a"), None);
    assert_eq!(m.len(), 1);
}

#[test]
fn strings_are_rendered_with_quotes_and_backslashes_escaped() {
    let v = Values::String("a\\b\"c\nd".to_string());
    assert_eq!(v.to_string(), "\"a\\\\b\\\"c\nd\"");
}

#[test]
fn number_literals_are_told_from_other_texts() {
    for good in ["0", "12", "-3", "1.5", "1.", "007", "1e5", "1E+5", "2.5e-3", "-0"] {
        assert!(Number::from_literal(good).is_some(), "{}", good);
        assert_eq!(Number::from_literal(good).unwrap().to_text(), good);
    }
    for bad in ["", "-", ".5", "+1", "1e", "1e+", "1.5.2", "a", "1a", "--1", "NaN", "inf", "1 "] {
        assert!(Number::from_literal(bad).is_none(), "{}", bad);
    }
    assert_eq!(Number::from_literal("12").unwrap().negated().to_text(), "-12");
    assert_eq!(Number::from_literal("-12").unwrap().negated().to_text(), "12");
}

#[test]
fn integers_become_their_decimal_literals_and_come_back() {
    assert_eq!(Number::from_u128(0).to_text(), "0");
    assert_eq!(Number::from_u128(1203).to_text(), "1203");
    assert_eq!(Number::from_u128(u128::MAX).to_text(), "340282366920938463463374607431768211455");
    assert_eq!(Number::from_i128(-45).to_text(), "-45");
    assert_eq!(Number::from_i128(i128::MIN).to_text(), "-170141183460469231731687303715884105728");
    assert_eq!(Number::from_u128(u128::MAX).to_u128(), Some(u128::MAX));
    assert_eq!(Number::from_literal("340282366920938463463374607431768211456").unwrap().to_u128(), None);
    assert_eq!(Number::from_i128(i128::MIN).to_i128(), Some(i128::MIN));
    assert_eq!(Number::from_i128(i128::MAX).to_i128(), Some(i128::MAX));
    assert_eq!(Number::from_literal("170141183460469231731687303715884105728").unwrap().to_i128(), None);
    assert_eq!(Number::from_literal("-170141183460469231731687303715884105729").unwrap().to_i128(), None);
    assert_eq!(Number::from_literal("1.5").unwrap().to_u128(), None);
    assert_eq!(Number::from_literal("-1").unwrap().to_u128(), None);
    assert_eq!(Number::from_literal("007").unwrap().to_u128(), Some(7));
}
