use std::collections::HashMap;

use wjp::{Deserialize, Members, Number, ParseError, Serialize, SerializeHelper, Values};

fn number(value: f64) -> Values {
    Values::Number(Number::from_literal(&format!("{}", value)).unwrap())
}

struct Float(f64);

impl Serialize for Float {
    fn serialize(&self) -> Values {
        number(self.0)
    }
}

#[test]
pub fn deserialize_test() {}

#[test]
pub fn test_serialized_option_none() {
    let none: Option<bool> = None;
    assert_eq!("null", none.serialize().to_string());
}

#[test]
pub fn test_serialized_option_some() {
    let some = Some(true);
    assert_eq!("true", some.serialize().to_string());
}

#[test]
pub fn test_serialized_result_err() {
    let string: Result<&str, &str> = Err("Hello I am a Error");
    assert_eq!("\"Hello I am a Error\"", string.serialize().to_string())
}

#[test]
pub fn test_serialized_result_ok() {
    let num: Result<Float, &str> = Ok(Float(123.22));
    assert_eq!("123.22", num.serialize().to_string())
}

#[test]
pub fn test_serialized_vec_empty() {
    let arr: Vec<bool> = vec![];
    assert_eq!("[]", arr.serialize().to_string())
}

#[test]
pub fn test_serialized_vec_filled() {
    let arr = vec![true, false, false, false];
    assert_eq!("[true,false,false,false]", arr.serialize().to_string())
}

#[test]
pub fn test_serialized_map_empty() {
    let map: HashMap<String, String> = HashMap::new();
    assert_eq!("{}", map.serialize().to_string())
}

#[test]
pub fn test_serialized_map_filled() {
    let mut map = HashMap::new();
    map.insert(String::from("Hello"), Serialize::serialize(&true));
    assert_eq!("{\"Hello\":true}", map.serialize().to_string())
}

#[derive(Hash, Eq, PartialEq, Debug)]
struct Idk {
    map: u128,
}

impl TryFrom<Values> for Idk {
    type Error = ParseError;
    fn try_from(value: Values) -> Result<Self, Self::Error> {
        let mut struc = value.get_struct().ok_or(ParseError::new())?;
        Ok(Self {
            map: struc.map_val("map", u128::try_from)?,
        })
    }
}

impl Serialize for Idk {
    fn serialize(&self) -> Values {
        let mut m = Members::new();
        m.insert(String::from("map"), Serialize::serialize(&self.map));
        Values::Struct(m)
    }
}

#[test]
pub fn test_serialized_map_filled_s() {
    let mut map = HashMap::new();
    map.insert(100u8, Idk { map: 1 });
    let ser = map.json();
    println!("{}", ser);
    assert_eq!(ser, "{\"100\":{\"map\":1}}");
    let back = HashMap::<u8, Idk>::deserialize(ser);
    println!("{:?}", back);
    assert_eq!(back, Ok(map));
}

#[test]
fn test_one() {
    let mut map = Members::new();
    map.insert(String::from("a"), Serialize::serialize(&1));
    map.insert(String::from("a"), Serialize::serialize(&1));
    println!("{:?}", map.get("a"));
    assert_eq!(map.len(), 1);
    assert_eq!(map.get("a").unwrap().to_string(), "1");
}

#[derive(Debug)]
pub struct S {
    a: String,
    b: String,
}

impl Serialize for S {
    fn serialize(&self) -> Values {
        let mut m = Members::new();
        m.insert(String::from("a"), Serialize::serialize(&self.a));
        m.insert(String::from("b"), Serialize::serialize(&self.b));
        Values::Struct(m)
    }
}

impl TryFrom<Values> for S {
    type Error = ParseError;
    fn try_from(value: Values) -> Result<Self, Self::Error> {
        let s = value.get_struct().ok_or(())?;
        let a = s.get_val_res("a", |e: &Values| e.get_string())?;
        let b = s.get_val_res("b", |e: &Values| e.get_string())?;
        Ok(S { a, b })
    }
}

#[derive(Debug)]
pub struct A {
    a: f64,
    s: S,
}

fn float_of(v: &Values) -> Option<f64> {
    v.get_number().and_then(|n| n.to_text().parse::<f64>().ok())
}

impl TryFrom<Values> for A {
    type Error = ParseError;
    fn try_from(value: Values) -> Result<Self, Self::Error> {
        let mut a = value.get_struct().ok_or(())?;
        let num = a.get_val_res("a", float_of)?;
        let s = a.map_val("s", S::try_from)?;
        Ok(A { a: num, s })
    }
}

impl Serialize for A {
    fn serialize(&self) -> Values {
        let mut m = Members::new();
        m.insert(String::from("a"), number(self.a));
        m.insert(String::from("s"), Serialize::serialize(&self.s));
        Values::Struct(m)
    }
}

impl Serialize for YourMum {
    fn serialize(&self) -> Values {
        let mut vec = Vec::new();
        for items in &self.0 {
            vec.push(items.serialize());
        }
        Values::Array(vec)
    }
}

#[derive(Debug)]
struct YourMum(Vec<A>);

impl TryFrom<Values> for YourMum {
    type Error = ParseError;
    fn try_from(value: Values) -> Result<Self, Self::Error> {
        Ok(Self(Vec::try_from(value)?))
    }
}

fn sample(a: f64, first: &str) -> A {
    A {
        a,
        s: S {
            a: first.to_string(),
            b: "hello".to_string(),
        },
    }
}

#[test]
fn test_test() {
    let s = S {
        a: "Hey Joschka".into(),
        b: "ich habs".into(),
    };

    println!("Object: {:?}", &s);
    let map = s.serialize();
    println!("Abstraktion: {:?}", map);
    println!("JSON: {}", map.to_string());
    assert_eq!(map.to_string(), "{\"a\":\"Hey Joschka\",\"b\":\"ich habs\"}");
    println!();
    let back_s = S::try_from(map).unwrap();
    println!("{:?}", back_s);
    println!("{}", back_s.a);
    assert_eq!(back_s.a, "Hey Joschka");
    assert_eq!(back_s.b, "ich habs");

    let a = A {
        a: 187.0,
        s: S {
            a: "hello".to_string(),
            b: "hello".to_string(),
        },
    };

    let b = A { a: 299.0, s };

    let mum = YourMum(vec![
        sample(18.7, "he\\\"llo"),
        sample(19.098888, "l"),
        sample(19.098888, "l"),
        sample(19.098888, "l"),
        sample(19.098888, "l"),
        b,
    ]);
    println!("{}", mum.serialize().to_string());
    let map_two = a.serialize();
    println!("Abstraktion: {:?}", map_two);
    println!("Json: {}", map_two.to_string());
    assert_eq!(map_two.to_string(), "{\"a\":187,\"s\":{\"a\":\"hello\",\"b\":\"hello\"}}");
    let back_a = A::try_from(map_two).unwrap();
    println!("Object: {:?}", back_a);
    assert_eq!(back_a.a, 187.0);

    println!("{:?}", "0.1999".parse::<f64>());

    println!();
    println!();

    let mum = YourMum(vec![sample(18.7, "he\\\"llo"), sample(19.098888, "l")]);
    let ser_mom = mum.serialize().to_string();
    println!("{}", ser_mom);
    assert_eq!(
        ser_mom,
        "[{\"a\":18.7,\"s\":{\"a\":\"he\\\\\\\"llo\",\"b\":\"hello\"}},{\"a\":19.098888,\"s\":{\"a\":\"l\",\"b\":\"hello\"}}]"
    );
    let back = YourMum::deserialize(ser_mom).unwrap();
    println!("{:?}", back);
    assert_eq!(back.0.len(), 2);
    assert_eq!(back.0[0].a, 18.7);
    assert_eq!(back.0[0].s.a, "he\\\"llo");
    assert_eq!(back.0[1].a, 19.098888);
    assert_eq!(back.0[1].s.a, "l");
    let contents = String::from("{\"ab\":\"c\\\"d\\\"e\"}");
    let parsed = wjp::Parser::new(contents.as_str()).parse();
    println!("{:?}", parsed);
    assert!(parsed.is_ok());
    let hello = String::from("Hello");
    println!("{}", hello.serialize().to_string());
    assert_eq!(hello.json(), "\"Hello\"");
}
