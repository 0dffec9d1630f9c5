use wjp::parser::Parser;
use wjp::values::{Members, Values};
use wjp::Number;

fn num(text: &str) -> Values {
    Values::Number(Number::from_literal(text).unwrap())
}

fn parse(text: &str) -> Result<Values, wjp::ParseError> {
    Parser::new(text).parse()
}

#[test]
fn parses_escaped_quotes_in_a_member() {
    let v = parse("{\"ab\":\"c\\\"d\\\"e\"}").unwrap();
    let m = v.get_struct().unwrap();
    assert_eq!(m.len(), 1);
    assert_eq!(m.get("ab").unwrap().get_string().unwrap(), "c\"d\"e");
}

#[test]
fn keeps_the_order_of_array_items() {
    let v = parse("[1,2,3]").unwrap();
    let items = v.get_list();
    assert_eq!(items.len(), 3);
    let read: Vec<f64> = items
        .iter()
        .map(|i| i.get_number().unwrap().to_text().parse::<f64>().unwrap())
        .collect();
    assert_eq!(read, vec![1.0, 2.0, 3.0]);
    assert_eq!(v, Values::Array(vec![num("1"), num("2"), num("3")]));
}

#[test]
fn last_duplicate_key_wins() {
    let v = parse("{\"a\":1,\"a\":2}").unwrap();
    let m = v.get_struct().unwrap();
    assert_eq!(m.len(), 1);
    assert_eq!(m.get("a").unwrap(), &num("2"));
}

#[test]
fn nested_containers_and_whitespace() {
    let v = parse(" { \"a\" : [ true , null , { } , [ ] ] ,\n\"b\" : -1.5e3 } \t").unwrap();
    let mut inner = Members::new();
    inner.insert(
        "a".to_string(),
        Values::Array(vec![
            Values::Boolean(true),
            Values::Null,
            Values::Struct(Members::new()),
            Values::Array(vec![]),
        ]),
    );
    inner.insert("b".to_string(), num("-1.5e3"));
    assert_eq!(v, Values::Struct(inner));
    assert_eq!(v.to_string(), "{\"a\":[true,null,{},[]],\"b\":-1.5e3}");
}

#[test]
fn rejects_malformed_texts() {
    for text in [
        "", " ", "[", "[1", "[1,", "[1,]", "{", "{\"a\"", "{\"a\":", "{\"a\":1", "{\"a\":1,}",
        "{a:1}", "\"abc", "\"ab\\", "\"ab\\x\"", "tru", "truth", "nul", "fals", "-", "-a", "1.5.2",
        "1e", "1 2", "[1 2]", "1\t", "nulll", "{} x",
    ] {
        assert_eq!(parse(text), Err(wjp::ParseError::new()), "{:?}", text);
    }
}

#[test]
fn reads_scalars_at_the_end_of_the_text() {
    assert_eq!(parse("12"), Ok(num("12")));
    assert_eq!(parse("-0.25 "), Ok(num("-0.25")));
    assert_eq!(parse("true"), Ok(Values::Boolean(true)));
    assert_eq!(parse("false"), Ok(Values::Boolean(false)));
    assert_eq!(parse("null"), Ok(Values::Null));
    assert_eq!(parse("\"a\\n\\t\\r\\b\\f\\/\\\\\""), Ok(Values::String("a\n\t\r\u{8}\u{c}/\\".to_string())));
}

#[test]
fn drops_unicode_escapes() {
    assert_eq!(parse("\"a\\u0041b\""), Ok(Values::String("a0041b".to_string())));
}
