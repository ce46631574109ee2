use nix_hapi::json::{
    get_text, need_items, need_text, need_texts, read_optional_text, read_string_members,
    tagged_object, write_optional, write_texts, Json, Number,
};

fn json(text: &str) -> Json {
    Json::parse(text).expect("valid JSON")
}

#[test]
fn members_come_in_order_of_their_keys() {
    let value = json(r#"{"b": 1, "a": [true, null], "c": "x"}"#);
    assert_eq!(value.text(), r#"{"a":[true,null],"b":1,"c":"x"}"#);
}

#[test]
fn the_last_of_two_equal_keys_holds() {
    assert_eq!(json(r#"{"a": 1, "a": 2}"#).text(), r#"{"a":2}"#);
}

#[test]
fn numbers_keep_their_kind() {
    assert_eq!(json("18446744073709551615"), Json::Number(Number::PosInt(u64::MAX)));
    assert_eq!(json("-3"), Json::Number(Number::NegInt(-3)));
    assert_eq!(json("1.50"), Json::Number(Number::Float("1.5".to_string())));
    assert_eq!(json("1.5").text(), "1.5");
}

#[test]
fn a_number_that_is_none_is_written_as_null() {
    assert_eq!(Json::Number(Number::Float("plenty".to_string())).text(), "null");
}

#[test]
fn integers_and_fractions_are_not_the_same_number() {
    assert!(json("1").same(&json("1")));
    assert!(!json("1").same(&json("1.0")));
    assert!(json("[1, {\"a\": null}]").same(&json("[1, {\"a\": null}]")));
    assert!(!json("[1]").same(&json("[1, 2]")));
    assert!(!json(r#"{"a": 1}"#).same(&json(r#"{"b": 1}"#)));
}

#[test]
fn what_is_written_is_read_back() {
    let value = json(r#"{"a": [1, -2, "line\nbreak \" \\ é", null, false], "b": {"c": {}}}"#);
    let text = value.text();
    assert!(!text.contains('\n'));
    assert_eq!(json(&text), value);
}

#[test]
fn nesting_is_read_up_to_the_parser_limit() {
    let nested = |depth: usize| format!("{}{}", "[".repeat(depth), "]".repeat(depth));
    assert_eq!(json(&nested(127)).text(), nested(127));
    assert!(Json::parse(&nested(128)).is_err());
}

#[test]
fn a_text_that_is_no_json_is_refused_with_a_message() {
    assert_eq!(
        Json::parse("{").unwrap_err(),
        "EOF while parsing an object at line 1 column 1"
    );
}

#[test]
fn members_are_added_and_replaced() {
    let object = Json::empty_object()
        .with_member("a", json("1"))
        .with_member("b", json("2"))
        .with_member("a", json("3"));
    assert_eq!(object.text(), r#"{"a":3,"b":2}"#);
    assert_eq!(json("[1]").with_member("a", json("1")), json("[1]"));
}

#[test]
fn accessors_tell_the_kinds_apart() {
    let value = json(r#"{"s": "x", "n": null}"#);
    assert_eq!(value.get("s").and_then(|v| v.as_str()), Some("x"));
    assert!(value.get("n").is_some_and(|v| v.is_null()));
    assert!(value.get("missing").is_none());
    assert!(json("[]").get("s").is_none());
    assert!(json("[]").as_object().is_none());
    assert_eq!(value.as_object().map(|map| map.len()), Some(2));
    assert!(json("1").as_str().is_none());
}

#[test]
fn texts_of_members_are_read() {
    let value = json(r#"{"s": "x", "n": null, "l": ["a", "b"], "m": ["a", 1]}"#);
    assert_eq!(get_text(&value, "s"), Some("x".to_string()));
    assert_eq!(get_text(&value, "l"), None);
    assert_eq!(need_text(&value, "s"), Ok("x".to_string()));
    assert_eq!(need_text(&value, "n"), Err(r#"missing field "n""#.to_string()));
    assert_eq!(read_optional_text(&value, "n"), Ok(None));
    assert_eq!(read_optional_text(&value, "o"), Ok(None));
    assert_eq!(read_optional_text(&value, "s"), Ok(Some("x".to_string())));
    assert_eq!(read_optional_text(&value, "l"), Err(r#"no string in field "l""#.to_string()));
    assert_eq!(need_items(&value, "l").map(|items| items.len()), Ok(2));
    assert_eq!(need_items(&value, "s"), Err(r#"no list in field "s""#.to_string()));
    assert_eq!(need_texts(&value, "l"), Ok(vec!["a".to_string(), "b".to_string()]));
    assert!(need_texts(&value, "m").is_err());
    assert!(need_texts(&value, "n").is_err());
}

#[test]
fn texts_are_written() {
    assert_eq!(write_optional(&None), Json::Null);
    assert_eq!(write_optional(&Some("x".to_string())).text(), r#""x""#);
    assert_eq!(write_texts(&vec!["a".to_string(), "b".to_string()]).text(), r#"["a","b"]"#);
    assert_eq!(
        tagged_object("managed", "value", "x").text(),
        r#"{"__nixhapi":"managed","value":"x"}"#
    );
}

#[test]
fn string_members_are_all_or_none() {
    let all = read_string_members(&json(r#"{"b": "y", "a": "x"}"#));
    assert_eq!(all.keys(), vec!["a", "b"]);
    assert_eq!(read_string_members(&json(r#"{"b": "y", "a": 1}"#)).len(), 0);
    assert_eq!(read_string_members(&json("[]")).len(), 0);
}
