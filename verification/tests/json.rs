use stock_average::error::ServiceError;
use stock_average::json::{parse_json, Json, Member};

fn member(name: &str, value: Json) -> Member {
    Member { name: String::from(name), value }
}

#[test]
fn parse_json_reads_every_kind_of_value() {
    let parsed = parse_json(r#"{"a": null, "b": true, "c": 1.5, "d": "x", "e": [1, "y"], "f": {}}"#);
    let expected = Json::Object(vec![
        member("a", Json::Null),
        member("b", Json::Bool(true)),
        member("c", Json::Number),
        member("d", Json::Text(String::from("x"))),
        member("e", Json::Array(vec![Json::Number, Json::Text(String::from("y"))])),
        member("f", Json::Object(vec![])),
    ]);
    assert_eq!(parsed, Ok(expected));
}

#[test]
fn parse_json_reads_a_text_alone() {
    assert_eq!(parse_json(r#""10.00""#), Ok(Json::Text(String::from("10.00"))));
}

#[test]
fn parse_json_refuses_what_is_no_json() {
    assert_eq!(parse_json(""), Err(ServiceError::ParseFailure));
    assert_eq!(parse_json("{"), Err(ServiceError::ParseFailure));
    assert_eq!(parse_json("{} trailing"), Err(ServiceError::ParseFailure));
    assert_eq!(parse_json("<html></html>"), Err(ServiceError::ParseFailure));
}

#[test]
fn field_finds_a_member_by_its_name() {
    let object = Json::Object(vec![
        member("one", Json::Bool(false)),
        member("two", Json::Text(String::from("2"))),
    ]);
    assert_eq!(object.field("two"), Some(&Json::Text(String::from("2"))));
    assert_eq!(object.field("one"), Some(&Json::Bool(false)));
    assert_eq!(object.field("three"), None);
    assert_eq!(object.field(""), None);
}

#[test]
fn field_takes_the_last_member_of_a_name() {
    let object = Json::Object(vec![
        member("x", Json::Bool(false)),
        member("x", Json::Bool(true)),
    ]);
    assert_eq!(object.field("x"), Some(&Json::Bool(true)));
}

#[test]
fn field_of_what_is_no_object_is_none() {
    assert_eq!(Json::Null.field("x"), None);
    assert_eq!(Json::Text(String::from("x")).field("x"), None);
    assert_eq!(Json::Array(vec![Json::Null]).field("0"), None);
}

fn nested_arrays(depth: usize) -> String {
    let mut text = String::new();
    for _ in 0..depth {
        text.push('[');
    }
    for _ in 0..depth {
        text.push(']');
    }
    text
}

#[test]
fn parse_json_keeps_the_order_of_items_and_members() {
    let parsed = parse_json(r#"{"b": [3, "2", null, false], "a": {"z": "1", "y": "2", "x": "3"}}"#);
    let expected = Json::Object(vec![
        member(
            "a",
            Json::Object(vec![
                member("x", Json::Text(String::from("3"))),
                member("y", Json::Text(String::from("2"))),
                member("z", Json::Text(String::from("1"))),
            ]),
        ),
        member(
            "b",
            Json::Array(vec![
                Json::Number,
                Json::Text(String::from("2")),
                Json::Null,
                Json::Bool(false),
            ]),
        ),
    ]);
    assert_eq!(parsed, Ok(expected));
}

#[test]
fn parse_json_reads_nested_values() {
    let mut expected = Json::Array(vec![]);
    for _ in 1..100 {
        expected = Json::Array(vec![expected]);
    }
    assert_eq!(parse_json(&nested_arrays(100)), Ok(expected));
    assert!(parse_json(&nested_arrays(127)).is_ok());
}

#[test]
fn parse_json_refuses_what_nests_too_deep() {
    assert_eq!(parse_json(&nested_arrays(128)), Err(ServiceError::ParseFailure));
    assert_eq!(parse_json(&nested_arrays(129)), Err(ServiceError::ParseFailure));
    assert_eq!(parse_json(&nested_arrays(1000)), Err(ServiceError::ParseFailure));
}

#[test]
fn max_depth_is_128() {
    assert_eq!(stock_average::json::MAX_DEPTH, 128);
}
