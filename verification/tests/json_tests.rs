use textparse::combinator::ErrorKind;
use textparse::json::{parse_array, parse_bool, parse_json, parse_null, parse_num, parse_object,
    parse_string, JsonValue, Num};

fn num(n: i64) -> JsonValue {
    JsonValue::Number(Num::Int(n))
}

fn text(s: &str) -> JsonValue {
    JsonValue::String(s.to_string())
}

#[test]
fn test_parse_null() {
    let s = "null";
    assert!(parse_null(s, 0).is_ok());
    assert_eq!(parse_null(s, 0).unwrap(), 4);
}

#[test]
fn test_parse_bool() {
    let input = "true";
    let (result, _) = parse_bool(input, 0).unwrap();
    assert!(result);

    let input = "false";
    let (result, _) = parse_bool(input, 0).unwrap();
    assert!(!result);
}

#[test]
fn test_parse_num() {
    let input = "123";
    let (result, _) = parse_num(input, 0).unwrap();
    match result {
        Num::Int(v) => assert_eq!(v, 123),
        Num::Float { .. } => panic!("expected an integer"),
    }

    let input = "-123";
    let (result, _) = parse_num(input, 0).unwrap();
    match result {
        Num::Int(v) => assert_eq!(v, -123),
        Num::Float { .. } => panic!("expected an integer"),
    }

    let input = "123.456";
    let (result, _) = parse_num(input, 0).unwrap();
    match result {
        Num::Int(_) => panic!("expected a float"),
        Num::Float { neg, digits } => {
            assert!(!neg);
            assert_eq!(digits, "123.456");
            let v: f64 = digits.parse().unwrap();
            assert_eq!(v, 123.456);
        },
    }

    let input = "-123.456";
    let (result, _) = parse_num(input, 0).unwrap();
    match result {
        Num::Int(_) => panic!("expected a float"),
        Num::Float { neg, digits } => {
            assert!(neg);
            assert_eq!(digits, "123.456");
            let v: f64 = digits.parse().unwrap();
            assert_eq!(-v, -123.456);
        },
    }
}

#[test]
fn test_parse_string() {
    let input = "\"hello\"";
    let (result, next) = parse_string(input, 0).unwrap();
    assert_eq!(result, "hello");
    assert_eq!(next, 7);
}

#[test]
fn test_parse_array() {
    let input = "[1, 2, 3]";
    let (result, _) = parse_array(input, 0).unwrap();
    let got = JsonValue::Array(result);
    let expected = JsonValue::Array(vec![num(1), num(2), num(3)]);
    assert!(got.equal_value(&expected));

    let input = "[\"a\", \"b\", \"c\"]";
    let (result, _) = parse_array(input, 0).unwrap();
    let got = JsonValue::Array(result);
    let expected = JsonValue::Array(vec![text("a"), text("b"), text("c")]);
    assert!(got.equal_value(&expected));
}

#[test]
fn test_parse_object() {
    let input = "{\"a\": 1, \"b\": 2}";
    let (result, _) = parse_object(input, 0).unwrap();
    let got = JsonValue::Object(result);
    let expected = JsonValue::Object(vec![
        ("a".to_string(), num(1)),
        ("b".to_string(), num(2)),
    ]);
    assert!(got.equal_value(&expected));

    let input = "{\"a\": 1, \"b\": [1, 2, 3]}";
    let (result, _) = parse_object(input, 0).unwrap();
    let got = JsonValue::Object(result);
    let expected = JsonValue::Object(vec![
        ("a".to_string(), num(1)),
        ("b".to_string(), JsonValue::Array(vec![num(1), num(2), num(3)])),
    ]);
    assert!(got.equal_value(&expected));
}

#[test]
fn object_equality_is_order_insensitive() {
    let left = parse_json("{\"a\":1,\"b\":2}").unwrap();
    let right = parse_json("{\"b\":2,\"a\":1}").unwrap();
    assert!(left.equal_value(&right));
    assert!(right.equal_value(&left));

    let different = parse_json("{\"a\":1,\"b\":3}").unwrap();
    assert!(!left.equal_value(&different));
}

#[test]
fn whitespace_around_punctuation_is_ignored() {
    let tight = parse_json("{\"a\":1,\"b\":[1,2,3]}").unwrap();
    let airy = parse_json("{ \"a\" : 1 ,\n\t\"b\" : [ 1 , 2 , 3 ] }").unwrap();
    assert!(tight.equal_value(&airy));

    let tight = parse_json("[true,null,\"x\"]").unwrap();
    let airy = parse_json("[ true ,\n null ,\t \"x\" ]").unwrap();
    assert!(tight.equal_value(&airy));
}

#[test]
fn empty_array_parses_empty_object_fails() {
    let (items, next) = parse_array("[]", 0).unwrap();
    assert!(items.is_empty());
    assert_eq!(next, 2);
    let (items, _) = parse_array("[ ]", 0).unwrap();
    assert!(items.is_empty());

    assert!(parse_object("{}", 0).is_err());
    assert!(parse_json("{}").is_err());
    assert!(parse_json("{ }").is_err());
}

#[test]
fn duplicate_key_keeps_last_value() {
    let got = parse_json("{\"a\": 1, \"a\": 2}").unwrap();
    let expected = JsonValue::Object(vec![("a".to_string(), num(2))]);
    assert!(got.equal_value(&expected));

    let got = parse_json("{\"a\": 1, \"b\": 0, \"a\": 3}").unwrap();
    let expected = JsonValue::Object(vec![
        ("b".to_string(), num(0)),
        ("a".to_string(), num(3)),
    ]);
    assert!(got.equal_value(&expected));
}

#[test]
fn int_bounds_and_overflow() {
    let (result, _) = parse_num("9223372036854775807", 0).unwrap();
    match result {
        Num::Int(v) => assert_eq!(v, i64::MAX),
        Num::Float { .. } => panic!("expected an integer"),
    }

    let err = parse_num("9223372036854775808", 0).unwrap_err();
    assert_eq!(err.kind, ErrorKind::Format);
    assert_eq!(err.at, 0);

    let err = parse_num("-9223372036854775808", 0).unwrap_err();
    assert_eq!(err.kind, ErrorKind::Format);
    assert_eq!(err.at, 1);
}

#[test]
fn float_text_is_concatenated_not_accumulated() {
    let (result, next) = parse_num("1.05", 0).unwrap();
    assert_eq!(next, 4);
    match result {
        Num::Int(_) => panic!("expected a float"),
        Num::Float { neg, digits } => {
            assert!(!neg);
            assert_eq!(digits, "1.05");
            let v: f64 = digits.parse().unwrap();
            assert_eq!(v, 1.05);
        },
    }
}

#[test]
fn malformed_documents_fail() {
    let err = parse_json("x").unwrap_err();
    assert_eq!(err.kind, ErrorKind::Token);
    assert_eq!(err.at, 0);

    assert!(parse_json("[1,2,]").is_err());
    assert!(parse_json("\"unterminated").is_err());
    assert!(parse_json("1.").is_err());
}
