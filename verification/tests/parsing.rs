use jsondoc::error::Error;
use jsondoc::json::{Json, Property};

fn parse(text: &str) -> Json {
    Json::from_str(text).unwrap()
}

#[test]
fn parses_literals() {
    assert_eq!(parse("null"), Json::Null);
    assert_eq!(parse("true"), Json::Bool(true));
    assert_eq!(parse("false"), Json::Bool(false));
    assert_eq!(parse("  \n\t null"), Json::Null);
}

#[test]
fn parses_numbers() {
    assert_eq!(parse("10"), Json::Integer(10));
    assert_eq!(parse("-10"), Json::Integer(-10));
    assert_eq!(parse("+7"), Json::Integer(7));
    assert_eq!(parse("10.2"), Json::Float("10.2".to_string()));
    assert_eq!(parse("-10E-1"), Json::Float("-10E-1".to_string()));
    assert_eq!(
        parse("170141183460469231731687303715884105727"),
        Json::Integer(i128::MAX)
    );
    assert_eq!(
        parse("-170141183460469231731687303715884105728"),
        Json::Integer(i128::MIN)
    );
}

#[test]
fn rejects_bad_numbers() {
    assert!(matches!(Json::from_str("1-2"), Err(Error::ParseInt(_, _))));
    assert!(matches!(
        Json::from_str("170141183460469231731687303715884105728"),
        Err(Error::ParseInt(_, _))
    ));
    assert!(matches!(Json::from_str("1.2.3"), Err(Error::ParseFloat(_))));
    assert!(matches!(Json::from_str("."), Err(Error::ParseFloat(_))));
    assert!(matches!(Json::from_str("1e"), Err(Error::ParseFloat(_))));
}

#[test]
fn parses_strings() {
    assert_eq!(parse(r#""hello world""#), Json::String("hello world".to_string()));
    assert_eq!(
        parse(r#""a\"b\\c\/d\b\f\n\r\t""#),
        Json::String("a\"b\\c/d\u{8}\u{c}\n\r\t".to_string())
    );
    assert_eq!(parse(r#""Aé中""#), Json::String("Aé中".to_string()));
    assert_eq!(parse("\"汉语 / 漢語\""), Json::String("汉语 / 漢語".to_string()));
}

#[test]
fn decodes_surrogate_pair() {
    let value = parse(r#""\ud83d\ude00""#);
    match value {
        Json::String(s) => {
            let chars: Vec<char> = s.chars().collect();
            assert_eq!(chars, vec!['\u{1F600}']);
        }
        _ => panic!("not a string"),
    }
}

#[test]
fn rejects_bad_strings() {
    assert!(matches!(Json::from_str(r#""abc"#), Err(Error::Parse(_))));
    assert!(matches!(Json::from_str(r#""\x""#), Err(Error::Parse(_))));
    assert!(matches!(Json::from_str(r#""\udc00""#), Err(Error::Parse(_))));
    assert!(matches!(Json::from_str(r#""\ud83d""#), Err(Error::Parse(_))));
    assert!(matches!(Json::from_str(r#""\ud83dA""#), Err(Error::Parse(_))));
    assert!(matches!(Json::from_str(r#""\u12g4""#), Err(Error::Parse(_))));
    assert!(matches!(Json::from_str(r#""\u12"#), Err(Error::Parse(_))));
}

#[test]
fn parses_arrays() {
    assert_eq!(parse("[]"), Json::Array(vec![]));
    assert_eq!(
        parse("[1,2]"),
        Json::Array(vec![Json::Integer(1), Json::Integer(2)])
    );
    assert_eq!(
        parse(" [null,true,false,10,\"tru\\\"e\"]"),
        Json::Array(vec![
            Json::Null,
            Json::Bool(true),
            Json::Bool(false),
            Json::Integer(10),
            Json::String("tru\"e".to_string()),
        ])
    );
    assert_eq!(
        parse("[1 2,]"),
        Json::Array(vec![Json::Integer(1), Json::Integer(2)])
    );
    assert!(matches!(Json::from_str("[,1]"), Err(Error::Parse(_))));
    assert!(matches!(Json::from_str("[1,2"), Err(Error::Parse(_))));
    assert!(matches!(Json::from_str("["), Err(Error::Parse(_))));
}

#[test]
fn parses_objects() {
    assert_eq!(parse("{}"), Json::Object(vec![]));
    assert_eq!(
        parse(r#"{"a":10}"#),
        Json::Object(vec![Property::new("a".to_string(), Json::Integer(10))])
    );
    assert_eq!(
        parse(r#"  { "b": 42, "a": ["x","y",12 ] , "c": {"hello":"world"}} "#),
        Json::Object(vec![
            Property::new(
                "a".to_string(),
                Json::Array(vec![
                    Json::String("x".to_string()),
                    Json::String("y".to_string()),
                    Json::Integer(12),
                ])
            ),
            Property::new("b".to_string(), Json::Integer(42)),
            Property::new(
                "c".to_string(),
                Json::Object(vec![Property::new(
                    "hello".to_string(),
                    Json::String("world".to_string())
                )])
            ),
        ])
    );
}

#[test]
fn last_of_two_equal_keys_stays() {
    assert_eq!(
        parse(r#"{"a":1,"b":2,"a":3}"#),
        Json::Object(vec![
            Property::new("a".to_string(), Json::Integer(3)),
            Property::new("b".to_string(), Json::Integer(2)),
        ])
    );
}

#[test]
fn rejects_bad_objects() {
    assert!(matches!(Json::from_str("{"), Err(Error::Parse(_))));
    assert!(matches!(Json::from_str(r#"{"a""#), Err(Error::Parse(_))));
    assert!(matches!(Json::from_str(r#"{"a" 1}"#), Err(Error::Parse(_))));
    assert!(matches!(Json::from_str(r#"{"a":1"#), Err(Error::Parse(_))));
    assert!(matches!(Json::from_str(r#"{"a":1 "b":2}"#), Err(Error::Parse(_))));
    assert!(matches!(Json::from_str(r#"{a:1}"#), Err(Error::Parse(_))));
}

#[test]
fn error_messages_name_the_place() {
    match Json::from_str("") {
        Err(Error::Parse(m)) => assert_eq!(m, "unexpected eof at offset:0 line:1 col:1"),
        other => panic!("{:?}", other),
    }
    match Json::from_str("\n  nul") {
        Err(Error::Parse(m)) => assert_eq!(m, "expected null at offset:3 line:2 col:2"),
        other => panic!("{:?}", other),
    }
    match Json::from_str("?") {
        Err(Error::Parse(m)) => assert_eq!(m, "invalid token 63 at offset:0 line:1 col:1"),
        other => panic!("{:?}", other),
    }
    match Json::from_str("12x3.") {
        Err(e) => panic!("{:?}", e),
        Ok(v) => assert_eq!(v, Json::Integer(12)),
    }
    match Json::from_str(" 1.2.3") {
        Err(Error::ParseFloat(m)) => assert_eq!(m, "invalid float at offset:6 line:1 col:7"),
        other => panic!("{:?}", other),
    }
}
