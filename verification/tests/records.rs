use jsondoc::json::{Json, Property};
use jsondoc::op::Op;
use jsondoc::order::{compare, Side};
use jsondoc::valid::{float_lexeme, is_sorted};

fn parse(text: &str) -> Json {
    Json::from_str(text).unwrap()
}

#[test]
fn fresh_record_has_its_keys() {
    let op = Op::new(1);
    assert_eq!(op.get_ref("errors"), Some(&Json::Array(vec![])));
    assert_eq!(op.get_ref("iterpos"), Some(&Json::Integer(1)));
    assert_eq!(op.get_ref("other"), None);
    assert_eq!(op.into(), parse(r#"{"errors":[],"iterpos":1}"#));
}

#[test]
fn record_from_a_value() {
    let doc = parse(r#"{"iterpos":0,"value":3,"errors":["e"]}"#);
    assert!(Op::accepts(&doc));
    assert!(!Op::accepts(&parse(r#"{"errors":[]}"#)));
    assert!(!Op::accepts(&parse("[]")));
    let mut op = Op::with(doc);
    op.set("value", Json::Integer(4));
    op.append("errors", parse(r#"["f"]"#));
    assert_eq!(
        op.into(),
        parse(r#"{"errors":["e","f"],"iterpos":0,"value":4}"#)
    );
}

#[test]
fn records_append_by_kind() {
    let mut op = Op::with(parse(r#"{"errors":"ab","iterpos":{"b":1}}"#));
    op.append("errors", Json::String("cd".to_string()));
    op.append("iterpos", parse(r#"{"a":0,"b":2}"#));
    assert_eq!(op.into(), parse(r#"{"errors":"abcd","iterpos":{"a":0,"b":2}}"#));
}

#[test]
fn records_merge_their_errors() {
    let mut left = Op::with(parse(r#"{"errors":[1],"iterpos":0}"#));
    let right = Op::with(parse(r#"{"errors":[2,3],"iterpos":5}"#));
    left.merge(right);
    assert_eq!(left.into(), parse(r#"{"errors":[1,2,3],"iterpos":0}"#));
}

#[test]
fn validity_of_values() {
    assert!(parse(r#"{"a":[1.5,{"b":2}]}"#).is_valid());
    assert!(Json::Float("1e5".to_string()).is_valid());
    assert!(!Json::Float("15".to_string()).is_valid());
    assert!(!Json::Float("1.5x".to_string()).is_valid());
    assert!(!Json::Float("inf".to_string()).is_valid());
    let unsorted = Json::Object(vec![
        Property::new("b".to_string(), Json::Null),
        Property::new("a".to_string(), Json::Null),
    ]);
    assert!(!unsorted.is_valid());
    assert!(!Json::Array(vec![Json::Null, unsorted]).is_valid());
    let twice = vec![
        Property::new("a".to_string(), Json::Null),
        Property::new("a".to_string(), Json::Null),
    ];
    assert!(!is_sorted(&twice));
    assert!(is_sorted(&Vec::new()));
    assert!(Json::Array(vec![Json::Float("inf".to_string())]).is_ordered());
    assert!(parse(r#"[{"a":{"b":1,"c":2}}]"#).is_ordered());
    assert!(!Json::Array(vec![Json::Object(twice.clone())]).is_ordered());
    assert!(float_lexeme("-0.0"));
    assert!(!float_lexeme("-"));
}

#[test]
fn order_of_byte_strings() {
    assert_eq!(compare(b"", b""), Side::Same);
    assert_eq!(compare(b"", b"a"), Side::Before);
    assert_eq!(compare(b"a", b""), Side::After);
    assert_eq!(compare(b"abc", b"abd"), Side::Before);
    assert_eq!(compare(b"ab", b"abc"), Side::Before);
    assert_eq!(compare(b"b", b"abc"), Side::After);
    assert_eq!(compare("é".as_bytes(), b"z"), Side::After);
    assert_eq!(compare(b"same", b"same"), Side::Same);
}

#[test]
fn values_equal_by_what_they_hold() {
    assert_eq!(parse("[1, 2]"), parse("[1,2]"));
    assert_ne!(parse("[1,2]"), parse("[2,1]"));
    assert_eq!(parse(r#"{"a":1,"b":2}"#), parse(r#"{"b":2,"a":1}"#));
    assert_ne!(parse("1"), parse("1.0"));
    assert_ne!(Json::Null, Json::Bool(false));
    assert!(parse("[1,[2]]").same(&parse("[1,[2]]").clone()));
    assert_eq!(Json::default(), Json::Null);
    assert_eq!("[true]".parse::<Json>().ok(), Some(parse("[true]")));
    assert_eq!(Json::from(true), Json::Bool(true));
    assert_eq!(Json::from(5i128), Json::Integer(5));
    assert_eq!(Json::from("x".to_string()), Json::String("x".to_string()));
    assert_eq!(Json::from(vec![Json::Null]), parse("[null]"));
}

#[test]
fn native_values_out_of_a_value() {
    assert_eq!(Json::Bool(true).boolean(), Some(true));
    assert_eq!(Json::Null.boolean(), None);
    assert_eq!(Json::Integer(3).integer(), Some(3));
    assert_eq!(Json::Float("3.5".to_string()).float(), Some("3.5".to_string()));
    assert_eq!(Json::Integer(3).float(), None);
    assert_eq!(Json::String("s".to_string()).string(), Some("s".to_string()));
    assert_eq!(Json::String("s".to_string()).string_ref(), Some(&"s".to_string()));
    assert_eq!(parse("[1]").array(), Some(vec![Json::Integer(1)]));
    assert_eq!(parse("[1]").array_ref(), Some(&vec![Json::Integer(1)]));
    assert_eq!(parse("{}").object(), Some(vec![]));
    assert_eq!(parse("{}").object_ref(), Some(&vec![]));
    assert_eq!(parse("{}").array(), None);
    assert_eq!(Json::null(), Json::Null);
    let p = Property::new("k".to_string(), Json::Integer(1));
    assert_eq!(p.key_ref(), "k");
    assert_eq!(p.value_ref(), &Json::Integer(1));
    let mut q = p.clone();
    q.set_value(Json::Null);
    *q.value_mut() = Json::Bool(true);
    assert_eq!(q.value_ref(), &Json::Bool(true));
    q.set_value(Json::Null);
    assert_eq!(q.clone().value(), Json::Null);
    assert_eq!(q.key(), "k");
    assert_ne!(p, Property::new("k".to_string(), Json::Null));
}
