use jsondoc::json::{Json, Property};

fn text(value: &Json) -> String {
    value.to_string()
}

#[test]
fn renders_scalars() {
    assert_eq!(text(&Json::Null), "null");
    assert_eq!(text(&Json::Bool(true)), "true");
    assert_eq!(text(&Json::Bool(false)), "false");
    assert_eq!(text(&Json::Integer(0)), "0");
    assert_eq!(text(&Json::Integer(-120)), "-120");
    assert_eq!(
        text(&Json::Integer(i128::MIN)),
        "-170141183460469231731687303715884105728"
    );
    assert_eq!(text(&Json::Float("1.02e1".to_string())), "1.02e1");
}

#[test]
fn renders_strings_with_escapes() {
    assert_eq!(text(&Json::String("hello".to_string())), "\"hello\"");
    assert_eq!(
        text(&Json::String("a\"b\\c/d\u{8}\u{c}\n\r\t".to_string())),
        r#""a\"b\\c/d\b\f\n\r\t""#
    );
    assert_eq!(
        text(&Json::String("\u{0}\u{1f}\u{7f}".to_string())),
        r#""\u0000\u001f\u007f""#
    );
    assert_eq!(text(&Json::String("汉语 é".to_string())), "\"汉语 é\"");
}

#[test]
fn renders_containers() {
    assert_eq!(text(&Json::Array(vec![])), "[]");
    assert_eq!(text(&Json::Object(vec![])), "{}");
    assert_eq!(
        text(&Json::Array(vec![Json::Integer(1), Json::Null, Json::Array(vec![])])),
        "[1,null,[]]"
    );
    assert_eq!(
        text(&Json::Object(vec![
            Property::new("a".to_string(), Json::Integer(1)),
            Property::new("b".to_string(), Json::Array(vec![Json::Bool(true)])),
        ])),
        r#"{"a":1,"b":[true]}"#
    );
}

#[test]
fn members_come_out_sorted() {
    let value = Json::from_str(r#"{"z":1,"x":1,"a":1,"f":1}"#).unwrap();
    assert_eq!(text(&value), r#"{"a":1,"f":1,"x":1,"z":1}"#);
}

#[test]
fn text_parses_back_to_the_value() {
    let texts = [
        "null",
        "[1,-2,3.5e2,\"x\\ny\"]",
        r#"{"a":{"b":[{"c":null}]},"d":"\u0001😀"}"#,
        r#"  { "a": 42, "b": ["x","y",12 ] , "c": {"hello":"world"}} "#,
    ];
    for t in texts.iter() {
        let first = Json::from_str(t).unwrap();
        let second = Json::from_str(&first.to_string()).unwrap();
        assert_eq!(first, second);
        assert_eq!(first.to_string(), second.to_string());
    }
}

#[test]
fn to_bytes_is_the_text() {
    let value = Json::from_str("[1,{\"k\":\"v\"}]").unwrap();
    assert_eq!(value.to_bytes(), b"[1,{\"k\":\"v\"}]".to_vec());
}
