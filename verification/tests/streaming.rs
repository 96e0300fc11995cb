use jsondoc::buf::JsonBuf;
use jsondoc::json::{Json, Property};

#[test]
fn test_json_iter() {
    let docs = r#"null 10 10.2 "hello world" true false [1,2] {"a":10}"#;
    let mut buf = JsonBuf::from_text(docs);
    assert_eq!(Some(Json::Null), buf.parse().ok());
    assert_eq!(Some(Json::Integer(10)), buf.parse().ok());
    let third = buf.parse().ok();
    assert_eq!(Some(Json::Float("10.2".to_string())), third);
    match third {
        Some(Json::Float(text)) => assert_eq!(text.parse::<f64>(), Ok(10.2)),
        _ => panic!("not a float"),
    }
    assert_eq!(Some(Json::String("hello world".to_string())), buf.parse().ok());
    assert_eq!(Some(Json::Bool(true)), buf.parse().ok());
    assert_eq!(Some(Json::Bool(false)), buf.parse().ok());
    assert_eq!(
        Some(Json::Array(vec![Json::Integer(1), Json::Integer(2)])),
        buf.parse().ok()
    );
    assert_eq!(
        Some(Json::Object(vec![Property::new("a".to_string(), Json::Integer(10))])),
        buf.parse().ok(),
    );
    assert!(buf.parse().is_err());
    assert_eq!(buf.len(), 0);
}

#[test]
fn values_split_across_pieces() {
    let text = "null 10 true";
    for cut in [1usize, 2, 3, 9, 10, 11] {
        let mut buf = JsonBuf::new();
        let mut seen: Vec<Json> = Vec::new();
        buf.append(&text[..cut]);
        while let Ok(v) = buf.parse() {
            seen.push(v);
        }
        buf.append(&text[cut..]);
        while let Ok(v) = buf.parse() {
            seen.push(v);
        }
        assert_eq!(
            seen,
            vec![Json::Null, Json::Integer(10), Json::Bool(true)],
            "cut at {}",
            cut
        );
    }
}

#[test]
fn failed_parse_keeps_the_text() {
    let mut buf = JsonBuf::new();
    buf.append("[1, 2");
    assert!(buf.parse().is_err());
    assert_eq!(buf.len(), 5);
    buf.append_bytes(b", 3]");
    assert_eq!(buf.parse().ok(), Json::from_str("[1,2,3]").ok());
    assert_eq!(buf.len(), 0);
}

#[test]
fn buffer_from_a_string() {
    let mut buf = JsonBuf::from(" [1] 2".to_string());
    assert_eq!(buf.len(), 6);
    assert_eq!(buf.parse().ok(), Some(Json::Array(vec![Json::Integer(1)])));
    assert_eq!(buf.parse().ok(), Some(Json::Integer(2)));
}

#[test]
fn set_replaces_the_text() {
    let mut buf = JsonBuf::with_capacity(16);
    buf.append("garbage");
    buf.set("  [true]  ");
    assert_eq!(buf.parse().ok(), Some(Json::Array(vec![Json::Bool(true)])));
    assert_eq!(buf.len(), 2);
}

#[test]
fn test_simple_jsons() {
    let mut jsonbuf = JsonBuf::new();

    let mut refs: Vec<Json> = Vec::new();
    let mut texts: Vec<&str> = Vec::new();

    let obj = Vec::new();
    refs.push(Json::Object(obj));
    texts.push("{}");

    let mut obj = Vec::new();
    let (k, v) = ("key1".to_string(), r#""value1""#.parse().unwrap());
    obj.insert(0, Property::new(k, v));
    refs.push(Json::Object(obj));
    texts.push(r#"{"key1":"value1"}"#);

    let mut obj = Vec::new();
    let (k, v) = ("key1".to_string(), r#""value1""#.parse().unwrap());
    obj.insert(0, Property::new(k, v));
    let (k, v) = ("key2".to_string(), r#""value2""#.parse().unwrap());
    obj.insert(1, Property::new(k, v));
    refs.push(Json::Object(obj));
    texts.push(r#"{"key1":"value1","key2":"value2"}"#);

    let mut obj = Vec::new();
    let (k, v) = ("a".to_string(), "1".parse().unwrap());
    obj.insert(0, Property::new(k, v));
    let (k, v) = ("b".to_string(), "1".parse().unwrap());
    obj.insert(1, Property::new(k, v));
    let (k, v) = ("c".to_string(), "1".parse().unwrap());
    obj.insert(2, Property::new(k, v));
    let (k, v) = ("d".to_string(), "1".parse().unwrap());
    obj.insert(3, Property::new(k, v));
    let (k, v) = ("e".to_string(), "1".parse().unwrap());
    obj.insert(4, Property::new(k, v));
    let (k, v) = ("f".to_string(), "1".parse().unwrap());
    obj.insert(5, Property::new(k, v));
    let (k, v) = ("x".to_string(), "1".parse().unwrap());
    obj.insert(6, Property::new(k, v));
    let (k, v) = ("z".to_string(), "1".parse().unwrap());
    obj.insert(7, Property::new(k, v));
    refs.push(Json::Object(obj));
    texts.push(r#"{"a":1,"b":1,"c":1,"d":1,"e":1,"f":1,"x":1,"z":1}"#);

    jsonbuf.set(r#"{ "z": 1, "a": 1, "f": 1, "b": 1, "x": 1, "c": 1, "e": 1, "d": 1 }"#);
    let value = jsonbuf.parse().unwrap();
    assert_eq!(value, refs[3]);

    for (i, r) in refs.iter().enumerate() {
        let s = r.to_string();
        assert_eq!(&s, texts[i], "testcase: {}", i);
        jsonbuf.set(texts[i]);
        assert_eq!(&jsonbuf.parse().unwrap(), r, "testcase: {}", i);
    }
}
