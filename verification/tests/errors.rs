use jsondoc::error::{Error, IntFault};
use jsondoc::json::{Json, Property};
use jsondoc::store::{find, insert, search_by_key};

fn store() -> Vec<Property> {
    Json::from_str(r#"{"b":1,"d":2,"f":3}"#).unwrap().object().unwrap()
}

#[test]
fn errors_in_words() {
    assert_eq!(Error::Parse("p".to_string()).to_string(), "p");
    assert_eq!(
        Error::ParseFloat("at 3".to_string()).to_string(),
        "invalid float literal, at 3"
    );
    assert_eq!(
        Error::ParseInt(IntFault::InvalidDigit, "x".to_string()).to_string(),
        "invalid digit found in string, x"
    );
    assert_eq!(
        Error::ParseInt(IntFault::Empty, "x".to_string()).to_string(),
        "cannot parse integer from empty string, x"
    );
    assert_eq!(
        Error::ParseInt(IntFault::PosOverflow, "x".to_string()).to_string(),
        "number too large to fit in target type, x"
    );
    assert_eq!(
        Error::ParseInt(IntFault::NegOverflow, "x".to_string()).to_string(),
        "number too small to fit in target type, x"
    );
    assert_eq!(Error::NotMyType("not a bool".to_string()).to_string(), "not a bool");
    assert_eq!(Error::KeyMissing(2, "k".to_string()).to_string(), "missing key k");
    assert_eq!(Error::IndexUnbound(-3, 12).to_string(), "index out of bound -3..12");
}

#[test]
fn causes() {
    assert_eq!(Error::Parse("p".to_string()).cause(), None);
    assert_eq!(
        Error::ParseFloat("m".to_string()).cause(),
        Some("invalid float literal".to_string())
    );
    assert_eq!(
        Error::ParseInt(IntFault::NegOverflow, "m".to_string()).cause(),
        Some("number too small to fit in target type".to_string())
    );
    assert_eq!(Error::KeyMissing(0, "k".to_string()).cause(), None);
}

#[test]
fn parse_errors_carry_their_fault() {
    match Json::from_str("12-") {
        Err(Error::ParseInt(fault, m)) => {
            assert_eq!(fault, IntFault::InvalidDigit);
            assert_eq!(m, "invalid integer at offset:3 line:1 col:4");
        }
        other => panic!("{:?}", other),
    }
    match Json::from_str("-999999999999999999999999999999999999999999") {
        Err(Error::ParseInt(fault, _)) => assert_eq!(fault, IntFault::NegOverflow),
        other => panic!("{:?}", other),
    }
}

#[test]
fn missing_keys_say_where_they_would_go() {
    let props = store();
    assert_eq!(search_by_key(&props, "d").ok(), Some(1));
    assert_eq!(search_by_key(&props, "a"), Err(Error::KeyMissing(0, "a".to_string())));
    assert_eq!(search_by_key(&props, "c"), Err(Error::KeyMissing(1, "c".to_string())));
    assert_eq!(search_by_key(&props, "z"), Err(Error::KeyMissing(3, "z".to_string())));
    assert_eq!(search_by_key(&props, "z").unwrap_err().key_missing_at(), 3);
    assert_eq!(find(&props, "b"), Ok(0));
    assert_eq!(find(&props, "bb"), Err(1));
    assert_eq!(find(&Vec::new(), "x"), Err(0));
}

#[test]
fn keys_are_ordered_by_their_bytes() {
    let mut props: Vec<Property> = Vec::new();
    for key in ["b", "a", "ab", "", "é", "B", "a", "z"] {
        insert(&mut props, Property::new(key.to_string(), Json::Null));
    }
    let keys: Vec<&str> = props.iter().map(|p| p.key_ref().as_str()).collect();
    assert_eq!(keys, vec!["", "B", "a", "ab", "b", "z", "é"]);
    let mut sorted = keys.clone();
    sorted.sort();
    sorted.dedup();
    assert_eq!(keys, sorted);
}

#[test]
fn insert_replaces_in_place() {
    let mut props = store();
    Json::insert(&mut props, Property::new("d".to_string(), Json::Bool(true)));
    Json::insert(&mut props, Property::new("c".to_string(), Json::Bool(false)));
    assert_eq!(
        Json::Object(props),
        Json::from_str(r#"{"b":1,"c":false,"d":true,"f":3}"#).unwrap()
    );
}
