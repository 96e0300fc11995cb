use jsondoc::algebra::{do_recurse, mixin_object, normalized_offset, slice_range_check};
use jsondoc::json::{Doctype, Json, Property};

fn parse(text: &str) -> Json {
    Json::from_str(text).unwrap()
}

#[test]
fn offsets_count_from_either_end() {
    assert_eq!(normalized_offset(0, 3), Some(0));
    assert_eq!(normalized_offset(2, 3), Some(2));
    assert_eq!(normalized_offset(3, 3), None);
    assert_eq!(normalized_offset(-1, 3), Some(2));
    assert_eq!(normalized_offset(-3, 3), Some(0));
    assert_eq!(normalized_offset(-4, 3), None);
    assert_eq!(normalized_offset(0, 0), None);
}

#[test]
fn ranges_are_kept_inside() {
    assert_eq!(slice_range_check(0, 3, 5), Some((0, 3)));
    assert_eq!(slice_range_check(-2, 100, 5), Some((3, 5)));
    assert_eq!(slice_range_check(-100, -1, 5), Some((0, 4)));
    assert_eq!(slice_range_check(2, 2, 5), None);
    assert_eq!(slice_range_check(4, 1, 5), None);
    assert_eq!(slice_range_check(7, 9, 5), None);
}

#[test]
fn negative_index_is_from_the_end() {
    let arr = parse("[10,20,30]");
    assert_eq!(arr.clone().index(-1), arr.clone().index(2));
    assert_eq!(arr.clone().index(-1), Some(Json::Integer(30)));
    assert_eq!(arr.clone().index(3), None);
    assert_eq!(arr.clone().index(-4), None);
    assert_eq!(Json::Integer(1).index(0), None);
    assert_eq!(arr.index_ref(0), Some(&Json::Integer(10)));
}

#[test]
fn index_mut_changes_in_place() {
    let mut arr = parse("[10,20,30]");
    *arr.index_mut(-2).unwrap() = Json::Null;
    assert_eq!(arr, parse("[10,null,30]"));
    assert!(arr.index_mut(5).is_none());
}

#[test]
fn field_access() {
    let obj = parse(r#"{"b":2,"a":1,"c":[3]}"#);
    assert_eq!(obj.get_ref("a"), Some(&Json::Integer(1)));
    assert_eq!(obj.get_ref("c"), Some(&parse("[3]")));
    assert_eq!(obj.get_ref("d"), None);
    assert_eq!(obj.clone().get("b"), Some(Json::Integer(2)));
    assert_eq!(obj.clone().get("zz"), None);
    assert_eq!(Json::Null.get("a"), None);
    let mut obj = obj;
    *obj.get_mut("b").unwrap() = Json::Bool(true);
    assert_eq!(obj, parse(r#"{"a":1,"b":true,"c":[3]}"#));
}

#[test]
fn set_puts_members_in_order() {
    let mut obj = Json::Object(vec![]);
    obj.set("m", Json::Integer(1));
    obj.set("a", Json::Integer(2));
    obj.set("z", Json::Integer(3));
    obj.set("m", Json::Integer(4));
    match &obj {
        Json::Object(props) => {
            let keys: Vec<&str> = props.iter().map(|p| p.key_ref().as_str()).collect();
            assert_eq!(keys, vec!["a", "m", "z"]);
        }
        _ => panic!("not an object"),
    }
    assert_eq!(obj, parse(r#"{"a":2,"m":4,"z":3}"#));
    assert_eq!(obj.len(), Some(3));
}

#[test]
fn search_runs_on_any_store() {
    let unsorted = vec![
        Property::new("m".to_string(), Json::Integer(1)),
        Property::new("a".to_string(), Json::Integer(2)),
        Property::new("z".to_string(), Json::Integer(3)),
    ];
    assert_eq!(jsondoc::store::find(&unsorted, "a"), Ok(1));
    assert_eq!(jsondoc::store::find(&unsorted, "m"), Err(2));
    assert_eq!(jsondoc::store::find(&unsorted, "z"), Ok(2));
    assert!(jsondoc::store::search_by_key(&unsorted, "b").is_err());
}

#[test]
fn from_members_sorts_and_replaces() {
    let obj = Json::from(vec![
        Property::new("b".to_string(), Json::Integer(1)),
        Property::new("a".to_string(), Json::Integer(2)),
        Property::new("b".to_string(), Json::Integer(3)),
    ]);
    assert_eq!(obj, parse(r#"{"a":2,"b":3}"#));
}

#[test]
fn slices() {
    let arr = parse("[1,2,3,4,5]");
    assert_eq!(arr.clone().slice(1, 3), Some(parse("[2,3]")));
    assert_eq!(arr.clone().slice(-2, 100), Some(parse("[4,5]")));
    assert_eq!(arr.clone().slice(3, 1), None);
    let s = Json::String("héllo".to_string());
    assert_eq!(s.clone().slice(0, 1), Some(Json::String("h".to_string())));
    assert_eq!(s.clone().slice(1, 3), Some(Json::String("é".to_string())));
    assert_eq!(s.clone().slice(1, 2), None);
    assert_eq!(Json::Integer(1).slice(0, 1), None);
}

#[test]
fn recurse_goes_depth_first() {
    let value = parse(r#"[1,{"a":2}]"#);
    let all = value.clone().recurse();
    assert_eq!(
        all,
        vec![
            value,
            Json::Integer(1),
            parse(r#"{"a":2}"#),
            Json::Integer(2),
        ]
    );
    let mut list = vec![Json::Null];
    do_recurse(Json::Bool(true), &mut list);
    assert_eq!(list, vec![Json::Null, Json::Bool(true)]);
}

#[test]
fn appends() {
    let mut s = Json::String("ab".to_string());
    s.append_string("cd".to_string());
    assert_eq!(s, Json::String("abcd".to_string()));
    let mut a = parse("[1]");
    a.append_items(vec![Json::Integer(2), Json::Null]);
    assert_eq!(a, parse("[1,2,null]"));
    let mut o = parse(r#"{"b":1}"#);
    o.append_members(vec![
        Property::new("a".to_string(), Json::Integer(2)),
        Property::new("b".to_string(), Json::Integer(3)),
    ]);
    assert_eq!(o, parse(r#"{"a":2,"b":3}"#));
}

#[test]
fn mixin_merges_deeply() {
    let this = parse(r#"{"a":{"x":1},"k":1}"#).object().unwrap();
    let other = parse(r#"{"a":{"y":2},"b":[1],"k":{"z":1}}"#).object().unwrap();
    let merged = Json::Object(mixin_object(this, other));
    assert_eq!(merged, parse(r#"{"a":{"x":1,"y":2},"b":[1],"k":{"z":1}}"#));
}

#[test]
fn walking_through_values() {
    assert_eq!(
        Json::String("aé".to_string()).into_iter(),
        Some(vec![Json::Integer(97), Json::Integer(233)])
    );
    assert_eq!(parse("[1,2]").into_iter(), Some(vec![Json::Integer(1), Json::Integer(2)]));
    assert_eq!(Json::Null.into_iter(), None);
    assert_eq!(parse("[1]").iter(), Some(&vec![Json::Integer(1)]));
}

#[test]
fn sizes_and_kinds() {
    assert_eq!(Json::Null.len(), Some(0));
    assert_eq!(Json::Bool(true).len(), None);
    assert_eq!(Json::Integer(1).len(), None);
    assert_eq!(Json::Float("1.0".to_string()).len(), None);
    assert_eq!(Json::String("hé".to_string()).len(), Some(3));
    assert_eq!(parse("[1,2]").len(), Some(2));
    assert_eq!(Json::String(String::new()).doctype(), Doctype::String);
    assert_eq!(Json::Float("1.0".to_string()).doctype(), Doctype::Float);
    assert_eq!(Json::Object(vec![]).doctype(), Doctype::Object);
}
