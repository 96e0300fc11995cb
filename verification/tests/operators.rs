use jsondoc::json::Json;

fn parse(text: &str) -> Json {
    Json::from_str(text).unwrap()
}

fn integer(n: i128) -> Json {
    Json::Integer(n)
}

fn float(t: &str) -> Json {
    Json::Float(t.to_string())
}

fn string(t: &str) -> Json {
    Json::String(t.to_string())
}

#[test]
fn division_by_zero_is_null() {
    assert_eq!(integer(5).div(integer(0)), Some(Json::Null));
    assert_eq!(float("1.0").div(float("0.0")), Some(Json::Null));
    assert_eq!(integer(5).div(float("-0e10")), Some(Json::Null));
    assert_eq!(float("1.5").div(integer(0)), Some(Json::Null));
    assert_eq!(integer(5).rem(integer(0)), Some(Json::Null));
    assert_eq!(float("1.0").rem(float("0.")), Some(Json::Null));
}

#[test]
fn only_floats_written_as_zero_count_as_zero() {
    assert_eq!(integer(1).div(float("inf")), None);
    assert_eq!(integer(1).div(float("NaN")), None);
    assert_eq!(integer(7).rem(float("")), None);
    assert_eq!(float("1.0").div(float("0")), None);
    assert_eq!(float("1.0").div(float("0e-7")), Some(Json::Null));
    assert_eq!(float("1.0").rem(float("-.0E3")), Some(Json::Null));
    assert!(float("0.00").is_zero());
    assert!(!float("0.01").is_zero());
    assert!(!float("zero").is_zero());
    assert!(integer(0).is_zero());
    assert!(!Json::Null.is_zero());
}

#[test]
fn quotients_of_numbers_are_left_to_floats() {
    assert_eq!(integer(6).div(integer(3)), None);
    assert_eq!(integer(6).div(float("1.5")), None);
    assert_eq!(float("6.0").div(integer(3)), None);
    assert_eq!(float("6.0").div(float("0.001")), None);
}

#[test]
fn division_splits_strings() {
    assert_eq!(
        string("a,b,,c").div(string(",")),
        Some(parse(r#"["a","b","","c"]"#))
    );
    assert_eq!(string("abc").div(string("x")), Some(parse(r#"["abc"]"#)));
    assert_eq!(string("abc").div(integer(1)), Some(Json::Null));
    assert_eq!(Json::Null.div(Json::Null), Some(Json::Null));
}

#[test]
fn remainders() {
    assert_eq!(integer(7).rem(integer(3)), Some(integer(1)));
    assert_eq!(integer(-7).rem(integer(3)), Some(integer(-1)));
    assert_eq!(integer(7).rem(integer(-3)), Some(integer(1)));
    assert_eq!(integer(-7).rem(integer(-3)), Some(integer(-1)));
    assert_eq!(integer(5).rem(integer(i128::MIN)), Some(integer(5)));
    assert_eq!(integer(i128::MIN).rem(integer(i128::MIN)), Some(integer(0)));
    assert_eq!(integer(7).rem(float("2.0")), None);
    assert_eq!(string("a").rem(integer(2)), Some(Json::Null));
}

#[test]
fn mixin_and_add_differ() {
    let l = parse(r#"{"a":{"x":1}}"#);
    let r = parse(r#"{"a":{"y":2}}"#);
    assert_eq!(l.clone().mul(r.clone()), Some(parse(r#"{"a":{"x":1,"y":2}}"#)));
    assert_eq!(l.add(r), Some(parse(r#"{"a":{"y":2}}"#)));
}

#[test]
fn products() {
    assert_eq!(integer(6).mul(integer(-7)), Some(integer(-42)));
    assert_eq!(string("ab").mul(integer(3)), Some(string("ababab")));
    assert_eq!(integer(2).mul(string("ab")), Some(string("abab")));
    assert_eq!(string("ab").mul(integer(0)), Some(Json::Null));
    assert_eq!(string("").mul(integer(5)), Some(string("")));
    assert_eq!(integer(2).mul(float("1.5")), None);
    assert_eq!(float("1.5").mul(float("1.5")), None);
    assert_eq!(float("1.5").mul(string("a")), Some(Json::Null));
    assert_eq!(integer(2).mul(Json::Null), Some(Json::Null));
    assert_eq!(parse("[1]").mul(parse("[1]")), Some(Json::Null));
}

#[test]
fn sums() {
    assert_eq!(integer(6).add(integer(-7)), Some(integer(-1)));
    assert_eq!(string("ab").add(string("cd")), Some(string("abcd")));
    assert_eq!(parse("[1,2]").add(parse("[2,3]")), Some(parse("[1,2,2,3]")));
    assert_eq!(
        parse(r#"{"a":1,"b":2}"#).add(parse(r#"{"b":3,"c":4}"#)),
        Some(parse(r#"{"a":1,"b":3,"c":4}"#))
    );
    assert_eq!(integer(1).add(float("2.0")), None);
    assert_eq!(float("2.0").add(integer(1)), None);
    assert_eq!(integer(1).add(string("a")), Some(Json::Null));
    assert_eq!(string("a").add(integer(1)), Some(Json::Null));
    assert_eq!(Json::Null.add(Json::Null), Some(Json::Null));
}

#[test]
fn differences() {
    assert_eq!(integer(6).sub(integer(-7)), Some(integer(13)));
    assert_eq!(
        parse("[1,2,1,3,2]").sub(parse("[2,1,5]")),
        Some(parse("[1,3,2]"))
    );
    assert_eq!(parse("[1,1]").sub(parse("[1,1,1]")), Some(parse("[]")));
    assert_eq!(float("1.0").sub(integer(1)), None);
    assert_eq!(string("a").sub(string("a")), Some(Json::Null));
    assert_eq!(integer(1).sub(parse("[1]")), Some(Json::Null));
}

#[test]
fn negation() {
    assert_eq!(integer(5).neg(), integer(-5));
    assert_eq!(float("1.5").neg(), float("-1.5"));
    assert_eq!(float("-1.5").neg(), float("1.5"));
    assert_eq!(float("+1.5").neg(), float("-1.5"));
    assert_eq!(string("a").neg(), Json::Null);
    assert_eq!(Json::Bool(true).neg(), Json::Null);
}

#[test]
fn logic() {
    assert_eq!(Json::Null.not(), Json::Bool(true));
    assert_eq!(Json::Bool(false).not(), Json::Bool(true));
    assert_eq!(integer(0).not(), Json::Bool(false));
    assert_eq!(string("").not(), Json::Bool(false));
    assert_eq!(integer(1).and(Json::Null), Json::Bool(false));
    assert_eq!(integer(1).and(string("x")), Json::Bool(true));
    assert_eq!(Json::Null.or(Json::Bool(false)), Json::Bool(false));
    assert_eq!(Json::Null.or(integer(0)), Json::Bool(true));
    assert_eq!(bool::from(Json::Null), false);
    assert_eq!(bool::from(parse("[]")), true);
}

#[test]
fn bits() {
    assert_eq!(integer(1).shl(integer(4)), integer(16));
    assert_eq!(integer(-16).shr(integer(2)), integer(-4));
    assert_eq!(integer(12).bitand(integer(10)), integer(8));
    assert_eq!(integer(12).bitor(integer(10)), integer(14));
    assert_eq!(integer(12).bitxor(integer(10)), integer(6));
    assert_eq!(integer(1).shl(float("1.0")), Json::Null);
    assert_eq!(string("a").bitand(integer(1)), Json::Null);
    assert_eq!(Json::Null.bitor(Json::Null), Json::Null);
    assert_eq!(integer(1).bitxor(Json::Bool(true)), Json::Null);
    assert_eq!(integer(1).shr(Json::Null), Json::Null);
}
