use jsondoc::json::{Doctype, Json};

#[test]
fn doctype_of_each_kind() {
    assert_eq!(Json::Null.doctype(), Doctype::Null);
    assert_eq!(Json::Bool(true).doctype(), Doctype::Bool);
    assert_eq!(Json::Integer(1).doctype(), Doctype::Integer);
    assert_eq!(Json::Array(vec![]).doctype(), Doctype::Array);
}
