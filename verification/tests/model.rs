use jsonlib::number::JSONNumber;
use jsonlib::{JSONDocument, JSONValue};

fn obj(entries: Vec<(&str, JSONValue)>) -> JSONValue {
    let mut es: Vec<(String, JSONValue)> = Vec::new();
    for (k, v) in entries {
        es.push((k.to_string(), v));
    }
    JSONValue::Object(es)
}

#[test]
fn round_trip_constructed_values() {
    // parse(serialize(v)) is structurally equal to v for trees built from
    // the constructors (strings without characters that need escaping).
    let v = obj(vec![
        ("name", JSONValue::String("ada".to_string())),
        ("age", JSONValue::Number(JSONNumber::from_i64(36))),
        ("tall", JSONValue::Boolean(true)),
        ("extra", JSONValue::Null),
        (
            "scores",
            JSONValue::Array(vec![
                JSONValue::Number(JSONNumber::from_i64(-5)),
                JSONValue::String("ok".to_string()),
                JSONValue::Array(vec![]),
                obj(vec![]),
            ]),
        ),
    ]);
    let mut doc = JSONDocument::new();
    doc.value = Some(v.deep_copy());
    let text = doc.to_string().unwrap();
    let reparsed = doc.parse_string(text).unwrap();
    assert_eq!(reparsed, v);
}

#[test]
fn object_equality_ignores_entry_order() {
    let a = obj(vec![
        ("x", JSONValue::Number(JSONNumber::from_i64(1))),
        ("y", JSONValue::Number(JSONNumber::from_i64(2))),
    ]);
    let b = obj(vec![
        ("y", JSONValue::Number(JSONNumber::from_i64(2))),
        ("x", JSONValue::Number(JSONNumber::from_i64(1))),
    ]);
    assert_eq!(a, b);
    let c = obj(vec![
        ("x", JSONValue::Number(JSONNumber::from_i64(1))),
        ("y", JSONValue::Number(JSONNumber::from_i64(3))),
    ]);
    assert_ne!(a, c);
}

#[test]
fn serialization_is_compact() {
    let mut doc = JSONDocument::new();
    doc.parse_string("{ \"k\" : [ 1 , true , null , \"s\" ] }".to_string())
        .unwrap();
    assert_eq!(doc.to_string().unwrap(), "{\"k\":[1,true,null,\"s\"]}");
}

#[test]
fn numbers_render_without_trailing_fraction() {
    let mut doc = JSONDocument::new();
    doc.parse_string("45".to_string()).unwrap();
    assert_eq!(doc.to_string().unwrap(), "45");
    doc.parse_string("12.03e+3".to_string()).unwrap();
    assert_eq!(doc.to_string().unwrap(), "12030");
    doc.parse_string("0.005".to_string()).unwrap();
    assert_eq!(doc.to_string().unwrap(), "0.005");
    doc.parse_string("-12.5".to_string()).unwrap();
    assert_eq!(doc.to_string().unwrap(), "-12.5");
    doc.parse_string("-0".to_string()).unwrap();
    assert_eq!(doc.to_string().unwrap(), "0");
}

#[test]
fn empty_document_serializes_null() {
    let mut doc = JSONDocument::new();
    assert_eq!(doc.to_string().unwrap(), "null");
    assert_eq!(doc.pretify(), "null");
}

#[test]
fn number_equality_is_by_value() {
    let mut doc = JSONDocument::new();
    let a = doc.parse_string("12030".to_string()).unwrap();
    let b = doc.parse_string("12.03e+3".to_string()).unwrap();
    let c = doc.parse_string("1.2030e4".to_string()).unwrap();
    assert_eq!(a, b);
    assert_eq!(b, c);
    let d = doc.parse_string("12030.1".to_string()).unwrap();
    assert_ne!(a, d);
}

#[test]
fn integer_truncation_saturates() {
    let mut doc = JSONDocument::new();
    assert_eq!(doc.parse_string("12.7".to_string()).unwrap().as_i64(), 12);
    assert_eq!(doc.parse_string("-3.9".to_string()).unwrap().as_i64(), -3);
    assert_eq!(doc.parse_string("1e30".to_string()).unwrap().as_i64(), i64::MAX);
    assert_eq!(doc.parse_string("-1e30".to_string()).unwrap().as_i64(), i64::MIN);
    assert_eq!(doc.parse_string("0.004".to_string()).unwrap().as_i64(), 0);
}

#[test]
fn typed_accessors_have_defaults() {
    let v = JSONValue::String("text".to_string());
    assert!(v.is_string());
    assert!(!v.is_number() && !v.is_bool() && !v.is_object() && !v.is_array() && !v.is_null());
    assert_eq!(v.as_i64(), 0);
    assert!(!v.as_bool());
    assert_eq!(v.as_array().len(), 0);
    assert_eq!(v.as_map().len(), 0);
    assert!(v.get("k").is_none());

    let n = JSONValue::Number(JSONNumber::from_i64(8));
    assert!(n.is_number());
    assert_eq!(n.as_str(), "");

    assert!(!JSONValue::exists_value());
}

#[test]
fn number_significand_limit_is_an_error() {
    let mut doc = JSONDocument::new();
    // Twenty-five significant digits do not fit the exact-decimal range.
    assert!(doc.parse_string("1234567890123456789012345".to_string()).is_err());
    // The same magnitude written with an exponent is fine.
    assert!(doc.parse_string("12345678901234567e8".to_string()).is_ok());
}
