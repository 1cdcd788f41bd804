use jsonlib::number::JSONNumber;
use jsonlib::{JSONDocument, JSONValue};

#[test]
fn test_basic_parsing() {
    let mut doc = JSONDocument::new();
    let v = doc.parse_string("{\"name\":\"ada\",\"age\":36}".to_string()).unwrap();
    assert!(v.is_object());
    assert_eq!(v.get("name").unwrap(), JSONValue::String("ada".to_string()));
    assert_eq!(v.get("age").unwrap().as_i64(), 36);
    assert!(v.get("missing").is_none());
}

#[test]
fn complex_parsing() {
    let text = "{\"user\":{\"id\":7,\"tags\":[\"a\",\"b\"],\"active\":true},\"scores\":[1,2.5,-3],\"note\":null}";
    let mut doc = JSONDocument::new();
    let v = doc.parse_string(text.to_string()).unwrap();
    let user = v.get("user").unwrap();
    assert_eq!(user.get("id").unwrap().as_i64(), 7);
    assert!(user.get("active").unwrap().as_bool());
    let tags = user.get("tags").unwrap().as_array();
    assert_eq!(tags.len(), 2);
    assert_eq!(tags[0].as_str(), "a");
    let scores = v.get("scores").unwrap().as_array();
    assert_eq!(scores.len(), 3);
    assert_eq!(scores[2], JSONValue::Number(JSONNumber::from_i64(-3)));
    assert!(v.get("note").unwrap().is_null());
}

#[test]
fn single_value() {
    let mut doc = JSONDocument::new();

    let v = doc.parse_string("null".to_string()).unwrap();
    assert_eq!(v, JSONValue::Null);

    let v = doc.parse_string("12.03e+3".to_string()).unwrap();
    assert_eq!(v, JSONValue::Number(JSONNumber::from_i64(12030)));

    let v = doc.parse_string("false".to_string()).unwrap();
    assert_eq!(v, JSONValue::Boolean(false));

    let v = doc.parse_string("true".to_string()).unwrap();
    assert_eq!(v, JSONValue::Boolean(true));

    let v = doc.parse_string("\"jhon\"".to_string()).unwrap();
    assert_eq!(v, JSONValue::String("jhon".to_string()));
}

#[test]
fn library_string_interface() {
    let mut doc = JSONDocument::new();
    assert!(doc.parse_string("test".to_string()).is_err());
}

#[test]
fn empty_input_errors() {
    let mut doc = JSONDocument::new();
    let e = doc.parse_string("".to_string()).unwrap_err();
    assert_eq!(e.message(), "Empty json stream");
    assert_eq!(e.line(), 0);
    assert_eq!(e.col(), 0);

    let e = doc.parse_string("   ".to_string()).unwrap_err();
    assert_eq!(e.message(), "Empty json stream");
    assert_eq!(e.line(), 0);
    assert_eq!(e.col(), 0);
}

#[test]
fn trailing_comma_positions() {
    let mut doc = JSONDocument::new();
    let e = doc.parse_string("{\"a\":1,}".to_string()).unwrap_err();
    assert_eq!(e.message(), "Trailing `}`");
    assert_eq!(e.line(), 1);
    assert_eq!(e.col(), 8);

    let e = doc.parse_string("[1,2,]".to_string()).unwrap_err();
    assert_eq!(e.message(), "Trailing `]`");
    assert_eq!(e.line(), 1);
    assert_eq!(e.col(), 6);
}

#[test]
fn expecting_key_name() {
    let mut doc = JSONDocument::new();
    let e = doc.parse_string("{1:2}".to_string()).unwrap_err();
    assert_eq!(e.message(), "Expecting key name but found Number");
    assert_eq!(e.line(), 1);
    assert_eq!(e.col(), 2);
}

#[test]
fn expecting_colon() {
    let mut doc = JSONDocument::new();
    let e = doc.parse_string("{\"a\" 1}".to_string()).unwrap_err();
    assert_eq!(e.message(), "Expecting collon but found Number");
}

#[test]
fn number_boundaries() {
    let mut doc = JSONDocument::new();
    assert_eq!(
        doc.parse_string("-5".to_string()).unwrap(),
        JSONValue::Number(JSONNumber::from_i64(-5))
    );
    assert_eq!(
        doc.parse_string("12.03E+3".to_string()).unwrap(),
        JSONValue::Number(JSONNumber::from_i64(12030))
    );
    // An integer part with no digits after the point is rejected, as is a
    // bare exponent marker.
    let e = doc.parse_string("5.".to_string()).unwrap_err();
    assert_eq!(e.message(), "5. is NaN ");
    assert!(doc.parse_string("1e".to_string()).is_err());
    assert!(doc.parse_string("-".to_string()).is_err());
    assert!(doc.parse_string("1.2.3".to_string()).is_err());
}

#[test]
fn duplicate_keys_last_write_wins() {
    let mut doc = JSONDocument::new();
    let v = doc.parse_string("{\"a\":1,\"a\":2}".to_string()).unwrap();
    assert_eq!(v.get("a").unwrap(), JSONValue::Number(JSONNumber::from_i64(2)));
    assert_eq!(v.as_map().len(), 1);
}

#[test]
fn atoms_with_surrounding_whitespace() {
    let mut doc = JSONDocument::new();
    assert_eq!(doc.parse_string("  true\t".to_string()).unwrap(), JSONValue::Boolean(true));
    assert_eq!(doc.parse_string("\n null \r\n".to_string()).unwrap(), JSONValue::Null);
    assert_eq!(
        doc.parse_string(" \"pad\" ".to_string()).unwrap(),
        JSONValue::String("pad".to_string())
    );
}

#[test]
fn error_text_format() {
    let mut doc = JSONDocument::new();
    let e = doc.parse_string("{\"a\":1,}".to_string()).unwrap_err();
    assert_eq!(e.to_text(), "JSONError: Trailing `}` - @ (1, 8)");
}

#[test]
fn unexpected_trailing_text() {
    let mut doc = JSONDocument::new();
    let e = doc.parse_string("null null".to_string()).unwrap_err();
    assert_eq!(e.message(), "Unexpected token null");
}

#[test]
fn unterminated_string_is_error() {
    let mut doc = JSONDocument::new();
    assert!(doc.parse_string("\"abc".to_string()).is_err());
}

#[test]
fn unterminated_composites_are_errors() {
    let mut doc = JSONDocument::new();
    let e = doc.parse_string("{".to_string()).unwrap_err();
    assert_eq!(e.message(), "Expecting key name but found Eof");
    let e = doc.parse_string("{\"a\":1,".to_string()).unwrap_err();
    assert_eq!(e.message(), "Expecting key name but found Eof");
    let e = doc.parse_string("[1,2".to_string()).unwrap_err();
    assert_eq!(e.message(), "Unexpected token ");
    let e = doc.parse_string("[1,".to_string()).unwrap_err();
    assert_eq!(e.message(), "Unexpected token ");
}

#[test]
fn unknown_keyword_is_error() {
    let mut doc = JSONDocument::new();
    let e = doc.parse_string("nul".to_string()).unwrap_err();
    assert_eq!(e.message(), "Unexpected token nul");
}

#[test]
fn deep_nesting_parses() {
    let depth = 200;
    let mut text = String::new();
    for _ in 0..depth {
        text.push('[');
    }
    text.push('1');
    for _ in 0..depth {
        text.push(']');
    }
    let mut doc = JSONDocument::new();
    let v = doc.parse_string(text.clone()).unwrap();
    let mut cur = v;
    for _ in 0..depth {
        let items = cur.as_array();
        assert_eq!(items.len(), 1);
        cur = items.into_iter().next().unwrap();
    }
    assert_eq!(cur.as_i64(), 1);
    assert_eq!(doc.to_string().unwrap(), text);
}

#[test]
fn failed_parse_keeps_prior_value() {
    let mut doc = JSONDocument::new();
    doc.parse_string("41".to_string()).unwrap();
    assert!(doc.parse_string("{broken".to_string()).is_err());
    assert_eq!(doc.to_string().unwrap(), "41");
}

#[test]
fn parse_lines_matches_parse_string() {
    let mut a = JSONDocument::new();
    let mut b = JSONDocument::new();
    let va = a.parse_string("{\"k\":\n[1,2]}".to_string()).unwrap();
    let vb = b
        .parse_lines(vec!["{\"k\":".to_string(), "[1,2]}".to_string()])
        .unwrap();
    assert_eq!(va, vb);
    assert_eq!(a.to_string().unwrap(), b.to_string().unwrap());
}
