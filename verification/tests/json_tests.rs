use hybrid_shared_core::json::{
    document_json, field_value, object_json, parse_json, pretty_json, JsonDocument, JsonValue,
};

fn object(text: &str) -> hybrid_shared_core::text_map::TextMap<JsonValue> {
    match parse_json(text.as_bytes()) {
        Ok(JsonDocument::Object(fields)) => fields,
        other => panic!("no object: {other:?}"),
    }
}

#[test]
fn an_object_is_read_in_the_order_of_its_names() {
    let fields = object("{\"b\":1,\"a\":\"x\",\"c\":true,\"d\":null,\"e\":[1],\"f\":{},\"b\":2.50}");
    assert_eq!(fields.len(), 6);
    assert_eq!(fields.key_at(0), "a");
    assert_eq!(field_value(&fields, "a"), Some(&JsonValue::Text("x".to_string())));
    assert_eq!(field_value(&fields, "b"), Some(&JsonValue::Number("2.5".to_string())));
    assert_eq!(field_value(&fields, "c"), Some(&JsonValue::Bool(true)));
    assert_eq!(field_value(&fields, "d"), Some(&JsonValue::Null));
    assert_eq!(field_value(&fields, "e"), Some(&JsonValue::Array));
    assert_eq!(field_value(&fields, "f"), Some(&JsonValue::Object));
    assert_eq!(field_value(&fields, "g"), None);
}

#[test]
fn what_is_no_object_is_something_else() {
    assert!(matches!(parse_json(b"[1,2]"), Ok(JsonDocument::Other)));
    assert!(matches!(parse_json(b" 3 "), Ok(JsonDocument::Other)));
    assert!(parse_json(b"\xff").is_err());
    assert_eq!(
        parse_json(b"").unwrap_err(),
        "EOF while parsing a value at line 1 column 0"
    );
    for text in ["{\"a\":", "nope", "[1,]", "\"\u{1}\"", "1 2", "{\"契\" 1}", "\n\n}"] {
        let error = serde_json::from_str::<serde_json::Value>(text).unwrap_err();
        assert_eq!(parse_json(text.as_bytes()).unwrap_err(), error.to_string());
    }
}

#[test]
fn scalars_have_texts() {
    assert_eq!(JsonValue::Text("x".to_string()).scalar_to_string(), Some("x".to_string()));
    assert_eq!(JsonValue::Number("1.5".to_string()).scalar_to_string(), Some("1.5".to_string()));
    assert_eq!(JsonValue::Bool(true).scalar_to_string(), Some("true".to_string()));
    assert_eq!(JsonValue::Bool(false).scalar_to_string(), Some("false".to_string()));
    assert_eq!(JsonValue::Null.scalar_to_string(), Some(String::new()));
    assert_eq!(JsonValue::Array.scalar_to_string(), None);
    assert_eq!(JsonValue::Object.scalar_to_string(), None);
    assert!(JsonValue::Array.is_nested());
    assert!(!JsonValue::Null.is_nested());
}

#[test]
fn an_object_is_written_as_it_was_read() {
    let text = "{\"a\":\"契\\\"約\\n\",\"b\":2.5,\"c\":-1,\"d\":true,\"e\":null,\"f\":18446744073709551615}";
    assert_eq!(document_json(&object(text)), text);
}

#[test]
fn fields_are_written_in_the_order_of_their_names() {
    let fields = vec![
        ("b".to_string(), JsonValue::Text("x".to_string())),
        ("a".to_string(), JsonValue::Number("1e2".to_string())),
    ];
    assert_eq!(object_json(&fields), "{\"a\":100.0,\"b\":\"x\"}");
    assert_eq!(object_json(&Vec::new()), "{}");
}

#[test]
fn numbers_keep_their_value() {
    for n in ["0.1", "1e308", "-0.0", "123456789.123456789", "9007199254740993"] {
        let fields = object(&format!("{{\"n\":{n}}}"));
        let Some(JsonValue::Number(text)) = field_value(&fields, "n") else {
            panic!("no number");
        };
        let again = object(&document_json(&fields));
        assert_eq!(field_value(&again, "n"), Some(&JsonValue::Number(text.clone())));
        assert_eq!(text.parse::<f64>().unwrap().to_bits(), n.parse::<f64>().unwrap().to_bits());
    }
}

#[test]
fn texts_are_laid_out_for_readers() {
    let fields = vec![
        ("a".to_string(), "x\"y".to_string()),
        ("b".to_string(), "契約".to_string()),
    ];
    let bytes = pretty_json(&fields);
    assert_eq!(String::from_utf8(bytes.clone()).unwrap(), "{\n  \"a\": \"x\\\"y\",\n  \"b\": \"契約\"\n}");
    match parse_json(&bytes) {
        Ok(JsonDocument::Object(read)) => {
            assert_eq!(read.len(), 2);
            assert_eq!(field_value(&read, "a"), Some(&JsonValue::Text("x\"y".to_string())));
            assert_eq!(field_value(&read, "b"), Some(&JsonValue::Text("契約".to_string())));
        }
        other => panic!("no object: {other:?}"),
    }
}

#[test]
fn an_object_may_not_start_with_the_raw_name() {
    let raw = "$serde_json::private::RawValue";
    let alone = parse_json(format!("{{\"{raw}\":\"[1]\"}}").as_bytes());
    assert!(matches!(alone, Ok(JsonDocument::Other)));
    let later = parse_json(format!("{{\"#\":1,\"{raw}\":\"[1]\"}}").as_bytes());
    match later {
        Ok(JsonDocument::Object(fields)) => assert_eq!(fields.len(), 2),
        other => panic!("{other:?}"),
    }
}
