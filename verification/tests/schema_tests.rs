use hybrid_shared_core::json::{parse_json, JsonDocument, JsonValue};
use hybrid_shared_core::schema::{
    default_filter_ui, sha256_hex, validate_filter_value, DatasetSchema, FilterField, FilterType,
    FilterUi, PreparedRecord, SchemaError,
};
use hybrid_shared_core::text_map::TextMap;

fn filter(field_type: FilterType) -> FilterField {
    FilterField { field_type, label: None, ui: default_filter_ui() }
}

fn schema() -> DatasetSchema {
    let mut filter_fields = TextMap::new();
    filter_fields.insert("department".to_string(), filter(FilterType::Keyword));
    filter_fields.insert("updated_at".to_string(), filter(FilterType::Date));
    DatasetSchema {
        dataset_id: "contracts".to_string(),
        primary_key: "contract_id".to_string(),
        text_fields: vec!["title".to_string(), "body".to_string()],
        display_fields: vec!["title".to_string(), "department".to_string()],
        full_text_fields: vec!["body".to_string()],
        source_uri_field: Some("uri".to_string()),
        source_label_field: Some("source".to_string()),
        filter_fields,
    }
}

const GOOD: &str = "{\"contract_id\":\"c-1\",\"title\":\"契約更新\",\"body\":\"確認\",\"department\":\"法務\",\"updated_at\":\"2026-05-01\",\"uri\":\"u\",\"source\":\"s\",\"extra\":1}";

fn docs(lines: &[&str]) -> Vec<JsonDocument> {
    lines.iter().map(|line| parse_json(line.as_bytes()).unwrap()).collect()
}

fn prepare(schema: &DatasetSchema, lines: &[&str]) -> Result<Vec<PreparedRecord>, SchemaError> {
    schema.prepare_records(&docs(lines))
}

fn fails(line: &str) -> SchemaError {
    prepare(&schema(), &[line]).unwrap_err()
}

#[test]
fn a_record_is_prepared_by_the_schema() {
    let records = prepare(&schema(), &[GOOD]).unwrap();
    assert_eq!(records.len(), 1);
    let r = &records[0];
    assert_eq!(r.record_id, "c-1");
    assert_eq!(r.searchable_text, "契約更新\n確認");
    assert_eq!(
        r.payload_json,
        "{\"body\":\"確認\",\"contract_id\":\"c-1\",\"department\":\"法務\",\"extra\":1,\"source\":\"s\",\"title\":\"契約更新\",\"updated_at\":\"2026-05-01\",\"uri\":\"u\"}"
    );
    assert_eq!(r.display_json, "{\"department\":\"法務\",\"title\":\"契約更新\"}");
    assert_eq!(r.filters.len(), 2);
    assert_eq!(r.filters.get("department"), Some(&JsonValue::Text("法務".to_string())));
    assert_eq!(r.row_hash, sha256_hex(r.payload_json.as_bytes()));
}

#[test]
fn a_number_or_a_truth_value_can_be_a_key() {
    let line = GOOD.replace("\"c-1\"", "42");
    assert_eq!(prepare(&schema(), &[&line]).unwrap()[0].record_id, "42");
    let line = GOOD.replace("\"c-1\"", "true");
    assert_eq!(prepare(&schema(), &[&line]).unwrap()[0].record_id, "true");
    let line = GOOD.replace("\"c-1\"", "null");
    assert_eq!(prepare(&schema(), &[&line]).unwrap()[0].record_id, "");
}

#[test]
fn blank_text_fields_are_left_out() {
    let line = GOOD.replace("\"契約更新\"", "\" \\t\"");
    assert_eq!(prepare(&schema(), &[&line]).unwrap()[0].searchable_text, "確認");
}

#[test]
fn a_schema_needs_ids_and_text_fields() {
    let mut s = schema();
    s.dataset_id = " ".to_string();
    assert_eq!(prepare(&s, &[]).unwrap_err(), SchemaError::MissingDatasetId);
    assert_eq!(s.validate(), Err(SchemaError::MissingDatasetId));
    let mut s = schema();
    s.primary_key = "\u{3000}".to_string();
    assert_eq!(s.validate(), Err(SchemaError::MissingPrimaryKey));
    let mut s = schema();
    s.text_fields = Vec::new();
    assert_eq!(s.validate(), Err(SchemaError::MissingTextFields));
    assert_eq!(schema().validate(), Ok(()));
}

#[test]
fn missing_fields_are_refused() {
    for (name, text) in [
        ("contract_id", "\"contract_id\":\"c-1\","),
        ("title", "\"title\":\"契約更新\","),
        ("body", "\"body\":\"確認\","),
        ("department", "\"department\":\"法務\","),
        ("updated_at", "\"updated_at\":\"2026-05-01\","),
        ("uri", "\"uri\":\"u\","),
        ("source", "\"source\":\"s\","),
    ] {
        assert_eq!(fails(&GOOD.replace(text, "")), SchemaError::MissingField(name.to_string()));
    }
}

#[test]
fn records_must_be_flat_objects() {
    assert_eq!(fails("[1]"), SchemaError::NotFlatObject);
    assert_eq!(
        fails(&GOOD.replace("\"extra\":1", "\"extra\":[1]")),
        SchemaError::NestedValue { field: "extra".to_string() }
    );
    assert_eq!(
        fails(&GOOD.replace("\"extra\":1", "\"extra\":{\"a\":1}")),
        SchemaError::NestedValue { field: "extra".to_string() }
    );
}

#[test]
fn records_need_a_text() {
    let line = GOOD.replace("\"契約更新\"", "\"\"").replace("\"確認\"", "null");
    assert_eq!(fails(&line), SchemaError::EmptySearchableText("c-1".to_string()));
}

#[test]
fn keys_must_not_repeat() {
    assert_eq!(
        prepare(&schema(), &[GOOD, GOOD]).unwrap_err(),
        SchemaError::DuplicatePrimaryKey("c-1".to_string())
    );
    let other = GOOD.replace("c-1", "c-2");
    let records = prepare(&schema(), &[GOOD, &other]).unwrap();
    assert_eq!(records.len(), 2);
    assert_ne!(records[0].record_id, records[1].record_id);
}

#[test]
fn filter_values_have_their_type() {
    let text = JsonValue::Text("x".to_string());
    let blank = JsonValue::Text(" ".to_string());
    let number = JsonValue::Number("1".to_string());
    let truth = JsonValue::Bool(true);
    let cases = [
        (FilterType::Keyword, vec![&text, &blank, &number, &truth]),
        (FilterType::Number, vec![&number]),
        (FilterType::Date, vec![&text]),
        (FilterType::Boolean, vec![&truth]),
    ];
    for (expected, good) in cases {
        for value in [&text, &blank, &number, &truth, &JsonValue::Null] {
            let outcome = validate_filter_value("f", value, expected);
            if good.contains(&value) {
                assert_eq!(outcome, Ok(()));
            } else {
                assert_eq!(
                    outcome,
                    Err(SchemaError::InvalidFilterValue { field: "f".to_string(), expected })
                );
            }
        }
    }
    assert_eq!(
        fails(&GOOD.replace("\"2026-05-01\"", "3")),
        SchemaError::InvalidFilterValue {
            field: "updated_at".to_string(),
            expected: FilterType::Date
        }
    );
}

#[test]
fn errors_say_what_is_wrong() {
    let f = "f".to_string();
    let cases = [
        (SchemaError::MissingDatasetId, "schema.dataset_id is required"),
        (SchemaError::MissingPrimaryKey, "schema.primary_key is required"),
        (SchemaError::MissingTextFields, "schema.text_fields must not be empty"),
        (
            SchemaError::MissingField(f.clone()),
            "schema field `f` is referenced but not present in record",
        ),
        (SchemaError::NotFlatObject, "record must be a flat JSON object"),
        (SchemaError::EmptySearchableText(f.clone()), "record `f` has empty searchable text"),
        (SchemaError::DuplicatePrimaryKey(f.clone()), "duplicate primary key `f`"),
        (SchemaError::NestedValue { field: f.clone() }, "field `f` has unsupported nested value"),
        (
            SchemaError::InvalidFilterValue { field: f, expected: FilterType::Boolean },
            "filter field `f` has invalid value for type `Boolean`",
        ),
    ];
    for (error, message) in cases {
        assert_eq!(error.message(), message);
    }
}

#[test]
fn hashes_are_those_of_sha256() {
    assert_eq!(
        sha256_hex(b"abc"),
        "ba7816bf8f01cfea414140de5dae2223b00361a396177a9cb410ff61f20015ad"
    );
    assert_eq!(
        sha256_hex(b""),
        "e3b0c44298fc1c149afbf4c8996fb92427ae41e4649b934ca495991b7852b855"
    );
}

#[test]
fn a_copied_schema_is_the_same() {
    let s = schema();
    let copy = s.copy();
    assert_eq!(format!("{s:?}"), format!("{copy:?}"));
    assert_eq!(default_filter_ui(), FilterUi::Select);
}

#[test]
fn stored_records_are_read_as_they_were() {
    let json = "{\"id\":7,\"t\":\"a\\n\\\"b\\\"\",\"x\":1e3,\"y\":-0,\"z\":18446744073709551616,\"n\":null,\"b\":true}";
    let doc = parse_json(json.as_bytes()).unwrap();
    let mut schema = DatasetSchema {
        dataset_id: "d".to_string(),
        primary_key: "id".to_string(),
        text_fields: vec!["t".to_string()],
        display_fields: vec!["y".to_string(), "b".to_string(), "y".to_string()],
        full_text_fields: Vec::new(),
        source_uri_field: None,
        source_label_field: None,
        filter_fields: TextMap::new(),
    };
    let record = schema.prepare_records(&vec![doc.clone()]).unwrap().remove(0);
    let payload = parse_json(record.payload_json.as_bytes()).unwrap();
    let shown = parse_json(record.display_json.as_bytes()).unwrap();
    match (&doc, &payload, &shown) {
        (JsonDocument::Object(a), JsonDocument::Object(b), JsonDocument::Object(c)) => {
            assert_eq!(a.len(), 7);
            assert_eq!(b.len(), 7);
            for i in 0..a.len() {
                assert_eq!(a.key_at(i), b.key_at(i));
                assert_eq!(a.value_at(i), b.value_at(i));
            }
            assert_eq!(c.len(), 2);
            assert_eq!(c.get("y"), a.get("y"));
            assert_eq!(c.get("b"), a.get("b"));
        }
        other => panic!("{other:?}"),
    }
    schema.display_fields.clear();
    let record = schema.prepare_records(&vec![doc]).unwrap().remove(0);
    assert_eq!(record.display_json, "{}");
}
