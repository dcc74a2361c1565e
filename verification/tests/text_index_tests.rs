use hybrid_shared_core::json::JsonValue;
use hybrid_shared_core::protocol::FilterExpr;
use hybrid_shared_core::schema::{
    DatasetSchema, FilterField, FilterType, FilterUi, PreparedRecord,
};
use hybrid_shared_core::text_index::{
    can_search, document_filters, filter_field_name, filtered_query, known_fields,
    tokenized_or_query, tokenized_terms, FieldText, FilterClause, TextQuery,
};
use hybrid_shared_core::text_map::TextMap;
use tantivy::collector::TopDocs;
use tantivy::query::{BooleanQuery, Occur, Query, TermQuery};
use tantivy::schema::{IndexRecordOption, Schema, STORED, STRING, TEXT};
use tantivy::{Index, TantivyDocument, Term};

fn schema() -> DatasetSchema {
    let mut filter_fields = TextMap::new();
    for name in ["部署", "kind", "size-x"] {
        filter_fields.insert(
            name.to_string(),
            FilterField { field_type: FilterType::Keyword, label: None, ui: FilterUi::Select },
        );
    }
    DatasetSchema {
        dataset_id: "d".to_string(),
        primary_key: "id".to_string(),
        text_fields: vec!["t".to_string()],
        display_fields: Vec::new(),
        full_text_fields: Vec::new(),
        source_uri_field: None,
        source_label_field: None,
        filter_fields,
    }
}

fn text(s: &str) -> JsonValue {
    JsonValue::Text(s.to_string())
}

fn record(id: &str, body: &str, kind: JsonValue) -> PreparedRecord {
    let mut filters = TextMap::new();
    filters.insert("kind".to_string(), kind);
    filters.insert("other".to_string(), text("x"));
    PreparedRecord {
        record_id: id.to_string(),
        searchable_text: body.to_string(),
        payload_json: "{}".to_string(),
        display_json: "{}".to_string(),
        filters,
        row_hash: String::new(),
    }
}

fn filters(list: Vec<(&str, FilterExpr)>) -> TextMap<FilterExpr> {
    let mut out = TextMap::new();
    for (name, expr) in list {
        out.insert(name.to_string(), expr);
    }
    out
}

fn texts(list: &[&str]) -> Vec<String> {
    list.iter().map(|s| s.to_string()).collect()
}

#[test]
fn field_names_are_made_plain() {
    assert_eq!(filter_field_name("kind_2"), "filter_kind_2");
    assert_eq!(filter_field_name("size-x"), "filter_size_x");
    assert_eq!(filter_field_name("部署"), "filter___");
    assert_eq!(filter_field_name(""), "filter_");
}

#[test]
fn only_fields_of_the_index_are_known() {
    let all = known_fields(&schema(), &vec![true, true, true]);
    assert_eq!(all.len(), 3);
    assert_eq!(all.get("kind"), Some(&"filter_kind".to_string()));
    assert_eq!(all.get("部署"), Some(&"filter___".to_string()));
    let some = known_fields(&schema(), &vec![false, true, false]);
    assert_eq!(some.len(), 1);
    assert_eq!(some.get("size-x"), Some(&"filter_size_x".to_string()));
}

#[test]
fn documents_hold_known_scalars() {
    let known = known_fields(&schema(), &vec![true, true, true]);
    assert_eq!(
        document_filters(&known, &record("a", "x", JsonValue::Bool(true))),
        vec![FieldText { field: "filter_kind".to_string(), text: "true".to_string() }]
    );
    assert!(document_filters(&known, &record("a", "x", JsonValue::Array)).is_empty());
}

#[test]
fn blank_tokens_do_not_count() {
    assert_eq!(tokenized_terms(&texts(&["a", " ", "", "b"])), texts(&["a", "b"]));
    assert_eq!(tokenized_or_query("q", &texts(&[" "])), TextQuery::Parsed("q".to_string()));
    assert_eq!(tokenized_or_query("q", &texts(&["a"])), TextQuery::AnyTerm(texts(&["a"])));
    assert!(can_search("q", 1));
    assert!(!can_search(" ", 1));
    assert!(!can_search("q", 0));
}

#[test]
fn filters_become_clauses() {
    let known = known_fields(&schema(), &vec![true, true, true]);
    let wanted = filters(vec![
        ("kind", FilterExpr::Eq { eq: JsonValue::Number("3".to_string()) }),
        ("size-x", FilterExpr::In { any_of: vec![text("s"), JsonValue::Array, text("l")] }),
        ("unknown", FilterExpr::Eq { eq: text("x") }),
        ("部署", FilterExpr::Range { gte: Some(text("a")), lte: None }),
    ]);
    let plan = filtered_query("q", &texts(&["q"]), &known, &wanted);
    assert_eq!(
        plan.must,
        vec![
            FilterClause { field: "filter_kind".to_string(), any_of: texts(&["3"]) },
            FilterClause { field: "filter_size_x".to_string(), any_of: texts(&["s", "l"]) },
        ]
    );
    let nested = filters(vec![
        ("kind", FilterExpr::Eq { eq: JsonValue::Object }),
        ("size-x", FilterExpr::In { any_of: Vec::new() }),
    ]);
    assert!(filtered_query("q", &Vec::new(), &known, &nested).must.is_empty());
}

#[test]
fn the_index_keeps_what_the_filters_want() {
    let known = known_fields(&schema(), &vec![true, true, true]);
    let mut builder = Schema::builder();
    let id = builder.add_text_field("record_id", STRING | STORED);
    let body = builder.add_text_field("text", TEXT);
    for i in 0..known.len() {
        builder.add_text_field(known.value_at(i), STRING | STORED);
    }
    let index = Index::create_in_ram(builder.build());
    let fields = index.schema();
    let mut writer = index.writer(50_000_000).unwrap();
    for r in [
        record("a", "red book", text("book")),
        record("b", "red flower", text("flower")),
        record("c", "blue book", text("book")),
    ] {
        let mut doc = TantivyDocument::default();
        doc.add_text(id, &r.record_id);
        doc.add_text(body, &r.searchable_text);
        for item in document_filters(&known, &r) {
            doc.add_text(fields.get_field(&item.field).unwrap(), &item.text);
        }
        writer.add_document(doc).unwrap();
    }
    writer.commit().unwrap();
    let find = |token: &str, wanted: &TextMap<FilterExpr>| {
        let plan = filtered_query(token, &texts(&[token]), &known, wanted);
        let any = |field, terms: &[String]| -> Box<dyn Query> {
            Box::new(BooleanQuery::new(
                terms
                    .iter()
                    .map(|t| {
                        let term = Term::from_field_text(field, t);
                        let query = TermQuery::new(term, IndexRecordOption::Basic);
                        (Occur::Should, Box::new(query) as Box<dyn Query>)
                    })
                    .collect(),
            ))
        };
        let TextQuery::AnyTerm(terms) = &plan.text else {
            panic!("no terms");
        };
        let mut clauses = vec![(Occur::Must, any(body, terms))];
        for clause in &plan.must {
            let field = fields.get_field(&clause.field).unwrap();
            clauses.push((Occur::Must, any(field, &clause.any_of)));
        }
        let searcher = index.reader().unwrap().searcher();
        searcher.search(&BooleanQuery::new(clauses), &TopDocs::with_limit(10)).unwrap().len()
    };
    assert_eq!(find("red", &filters(vec![])), 2);
    assert_eq!(find("red", &filters(vec![("kind", FilterExpr::Eq { eq: text("book") })])), 1);
    assert_eq!(
        find(
            "red",
            &filters(vec![("kind", FilterExpr::In { any_of: vec![text("book"), text("flower")] })])
        ),
        2
    );
    assert_eq!(find("blue", &filters(vec![("kind", FilterExpr::Eq { eq: text("flower") })])), 0);
}
