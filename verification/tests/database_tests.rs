use hybrid_shared_core::chunking::{build_chunks, ChunkMode, ChunkOptions};
use hybrid_shared_core::database::{create_tables, write_sqlite_index, write_sqlite_index_at};
use hybrid_shared_core::facets::write_facets;
use hybrid_shared_core::index::{
    build_index_at, load_current_index, read_current, current_json, BuildOptions,
    SearchIndex,
};
use hybrid_shared_core::json::{parse_json, JsonValue};
use hybrid_shared_core::order::Score;
use hybrid_shared_core::protocol::{
    FilterExpr, ResultGranularity, SearchMode, SearchRequest, SearchResponse,
};
use hybrid_shared_core::results::{
    fallback_query, fetch_candidates, fuse_hits, materialize_rows, search_candidates, wants_page,
    RecordRow,
};
use hybrid_shared_core::schema::{
    DatasetSchema, FilterField, FilterType, FilterUi, PreparedRecord,
};
use hybrid_shared_core::search::FusedItem;
use hybrid_shared_core::shared_folder::FilePath;
use hybrid_shared_core::sql::{
    column_exists, fetch_chunk, fetch_record, fetch_records, list_columns, record_matches_filters,
    search_like, table_exists, SqlArg, SqlQuery,
};
use hybrid_shared_core::text_map::TextMap;
use rusqlite::types::Value;
use rusqlite::Connection;

fn bound(query: &SqlQuery) -> Vec<Value> {
    query
        .args
        .iter()
        .map(|arg| match arg {
            SqlArg::Null => Value::Null,
            SqlArg::Text(s) => Value::Text(s.clone()),
            SqlArg::Integer(n) => Value::Integer(*n),
            SqlArg::Real(s) => Value::Real(s.parse().unwrap()),
        })
        .collect()
}

fn fill(conn: &Connection, statements: &[SqlQuery]) {
    conn.execute_batch(&create_tables()).unwrap();
    for statement in statements {
        conn.execute(&statement.sql, rusqlite::params_from_iter(bound(statement))).unwrap();
    }
}

fn rows(conn: &Connection, query: &SqlQuery) -> Vec<RecordRow> {
    let mut stmt = conn.prepare(&query.sql).unwrap();
    let found = stmt
        .query_map(rusqlite::params_from_iter(bound(query)), |row| {
            let rank: f64 = row.get(4)?;
            Ok(RecordRow {
                record_id: row.get(0)?,
                display_json: row.get(1)?,
                payload_json: row.get(2)?,
                searchable_text: row.get(3)?,
                score: Score { bits: ((-rank) as f32).to_bits() },
            })
        })
        .unwrap();
    found.map(|row| row.unwrap()).collect()
}

fn ids(rows: &[RecordRow]) -> Vec<String> {
    let mut out: Vec<String> = rows.iter().map(|r| r.record_id.clone()).collect();
    out.sort();
    out
}

fn text(s: &str) -> JsonValue {
    JsonValue::Text(s.to_string())
}

fn number(s: &str) -> JsonValue {
    JsonValue::Number(s.to_string())
}

fn filters(list: Vec<(&str, FilterExpr)>) -> TextMap<FilterExpr> {
    let mut out = TextMap::new();
    for (name, expr) in list {
        out.insert(name.to_string(), expr);
    }
    out
}

fn field(field_type: FilterType) -> FilterField {
    FilterField { field_type, label: None, ui: FilterUi::Select }
}

fn lines() -> Vec<String> {
    vec![
        "{\"id\":\"a\",\"t\":\"赤い本\",\"kind\":\"book\",\"price\":10,\"sold\":true}".to_string(),
        "".to_string(),
        "{\"id\":\"b\",\"t\":\"青い本\",\"kind\":\"book\",\"price\":2.5,\"sold\":false}".to_string(),
        "{\"id\":\"c\",\"t\":\"赤い花\",\"kind\":\"flower\",\"price\":7,\"sold\":true}".to_string(),
    ]
}

fn shop() -> DatasetSchema {
    let mut filter_fields = TextMap::new();
    filter_fields.insert("kind".to_string(), field(FilterType::Keyword));
    filter_fields.insert("price".to_string(), field(FilterType::Number));
    filter_fields.insert("sold".to_string(), field(FilterType::Boolean));
    DatasetSchema {
        dataset_id: "shop".to_string(),
        primary_key: "id".to_string(),
        text_fields: vec!["t".to_string()],
        display_fields: vec!["t".to_string()],
        full_text_fields: Vec::new(),
        source_uri_field: None,
        source_label_field: None,
        filter_fields,
    }
}

fn shop_records() -> Vec<PreparedRecord> {
    let docs = lines()
        .iter()
        .filter(|line| !line.is_empty())
        .map(|line| parse_json(line.as_bytes()).unwrap())
        .collect();
    shop().prepare_records(&docs).unwrap()
}

fn shop_database() -> Connection {
    let records = shop_records();
    let options = ChunkOptions { mode: ChunkMode::Smart, size: 2, overlap: 0 };
    let chunks = build_chunks(&records, &options).unwrap();
    let conn = Connection::open_in_memory().unwrap();
    fill(&conn, &write_sqlite_index_at("shop", &records, &chunks, "2026-01-01T00:00:00Z"));
    conn
}

#[test]
fn the_database_holds_records_filters_and_chunks() {
    let conn = shop_database();
    let count = |sql: &str| conn.query_row(sql, [], |row| row.get::<_, i64>(0)).unwrap();
    assert_eq!(count("SELECT COUNT(*) FROM records"), 3);
    assert_eq!(count("SELECT COUNT(*) FROM filter_values"), 9);
    assert_eq!(count("SELECT COUNT(*) FROM chunks"), 6);
    assert_eq!(count("SELECT COUNT(*) FROM filter_values WHERE number_value = 2.5"), 1);
    assert_eq!(count("SELECT COUNT(*) FROM filter_values WHERE bool_value = 1"), 2);
    assert_eq!(count("SELECT COUNT(*) FROM filter_values WHERE bool_value = 0"), 1);
    assert_eq!(
        count("SELECT COUNT(*) FROM chunks WHERE record_id = 'a' AND start_char = 2 AND end_char = 3"),
        1
    );
    assert_eq!(
        count("SELECT COUNT(*) FROM records WHERE dataset_id = 'shop' AND indexed_at = '2026-01-01T00:00:00Z'"),
        3
    );
}

#[test]
fn filters_choose_records() {
    let conn = shop_database();
    let all: Vec<String> = vec!["a".to_string(), "b".to_string(), "c".to_string()];
    let cases: Vec<(TextMap<FilterExpr>, Vec<&str>)> = vec![
        (filters(vec![]), vec!["a", "b", "c"]),
        (filters(vec![("kind", FilterExpr::Eq { eq: text("book") })]), vec!["a", "b"]),
        (filters(vec![("sold", FilterExpr::Eq { eq: JsonValue::Bool(true) })]), vec!["a", "c"]),
        (filters(vec![("price", FilterExpr::Eq { eq: number("2.5") })]), vec!["b"]),
        (
            filters(vec![("kind", FilterExpr::In { any_of: vec![text("flower"), text("x")] })]),
            vec!["c"],
        ),
        (filters(vec![("kind", FilterExpr::In { any_of: vec![] })]), vec!["a", "b", "c"]),
        (
            filters(vec![("price", FilterExpr::Range { gte: Some(number("3")), lte: None })]),
            vec!["a", "c"],
        ),
        (
            filters(vec![(
                "price",
                FilterExpr::Range { gte: Some(number("2.5")), lte: Some(number("7")) },
            )]),
            vec!["b", "c"],
        ),
        (
            filters(vec![("kind", FilterExpr::Range { gte: Some(text("c")), lte: None })]),
            vec!["c"],
        ),
        (
            filters(vec![("kind", FilterExpr::Range { gte: None, lte: Some(text("c")) })]),
            vec!["a", "b"],
        ),
        (filters(vec![("kind", FilterExpr::Eq { eq: JsonValue::Array })]), vec![]),
        (
            filters(vec![
                ("kind", FilterExpr::Eq { eq: text("book") }),
                ("sold", FilterExpr::Eq { eq: JsonValue::Bool(true) }),
            ]),
            vec!["a"],
        ),
    ];
    for (wanted, expected) in cases {
        let pages = fetch_records(&all, &wanted);
        assert_eq!(pages.len(), 1);
        assert_eq!(pages[0].sql.matches('?').count(), pages[0].args.len());
        assert_eq!(ids(&rows(&conn, &pages[0])), expected);
        for id in &all {
            let single = fetch_record(id, &wanted);
            assert_eq!(rows(&conn, &single).len(), expected.contains(&id.as_str()) as usize);
            let found = match record_matches_filters(id, &wanted) {
                None => true,
                Some(query) => {
                    let mut stmt = conn.prepare(&query.sql).unwrap();
                    stmt.exists(rusqlite::params_from_iter(bound(&query))).unwrap()
                }
            };
            assert_eq!(found, expected.contains(&id.as_str()));
        }
    }
}

#[test]
fn many_ids_are_fetched_in_pages() {
    let all: Vec<String> = (0..450).map(|n| n.to_string()).collect();
    let pages = fetch_records(&all, &TextMap::new());
    let sizes: Vec<usize> = pages.iter().map(|p| p.args.len()).collect();
    assert_eq!(sizes, vec![200, 200, 50]);
    assert_eq!(pages[1].args[0], SqlArg::Text("200".to_string()));
    assert!(fetch_records(&Vec::new(), &TextMap::new()).is_empty());
}

#[test]
fn the_statements_are_written_out() {
    let wanted = filters(vec![("kind", FilterExpr::In { any_of: vec![text("x"), number("1")] })]);
    let query = fetch_record("a", &wanted);
    assert_eq!(
        query.sql,
        "SELECT r.record_id, r.display_json, r.payload_json, r.searchable_text, 0.0 AS rank FROM records r WHERE r.record_id = ? AND EXISTS (SELECT 1 FROM filter_values fv WHERE fv.record_id = r.record_id AND fv.field_name = ? AND fv.string_value IN (?,?))"
    );
    assert_eq!(
        query.args,
        vec![
            SqlArg::Text("a".to_string()),
            SqlArg::Text("kind".to_string()),
            SqlArg::Text("x".to_string()),
            SqlArg::Text("1".to_string())
        ]
    );
    let query = record_matches_filters("a", &wanted).unwrap();
    assert!(query.sql.ends_with("IN (?,?)) LIMIT 1"));
    assert!(record_matches_filters("a", &TextMap::new()).is_none());
}

#[test]
fn facets_count_values() {
    let facets = write_facets(&shop_records());
    assert_eq!(facets.len(), 3);
    let kinds = facets.get("kind").unwrap();
    assert_eq!(kinds.len(), 2);
    assert_eq!((&kinds[0].value, kinds[0].count), (&text("book"), 2));
    assert_eq!((&kinds[1].value, kinds[1].count), (&text("flower"), 1));
    let prices: Vec<&JsonValue> = facets.get("price").unwrap().iter().map(|f| &f.value).collect();
    assert_eq!(prices, vec![&number("10"), &number("2.5"), &number("7")]);
    assert!(write_facets(&Vec::new()).is_empty());
}

fn request(dataset: &str, query: &str, filters: TextMap<FilterExpr>) -> SearchRequest {
    SearchRequest {
        request_id: "r1".to_string(),
        client_id: "c1".to_string(),
        dataset_id: dataset.to_string(),
        query: query.to_string(),
        top_k: 10,
        filters,
        search_mode: SearchMode::Hybrid,
        result_granularity: ResultGranularity::Document,
    }
}

fn contracts(display_fields: &[&str], with_department: bool) -> DatasetSchema {
    let mut filter_fields = TextMap::new();
    if with_department {
        filter_fields.insert(
            "department".to_string(),
            FilterField {
                field_type: FilterType::Keyword,
                label: Some("部署".to_string()),
                ui: FilterUi::Select,
            },
        );
    }
    DatasetSchema {
        dataset_id: "contracts".to_string(),
        primary_key: "contract_id".to_string(),
        text_fields: vec!["title".to_string(), "body".to_string()],
        display_fields: display_fields.iter().map(|s| s.to_string()).collect(),
        full_text_fields: Vec::new(),
        source_uri_field: None,
        source_label_field: None,
        filter_fields,
    }
}

fn build(schema: &DatasetSchema, lines: &[&str]) -> (Connection, SearchIndex) {
    let options = BuildOptions {
        dataset_id: "contracts".to_string(),
        schema_path: FilePath::from_text("schema.json"),
        input_path: FilePath::from_text("input.jsonl"),
        indexes_root: FilePath::from_text("indexes"),
        version: Some("v1".to_string()),
        embedding: None,
        chunking: ChunkOptions::default(),
    };
    let lines: Vec<String> = lines.iter().map(|s| s.to_string()).collect();
    let plan = build_index_at(&options, schema, &lines, "now".to_string(), "then".to_string());
    let plan = plan.unwrap();
    let conn = Connection::open_in_memory().unwrap();
    fill(&conn, &write_sqlite_index("contracts", &plan.records, &plan.chunks));
    let current = read_current(&current_json("contracts", "v1", "indexes/contracts/versions/v1"));
    let index = load_current_index("contracts", &current.unwrap(), schema.copy(), None);
    (conn, index)
}

fn total(item: &FusedItem) -> Score {
    let sum = item.terms.iter().fold(0.0f32, |sum, term| sum + 1.0 / (*term as f32));
    Score { bits: sum.to_bits() }
}

fn search_with(
    conn: &Connection,
    index: &SearchIndex,
    req: &SearchRequest,
    text_hits: Option<Vec<String>>,
) -> SearchResponse {
    let items = fuse_hits(&text_hits, &None, req.top_k);
    let scores: Vec<Score> = items.iter().map(total).collect();
    let candidates = search_candidates(text_hits, None, &items, &scores, req.top_k);
    let mut pages = Vec::new();
    for query in fetch_candidates(&candidates, req) {
        assert!(wants_page(req, pages.len()));
        pages.push(rows(conn, &query));
    }
    let fallback = match fallback_query(&pages, req) {
        Some(query) => rows(conn, &query),
        None => Vec::new(),
    };
    index.search(req, &Vec::new(), &candidates, &pages, &fallback).unwrap()
}

fn search(conn: &Connection, index: &SearchIndex, req: &SearchRequest) -> SearchResponse {
    search_with(conn, index, req, None)
}

#[test]
fn what_the_text_index_finds_is_filtered_and_ranked() {
    let (conn, index) = build(
        &contracts(&["title", "department"], true),
        &[
            "{\"contract_id\":\"c-001\",\"title\":\"契約更新\",\"body\":\"更新時のリスク確認\",\"department\":\"法務\"}",
            "{\"contract_id\":\"c-002\",\"title\":\"経費精算\",\"body\":\"領収書を確認\",\"department\":\"経理\"}",
        ],
    );
    let hits = || Some(vec!["c-002".to_string(), "c-001".to_string()]);
    let wanted = filters(vec![("department", FilterExpr::Eq { eq: text("法務") })]);
    let response = search_with(&conn, &index, &request("contracts", "確認", wanted), hits());
    assert_eq!(response.results.len(), 1);
    assert_eq!(response.results[0].record_id, "c-001");
    assert_eq!(response.results[0].scores.bm25_rank, Some(2));
    assert_eq!(response.results[0].score.bits, 0.5f32.to_bits());
    let all = search_with(&conn, &index, &request("contracts", "確認", TextMap::new()), hits());
    let found: Vec<&str> = all.results.iter().map(|r| r.record_id.as_str()).collect();
    assert_eq!(found, vec!["c-002", "c-001"]);
    assert_eq!(all.results[0].score.bits, 1.0f32.to_bits());
}

#[test]
fn builds_and_searches_with_filters() {
    let (conn, index) = build(
        &contracts(&["title", "department"], true),
        &[
            "{\"contract_id\":\"c-001\",\"title\":\"契約更新\",\"body\":\"更新時のリスク確認\",\"department\":\"法務\"}",
            "{\"contract_id\":\"c-002\",\"title\":\"経費精算\",\"body\":\"領収書を確認\",\"department\":\"経理\"}",
        ],
    );
    let wanted = filters(vec![("department", FilterExpr::Eq { eq: text("法務") })]);
    let response = search(&conn, &index, &request("contracts", "契約更新", wanted));
    assert_eq!(response.results.len(), 1);
    assert_eq!(response.results[0].record_id, "c-001");
    assert_eq!(response.request_id, "r1");
    assert_eq!(response.dataset_id, "contracts");
    assert_eq!(response.index_version, "v1");
    assert_eq!(response.query_terms, vec!["契約更新".to_string()]);
    assert_eq!(response.results[0].display, "{\"department\":\"法務\",\"title\":\"契約更新\"}");
    assert_eq!(response.results[0].snippet, "契約更新\n更新時のリスク確認");
}

#[test]
fn falls_back_to_substring_search_for_japanese_terms() {
    let (conn, index) = build(
        &contracts(&["title"], false),
        &["{\"contract_id\":\"c-001\",\"title\":\"稟議申請\",\"body\":\"契約書ドラフトとリスク評価を添付する\"}"],
    );
    let response = search(&conn, &index, &request("contracts", "リスク", TextMap::new()));
    assert_eq!(response.results.len(), 1);
    assert_eq!(response.results[0].record_id, "c-001");
    let nothing = search(&conn, &index, &request("contracts", "  ", TextMap::new()));
    assert!(nothing.results.is_empty());
    let other = search(&conn, &index, &request("contracts", "リスク なし", TextMap::new()));
    assert!(other.results.is_empty());
}

#[test]
fn the_look_for_words_is_limited_and_ordered() {
    let conn = shop_database();
    let mut req = request("shop", "い 本", TextMap::new());
    req.top_k = 1;
    let query = search_like(&req);
    assert_eq!(
        query.sql,
        "SELECT r.record_id, r.display_json, r.payload_json, r.searchable_text, 0.0 AS rank FROM records r WHERE 1=1 AND r.searchable_text LIKE ? AND r.searchable_text LIKE ? ORDER BY r.record_id LIMIT ?"
    );
    assert_eq!(
        query.args,
        vec![
            SqlArg::Text("%い%".to_string()),
            SqlArg::Text("%本%".to_string()),
            SqlArg::Integer(1)
        ]
    );
    let found = rows(&conn, &query);
    assert_eq!(ids(&found), vec!["a"]);
    let results = materialize_rows(&found, &req.query).unwrap();
    assert_eq!(results[0].score.bits, (-0.0f32).to_bits());
    req.top_k = 0;
    assert_eq!(search_like(&req).args[2], SqlArg::Integer(1));
}

fn columns(conn: &Connection, table: &str) -> Vec<String> {
    let mut stmt = conn.prepare(&list_columns(table).sql).unwrap();
    let found = stmt.query_map([], |row| row.get::<_, String>(1)).unwrap();
    found.map(|name| name.unwrap()).collect()
}

fn chunk_row(conn: &Connection, query: &SqlQuery) -> (String, i64, i64, i64, String) {
    conn.query_row(&query.sql, rusqlite::params_from_iter(bound(query)), |row| {
        Ok((row.get(0)?, row.get(1)?, row.get(2)?, row.get(3)?, row.get(4)?))
    })
    .unwrap()
}

#[test]
fn chunks_are_found_by_their_ids() {
    let records = shop_records();
    let options = ChunkOptions { mode: ChunkMode::Smart, size: 2, overlap: 0 };
    let chunks = build_chunks(&records, &options).unwrap();
    assert_eq!(chunks[1].chunk_id, "a#chunk-1");
    assert_eq!((chunks[1].start_char, chunks[1].end_char), (2, 3));
    let conn = Connection::open_in_memory().unwrap();
    fill(&conn, &write_sqlite_index_at("shop", &records, &chunks, "now"));
    for (table, there) in [("chunks", 1), ("records", 1), ("idx_chunks_record_id", 0)] {
        let query = table_exists(table);
        let count: i64 = conn
            .query_row(&query.sql, rusqlite::params_from_iter(bound(&query)), |row| row.get(0))
            .unwrap();
        assert_eq!(count, there);
    }
    let names = columns(&conn, "chunks");
    assert!(column_exists(&names, "chunk_text"));
    assert!(!column_exists(&names, "text"));
    assert!(!column_exists(&Vec::new(), "chunk_text"));
    assert_eq!(
        chunk_row(&conn, &fetch_chunk("a#chunk-1", true)),
        ("a".to_string(), 1, 0, 0, "本".to_string())
    );
    assert_eq!(
        chunk_row(&conn, &fetch_chunk("a#chunk-1", false)),
        ("a".to_string(), 1, 2, 3, "赤い本".to_string())
    );
}

#[test]
fn records_are_indexed_now() {
    let records = shop_records();
    let conn = Connection::open_in_memory().unwrap();
    fill(&conn, &write_sqlite_index("shop", &records, &Vec::new()));
    let at: String =
        conn.query_row("SELECT MIN(indexed_at) FROM records", [], |row| row.get(0)).unwrap();
    assert_eq!(&at[10..11], "T");
    assert!(at.ends_with("+00:00"));
}
