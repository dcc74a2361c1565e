use hybrid_shared_core::config::SharedSearchConfig;
use hybrid_shared_core::protocol::{
    DatasetDescription, DescribeDatasetRequest, Response, ResponseOk, ResultGranularity,
    SearchMode, SearchRequest, SearchResponse,
};
use hybrid_shared_core::schema::DatasetSchema;
use hybrid_shared_core::server::{
    answer_describe, answer_search, cleanup_dir, cleanup_is_due, cleanup_old_files, cleanup_response_tree, expired,
    finished_path, processing_path, request_file, resolve_server_args, seconds, Entry, Node,
    ServerArgs,
};
use hybrid_shared_core::shared_folder::{response_path, FilePath};
use hybrid_shared_core::text_map::TextMap;

fn root() -> FilePath {
    FilePath::from_text("/s")
}

fn no_args() -> ServerArgs {
    ServerArgs {
        shared_root: None,
        indexes_root: None,
        poll_seconds: None,
        done_ttl_secs: None,
        failed_ttl_secs: None,
        cleanup_interval_secs: None,
    }
}

fn file(name: &str, age: Option<u128>) -> Entry {
    Entry { name: name.to_string(), node: Node::File(age) }
}

fn folder(name: &str, entries: Vec<Entry>) -> Entry {
    Entry { name: name.to_string(), node: Node::Folder(entries) }
}

fn paths(list: &[Vec<String>]) -> Vec<String> {
    list.iter().map(|p| p.join("/")).collect()
}

#[test]
fn the_server_has_defaults() {
    let s = resolve_server_args(no_args(), SharedSearchConfig::default());
    assert_eq!(s.shared_root, FilePath::from_text("shared_demo"));
    assert_eq!(s.indexes_root, FilePath::from_text("indexes"));
    assert_eq!((s.poll_seconds, s.done_ttl_secs), (2, 600));
    assert_eq!((s.failed_ttl_secs, s.cleanup_interval_secs), (86_400, 60));
    assert!(s.embedding_override.is_empty());
}

#[test]
fn the_server_does_as_it_is_told() {
    let config = SharedSearchConfig {
        shared_root: Some(FilePath::from_text("c")),
        poll_seconds: Some(5),
        done_ttl_secs: Some(6),
        embedding_dim: Some(7),
        ..SharedSearchConfig::default()
    };
    let args = ServerArgs { done_ttl_secs: Some(0), ..no_args() };
    let s = resolve_server_args(args, config);
    assert_eq!(s.shared_root, FilePath::from_text("c"));
    assert_eq!((s.poll_seconds, s.done_ttl_secs), (5, 0));
    assert_eq!(s.embedding_override.dimension, Some(7));
}

#[test]
fn requests_are_known_by_their_names() {
    assert_eq!(
        request_file(Some("json"), Some("a.request.json")),
        Some("a.request.json".to_string())
    );
    assert_eq!(request_file(Some("json"), Some("a.response.json")), None);
    assert_eq!(request_file(Some("tmp"), Some("a.request.json.tmp")), None);
    assert_eq!(request_file(Some("JSON"), Some("a.request.json")), None);
    assert_eq!(request_file(None, Some("a.request.json")), None);
    assert_eq!(request_file(Some("json"), None), None);
}

#[test]
fn requests_move_on() {
    let requests = root().join("requests");
    assert_eq!(processing_path(&root(), "f"), requests.join("processing").join("f"));
    assert_eq!(finished_path(&root(), "f", true), requests.join("done").join("f"));
    assert_eq!(finished_path(&root(), "f", false), requests.join("failed").join("f"));
}

fn search_request() -> SearchRequest {
    SearchRequest {
        request_id: "r".to_string(),
        client_id: "c".to_string(),
        dataset_id: "d".to_string(),
        query: "q".to_string(),
        top_k: 1,
        filters: TextMap::new(),
        search_mode: SearchMode::Hybrid,
        result_granularity: ResultGranularity::Document,
    }
}

#[test]
fn a_search_is_answered_to_its_client() {
    let found = SearchResponse {
        request_id: "r".to_string(),
        dataset_id: "d".to_string(),
        index_version: "v".to_string(),
        query_terms: Vec::new(),
        results: Vec::new(),
    };
    let (path, response) = answer_search(&root(), &search_request(), Ok(found));
    assert_eq!(path, response_path(&root(), "c", "r"));
    assert!(matches!(response, Response::Success(ResponseOk::Search(s)) if s.index_version == "v"));
    let (path, response) = answer_search(&root(), &search_request(), Err("no".to_string()));
    assert_eq!(path, response_path(&root(), "c", "r"));
    match response {
        Response::Error(e) => assert_eq!((e.request_id.as_str(), e.message.as_str()), ("r", "no")),
        other => panic!("{other:?}"),
    }
}

#[test]
fn a_question_is_answered_to_its_client() {
    let req = DescribeDatasetRequest {
        request_id: "r".to_string(),
        client_id: "c".to_string(),
        dataset_id: "d".to_string(),
    };
    let dataset = DatasetDescription {
        request_id: "r".to_string(),
        dataset_id: "d".to_string(),
        index_version: "v".to_string(),
        schema: DatasetSchema {
            dataset_id: "d".to_string(),
            primary_key: "k".to_string(),
            text_fields: Vec::new(),
            display_fields: Vec::new(),
            full_text_fields: Vec::new(),
            source_uri_field: None,
            source_label_field: None,
            filter_fields: TextMap::new(),
        },
        facets: TextMap::new(),
    };
    let (path, response) = answer_describe(&root(), &req, Ok(dataset));
    assert_eq!(path, response_path(&root(), "c", "r"));
    assert!(matches!(response, Response::Success(ResponseOk::Dataset(_))));
    let (_, response) = answer_describe(&root(), &req, Err("no".to_string()));
    assert!(matches!(response, Response::Error(e) if e.request_id == "r" && e.message == "no"));
}

#[test]
fn files_expire_at_their_time() {
    assert!(expired(Some(5), 5));
    assert!(expired(Some(6), 5));
    assert!(!expired(Some(4), 5));
    assert!(!expired(Some(4), 0));
    assert!(!expired(None, 5));
    let entries = vec![
        file("old", Some(9)),
        file("young", Some(1)),
        folder("dir", vec![file("inner", Some(9))]),
        file("unknown", None),
        Entry { name: "pipe".to_string(), node: Node::Other },
    ];
    assert_eq!(cleanup_dir(&entries, 5), vec!["old".to_string()]);
    assert!(cleanup_dir(&entries, 0).is_empty());
}

#[test]
fn cleanup_response_tree_removes_files_past_ttl_and_empty_dirs() {
    let entries = vec![
        folder("old-client", vec![file("old.response.json", Some(1_000))]),
        folder("empty-client", Vec::new()),
    ];
    let first = cleanup_response_tree(&entries, 0);
    assert!(first.files.is_empty());
    assert_eq!(paths(&first.dirs), vec!["empty-client"]);

    let entries = vec![folder("old-client", vec![file("old.response.json", Some(1_000))])];
    let second = cleanup_response_tree(&entries, 1);
    assert_eq!(paths(&second.files), vec!["old-client/old.response.json"]);
    assert_eq!(paths(&second.dirs), vec!["old-client"]);
}

#[test]
fn folders_go_after_the_folders_in_them() {
    let entries = vec![
        folder(
            "a",
            vec![folder("b", vec![file("x", Some(9))]), folder("c", vec![file("y", Some(1))])],
        ),
        folder("d", vec![folder("e", Vec::new())]),
        folder("f", vec![Entry { name: "pipe".to_string(), node: Node::Other }]),
        file("z", Some(9)),
    ];
    let sweep = cleanup_response_tree(&entries, 5);
    assert_eq!(paths(&sweep.files), vec!["a/b/x", "z"]);
    assert_eq!(paths(&sweep.dirs), vec!["a/b", "d/e", "d"]);
}

#[test]
fn old_files_are_looked_for_in_three_places() {
    let plan = cleanup_old_files(&root(), 600, 7);
    assert_eq!(plan.done, root().join("requests").join("done"));
    assert_eq!(plan.failed, root().join("requests").join("failed"));
    assert_eq!(plan.responses, root().join("responses"));
    assert_eq!(plan.done_ttl, 600_000_000_000);
    assert_eq!(plan.failed_ttl, 7_000_000_000);
    assert_eq!(seconds(u64::MAX), u64::MAX as u128 * 1_000_000_000);
    assert!(cleanup_is_due(60_000_000_000, 60));
    assert!(!cleanup_is_due(59_999_999_999, 60));
}
