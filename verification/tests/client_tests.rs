use hybrid_shared_core::chunking::ChunkMode;
use hybrid_shared_core::cli::{embedding_from_args, parse_chunk_mode, ArgsError, EmbeddingArgs};
use hybrid_shared_core::client::{
    browser_is_gone, describe_dataset, failed_description, get_job, new_client_id,
    resolve_client_args, roundtrip, submit_search, submit_search_as, ClientArgs, ClientError,
    JobAnswer, PollStep, UiSearchRequest,
};
use hybrid_shared_core::config::SharedSearchConfig;
use hybrid_shared_core::protocol::{
    default_top_k, Request, Response, ResultGranularity, SearchMode,
};
use hybrid_shared_core::shared_folder::{request_path, response_path, FilePath};
use hybrid_shared_core::text_map::TextMap;

fn no_args() -> ClientArgs {
    ClientArgs { shared_root: None, dataset: None, no_open: None, keep_responses: None }
}

fn wish() -> UiSearchRequest {
    UiSearchRequest {
        query: "契約".to_string(),
        top_k: default_top_k(),
        filters: TextMap::new(),
        search_mode: SearchMode::Vector,
        result_granularity: ResultGranularity::Chunk,
    }
}

#[test]
fn the_client_needs_a_dataset() {
    let error = resolve_client_args(no_args(), SharedSearchConfig::default()).unwrap_err();
    assert_eq!(error, ClientError::MissingDataset);
    assert_eq!(
        error.message(),
        "dataset is required; set --dataset or shared-search.toml dataset_id"
    );
    assert_eq!(ClientError::Timeout.message(), "timeout waiting for server response");
}

#[test]
fn the_client_has_defaults() {
    let args = ClientArgs { dataset: Some("d".to_string()), ..no_args() };
    let s = resolve_client_args(args, SharedSearchConfig::default()).unwrap();
    assert_eq!(s.shared_root, FilePath::from_text("shared_demo"));
    assert_eq!(s.dataset, "d");
    assert!(!s.no_open && !s.keep_responses);
    assert_eq!(s.default_top_k, 20);
    assert_eq!((s.request_timeout_secs, s.browser_shutdown_secs), (60, 30));
    assert_eq!((s.search_poll_interval_ms, s.client_port), (300, 0));
}

#[test]
fn the_client_does_as_it_is_told() {
    let config = SharedSearchConfig {
        dataset: Some("old".to_string()),
        no_open: Some(true),
        keep_responses: Some(true),
        client_port: Some(8080),
        default_top_k: Some(5),
        ..SharedSearchConfig::default()
    };
    let args = ClientArgs { keep_responses: Some(false), ..no_args() };
    let s = resolve_client_args(args, config).unwrap();
    assert_eq!(s.dataset, "old");
    assert!(s.no_open && !s.keep_responses);
    assert_eq!((s.client_port, s.default_top_k), (8080, 5));
}

#[test]
fn a_search_is_submitted_where_the_server_looks() {
    let root = FilePath::from_text("/s");
    let s = submit_search_as("r-1".to_string(), &root, "c-1", "d", wish());
    assert_eq!(s.request_id, "r-1");
    assert_eq!(s.path, request_path(&root, "r-1"));
    assert_eq!(s.response_path, response_path(&root, "c-1", "r-1"));
    match s.request {
        Request::Search(req) => {
            assert_eq!((req.request_id.as_str(), req.client_id.as_str()), ("r-1", "c-1"));
            assert_eq!((req.dataset_id.as_str(), req.query.as_str()), ("d", "契約"));
            assert_eq!(req.top_k, 20);
            assert_eq!(req.search_mode, SearchMode::Vector);
            assert_eq!(req.result_granularity, ResultGranularity::Chunk);
        }
        other => panic!("{other:?}"),
    }
}

#[test]
fn requests_have_fresh_ids() {
    let root = FilePath::from_text("/s");
    let a = submit_search(&root, "c-1", "d", wish());
    let b = submit_search(&root, "c-1", "d", wish());
    assert_eq!(a.request_id.len(), 36);
    assert_ne!(a.request_id, b.request_id);
    assert_ne!(a.path, b.path);
    assert!(a.request_id.chars().all(|c| c == '-' || c.is_ascii_hexdigit()));
    let q = describe_dataset(&root, "c-1", "d");
    assert_eq!(q.path, request_path(&root, &q.request_id));
    match q.request {
        Request::DescribeDataset(req) => {
            assert_eq!(req.request_id, q.request_id);
            assert_eq!((req.client_id.as_str(), req.dataset_id.as_str()), ("c-1", "d"));
        }
        other => panic!("{other:?}"),
    }
    let id = new_client_id();
    assert_eq!(id.len(), 43);
    assert!(id.starts_with("client-"));
}

#[test]
fn an_answer_is_read_and_removed() {
    assert!(matches!(get_job(None, false), JobAnswer::Pending));
    let answer = failed_description("no".to_string());
    match &answer {
        Response::Error(e) => assert_eq!((e.request_id.as_str(), e.message.as_str()), ("", "no")),
        other => panic!("{other:?}"),
    }
    assert!(matches!(
        get_job(Some(Ok(answer.clone())), false),
        JobAnswer::Found { remove: true, .. }
    ));
    assert!(matches!(get_job(Some(Ok(answer)), true), JobAnswer::Found { remove: false, .. }));
    assert!(matches!(get_job(Some(Err("bad".to_string())), false), JobAnswer::Error(m) if m == "bad"));
}

#[test]
fn the_client_waits_for_a_while() {
    assert_eq!(roundtrip(true, 100, 5), PollStep::Read);
    assert_eq!(roundtrip(false, 5, 5), PollStep::Wait(250));
    assert_eq!(roundtrip(false, 6, 5), PollStep::GiveUp(ClientError::Timeout));
    assert!(browser_is_gone(6, 5));
    assert!(!browser_is_gone(5, 5));
}

#[test]
fn chunk_modes_have_names() {
    assert_eq!(parse_chunk_mode("none"), Ok(ChunkMode::Whole));
    assert_eq!(parse_chunk_mode("smart"), Ok(ChunkMode::Smart));
    assert_eq!(parse_chunk_mode("Smart"), Err(ArgsError::ChunkMode));
    assert_eq!(ArgsError::ChunkMode.message(), "--chunk-mode must be one of: none, smart");
}

fn embedding_args(files: usize) -> EmbeddingArgs {
    let file = |n: usize, name: &str| {
        if n < files {
            Some(FilePath::from_text(name))
        } else {
            None
        }
    };
    EmbeddingArgs {
        embedding_model: file(0, "m"),
        tokenizer: file(1, "t"),
        ort_dll: file(2, "r"),
        embedding_dim: 3,
        max_input_tokens: 4,
        embedding_model_id: "id".to_string(),
        query_prefix: "q".to_string(),
        document_prefix: "d".to_string(),
        preload_model_to_memory: true,
    }
}

#[test]
fn the_files_of_a_model_are_told_together() {
    assert!(embedding_from_args(embedding_args(0)).unwrap().is_none());
    for n in [1, 2] {
        let error = embedding_from_args(embedding_args(n)).unwrap_err();
        assert_eq!(
            error.message(),
            "--embedding-model, --tokenizer, and --ort-dll must be provided together"
        );
    }
    let cfg = embedding_from_args(embedding_args(3)).unwrap().unwrap();
    assert_eq!(cfg.model_path, FilePath::from_text("m"));
    assert_eq!(cfg.runtime_library_path, FilePath::from_text("r"));
    assert_eq!((cfg.dimension, cfg.max_input_tokens), (3, 4));
    assert!(cfg.preload_model_to_memory);
}
