use hybrid_shared_core::embedding::{
    build_inputs, check_output, default_document_prefix, default_max_input_tokens,
    default_model_id, default_query_prefix, ensure_ort_initialized, mean_pool, resolve_base,
    resolve_config_paths, EmbeddingConfig, EmbeddingConfigOverride, EmbeddingError, OutputShape,
    RelativeFiles, TokenRow,
};
use hybrid_shared_core::shared_folder::FilePath;

fn config() -> EmbeddingConfig {
    EmbeddingConfig {
        model_path: FilePath::from_text("m"),
        tokenizer_path: FilePath::from_text("t"),
        runtime_library_path: FilePath::from_text("r"),
        dimension: 3,
        max_input_tokens: 512,
        model_id: "id".to_string(),
        query_prefix: "q: ".to_string(),
        document_prefix: "d: ".to_string(),
        preload_model_to_memory: false,
    }
}

fn files() -> EmbeddingConfigOverride {
    EmbeddingConfigOverride {
        model_path: Some(FilePath::from_text("M")),
        tokenizer_path: Some(FilePath::from_text("T")),
        runtime_library_path: Some(FilePath::from_text("R")),
        ..EmbeddingConfigOverride::default()
    }
}

#[test]
fn an_empty_override_changes_nothing() {
    let over = EmbeddingConfigOverride::default();
    assert!(over.is_empty());
    let mut cfg = config();
    over.apply_to(&mut cfg);
    assert_eq!(format!("{cfg:?}"), format!("{:?}", config()));
    assert!(!files().is_empty());
}

#[test]
fn an_override_changes_what_it_names() {
    let over = EmbeddingConfigOverride {
        dimension: Some(5),
        query_prefix: Some(String::new()),
        preload_model_to_memory: Some(true),
        ..files()
    };
    let mut cfg = config();
    over.apply_to(&mut cfg);
    assert_eq!(cfg.model_path, FilePath::from_text("M"));
    assert_eq!(cfg.tokenizer_path, FilePath::from_text("T"));
    assert_eq!(cfg.runtime_library_path, FilePath::from_text("R"));
    assert_eq!(cfg.dimension, 5);
    assert_eq!(cfg.max_input_tokens, 512);
    assert_eq!(cfg.model_id, "id");
    assert_eq!(cfg.query_prefix, "");
    assert_eq!(cfg.document_prefix, "d: ");
    assert!(cfg.preload_model_to_memory);
    let once = format!("{cfg:?}");
    over.apply_to(&mut cfg);
    assert_eq!(format!("{cfg:?}"), once);
}

#[test]
fn the_files_of_a_model_go_together() {
    assert!(EmbeddingConfigOverride::default().to_config().unwrap().is_none());
    let only = EmbeddingConfigOverride { dimension: Some(3), ..EmbeddingConfigOverride::default() };
    assert!(only.to_config().unwrap().is_none());
    let cfg = files().to_config().unwrap().unwrap();
    assert_eq!(cfg.dimension, 768);
    assert_eq!(cfg.max_input_tokens, 8192);
    assert_eq!(cfg.model_id, "ruri-v3-onnx");
    assert_eq!(cfg.query_prefix, "検索クエリ: ");
    assert_eq!(cfg.document_prefix, "検索文書: ");
    assert!(!cfg.preload_model_to_memory);
    let mut some = files();
    some.tokenizer_path = None;
    let error = some.to_config().unwrap_err();
    assert_eq!(
        error.message(),
        "embedding_model, tokenizer, and ort_dll must be configured together"
    );
}

#[test]
fn defaults_are_those_of_the_model() {
    assert_eq!(default_max_input_tokens(), 8192);
    assert_eq!(default_model_id(), "ruri-v3-onnx");
    assert_eq!(default_query_prefix(), "検索クエリ: ");
    assert_eq!(default_document_prefix(), "検索文書: ");
}

#[test]
fn relative_files_are_taken_from_a_place() {
    let mut cfg = config();
    let base = FilePath::from_text("/base");
    let relative =
        RelativeFiles { model_path: true, tokenizer_path: false, runtime_library_path: true };
    resolve_config_paths(&mut cfg, &base, relative);
    assert_eq!(cfg.model_path, FilePath::from_text("/base").join("m"));
    assert_eq!(cfg.tokenizer_path, FilePath::from_text("t"));
    assert_eq!(cfg.runtime_library_path, FilePath::from_text("/base").join("r"));
    assert_eq!(cfg.dimension, 3);
    assert_eq!(resolve_base(&base, true, None), base);
    let dot = FilePath::from_text(".");
    assert_eq!(
        resolve_base(&dot, false, Some(FilePath::from_text("/here"))),
        FilePath::from_text("/here").join(".")
    );
    assert_eq!(resolve_base(&dot, false, None), FilePath::from_text(".").join("."));
}

#[test]
fn the_runtime_is_loaded_from_one_place() {
    assert!(matches!(ensure_ort_initialized(&None, "/a", false), Ok(true)));
    assert!(matches!(ensure_ort_initialized(&Some("/a".to_string()), "/a", true), Ok(false)));
    let error = ensure_ort_initialized(&Some("/a".to_string()), "/b", false).unwrap_err();
    assert_eq!(
        error.message(),
        "ONNX Runtime already initialized with `/a`; cannot switch to `/b`"
    );
}

#[test]
fn texts_are_prefixed() {
    let cfg = config();
    assert_eq!(cfg.query_input("x"), "q: x");
    assert_eq!(
        cfg.document_inputs(&vec!["x".to_string(), "y".to_string()]),
        vec!["d: x".to_string(), "d: y".to_string()]
    );
    assert!(cfg.check_dimension().is_ok());
    let mut flat = config();
    flat.dimension = 0;
    assert_eq!(
        flat.check_dimension().unwrap_err().message(),
        "embedding dimension must be greater than zero"
    );
}

#[test]
fn short_rows_are_padded() {
    let rows = vec![
        TokenRow { ids: vec![5, 6, 7], mask: vec![1, 1, 0] },
        TokenRow { ids: vec![8], mask: vec![1] },
        TokenRow { ids: vec![9, 9], mask: vec![1] },
    ];
    let inputs = build_inputs(&rows, 99);
    assert_eq!(inputs.seq_len, 3);
    assert_eq!(inputs.input_ids, vec![vec![5, 6, 7], vec![8, 99, 99], vec![9, 0, 99]]);
    assert_eq!(inputs.attention_mask, vec![vec![1, 1, 0], vec![1, 0, 0], vec![1, 0, 0]]);
    assert_eq!(build_inputs(&Vec::new(), 1).seq_len, 0);
}

#[test]
fn the_output_has_a_vector_for_each_token() {
    let good = check_output(&vec![2, 4, 3], "[2, 4, 3]", 2, 3).unwrap();
    assert_eq!(good, OutputShape { batch: 2, seq_len: 4, hidden: 3 });
    let error = check_output(&vec![2, 3], "[2, 3]", 2, 3).unwrap_err();
    assert_eq!(
        error.message(),
        "model output must be rank-3 [batch, seq_len, hidden], got [2, 3]"
    );
    let error = check_output(&vec![1, 4, 3], "", 2, 3).unwrap_err();
    assert_eq!(error.message(), "model batch size mismatch");
    let error = check_output(&vec![2, 4, 5], "", 2, 3).unwrap_err();
    assert_eq!(error.message(), "embedding dimension mismatch");
    assert!(check_output(&vec![0, 4, 5], "", 0, 3).is_ok());
    assert_eq!(EmbeddingError::MissingOutput.message(), "missing embedding output");
}

#[test]
fn only_tokens_that_count_are_averaged() {
    let masks = vec![vec![1, 0, 1], vec![0, 1, 0], vec![0, 0, 0]];
    let offsets = mean_pool(&masks, 3, 2);
    assert_eq!(offsets, vec![vec![0, 4], vec![8], vec![]]);
    let data: Vec<f32> = (0..18).map(|n| n as f32).collect();
    let first = &offsets[0];
    let mean: Vec<f32> = (0..2)
        .map(|h| first.iter().map(|at| data[at + h]).sum::<f32>() / first.len() as f32)
        .collect();
    assert_eq!(mean, vec![2.0, 3.0]);
}
