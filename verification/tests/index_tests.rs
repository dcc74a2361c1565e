use hybrid_shared_core::chunking::{ChunkMode, ChunkOptions, ChunkOptionsError};
use hybrid_shared_core::embedding::{EmbeddingConfig, EmbeddingConfigOverride};
use hybrid_shared_core::index::{
    build_index, build_index_at, current_json, current_path, file_path,
    load_current_index, load_current_index_with_embedding_override, read_current, read_jsonl,
    BuildAction, BuildError, BuildOptions, CurrentError, CurrentIndex, IndexFile,
};
use hybrid_shared_core::protocol::FacetValue;
use hybrid_shared_core::schema::{DatasetSchema, SchemaError};
use hybrid_shared_core::shared_folder::{FilePath, PathStep};
use hybrid_shared_core::text_map::TextMap;

fn schema() -> DatasetSchema {
    DatasetSchema {
        dataset_id: "d".to_string(),
        primary_key: "id".to_string(),
        text_fields: vec!["t".to_string()],
        display_fields: Vec::new(),
        full_text_fields: Vec::new(),
        source_uri_field: None,
        source_label_field: None,
        filter_fields: TextMap::new(),
    }
}

fn config() -> EmbeddingConfig {
    EmbeddingConfig {
        model_path: FilePath::from_text("m"),
        tokenizer_path: FilePath::from_text("t"),
        runtime_library_path: FilePath::from_text("r"),
        dimension: 768,
        max_input_tokens: 512,
        model_id: "id".to_string(),
        query_prefix: "q".to_string(),
        document_prefix: "d".to_string(),
        preload_model_to_memory: false,
    }
}

fn options(embedding: Option<EmbeddingConfig>) -> BuildOptions {
    BuildOptions {
        dataset_id: "d".to_string(),
        schema_path: FilePath::from_text("s.json"),
        input_path: FilePath::from_text("i.jsonl"),
        indexes_root: FilePath::from_text("root"),
        version: None,
        embedding,
        chunking: ChunkOptions::default(),
    }
}

fn lines(list: &[&str]) -> Vec<String> {
    list.iter().map(|s| s.to_string()).collect()
}

fn names(path: &FilePath) -> String {
    let parts: Vec<String> = path
        .steps
        .iter()
        .map(|step| match step {
            PathStep::Name(s) => s.clone(),
            PathStep::FileName(s) => format!("={s}"),
            PathStep::Path(p) => p.display().to_string(),
        })
        .collect();
    parts.join("/")
}

#[test]
fn lines_are_documents() {
    let docs = read_jsonl(&lines(&["{\"a\":1}", "  ", "[2]", ""])).unwrap();
    assert_eq!(docs.len(), 2);
    let error = read_jsonl(&lines(&["{}", "", "{", "x"])).unwrap_err();
    assert_eq!(error.line, 3);
    assert_eq!(error.cause, "EOF while parsing an object at line 1 column 1");
    assert!(read_jsonl(&Vec::new()).unwrap().is_empty());
}

#[test]
fn a_build_is_planned() {
    let input = lines(&["{\"id\":1,\"t\":\"x\"}", "{\"id\":2,\"t\":\"y\"}"]);
    let plan = build_index_at(
        &options(None),
        &schema(),
        &input,
        "20260101-000000".to_string(),
        "2026-01-01T00:00:00Z".to_string(),
    )
    .unwrap();
    assert_eq!(plan.records.len(), 2);
    assert_eq!(plan.chunks.len(), 2);
    assert_eq!(names(&plan.version_dir), "root/d/versions/20260101-000000");
    assert_eq!(plan.meta.index_version, "20260101-000000");
    assert_eq!(plan.meta.built_at, "2026-01-01T00:00:00Z");
    assert_eq!((plan.meta.record_count, plan.meta.chunk_count), (2, 2));
    assert_eq!(plan.meta.engine, "tantivy-lindera-bm25");
    assert_eq!(plan.meta.dataset_id, "d");
    assert_eq!(plan.actions.len(), 8);
    assert!(matches!(plan.actions.last(), Some(BuildAction::WriteCurrent(_))));
}

#[test]
fn a_build_with_embeddings_has_two_more_steps() {
    let mut o = options(Some(config()));
    o.version = Some("v7".to_string());
    let plan = build_index(&o, &schema(), &lines(&["{\"id\":1,\"t\":\"x\"}"])).unwrap();
    assert_eq!(plan.meta.engine, "tantivy-lindera-bm25+hnsw-onnx-rrf");
    assert_eq!(plan.meta.index_version, "v7");
    let steps: Vec<String> = plan
        .actions
        .iter()
        .map(|action| match action {
            BuildAction::CreateDirs(p) => format!("mkdir {}", names(p)),
            BuildAction::CopySchema(a, b) => format!("copy {} {}", names(a), names(b)),
            BuildAction::WriteDatabase(p) => format!("database {}", names(p)),
            BuildAction::WriteFacets(p) => format!("facets {}", names(p)),
            BuildAction::WriteTextIndex(p) => format!("text {}", names(p)),
            BuildAction::WriteEmbedding(p) => format!("embedding {}", names(p)),
            BuildAction::WriteVectors(p) => format!("vectors {}", names(p)),
            BuildAction::WriteMeta(p) => format!("meta {}", names(p)),
            BuildAction::WriteCurrent(p) => format!("current {}", names(p)),
        })
        .collect();
    assert_eq!(
        steps,
        vec![
            "mkdir root/d/versions/v7",
            "copy s.json root/d/versions/v7/schema.json",
            "database root/d/versions/v7/records.db",
            "facets root/d/versions/v7/filter_facets.json",
            "text root/d/versions/v7/tantivy",
            "embedding root/d/versions/v7/embedding_config.json",
            "vectors root/d/versions/v7/hnsw",
            "meta root/d/versions/v7/build_meta.json",
            "mkdir root/d",
            "current root/d/current.json",
        ]
    );
}

#[test]
fn a_build_without_a_version_is_named_by_the_time() {
    let plan = build_index(&options(None), &schema(), &lines(&["{\"id\":1,\"t\":\"x\"}"])).unwrap();
    let version = plan.meta.index_version.clone();
    assert_eq!(version.len(), 15);
    assert_eq!(&version[8..9], "-");
    assert!(version.chars().all(|c| c.is_ascii_digit() || c == '-'));
    assert!(plan.meta.built_at.contains('T'));
    assert_eq!(names(&plan.version_dir), format!("root/d/versions/{version}"));
}

#[test]
fn a_build_fails_for_a_reason() {
    let mut o = options(None);
    o.dataset_id = "other".to_string();
    let error = build_index(&o, &schema(), &lines(&["{"])).unwrap_err();
    assert_eq!(error.message(), "dataset id mismatch: CLI `other` vs schema `d`");
    let error = build_index(&options(None), &schema(), &lines(&["{}", "{"])).unwrap_err();
    assert!(matches!(&error, BuildError::Line(e) if e.line == 2));
    assert_eq!(error.message(), "parse JSONL line 2");
    let error = build_index(&options(None), &schema(), &lines(&["{\"id\":1}"])).unwrap_err();
    assert!(matches!(&error, BuildError::Schema(SchemaError::MissingField(f)) if f == "t"));
    assert_eq!(
        error.message(),
        "schema field `t` is referenced but not present in record"
    );
    let mut o = options(None);
    o.chunking = ChunkOptions { mode: ChunkMode::Smart, size: 0, overlap: 0 };
    let error = build_index(&o, &schema(), &lines(&["{\"id\":1,\"t\":\"x\"}"])).unwrap_err();
    assert!(matches!(error, BuildError::Chunking(ChunkOptionsError::ZeroSize)));
    assert_eq!(error.message(), "chunk size must be greater than zero");
}

#[test]
fn the_current_version_is_read_as_it_was_written() {
    let bytes = current_json("d", "v\"1", "C:\\indexes\\契約");
    assert_eq!(
        String::from_utf8(bytes.clone()).unwrap(),
        "{\n  \"dataset_id\": \"d\",\n  \"index_version\": \"v\\\"1\",\n  \"path\": \"C:\\\\indexes\\\\契約\"\n}"
    );
    assert_eq!(
        read_current(&bytes),
        Ok(CurrentIndex {
            path: "C:\\indexes\\契約".to_string(),
            index_version: "v\"1".to_string()
        })
    );
}

#[test]
fn the_current_version_may_be_unknown() {
    assert_eq!(
        read_current(b"{\"path\":\"p\"}"),
        Ok(CurrentIndex { path: "p".to_string(), index_version: "unknown".to_string() })
    );
    assert_eq!(read_current(b"{\"index_version\":\"v\"}"), Err(CurrentError::MissingPath));
    assert_eq!(read_current(b"{\"path\":3}"), Err(CurrentError::MissingPath));
    assert_eq!(read_current(b"[]"), Err(CurrentError::MissingPath));
    let error = read_current(b"nope").unwrap_err();
    assert_eq!(error, CurrentError::NotJson("expected ident at line 1 column 2".to_string()));
    assert_eq!(error.message(), "expected ident at line 1 column 2");
    assert_eq!(CurrentError::MissingPath.message(), "current.json missing path");
}

#[test]
fn an_index_is_found_where_it_was_written() {
    assert_eq!(names(&current_path(&FilePath::from_text("root"), "d")), "root/d/current.json");
    let current = CurrentIndex { path: "p".to_string(), index_version: "v".to_string() };
    let index = load_current_index("d", &current, schema(), Some(config()));
    assert_eq!(index.dataset_id, "d");
    assert_eq!(index.index_version, "v");
    assert_eq!(names(&index.root), "p");
    assert_eq!(names(&file_path(&index.root, IndexFile::Database)), "p/records.db");
    assert_eq!(index.embedding.unwrap().max_input_tokens, 512);
    let over =
        EmbeddingConfigOverride { max_input_tokens: Some(9), ..EmbeddingConfigOverride::default() };
    let changed = load_current_index_with_embedding_override(
        "d",
        &current,
        schema(),
        Some(config()),
        &over,
    );
    assert_eq!(changed.embedding.unwrap().max_input_tokens, 9);
    let none =
        load_current_index_with_embedding_override("d", &current, schema(), None, &over);
    assert!(none.embedding.is_none());
}

#[test]
fn a_dataset_is_described() {
    let current = CurrentIndex { path: "p".to_string(), index_version: "v".to_string() };
    let index = load_current_index("d", &current, schema(), None);
    let mut facets: TextMap<Vec<FacetValue>> = TextMap::new();
    facets.insert("f".to_string(), Vec::new());
    let d = index.describe("r".to_string(), Some(facets));
    assert_eq!((d.request_id.as_str(), d.dataset_id.as_str()), ("r", "d"));
    assert_eq!(d.index_version, "v");
    assert_eq!(d.schema.primary_key, "id");
    assert_eq!(d.facets.len(), 1);
    assert!(index.describe("r".to_string(), None).facets.is_empty());
}
