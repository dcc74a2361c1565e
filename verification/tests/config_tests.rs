use hybrid_shared_core::config::{
    default_config_path, default_config_path_for, env_path, AbsolutePaths, EnvPaths,
    SharedSearchConfig,
};
use hybrid_shared_core::shared_folder::FilePath;

fn path(s: &str) -> Option<FilePath> {
    Some(FilePath::from_text(s))
}

fn no_env() -> EnvPaths {
    EnvPaths { embedding_model: None, tokenizer: None, ort_dll: None }
}

const RELATIVE: AbsolutePaths = AbsolutePaths {
    shared_root: false,
    indexes_root: false,
    embedding_model: false,
    tokenizer: false,
    ort_dll: false,
};

fn config() -> SharedSearchConfig {
    SharedSearchConfig {
        shared_root: path("shared"),
        indexes_root: path("/indexes"),
        embedding_model: path("m"),
        tokenizer: path("t"),
        embedding_dim: Some(3),
        dataset: Some("old".to_string()),
        ..SharedSearchConfig::default()
    }
}

#[test]
fn relative_paths_are_taken_from_the_file() {
    let absolute = AbsolutePaths { indexes_root: true, ..RELATIVE };
    let c = SharedSearchConfig::load_resolved(config(), path("/etc"), absolute, no_env());
    assert_eq!(c.shared_root, Some(FilePath::from_text("/etc").join("shared")));
    assert_eq!(c.indexes_root, path("/indexes"));
    assert_eq!(c.embedding_model, Some(FilePath::from_text("/etc").join("m")));
    assert_eq!(c.tokenizer, Some(FilePath::from_text("/etc").join("t")));
    assert_eq!(c.ort_dll, None);
    assert_eq!(c.embedding_dim, Some(3));
    let c = SharedSearchConfig::load_resolved(config(), None, absolute, no_env());
    assert_eq!(c.shared_root, Some(FilePath::from_text(".").join("shared")));
}

#[test]
fn the_environment_comes_last() {
    let env = EnvPaths { embedding_model: path("E"), tokenizer: None, ort_dll: path("O") };
    let c = SharedSearchConfig::load_resolved(config(), path("/etc"), RELATIVE, env.clone());
    assert_eq!(c.embedding_model, path("E"));
    assert_eq!(c.tokenizer, Some(FilePath::from_text("/etc").join("t")));
    assert_eq!(c.ort_dll, path("O"));
    let c = SharedSearchConfig::default().with_env_overrides(env);
    assert_eq!(c.embedding_model, path("E"));
    assert_eq!(c.shared_root, None);
}

#[test]
fn an_empty_variable_does_not_count() {
    assert_eq!(env_path(path("x"), false), path("x"));
    assert_eq!(env_path(path(""), true), None);
    assert_eq!(env_path(None, false), None);
}

#[test]
fn the_dataset_has_two_names() {
    let mut c = config();
    assert_eq!(c.dataset_id(), Some("old".to_string()));
    c.dataset_id = Some("new".to_string());
    assert_eq!(c.dataset_id(), Some("new".to_string()));
    assert_eq!(SharedSearchConfig::default().dataset_id(), None);
}

#[test]
fn settings_override_the_embedding() {
    let mut c = config();
    c.query_prefix = Some("q".to_string());
    c.preload_model_to_memory = Some(true);
    let over = c.embedding_override();
    assert_eq!(over.model_path, path("m"));
    assert_eq!(over.tokenizer_path, path("t"));
    assert_eq!(over.runtime_library_path, None);
    assert_eq!(over.dimension, Some(3));
    assert_eq!(over.query_prefix, Some("q".to_string()));
    assert_eq!(over.preload_model_to_memory, Some(true));
    assert!(SharedSearchConfig::default().embedding_override().is_empty());
}

#[test]
fn the_settings_lie_next_to_the_program() {
    assert_eq!(
        default_config_path(path("/bin")),
        Some(FilePath::from_text("/bin").join("shared-search.toml"))
    );
    assert_eq!(
        default_config_path_for(path("/bin"), "server.toml"),
        Some(FilePath::from_text("/bin").join("server.toml"))
    );
    assert_eq!(default_config_path(None), None);
}
