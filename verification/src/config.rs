//! The settings that the programs share.
use vstd::prelude::*;
use vstd::string::*;

use crate::embedding::{EmbeddingConfigOverride, OverrideModel};
use crate::schema;
use crate::shared_folder;
use crate::shared_folder::{FilePath, StepModel};

verus! {

/// The settings that the programs share, as far as they are given.
#[derive(Debug, Clone)]
pub struct SharedSearchConfig {
    pub shared_root: Option<FilePath>,
    pub dataset_id: Option<String>,
    /// The former name of `dataset_id`, which is used where that is not given.
    pub dataset: Option<String>,
    pub indexes_root: Option<FilePath>,
    pub embedding_model: Option<FilePath>,
    pub tokenizer: Option<FilePath>,
    pub ort_dll: Option<FilePath>,
    pub embedding_dim: Option<usize>,
    pub max_input_tokens: Option<usize>,
    pub embedding_model_id: Option<String>,
    pub query_prefix: Option<String>,
    pub document_prefix: Option<String>,
    pub preload_model_to_memory: Option<bool>,
    pub chunk_mode: Option<String>,
    pub chunk_size: Option<usize>,
    pub chunk_overlap: Option<usize>,
    pub poll_seconds: Option<u64>,
    pub done_ttl_secs: Option<u64>,
    pub failed_ttl_secs: Option<u64>,
    pub cleanup_interval_secs: Option<u64>,
    pub no_open: Option<bool>,
    pub keep_responses: Option<bool>,
    pub default_top_k: Option<usize>,
    pub request_timeout_secs: Option<u64>,
    pub browser_shutdown_secs: Option<u64>,
    pub search_poll_interval_ms: Option<u64>,
    pub client_port: Option<u16>,
}

/// Settings without their representation.
#[verifier::ext_equal]
pub struct ConfigModel {
    pub shared_root: Option<Seq<StepModel>>,
    pub dataset_id: Option<Seq<char>>,
    pub dataset: Option<Seq<char>>,
    pub indexes_root: Option<Seq<StepModel>>,
    pub embedding_model: Option<Seq<StepModel>>,
    pub tokenizer: Option<Seq<StepModel>>,
    pub ort_dll: Option<Seq<StepModel>>,
    pub embedding_dim: Option<usize>,
    pub max_input_tokens: Option<usize>,
    pub embedding_model_id: Option<Seq<char>>,
    pub query_prefix: Option<Seq<char>>,
    pub document_prefix: Option<Seq<char>>,
    pub preload_model_to_memory: Option<bool>,
    pub chunk_mode: Option<Seq<char>>,
    pub chunk_size: Option<usize>,
    pub chunk_overlap: Option<usize>,
    pub poll_seconds: Option<u64>,
    pub done_ttl_secs: Option<u64>,
    pub failed_ttl_secs: Option<u64>,
    pub cleanup_interval_secs: Option<u64>,
    pub no_open: Option<bool>,
    pub keep_responses: Option<bool>,
    pub default_top_k: Option<usize>,
    pub request_timeout_secs: Option<u64>,
    pub browser_shutdown_secs: Option<u64>,
    pub search_poll_interval_ms: Option<u64>,
    pub client_port: Option<u16>,
}

impl View for SharedSearchConfig {
    type V = ConfigModel;

    open spec fn view(&self) -> ConfigModel {
        ConfigModel {
            shared_root: shared_folder::optional_path(self.shared_root),
            dataset_id: schema::optional_text(self.dataset_id),
            dataset: schema::optional_text(self.dataset),
            indexes_root: shared_folder::optional_path(self.indexes_root),
            embedding_model: shared_folder::optional_path(self.embedding_model),
            tokenizer: shared_folder::optional_path(self.tokenizer),
            ort_dll: shared_folder::optional_path(self.ort_dll),
            embedding_dim: self.embedding_dim,
            max_input_tokens: self.max_input_tokens,
            embedding_model_id: schema::optional_text(self.embedding_model_id),
            query_prefix: schema::optional_text(self.query_prefix),
            document_prefix: schema::optional_text(self.document_prefix),
            preload_model_to_memory: self.preload_model_to_memory,
            chunk_mode: schema::optional_text(self.chunk_mode),
            chunk_size: self.chunk_size,
            chunk_overlap: self.chunk_overlap,
            poll_seconds: self.poll_seconds,
            done_ttl_secs: self.done_ttl_secs,
            failed_ttl_secs: self.failed_ttl_secs,
            cleanup_interval_secs: self.cleanup_interval_secs,
            no_open: self.no_open,
            keep_responses: self.keep_responses,
            default_top_k: self.default_top_k,
            request_timeout_secs: self.request_timeout_secs,
            browser_shutdown_secs: self.browser_shutdown_secs,
            search_poll_interval_ms: self.search_poll_interval_ms,
            client_port: self.client_port,
        }
    }
}

impl ConfigModel {
    /// Whether nothing is given.
    pub open spec fn is_empty(self) -> bool {
        &&& self.shared_root is None
        &&& self.dataset_id is None
        &&& self.dataset is None
        &&& self.indexes_root is None
        &&& self.embedding_model is None
        &&& self.tokenizer is None
        &&& self.ort_dll is None
        &&& self.embedding_dim is None
        &&& self.max_input_tokens is None
        &&& self.embedding_model_id is None
        &&& self.query_prefix is None
        &&& self.document_prefix is None
        &&& self.preload_model_to_memory is None
        &&& self.chunk_mode is None
        &&& self.chunk_size is None
        &&& self.chunk_overlap is None
        &&& self.poll_seconds is None
        &&& self.done_ttl_secs is None
        &&& self.failed_ttl_secs is None
        &&& self.cleanup_interval_secs is None
        &&& self.no_open is None
        &&& self.keep_responses is None
        &&& self.default_top_k is None
        &&& self.request_timeout_secs is None
        &&& self.browser_shutdown_secs is None
        &&& self.search_poll_interval_ms is None
        &&& self.client_port is None
    }

    /// The dataset, by its name or by its former name.
    pub open spec fn chosen_dataset(self) -> Option<Seq<char>> {
        match self.dataset_id {
            Some(id) => Some(id),
            None => self.dataset,
        }
    }

    /// What the settings change in the configuration of an embedding model.
    pub open spec fn overrides(self) -> OverrideModel {
        OverrideModel {
            model_path: self.embedding_model,
            tokenizer_path: self.tokenizer,
            runtime_library_path: self.ort_dll,
            dimension: self.embedding_dim,
            max_input_tokens: self.max_input_tokens,
            model_id: self.embedding_model_id,
            query_prefix: self.query_prefix,
            document_prefix: self.document_prefix,
            preload_model_to_memory: self.preload_model_to_memory,
        }
    }

    /// The settings with the files that the environment names in place of their own.
    pub open spec fn overridden(self, env: EnvModel) -> ConfigModel {
        ConfigModel {
            embedding_model: first_given(env.embedding_model, self.embedding_model),
            tokenizer: first_given(env.tokenizer, self.tokenizer),
            ort_dll: first_given(env.ort_dll, self.ort_dll),
            ..self
        }
    }

    /// The settings with every path that is not absolute taken from `base`.
    pub open spec fn based(self, base: Seq<StepModel>, absolute: AbsolutePaths) -> ConfigModel {
        ConfigModel {
            shared_root: based_path(base, self.shared_root, absolute.shared_root),
            indexes_root: based_path(base, self.indexes_root, absolute.indexes_root),
            embedding_model: based_path(base, self.embedding_model, absolute.embedding_model),
            tokenizer: based_path(base, self.tokenizer, absolute.tokenizer),
            ort_dll: based_path(base, self.ort_dll, absolute.ort_dll),
            ..self
        }
    }
}

/// The first value where there is one, else the second where there is one.
pub open spec fn first_given<T>(first: Option<T>, second: Option<T>) -> Option<T> {
    match first {
        Some(v) => Some(v),
        None => second,
    }
}

/// A path, taken from `base` unless it is absolute.
pub open spec fn based_path(
    base: Seq<StepModel>,
    path: Option<Seq<StepModel>>,
    absolute: bool,
) -> Option<Seq<StepModel>> {
    match path {
        Some(p) => Some(
            if absolute {
                p
            } else {
                base + p
            },
        ),
        None => None,
    }
}

/// Which of the paths of the settings the platform takes for absolute.
#[derive(Debug, Clone, Copy, PartialEq, Eq)]
pub struct AbsolutePaths {
    pub shared_root: bool,
    pub indexes_root: bool,
    pub embedding_model: bool,
    pub tokenizer: bool,
    pub ort_dll: bool,
}

/// The files of the embedding model that the environment names.
#[derive(Debug, Clone)]
pub struct EnvPaths {
    pub embedding_model: Option<FilePath>,
    pub tokenizer: Option<FilePath>,
    pub ort_dll: Option<FilePath>,
}

/// Those files without their representation.
pub struct EnvModel {
    pub embedding_model: Option<Seq<StepModel>>,
    pub tokenizer: Option<Seq<StepModel>>,
    pub ort_dll: Option<Seq<StepModel>>,
}

impl View for EnvPaths {
    type V = EnvModel;

    open spec fn view(&self) -> EnvModel {
        EnvModel {
            embedding_model: shared_folder::optional_path(self.embedding_model),
            tokenizer: shared_folder::optional_path(self.tokenizer),
            ort_dll: shared_folder::optional_path(self.ort_dll),
        }
    }
}

/// The path that a variable of the environment names, unless the variable is empty.
pub fn env_path(value: Option<FilePath>, is_empty: bool) -> (r: Option<FilePath>)
    ensures
        r == (if is_empty {
            None
        } else {
            value
        }),
{
    if is_empty {
        None
    } else {
        value
    }
}

fn resolve_relative(base_dir: &FilePath, path: Option<FilePath>, absolute: bool) -> (r: Option<
    FilePath,
>)
    ensures
        shared_folder::optional_path(r) == based_path(
            base_dir@,
            shared_folder::optional_path(path),
            absolute,
        ),
{
    match path {
        Some(p) => Some(
            if absolute {
                p
            } else {
                base_dir.join_path(&p)
            },
        ),
        None => None,
    }
}

fn copy_path(path: &Option<FilePath>) -> (r: Option<FilePath>)
    ensures
        shared_folder::optional_path(r) == shared_folder::optional_path(*path),
{
    match path {
        Some(p) => Some(p.copy()),
        None => None,
    }
}

fn copy_text(value: &Option<String>) -> (r: Option<String>)
    ensures
        schema::optional_text(r) == schema::optional_text(*value),
{
    match value {
        Some(s) => Some(s.clone()),
        None => None,
    }
}

/// The file of settings with the given name, next to the program.
pub fn default_config_path_for(exe_dir: Option<FilePath>, name: &str) -> (r: Option<FilePath>)
    ensures
        shared_folder::optional_path(r) == (match exe_dir {
            Some(dir) => Some(shared_folder::named(dir@, name@)),
            None => None,
        }),
{
    match exe_dir {
        Some(dir) => Some(dir.join(name)),
        None => None,
    }
}

/// The file of settings next to the program.
pub fn default_config_path(exe_dir: Option<FilePath>) -> (r: Option<FilePath>)
    ensures
        shared_folder::optional_path(r) == (match exe_dir {
            Some(dir) => Some(shared_folder::named(dir@, "shared-search.toml"@)),
            None => None,
        }),
{
    default_config_path_for(exe_dir, "shared-search.toml")
}

impl Default for SharedSearchConfig {
    fn default() -> (r: Self)
        ensures
            r@.is_empty(),
    {
        SharedSearchConfig {
            shared_root: None,
            dataset_id: None,
            dataset: None,
            indexes_root: None,
            embedding_model: None,
            tokenizer: None,
            ort_dll: None,
            embedding_dim: None,
            max_input_tokens: None,
            embedding_model_id: None,
            query_prefix: None,
            document_prefix: None,
            preload_model_to_memory: None,
            chunk_mode: None,
            chunk_size: None,
            chunk_overlap: None,
            poll_seconds: None,
            done_ttl_secs: None,
            failed_ttl_secs: None,
            cleanup_interval_secs: None,
            no_open: None,
            keep_responses: None,
            default_top_k: None,
            request_timeout_secs: None,
            browser_shutdown_secs: None,
            search_poll_interval_ms: None,
            client_port: None,
        }
    }
}

impl SharedSearchConfig {
    /// The settings that were read from a file in the directory `parent`, with every path that
    /// is not absolute taken from there, and with the files that the environment names in place
    /// of their own.
    pub fn load_resolved(
        config: SharedSearchConfig,
        parent: Option<FilePath>,
        absolute: AbsolutePaths,
        env: EnvPaths,
    ) -> (r: SharedSearchConfig)
        ensures
            r@ == config@.based(
                match parent {
                    Some(dir) => dir@,
                    None => seq![StepModel::Name("."@)],
                },
                absolute,
            ).overridden(env@),
    {
        let base_dir = match parent {
            Some(dir) => dir,
            None => FilePath::from_text("."),
        };
        let mut out = config;
        let ghost read = out@;
        out.shared_root = resolve_relative(&base_dir, out.shared_root, absolute.shared_root);
        out.indexes_root = resolve_relative(&base_dir, out.indexes_root, absolute.indexes_root);
        out.embedding_model =
            resolve_relative(&base_dir, out.embedding_model, absolute.embedding_model);
        out.tokenizer = resolve_relative(&base_dir, out.tokenizer, absolute.tokenizer);
        out.ort_dll = resolve_relative(&base_dir, out.ort_dll, absolute.ort_dll);
        assert(out@ == read.based(base_dir@, absolute));
        out.apply_env_overrides(env);
        out
    }

    /// The settings with the files that the environment names in place of their own.
    pub fn with_env_overrides(self, env: EnvPaths) -> (r: SharedSearchConfig)
        ensures
            r@ == self@.overridden(env@),
    {
        let mut out = self;
        out.apply_env_overrides(env);
        out
    }

    fn apply_env_overrides(&mut self, env: EnvPaths)
        ensures
            final(self)@ == old(self)@.overridden(env@),
    {
        if let Some(path) = env.embedding_model {
            self.embedding_model = Some(path);
        }
        if let Some(path) = env.tokenizer {
            self.tokenizer = Some(path);
        }
        if let Some(path) = env.ort_dll {
            self.ort_dll = Some(path);
        }
    }

    /// What the settings change in the configuration of an embedding model.
    pub fn embedding_override(&self) -> (r: EmbeddingConfigOverride)
        ensures
            r@ == self@.overrides(),
    {
        EmbeddingConfigOverride {
            model_path: copy_path(&self.embedding_model),
            tokenizer_path: copy_path(&self.tokenizer),
            runtime_library_path: copy_path(&self.ort_dll),
            dimension: self.embedding_dim,
            max_input_tokens: self.max_input_tokens,
            model_id: copy_text(&self.embedding_model_id),
            query_prefix: copy_text(&self.query_prefix),
            document_prefix: copy_text(&self.document_prefix),
            preload_model_to_memory: self.preload_model_to_memory,
        }
    }

    /// The dataset, by its name or by its former name.
    pub fn dataset_id(&self) -> (r: Option<String>)
        ensures
            schema::optional_text(r) == self@.chosen_dataset(),
    {
        match &self.dataset_id {
            Some(id) => Some(id.clone()),
            None => copy_text(&self.dataset),
        }
    }
}

/// The environment has the last word on the files of the embedding model, and says nothing of
/// any other setting.
pub proof fn law_environment_comes_last(config: ConfigModel, env: EnvModel)
    ensures
        ({
            let over = config.overridden(env).overrides();
            &&& env.embedding_model is Some ==> over.model_path == env.embedding_model
            &&& env.tokenizer is Some ==> over.tokenizer_path == env.tokenizer
            &&& env.ort_dll is Some ==> over.runtime_library_path == env.ort_dll
        }),
        config.overridden(env).chosen_dataset() == config.chosen_dataset(),
        config.overridden(env).overridden(env) == config.overridden(env),
{
}

/// Settings that give no path stay as they are, whatever directory they were read from.
pub proof fn law_settings_without_paths(
    config: ConfigModel,
    base: Seq<StepModel>,
    absolute: AbsolutePaths,
)
    requires
        config.shared_root is None,
        config.indexes_root is None,
        config.embedding_model is None,
        config.tokenizer is None,
        config.ort_dll is None,
    ensures
        config.based(base, absolute) == config,
{
}

/// The settings of the embedding model go to the configuration of that model, each one under its
/// own name; and the dataset goes by its name first.
pub proof fn law_settings_reach_the_model(config: ConfigModel)
    ensures
        config.overrides().model_path == config.embedding_model,
        config.overrides().tokenizer_path == config.tokenizer,
        config.overrides().runtime_library_path == config.ort_dll,
        config.overrides().dimension == config.embedding_dim,
        config.overrides().max_input_tokens == config.max_input_tokens,
        config.overrides().model_id == config.embedding_model_id,
        config.overrides().query_prefix == config.query_prefix,
        config.overrides().document_prefix == config.document_prefix,
        config.overrides().preload_model_to_memory == config.preload_model_to_memory,
        config.dataset_id is Some ==> config.chosen_dataset() == config.dataset_id,
        config.dataset_id is None ==> config.chosen_dataset() == config.dataset,
{
}

/// Settings that were read from a directory have that directory before each path that is not
/// absolute, and the other paths and all the rest as they were read.
pub proof fn law_paths_start_from_the_directory(
    config: ConfigModel,
    base: Seq<StepModel>,
    absolute: AbsolutePaths,
)
    ensures
        ({
            let now = config.based(base, absolute);
            &&& is_based(config.shared_root, now.shared_root, base, absolute.shared_root)
            &&& is_based(config.indexes_root, now.indexes_root, base, absolute.indexes_root)
            &&& is_based(config.embedding_model, now.embedding_model, base, absolute.embedding_model)
            &&& is_based(config.tokenizer, now.tokenizer, base, absolute.tokenizer)
            &&& is_based(config.ort_dll, now.ort_dll, base, absolute.ort_dll)
            &&& now == (ConfigModel {
                shared_root: now.shared_root,
                indexes_root: now.indexes_root,
                embedding_model: now.embedding_model,
                tokenizer: now.tokenizer,
                ort_dll: now.ort_dll,
                ..config
            })
        }),
{
}

/// Whether a path is another one: itself where it is absolute, and else seen from `base`.
pub open spec fn is_based(
    path: Option<Seq<StepModel>>,
    now: Option<Seq<StepModel>>,
    base: Seq<StepModel>,
    absolute: bool,
) -> bool {
    match (path, now) {
        (Some(p), Some(q)) => if absolute {
            q == p
        } else {
            q == base + p
        },
        (None, None) => true,
        _ => false,
    }
}

/// The environment names files in place of those of the settings, and leaves those that it does not
/// name.
pub proof fn law_environment_names_files(config: ConfigModel, env: EnvModel)
    ensures
        ({
            let now = config.overridden(env);
            &&& now.embedding_model == if env.embedding_model is Some {
                env.embedding_model
            } else {
                config.embedding_model
            }
            &&& now.tokenizer == if env.tokenizer is Some {
                env.tokenizer
            } else {
                config.tokenizer
            }
            &&& now.ort_dll == if env.ort_dll is Some {
                env.ort_dll
            } else {
                config.ort_dll
            }
            &&& now == (ConfigModel {
                embedding_model: now.embedding_model,
                tokenizer: now.tokenizer,
                ort_dll: now.ort_dll,
                ..config
            })
        }),
{
}

} // verus!
