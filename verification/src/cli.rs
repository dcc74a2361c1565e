//! What the program that builds an index is told.
use vstd::prelude::*;
use vstd::string::*;

use crate::chunking::ChunkMode;
use crate::embedding;
use crate::embedding::{EmbeddingConfig, EmbeddingModel};
use crate::shared_folder;
use crate::shared_folder::FilePath;
use crate::text::same_text;

verus! {

/// Why the program does not understand what it is told.
#[derive(Debug, Clone, Copy, PartialEq, Eq)]
pub enum ArgsError {
    /// Only some of the files of the embedding model are given.
    FilesNotTogether,
    /// There is no such way of cutting texts.
    ChunkMode,
}

impl ArgsError {
    /// What is said of the error.
    pub open spec fn spec_message(self) -> Seq<char> {
        match self {
            ArgsError::FilesNotTogether =>
                "--embedding-model, --tokenizer, and --ort-dll must be provided together"@,
            ArgsError::ChunkMode => "--chunk-mode must be one of: none, smart"@,
        }
    }

    /// What is said of the error.
    pub fn message(&self) -> (r: String)
        ensures
            r@ == self.spec_message(),
    {
        match self {
            ArgsError::FilesNotTogether =>
                "--embedding-model, --tokenizer, and --ort-dll must be provided together".to_string(),
            ArgsError::ChunkMode => "--chunk-mode must be one of: none, smart".to_string(),
        }
    }
}

/// The way of cutting texts with the given name.
pub fn parse_chunk_mode(value: &str) -> (r: Result<ChunkMode, ArgsError>)
    ensures
        r == (if value@ == "none"@ {
            Ok::<ChunkMode, ArgsError>(ChunkMode::Whole)
        } else if value@ == "smart"@ {
            Ok(ChunkMode::Smart)
        } else {
            Err(ArgsError::ChunkMode)
        }),
{
    if same_text(value, "none") {
        Ok(ChunkMode::Whole)
    } else if same_text(value, "smart") {
        Ok(ChunkMode::Smart)
    } else {
        Err(ArgsError::ChunkMode)
    }
}

/// What the program is told of the embedding model.
#[derive(Debug, Clone)]
pub struct EmbeddingArgs {
    pub embedding_model: Option<FilePath>,
    pub tokenizer: Option<FilePath>,
    pub ort_dll: Option<FilePath>,
    pub embedding_dim: usize,
    pub max_input_tokens: usize,
    pub embedding_model_id: String,
    pub query_prefix: String,
    pub document_prefix: String,
    pub preload_model_to_memory: bool,
}

/// The configuration that the program is told: none where no file is given, and an error where
/// only some of the files are.
pub open spec fn told_config(args: EmbeddingArgs) -> Result<Option<EmbeddingModel>, ArgsError> {
    match (
        shared_folder::optional_path(args.embedding_model),
        shared_folder::optional_path(args.tokenizer),
        shared_folder::optional_path(args.ort_dll),
    ) {
        (Some(model_path), Some(tokenizer_path), Some(runtime_library_path)) => Ok(
            Some(
                EmbeddingModel {
                    model_path,
                    tokenizer_path,
                    runtime_library_path,
                    dimension: args.embedding_dim,
                    max_input_tokens: args.max_input_tokens,
                    model_id: args.embedding_model_id@,
                    query_prefix: args.query_prefix@,
                    document_prefix: args.document_prefix@,
                    preload_model_to_memory: args.preload_model_to_memory,
                },
            ),
        ),
        (None, None, None) => Ok(None),
        _ => Err(ArgsError::FilesNotTogether),
    }
}

/// The configuration that the program is told: none where no file is given, and an error where
/// only some of the files are.
pub fn embedding_from_args(args: EmbeddingArgs) -> (r: Result<Option<EmbeddingConfig>, ArgsError>)
    ensures
        match told_config(args) {
            Ok(cfg) => r is Ok && embedding::optional_config(r->Ok_0) == cfg,
            Err(e) => r is Err && r->Err_0 == e,
        },
{
    match (args.embedding_model, args.tokenizer, args.ort_dll) {
        (Some(model_path), Some(tokenizer_path), Some(runtime_library_path)) => Ok(
            Some(
                EmbeddingConfig {
                    model_path,
                    tokenizer_path,
                    runtime_library_path,
                    dimension: args.embedding_dim,
                    max_input_tokens: args.max_input_tokens,
                    model_id: args.embedding_model_id,
                    query_prefix: args.query_prefix,
                    document_prefix: args.document_prefix,
                    preload_model_to_memory: args.preload_model_to_memory,
                },
            ),
        ),
        (None, None, None) => Ok(None),
        _ => Err(ArgsError::FilesNotTogether),
    }
}

/// A configuration comes of what the program is told exactly where all three files are given, and
/// none where none of them is; it is just what was told.
pub proof fn law_told_files_come_together(args: EmbeddingArgs)
    ensures
        told_config(args) matches Ok(Some(_)) <==> args.embedding_model is Some
            && args.tokenizer is Some && args.ort_dll is Some,
        told_config(args) matches Ok(None) <==> args.embedding_model is None && args.tokenizer is None
            && args.ort_dll is None,
        told_config(args) matches Ok(Some(cfg)) ==> {
            &&& cfg.model_path == args.embedding_model->0@
            &&& cfg.tokenizer_path == args.tokenizer->0@
            &&& cfg.runtime_library_path == args.ort_dll->0@
            &&& cfg.dimension == args.embedding_dim
            &&& cfg.max_input_tokens == args.max_input_tokens
            &&& cfg.model_id == args.embedding_model_id@
            &&& cfg.query_prefix == args.query_prefix@
            &&& cfg.document_prefix == args.document_prefix@
            &&& cfg.preload_model_to_memory == args.preload_model_to_memory
        },
{
}

} // verus!
