//! The embedding model: how it is configured, what it is fed and what is read off it.
use vstd::prelude::*;
use vstd::string::*;

use crate::schema;
use crate::shared_folder;
use crate::shared_folder::{FilePath, StepModel};
use crate::text;
use crate::text::concat_text;

verus! {

/// Which embedding model is used, and how.
#[derive(Debug, Clone)]
pub struct EmbeddingConfig {
    pub model_path: FilePath,
    pub tokenizer_path: FilePath,
    pub runtime_library_path: FilePath,
    pub dimension: usize,
    pub max_input_tokens: usize,
    pub model_id: String,
    pub query_prefix: String,
    pub document_prefix: String,
    pub preload_model_to_memory: bool,
}

/// A configuration without its representation.
#[verifier::ext_equal]
pub struct EmbeddingModel {
    pub model_path: Seq<StepModel>,
    pub tokenizer_path: Seq<StepModel>,
    pub runtime_library_path: Seq<StepModel>,
    pub dimension: usize,
    pub max_input_tokens: usize,
    pub model_id: Seq<char>,
    pub query_prefix: Seq<char>,
    pub document_prefix: Seq<char>,
    pub preload_model_to_memory: bool,
}

impl View for EmbeddingConfig {
    type V = EmbeddingModel;

    open spec fn view(&self) -> EmbeddingModel {
        EmbeddingModel {
            model_path: self.model_path@,
            tokenizer_path: self.tokenizer_path@,
            runtime_library_path: self.runtime_library_path@,
            dimension: self.dimension,
            max_input_tokens: self.max_input_tokens,
            model_id: self.model_id@,
            query_prefix: self.query_prefix@,
            document_prefix: self.document_prefix@,
            preload_model_to_memory: self.preload_model_to_memory,
        }
    }
}

/// The view of an optional configuration.
pub open spec fn optional_config(cfg: Option<EmbeddingConfig>) -> Option<EmbeddingModel> {
    match cfg {
        Some(c) => Some(c@),
        None => None,
    }
}

impl EmbeddingConfig {
    /// A configuration equal to this one.
    pub fn copy(&self) -> (r: EmbeddingConfig)
        ensures
            r@ == self@,
    {
        EmbeddingConfig {
            model_path: self.model_path.copy(),
            tokenizer_path: self.tokenizer_path.copy(),
            runtime_library_path: self.runtime_library_path.copy(),
            dimension: self.dimension,
            max_input_tokens: self.max_input_tokens,
            model_id: self.model_id.clone(),
            query_prefix: self.query_prefix.clone(),
            document_prefix: self.document_prefix.clone(),
            preload_model_to_memory: self.preload_model_to_memory,
        }
    }
}

/// What is to be changed in a configuration.
#[derive(Debug, Clone)]
pub struct EmbeddingConfigOverride {
    pub model_path: Option<FilePath>,
    pub tokenizer_path: Option<FilePath>,
    pub runtime_library_path: Option<FilePath>,
    pub dimension: Option<usize>,
    pub max_input_tokens: Option<usize>,
    pub model_id: Option<String>,
    pub query_prefix: Option<String>,
    pub document_prefix: Option<String>,
    pub preload_model_to_memory: Option<bool>,
}

/// A change to a configuration without its representation.
#[verifier::ext_equal]
pub struct OverrideModel {
    pub model_path: Option<Seq<StepModel>>,
    pub tokenizer_path: Option<Seq<StepModel>>,
    pub runtime_library_path: Option<Seq<StepModel>>,
    pub dimension: Option<usize>,
    pub max_input_tokens: Option<usize>,
    pub model_id: Option<Seq<char>>,
    pub query_prefix: Option<Seq<char>>,
    pub document_prefix: Option<Seq<char>>,
    pub preload_model_to_memory: Option<bool>,
}

impl View for EmbeddingConfigOverride {
    type V = OverrideModel;

    open spec fn view(&self) -> OverrideModel {
        OverrideModel {
            model_path: shared_folder::optional_path(self.model_path),
            tokenizer_path: shared_folder::optional_path(self.tokenizer_path),
            runtime_library_path: shared_folder::optional_path(self.runtime_library_path),
            dimension: self.dimension,
            max_input_tokens: self.max_input_tokens,
            model_id: schema::optional_text(self.model_id),
            query_prefix: schema::optional_text(self.query_prefix),
            document_prefix: schema::optional_text(self.document_prefix),
            preload_model_to_memory: self.preload_model_to_memory,
        }
    }
}

/// The first value where there is one, else the second.
pub open spec fn chosen<T>(value: Option<T>, otherwise: T) -> T {
    match value {
        Some(v) => v,
        None => otherwise,
    }
}

impl OverrideModel {
    /// Whether nothing is to be changed.
    pub open spec fn is_empty(self) -> bool {
        &&& self.model_path is None
        &&& self.tokenizer_path is None
        &&& self.runtime_library_path is None
        &&& self.dimension is None
        &&& self.max_input_tokens is None
        &&& self.model_id is None
        &&& self.query_prefix is None
        &&& self.document_prefix is None
        &&& self.preload_model_to_memory is None
    }

    /// The changed configuration.
    pub open spec fn applied(self, cfg: EmbeddingModel) -> EmbeddingModel {
        EmbeddingModel {
            model_path: chosen(self.model_path, cfg.model_path),
            tokenizer_path: chosen(self.tokenizer_path, cfg.tokenizer_path),
            runtime_library_path: chosen(self.runtime_library_path, cfg.runtime_library_path),
            dimension: chosen(self.dimension, cfg.dimension),
            max_input_tokens: chosen(self.max_input_tokens, cfg.max_input_tokens),
            model_id: chosen(self.model_id, cfg.model_id),
            query_prefix: chosen(self.query_prefix, cfg.query_prefix),
            document_prefix: chosen(self.document_prefix, cfg.document_prefix),
            preload_model_to_memory: chosen(
                self.preload_model_to_memory,
                cfg.preload_model_to_memory,
            ),
        }
    }

    /// The configuration that these values make by themselves: none where no file is given,
    /// and an error where only some of the files are.
    pub open spec fn config(self) -> Result<Option<EmbeddingModel>, EmbeddingError> {
        match (self.model_path, self.tokenizer_path, self.runtime_library_path) {
            (Some(model_path), Some(tokenizer_path), Some(runtime_library_path)) => Ok(
                Some(
                    EmbeddingModel {
                        model_path,
                        tokenizer_path,
                        runtime_library_path,
                        dimension: chosen(self.dimension, 768),
                        max_input_tokens: chosen(self.max_input_tokens, 8192),
                        model_id: chosen(self.model_id, "ruri-v3-onnx"@),
                        query_prefix: chosen(self.query_prefix, "検索クエリ: "@),
                        document_prefix: chosen(self.document_prefix, "検索文書: "@),
                        preload_model_to_memory: chosen(self.preload_model_to_memory, false),
                    },
                ),
            ),
            (None, None, None) => Ok(None),
            _ => Err(EmbeddingError::FilesNotTogether),
        }
    }
}

/// Why there is no embedding.
#[derive(Debug, Clone)]
pub enum EmbeddingError {
    /// Only some of the files of the model are given.
    FilesNotTogether,
    /// An embedding would have no components.
    ZeroDimension,
    /// The model's output, whose shape is given, is not one vector for each token.
    OutputRank(String),
    /// The model's output is not about the texts that it was given.
    BatchSize,
    /// The embeddings have another dimension than they should.
    Dimension,
    /// The model gave no embedding.
    MissingOutput,
    /// The runtime was loaded from one place and cannot be loaded from another.
    RuntimeInUse(String, String),
}

impl EmbeddingError {
    /// What is said of the error.
    pub open spec fn spec_message(self) -> Seq<char> {
        match self {
            EmbeddingError::FilesNotTogether =>
                "embedding_model, tokenizer, and ort_dll must be configured together"@,
            EmbeddingError::ZeroDimension => "embedding dimension must be greater than zero"@,
            EmbeddingError::OutputRank(shape) =>
                "model output must be rank-3 [batch, seq_len, hidden], got "@ + shape@,
            EmbeddingError::BatchSize => "model batch size mismatch"@,
            EmbeddingError::Dimension => "embedding dimension mismatch"@,
            EmbeddingError::MissingOutput => "missing embedding output"@,
            EmbeddingError::RuntimeInUse(existing, wanted) =>
                "ONNX Runtime already initialized with `"@ + existing@ + "`; cannot switch to `"@
                    + wanted@ + "`"@,
        }
    }

    /// What is said of the error.
    pub fn message(&self) -> (r: String)
        ensures
            r@ == self.spec_message(),
    {
        match self {
            EmbeddingError::FilesNotTogether =>
                "embedding_model, tokenizer, and ort_dll must be configured together".to_string(),
            EmbeddingError::ZeroDimension =>
                "embedding dimension must be greater than zero".to_string(),
            EmbeddingError::OutputRank(shape) => concat_text(
                "model output must be rank-3 [batch, seq_len, hidden], got ",
                shape.as_str(),
            ),
            EmbeddingError::BatchSize => "model batch size mismatch".to_string(),
            EmbeddingError::Dimension => "embedding dimension mismatch".to_string(),
            EmbeddingError::MissingOutput => "missing embedding output".to_string(),
            EmbeddingError::RuntimeInUse(existing, wanted) => {
                let mut out = "ONNX Runtime already initialized with `".to_string();
                out.append(existing.as_str());
                out.append("`; cannot switch to `");
                out.append(wanted.as_str());
                out.append("`");
                out
            },
        }
    }
}

/// How many tokens of a text the model reads where nothing is said of it.
pub fn default_max_input_tokens() -> (r: usize)
    ensures
        r == 8192,
{
    8192
}

/// The name of the model where nothing is said of it.
pub fn default_model_id() -> (r: String)
    ensures
        r@ == "ruri-v3-onnx"@,
{
    "ruri-v3-onnx".to_string()
}

/// What is put before a query where nothing is said of it.
pub fn default_query_prefix() -> (r: String)
    ensures
        r@ == "検索クエリ: "@,
{
    "検索クエリ: ".to_string()
}

/// What is put before a document where nothing is said of it.
pub fn default_document_prefix() -> (r: String)
    ensures
        r@ == "検索文書: "@,
{
    "検索文書: ".to_string()
}

fn text_or(value: &Option<String>, otherwise: String) -> (r: String)
    ensures
        r@ == chosen(schema::optional_text(*value), otherwise@),
{
    match value {
        Some(s) => s.clone(),
        None => otherwise,
    }
}

fn path_or(value: &Option<FilePath>, otherwise: &FilePath) -> (r: FilePath)
    ensures
        r@ == chosen(shared_folder::optional_path(*value), otherwise@),
{
    match value {
        Some(p) => p.copy(),
        None => otherwise.copy(),
    }
}

impl Default for EmbeddingConfigOverride {
    fn default() -> (r: Self)
        ensures
            r@.is_empty(),
    {
        EmbeddingConfigOverride {
            model_path: None,
            tokenizer_path: None,
            runtime_library_path: None,
            dimension: None,
            max_input_tokens: None,
            model_id: None,
            query_prefix: None,
            document_prefix: None,
            preload_model_to_memory: None,
        }
    }
}

impl EmbeddingConfigOverride {
    /// Whether nothing is to be changed.
    pub fn is_empty(&self) -> (r: bool)
        ensures
            r == self@.is_empty(),
    {
        self.model_path.is_none() && self.tokenizer_path.is_none()
            && self.runtime_library_path.is_none() && self.dimension.is_none()
            && self.max_input_tokens.is_none() && self.model_id.is_none()
            && self.query_prefix.is_none() && self.document_prefix.is_none()
            && self.preload_model_to_memory.is_none()
    }

    /// Changes a configuration.
    pub fn apply_to(&self, cfg: &mut EmbeddingConfig)
        ensures
            final(cfg)@ == self@.applied(old(cfg)@),
    {
        let changed = EmbeddingConfig {
            model_path: path_or(&self.model_path, &cfg.model_path),
            tokenizer_path: path_or(&self.tokenizer_path, &cfg.tokenizer_path),
            runtime_library_path: path_or(&self.runtime_library_path, &cfg.runtime_library_path),
            dimension: match self.dimension {
                Some(value) => value,
                None => cfg.dimension,
            },
            max_input_tokens: match self.max_input_tokens {
                Some(value) => value,
                None => cfg.max_input_tokens,
            },
            model_id: text_or(&self.model_id, cfg.model_id.clone()),
            query_prefix: text_or(&self.query_prefix, cfg.query_prefix.clone()),
            document_prefix: text_or(&self.document_prefix, cfg.document_prefix.clone()),
            preload_model_to_memory: match self.preload_model_to_memory {
                Some(value) => value,
                None => cfg.preload_model_to_memory,
            },
        };
        *cfg = changed;
    }

    /// The configuration that these values make by themselves: none where no file is given,
    /// and an error where only some of the files are.
    pub fn to_config(&self) -> (r: Result<Option<EmbeddingConfig>, EmbeddingError>)
        ensures
            match self@.config() {
                Ok(cfg) => r is Ok && optional_config(r->Ok_0) == cfg,
                Err(e) => r is Err && r->Err_0 == e,
            },
    {
        match (&self.model_path, &self.tokenizer_path, &self.runtime_library_path) {
            (Some(model_path), Some(tokenizer_path), Some(runtime_library_path)) => Ok(
                Some(
                    EmbeddingConfig {
                        model_path: model_path.copy(),
                        tokenizer_path: tokenizer_path.copy(),
                        runtime_library_path: runtime_library_path.copy(),
                        dimension: match self.dimension {
                            Some(value) => value,
                            None => 768,
                        },
                        max_input_tokens: match self.max_input_tokens {
                            Some(value) => value,
                            None => default_max_input_tokens(),
                        },
                        model_id: text_or(&self.model_id, default_model_id()),
                        query_prefix: text_or(&self.query_prefix, default_query_prefix()),
                        document_prefix: text_or(&self.document_prefix, default_document_prefix()),
                        preload_model_to_memory: match self.preload_model_to_memory {
                            Some(value) => value,
                            None => false,
                        },
                    },
                ),
            ),
            (None, None, None) => Ok(None),
            _ => Err(EmbeddingError::FilesNotTogether),
        }
    }
}

/// A change that changes nothing leaves a configuration as it is.
pub proof fn law_empty_override(over: OverrideModel, cfg: EmbeddingModel)
    requires
        over.is_empty(),
    ensures
        over.applied(cfg) == cfg,
{
}

/// A change that is made twice is made once.
pub proof fn law_override_is_idempotent(over: OverrideModel, cfg: EmbeddingModel)
    ensures
        over.applied(over.applied(cfg)) == over.applied(cfg),
{
}

/// Changing the configuration that a change makes by itself leaves that as it is.
pub proof fn law_own_config_is_kept(over: OverrideModel)
    requires
        over.config() matches Ok(Some(_)),
    ensures
        over.applied(over.config()->Ok_0->0) == over.config()->Ok_0->0,
{
}

/// What `path` is once `base` is taken as the place that relative paths start from.
pub open spec fn resolved(
    base: Seq<StepModel>,
    path: Seq<StepModel>,
    relative: bool,
) -> Seq<StepModel> {
    if relative {
        base + path
    } else {
        path
    }
}

/// Which of the files of a configuration the platform takes for relative paths.
#[derive(Debug, Clone, Copy, PartialEq, Eq)]
pub struct RelativeFiles {
    pub model_path: bool,
    pub tokenizer_path: bool,
    pub runtime_library_path: bool,
}

/// The configuration with every relative path taken from `base`.
pub open spec fn with_base(
    cfg: EmbeddingModel,
    base: Seq<StepModel>,
    relative: RelativeFiles,
) -> EmbeddingModel {
    EmbeddingModel {
        model_path: resolved(base, cfg.model_path, relative.model_path),
        tokenizer_path: resolved(base, cfg.tokenizer_path, relative.tokenizer_path),
        runtime_library_path: resolved(
            base,
            cfg.runtime_library_path,
            relative.runtime_library_path,
        ),
        ..cfg
    }
}

fn resolve(base: &FilePath, path: &FilePath, relative: bool) -> (r: FilePath)
    ensures
        r@ == resolved(base@, path@, relative),
{
    if relative {
        base.join_path(path)
    } else {
        path.copy()
    }
}

/// The place that relative paths of a configuration start from: `base` where that is absolute,
/// else `base` as seen from the current directory, or from `.` where there is none.
pub fn resolve_base(base: &FilePath, absolute: bool, current_dir: Option<FilePath>) -> (r: FilePath)
    ensures
        r@ == (if absolute {
            base@
        } else {
            chosen(
                shared_folder::optional_path(current_dir),
                seq![StepModel::Name("."@)],
            ) + base@
        }),
{
    if absolute {
        return base.copy();
    }
    let start = match current_dir {
        Some(dir) => dir,
        None => FilePath::from_text("."),
    };
    start.join_path(base)
}

/// Takes every relative path of a configuration from `base`.
pub fn resolve_config_paths(cfg: &mut EmbeddingConfig, base: &FilePath, relative: RelativeFiles)
    ensures
        final(cfg)@ == with_base(old(cfg)@, base@, relative),
{
    let changed = EmbeddingConfig {
        model_path: resolve(base, &cfg.model_path, relative.model_path),
        tokenizer_path: resolve(base, &cfg.tokenizer_path, relative.tokenizer_path),
        runtime_library_path: resolve(
            base,
            &cfg.runtime_library_path,
            relative.runtime_library_path,
        ),
        dimension: cfg.dimension,
        max_input_tokens: cfg.max_input_tokens,
        model_id: cfg.model_id.clone(),
        query_prefix: cfg.query_prefix.clone(),
        document_prefix: cfg.document_prefix.clone(),
        preload_model_to_memory: cfg.preload_model_to_memory,
    };
    *cfg = changed;
}

/// Whether the runtime at `canonical` has to be recorded as the one in use, given the one that
/// already is, and whether both are the same file. The texts are what is shown of the paths.
pub fn ensure_ort_initialized(
    existing: &Option<String>,
    canonical: &str,
    is_same: bool,
) -> (r: Result<bool, EmbeddingError>)
    ensures
        match *existing {
            None => r == Ok::<bool, EmbeddingError>(true),
            Some(path) => if is_same {
                r == Ok::<bool, EmbeddingError>(false)
            } else {
                r matches Err(EmbeddingError::RuntimeInUse(a, b)) && a@ == path@ && b@
                    == canonical@
            },
        },
{
    match existing {
        None => Ok(true),
        Some(path) => if is_same {
            Ok(false)
        } else {
            Err(EmbeddingError::RuntimeInUse(path.clone(), canonical.to_string()))
        },
    }
}

impl EmbeddingConfig {
    /// Whether embeddings of this dimension can be made.
    pub fn check_dimension(&self) -> (r: Result<(), EmbeddingError>)
        ensures
            r == (if self.dimension == 0 {
                Err::<(), EmbeddingError>(EmbeddingError::ZeroDimension)
            } else {
                Ok(())
            }),
    {
        if self.dimension == 0 {
            Err(EmbeddingError::ZeroDimension)
        } else {
            Ok(())
        }
    }

    /// What the model is given for a query.
    pub fn query_input(&self, query: &str) -> (r: String)
        ensures
            r@ == self.query_prefix@ + query@,
    {
        concat_text(self.query_prefix.as_str(), query)
    }

    /// What the model is given for documents.
    pub fn document_inputs(&self, documents: &Vec<String>) -> (r: Vec<String>)
        ensures
            text::texts(r@) == Seq::new(
                documents@.len(),
                |i: int| self.document_prefix@ + documents@[i]@,
            ),
    {
        let ghost all = Seq::new(
            documents@.len(),
            |i: int| self.document_prefix@ + documents@[i]@,
        );
        let mut out: Vec<String> = Vec::new();
        let mut i: usize = 0;
        assert(text::texts(out@) =~= all.take(0));
        while i < documents.len()
            invariant
                i <= documents@.len(),
                all == Seq::new(
                    documents@.len(),
                    |i: int| self.document_prefix@ + documents@[i]@,
                ),
                text::texts(out@) == all.take(i as int),
            decreases documents@.len() - i,
        {
            let ghost before = text::texts(out@);
            out.push(concat_text(self.document_prefix.as_str(), documents[i].as_str()));
            proof {
                assert(text::texts(out@) =~= before.push(all[i as int]));
                assert(text::texts(out@) =~= all.take(i + 1));
            }
            i = i + 1;
        }
        assert(all.take(i as int) =~= all);
        out
    }
}

/// The tokens of a text: their numbers, and which of them count.
#[derive(Debug, Clone, PartialEq, Eq)]
pub struct TokenRow {
    pub ids: Vec<u32>,
    pub mask: Vec<u32>,
}

/// What the model is fed: a row of token numbers for each text, all of the same length, and
/// which of the numbers count.
#[derive(Debug, Clone, PartialEq, Eq)]
pub struct ModelInputs {
    pub seq_len: usize,
    pub input_ids: Vec<Vec<i64>>,
    pub attention_mask: Vec<Vec<i64>>,
}

/// The length of the longest row among the first `n`.
pub open spec fn longest(rows: Seq<TokenRow>, n: int) -> int
    decreases n,
{
    if n <= 0 {
        0
    } else if rows[n - 1].ids@.len() > longest(rows, n - 1) {
        rows[n - 1].ids@.len() as int
    } else {
        longest(rows, n - 1)
    }
}

/// The token number in a column of a row: the padding beyond the end of the row.
pub open spec fn input_id(row: TokenRow, col: int, pad_id: i64) -> i64 {
    if col >= row.ids@.len() {
        pad_id
    } else if col < row.mask@.len() {
        row.ids@[col] as i64
    } else {
        0
    }
}

/// Whether the token in a column of a row counts: none beyond the end of the row does.
pub open spec fn attention(row: TokenRow, col: int) -> i64 {
    if col < row.ids@.len() && col < row.mask@.len() {
        row.mask@[col] as i64
    } else {
        0
    }
}

proof fn lemma_longest(rows: Seq<TokenRow>, n: int, i: int)
    requires
        0 <= i < n <= rows.len(),
    ensures
        rows[i].ids@.len() <= longest(rows, n),
    decreases n,
{
    if i < n - 1 {
        lemma_longest(rows, n - 1, i);
    }
}

fn input_row(row: &TokenRow, seq_len: usize, pad_id: i64) -> (r: (Vec<i64>, Vec<i64>))
    ensures
        r.0@ == Seq::new(seq_len as nat, |col: int| input_id(*row, col, pad_id)),
        r.1@ == Seq::new(seq_len as nat, |col: int| attention(*row, col)),
{
    let ghost want_ids = Seq::new(seq_len as nat, |col: int| input_id(*row, col, pad_id));
    let ghost want_mask = Seq::new(seq_len as nat, |col: int| attention(*row, col));
    let mut ids: Vec<i64> = Vec::new();
    let mut mask: Vec<i64> = Vec::new();
    let mut col: usize = 0;
    assert(ids@ =~= want_ids.take(0));
    assert(mask@ =~= want_mask.take(0));
    while col < seq_len
        invariant
            col <= seq_len,
            want_ids == Seq::new(seq_len as nat, |col: int| input_id(*row, col, pad_id)),
            want_mask == Seq::new(seq_len as nat, |col: int| attention(*row, col)),
            ids@ == want_ids.take(col as int),
            mask@ == want_mask.take(col as int),
        decreases seq_len - col,
    {
        if col >= row.ids.len() {
            ids.push(pad_id);
            mask.push(0);
        } else if col < row.mask.len() {
            ids.push(row.ids[col] as i64);
            mask.push(row.mask[col] as i64);
        } else {
            ids.push(0);
            mask.push(0);
        }
        assert(ids@ =~= want_ids.take(col + 1));
        assert(mask@ =~= want_mask.take(col + 1));
        col = col + 1;
    }
    assert(want_ids.take(col as int) =~= want_ids);
    assert(want_mask.take(col as int) =~= want_mask);
    (ids, mask)
}

/// What the model is fed for texts with the given tokens: the shorter rows are padded to the
/// length of the longest one.
pub fn build_inputs(rows: &Vec<TokenRow>, pad_id: i64) -> (r: ModelInputs)
    ensures
        r.seq_len == longest(rows@, rows@.len() as int),
        r.input_ids@.len() == rows@.len(),
        r.attention_mask@.len() == rows@.len(),
        forall|i: int|
            0 <= i < rows@.len() ==> (#[trigger] r.input_ids@[i])@ == Seq::new(
                r.seq_len as nat,
                |col: int| input_id(rows@[i], col, pad_id),
            ),
        forall|i: int|
            0 <= i < rows@.len() ==> (#[trigger] r.attention_mask@[i])@ == Seq::new(
                r.seq_len as nat,
                |col: int| attention(rows@[i], col),
            ),
{
    let mut seq_len: usize = 0;
    let mut i: usize = 0;
    while i < rows.len()
        invariant
            i <= rows@.len(),
            seq_len == longest(rows@, i as int),
        decreases rows@.len() - i,
    {
        if rows[i].ids.len() > seq_len {
            seq_len = rows[i].ids.len();
        }
        i = i + 1;
    }
    let mut input_ids: Vec<Vec<i64>> = Vec::new();
    let mut attention_mask: Vec<Vec<i64>> = Vec::new();
    let mut k: usize = 0;
    while k < rows.len()
        invariant
            k <= rows@.len(),
            input_ids@.len() == k,
            attention_mask@.len() == k,
            forall|i: int|
                0 <= i < k ==> (#[trigger] input_ids@[i])@ == Seq::new(
                    seq_len as nat,
                    |col: int| input_id(rows@[i], col, pad_id),
                ),
            forall|i: int|
                0 <= i < k ==> (#[trigger] attention_mask@[i])@ == Seq::new(
                    seq_len as nat,
                    |col: int| attention(rows@[i], col),
                ),
        decreases rows@.len() - k,
    {
        let (ids, mask) = input_row(&rows[k], seq_len, pad_id);
        input_ids.push(ids);
        attention_mask.push(mask);
        k = k + 1;
    }
    ModelInputs { seq_len, input_ids, attention_mask }
}

/// Nothing of a text is lost when its row is padded, and no padding counts.
pub proof fn law_inputs_keep_the_tokens(rows: Seq<TokenRow>, i: int, col: int, pad_id: i64)
    requires
        0 <= i < rows.len(),
        0 <= col < longest(rows, rows.len() as int),
        rows[i].ids@.len() == rows[i].mask@.len(),
    ensures
        rows[i].ids@.len() <= longest(rows, rows.len() as int),
        col < rows[i].ids@.len() ==> input_id(rows[i], col, pad_id) == rows[i].ids@[col]
            && attention(rows[i], col) == rows[i].mask@[col],
        col >= rows[i].ids@.len() ==> input_id(rows[i], col, pad_id) == pad_id && attention(
            rows[i],
            col,
        ) == 0,
{
    lemma_longest(rows, rows.len() as int, i);
}

/// The shape of the model's output: a vector for each token of each text.
#[derive(Debug, Clone, Copy, PartialEq, Eq)]
pub struct OutputShape {
    pub batch: usize,
    pub seq_len: usize,
    pub hidden: usize,
}

/// What the model's output for a number of texts is read as. `shape_text` is how its shape is
/// shown.
pub fn check_output(shape: &Vec<i64>, shape_text: &str, rows: usize, dimension: usize) -> (r:
    Result<OutputShape, EmbeddingError>)
    ensures
        shape@.len() != 3 ==> (r matches Err(EmbeddingError::OutputRank(s)) && s@ == shape_text@),
        shape@.len() == 3 ==> r == (if shape@[0] as usize != rows {
            Err::<OutputShape, EmbeddingError>(EmbeddingError::BatchSize)
        } else if rows > 0 && shape@[2] as usize != dimension {
            Err(EmbeddingError::Dimension)
        } else {
            Ok(
                OutputShape {
                    batch: rows,
                    seq_len: shape@[1] as usize,
                    hidden: shape@[2] as usize,
                },
            )
        }),
{
    if shape.len() != 3 {
        return Err(EmbeddingError::OutputRank(shape_text.to_string()));
    }
    let batch: usize = #[verifier::truncate] (shape[0] as usize);
    let seq_len: usize = #[verifier::truncate] (shape[1] as usize);
    let hidden: usize = #[verifier::truncate] (shape[2] as usize);
    if batch != rows {
        return Err(EmbeddingError::BatchSize);
    }
    if rows > 0 && hidden != dimension {
        return Err(EmbeddingError::Dimension);
    }
    Ok(OutputShape { batch, seq_len, hidden })
}

/// Where the vectors of those of the first `n` tokens of a text start that count, in the
/// model's output.
pub open spec fn pooled(mask: Seq<i64>, row: int, n: int, seq_len: int, hidden: int) -> Seq<int>
    decreases n,
{
    if n <= 0 {
        Seq::empty()
    } else if mask[n - 1] == 1 {
        pooled(mask, row, n - 1, seq_len, hidden).push((row * seq_len + (n - 1)) * hidden)
    } else {
        pooled(mask, row, n - 1, seq_len, hidden)
    }
}

proof fn lemma_offset_fits(row: int, rows: int, token: int, seq_len: int, hidden: int)
    requires
        0 <= row < rows,
        0 <= token < seq_len,
        0 <= hidden,
    ensures
        0 <= row * seq_len <= row * seq_len + token < rows * seq_len,
        0 <= (row * seq_len + token) * hidden,
        (row * seq_len + token) * hidden + hidden <= rows * seq_len * hidden,
{
    assert(row * seq_len + seq_len <= rows * seq_len) by (nonlinear_arith)
        requires
            0 <= row < rows,
            0 <= seq_len,
    ;
    assert(0 <= row * seq_len) by (nonlinear_arith)
        requires
            0 <= row,
            0 <= seq_len,
    ;
    let at = row * seq_len + token;
    let all = rows * seq_len;
    assert(0 <= at * hidden && at * hidden + hidden <= all * hidden) by (nonlinear_arith)
        requires
            0 <= at < all,
            0 <= hidden,
    ;
}

fn pool_row(mask: &Vec<i64>, row: usize, rows: usize, seq_len: usize, hidden: usize) -> (r: Vec<
    usize,
>)
    requires
        row < rows,
        seq_len <= mask@.len(),
        rows * seq_len <= usize::MAX,
        rows * seq_len * hidden <= usize::MAX,
    ensures
        Seq::new(r@.len(), |i: int| r@[i] as int) == pooled(
            mask@,
            row as int,
            seq_len as int,
            seq_len as int,
            hidden as int,
        ),
{
    let mut out: Vec<usize> = Vec::new();
    let mut token: usize = 0;
    assert(Seq::new(out@.len(), |i: int| out@[i] as int) =~= pooled(
        mask@,
        row as int,
        0,
        seq_len as int,
        hidden as int,
    ));
    while token < seq_len
        invariant
            token <= seq_len <= mask@.len(),
            row < rows,
            rows * seq_len <= usize::MAX,
            rows * seq_len * hidden <= usize::MAX,
            Seq::new(out@.len(), |i: int| out@[i] as int) == pooled(
                mask@,
                row as int,
                token as int,
                seq_len as int,
                hidden as int,
            ),
        decreases seq_len - token,
    {
        if mask[token] == 1 {
            let ghost before = Seq::new(out@.len(), |i: int| out@[i] as int);
            proof {
                lemma_offset_fits(
                    row as int,
                    rows as int,
                    token as int,
                    seq_len as int,
                    hidden as int,
                );
            }
            let at: usize = (row * seq_len + token) * hidden;
            out.push(at);
            assert(Seq::new(out@.len(), |i: int| out@[i] as int) =~= before.push(at as int));
        }
        token = token + 1;
    }
    out
}

/// The positions of a row.
pub open spec fn offsets(v: Vec<usize>) -> Seq<int> {
    Seq::new(v@.len(), |i: int| v@[i] as int)
}

/// Where the vectors start in the model's output whose mean is the embedding of a text, for
/// each of the texts.
pub fn mean_pool(masks: &Vec<Vec<i64>>, seq_len: usize, hidden: usize) -> (r: Vec<Vec<usize>>)
    requires
        forall|i: int| 0 <= i < masks@.len() ==> seq_len <= (#[trigger] masks@[i])@.len(),
        masks@.len() * seq_len <= usize::MAX,
        masks@.len() * seq_len * hidden <= usize::MAX,
    ensures
        r@.len() == masks@.len(),
        forall|i: int|
            0 <= i < r@.len() ==> offsets(#[trigger] r@[i]) == pooled(
                masks@[i]@,
                i,
                seq_len as int,
                seq_len as int,
                hidden as int,
            ),
{
    let mut out: Vec<Vec<usize>> = Vec::new();
    let rows: usize = masks.len();
    let mut i: usize = 0;
    while i < rows
        invariant
            i <= rows,
            rows == masks@.len(),
            out@.len() == i,
            forall|i: int| 0 <= i < masks@.len() ==> seq_len <= (#[trigger] masks@[i])@.len(),
            rows * seq_len <= usize::MAX,
            rows * seq_len * hidden <= usize::MAX,
            forall|k: int|
                0 <= k < i ==> offsets(#[trigger] out@[k]) == pooled(
                    masks@[k]@,
                    k,
                    seq_len as int,
                    seq_len as int,
                    hidden as int,
                ),
        decreases rows - i,
    {
        let row = pool_row(&masks[i], i, rows, seq_len, hidden);
        assert(offsets(row) =~= pooled(
            masks@[i as int]@,
            i as int,
            seq_len as int,
            seq_len as int,
            hidden as int,
        ));
        out.push(row);
        i = i + 1;
    }
    out
}

/// Only the vectors of a text's own tokens are averaged, each of them within the model's
/// output and none of them twice.
pub proof fn law_pooled(mask: Seq<i64>, row: int, rows: int, n: int, seq_len: int, hidden: int)
    requires
        0 <= row < rows,
        0 <= n <= seq_len <= mask.len(),
        hidden >= 0,
    ensures
        ({
            let p = pooled(mask, row, n, seq_len, hidden);
            &&& forall|i: int|
                0 <= i < p.len() ==> row * seq_len * hidden <= #[trigger] p[i] && p[i] + hidden
                    <= (row * seq_len + n) * hidden && p[i] + hidden <= rows * seq_len * hidden
            &&& forall|i: int, j: int|
                0 <= i < j < p.len() ==> #[trigger] p[i] + hidden <= #[trigger] p[j]
        }),
    decreases n,
{
    if n > 0 {
        law_pooled(mask, row, rows, n - 1, seq_len, hidden);
        lemma_offset_fits(row, rows, n - 1, seq_len, hidden);
        let base = row * seq_len;
        let at = (base + (n - 1)) * hidden;
        assert(at + hidden == (base + n) * hidden) by (nonlinear_arith)
            requires
                at == (base + (n - 1)) * hidden,
        ;
        assert(base * hidden <= at) by (nonlinear_arith)
            requires
                at == (base + (n - 1)) * hidden,
                n >= 1,
                hidden >= 0,
        ;
        let p = pooled(mask, row, n, seq_len, hidden);
        let before = pooled(mask, row, n - 1, seq_len, hidden);
        assert forall|i: int| 0 <= i < p.len() implies base * hidden <= #[trigger] p[i] && p[i]
            + hidden <= (base + n) * hidden && p[i] + hidden <= rows * seq_len * hidden by {
            if i < before.len() {
                assert(p[i] == before[i]);
            }
        }
        assert forall|i: int, j: int| 0 <= i < j < p.len() implies #[trigger] p[i] + hidden
            <= #[trigger] p[j] by {
            assert(p[i] == before[i]);
            if j < before.len() {
                assert(p[j] == before[j]);
            }
        }
    }
}

/// A change takes over what it gives and leaves the rest: two configurations that it is made to
/// agree in all that it gives, and each keeps its own in all that it does not.
pub proof fn law_override_takes_over(over: OverrideModel, cfg: EmbeddingModel)
    ensures
        ({
            let now = over.applied(cfg);
            &&& over.model_path == Some(now.model_path) || over.model_path is None && now.model_path
                == cfg.model_path
            &&& over.tokenizer_path == Some(now.tokenizer_path) || over.tokenizer_path is None
                && now.tokenizer_path == cfg.tokenizer_path
            &&& over.runtime_library_path == Some(now.runtime_library_path)
                || over.runtime_library_path is None && now.runtime_library_path
                == cfg.runtime_library_path
            &&& over.dimension == Some(now.dimension) || over.dimension is None && now.dimension
                == cfg.dimension
            &&& over.max_input_tokens == Some(now.max_input_tokens) || over.max_input_tokens is None
                && now.max_input_tokens == cfg.max_input_tokens
            &&& over.model_id == Some(now.model_id) || over.model_id is None && now.model_id
                == cfg.model_id
            &&& over.query_prefix == Some(now.query_prefix) || over.query_prefix is None
                && now.query_prefix == cfg.query_prefix
            &&& over.document_prefix == Some(now.document_prefix) || over.document_prefix is None
                && now.document_prefix == cfg.document_prefix
            &&& over.preload_model_to_memory == Some(now.preload_model_to_memory)
                || over.preload_model_to_memory is None && now.preload_model_to_memory
                == cfg.preload_model_to_memory
        }),
{
}

/// A configuration comes of a change by itself exactly where it gives all three files, and nothing
/// where it gives none of them; it keeps what the change gives, and the rest is as it always is.
pub proof fn law_files_come_together(over: OverrideModel)
    ensures
        over.config() matches Ok(Some(_)) <==> over.model_path is Some && over.tokenizer_path is Some
            && over.runtime_library_path is Some,
        over.config() matches Ok(None) <==> over.model_path is None && over.tokenizer_path is None
            && over.runtime_library_path is None,
        over.config() matches Ok(Some(cfg)) ==> {
            &&& Some(cfg.model_path) == over.model_path
            &&& Some(cfg.tokenizer_path) == over.tokenizer_path
            &&& Some(cfg.runtime_library_path) == over.runtime_library_path
            &&& over.dimension == Some(cfg.dimension) || over.dimension is None && cfg.dimension
                == 768
            &&& over.max_input_tokens == Some(cfg.max_input_tokens) || over.max_input_tokens is None
                && cfg.max_input_tokens == 8192
            &&& over.model_id == Some(cfg.model_id) || over.model_id is None && cfg.model_id
                == "ruri-v3-onnx"@
            &&& over.query_prefix == Some(cfg.query_prefix) || over.query_prefix is None
                && cfg.query_prefix == "検索クエリ: "@
            &&& over.document_prefix == Some(cfg.document_prefix) || over.document_prefix is None
                && cfg.document_prefix == "検索文書: "@
            &&& over.preload_model_to_memory == Some(cfg.preload_model_to_memory)
                || over.preload_model_to_memory is None && !cfg.preload_model_to_memory
        },
{
}

/// Taking relative paths from a place puts that place before them, and leaves other paths and
/// everything else as it is.
pub proof fn law_relative_files(cfg: EmbeddingModel, base: Seq<StepModel>, relative: RelativeFiles)
    ensures
        ({
            let now = with_base(cfg, base, relative);
            &&& now.model_path == (if relative.model_path {
                base + cfg.model_path
            } else {
                cfg.model_path
            })
            &&& now.tokenizer_path == (if relative.tokenizer_path {
                base + cfg.tokenizer_path
            } else {
                cfg.tokenizer_path
            })
            &&& now.runtime_library_path == (if relative.runtime_library_path {
                base + cfg.runtime_library_path
            } else {
                cfg.runtime_library_path
            })
            &&& now.dimension == cfg.dimension
            &&& now.max_input_tokens == cfg.max_input_tokens
            &&& now.model_id == cfg.model_id
            &&& now.query_prefix == cfg.query_prefix
            &&& now.document_prefix == cfg.document_prefix
            &&& now.preload_model_to_memory == cfg.preload_model_to_memory
        }),
{
}

/// The vectors that are averaged are those of the tokens that count, all of them and no others: the
/// vector of the token `t` of a text starts as many vectors into the model's output as there are
/// tokens of the texts before it and of the text before `t`.
pub proof fn law_pooled_tokens(mask: Seq<i64>, row: int, n: int, seq_len: int, hidden: int)
    requires
        0 <= n <= mask.len(),
    ensures
        ({
            let p = pooled(mask, row, n, seq_len, hidden);
            &&& p.len() <= n
            &&& forall|t: int|
                0 <= t < n && #[trigger] mask[t] == 1 ==> p.contains((row * seq_len + t) * hidden)
            &&& forall|i: int|
                0 <= i < p.len() ==> is_start_of_counted(
                    mask,
                    row,
                    n,
                    seq_len,
                    hidden,
                    #[trigger] p[i],
                )
        }),
    decreases n,
{
    if n > 0 {
        law_pooled_tokens(mask, row, n - 1, seq_len, hidden);
        let before = pooled(mask, row, n - 1, seq_len, hidden);
        let p = pooled(mask, row, n, seq_len, hidden);
        assert forall|t: int| 0 <= t < n && #[trigger] mask[t] == 1 implies p.contains(
            (row * seq_len + t) * hidden,
        ) by {
            let at = (row * seq_len + t) * hidden;
            if t < n - 1 {
                assert(before.contains(at));
                let i = choose|i: int| 0 <= i < before.len() && before[i] == at;
                assert(p[i] == at);
            } else {
                assert(p.last() == at);
            }
        }
        assert forall|i: int| 0 <= i < p.len() implies is_start_of_counted(
            mask,
            row,
            n,
            seq_len,
            hidden,
            #[trigger] p[i],
        ) by {
            if i < before.len() {
                assert(p[i] == before[i]);
                let t = choose|t: int|
                    0 <= t < n - 1 && #[trigger] mask[t] == 1 && before[i] == (row * seq_len + t)
                        * hidden;
                assert(mask[t] == 1);
            } else {
                assert(mask[n - 1] == 1);
            }
        }
    }
}

/// Whether the vector of one of the first `n` tokens starts at `at`, one that counts.
pub open spec fn is_start_of_counted(
    mask: Seq<i64>,
    row: int,
    n: int,
    seq_len: int,
    hidden: int,
    at: int,
) -> bool {
    exists|t: int|
        0 <= t < n && #[trigger] mask[t] == 1 && at == (row * seq_len + t) * hidden
}

/// The rows are padded to the length of one of them, and no further.
pub proof fn law_longest_row(rows: Seq<TokenRow>, n: int)
    requires
        0 <= n <= rows.len(),
    ensures
        longest(rows, n) == 0 || exists|i: int|
            0 <= i < n && (#[trigger] rows[i]).ids@.len() == longest(rows, n),
        forall|i: int| 0 <= i < n ==> (#[trigger] rows[i]).ids@.len() <= longest(rows, n),
    decreases n,
{
    if n > 0 {
        law_longest_row(rows, n - 1);
        assert(rows[n - 1].ids@.len() <= longest(rows, n));
    }
}

} // verus!
