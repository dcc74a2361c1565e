//! An index: how it is built from the lines of a dataset, and how it is found again.
use vstd::prelude::*;
use vstd::string::*;

use crate::chunking;
use crate::chunking::{
    build_chunks, ChunkModel, ChunkOptions, ChunkOptionsError, PreparedChunk,
};
use crate::clock;
use crate::clock::{time_stamp, version_stamp};
use crate::embedding;
use crate::embedding::{EmbeddingConfig, EmbeddingConfigOverride, EmbeddingModel};
use crate::facets;
use crate::facets::write_facets;
use crate::json;
use crate::json::{parse_json, pretty_json, JsonDocument, JsonModel, JsonValue};
use crate::protocol::{
    DatasetDescription, FacetValue, SearchRequest, SearchResponse, SearchResponseModel,
};
use crate::results;
use crate::results::{list_results, CandidateSearch, RecordRow, ResultError};
use crate::schema;
use crate::schema::{
    DatasetSchema, PreparedRecord, RecordModel, SchemaError, SchemaErrorModel, SchemaModel,
};
use crate::shared_folder;
use crate::shared_folder::{FilePath, StepModel};
use crate::snippet;
use crate::snippet::normalize_query_terms;
use crate::text;
use crate::text::{decimal_text, is_blank_text, same_text};
use crate::text_map;
use crate::text_map::TextMap;

verus! {

/// The documents of a text with one JSON document on each line, or the number of the first line
/// that is no JSON, counted from one, and what is wrong with it. Blank lines count, but hold no
/// document.
pub open spec fn jsonl(lines: Seq<Seq<char>>) -> Result<
    Seq<Option<Seq<(Seq<char>, JsonModel)>>>,
    (int, Seq<char>),
>
    decreases lines.len(),
{
    if lines.len() == 0 {
        Ok(Seq::empty())
    } else {
        match jsonl(lines.drop_last()) {
            Err(e) => Err(e),
            Ok(before) => if text::is_blank(lines.last()) {
                Ok(before)
            } else {
                match json::json_outcome(vstd::utf8::encode_utf8(lines.last())) {
                    Ok(doc) => Ok(before.push(doc)),
                    Err(message) => Err((lines.len() as int, message)),
                }
            },
        }
    }
}

proof fn lemma_jsonl_fails(lines: Seq<Seq<char>>, n: int)
    requires
        0 <= n <= lines.len(),
        jsonl(lines.take(n)) is Err,
    ensures
        jsonl(lines) == jsonl(lines.take(n)),
    decreases lines.len() - n,
{
    if n < lines.len() {
        assert(lines.take(n + 1).drop_last() =~= lines.take(n));
        lemma_jsonl_fails(lines, n + 1);
    } else {
        assert(lines.take(n) =~= lines);
    }
}

/// A line that is no JSON: its number, counted from one, and what is wrong with it.
#[derive(Debug, Clone, PartialEq, Eq)]
pub struct LineError {
    pub line: usize,
    pub cause: String,
}

impl View for LineError {
    type V = (int, Seq<char>);

    open spec fn view(&self) -> (int, Seq<char>) {
        (self.line as int, self.cause@)
    }
}

/// The documents of the lines of a text, or the first line that is no JSON. Blank lines count,
/// but hold no document.
pub fn read_jsonl(lines: &Vec<String>) -> (r: Result<Vec<JsonDocument>, LineError>)
    ensures
        match jsonl(text::texts(lines@)) {
            Ok(docs) => r is Ok && schema::document_models(r->Ok_0@) == docs && forall|i: int|
                0 <= i < r->Ok_0@.len() ==> (#[trigger] r->Ok_0@[i]).wf(),
            Err(e) => r is Err && r->Err_0@ == e,
        },
{
    let ghost all = text::texts(lines@);
    let mut out: Vec<JsonDocument> = Vec::new();
    let mut i: usize = 0;
    assert(schema::document_models(out@) =~= Seq::empty());
    while i < lines.len()
        invariant
            i <= lines@.len(),
            all == text::texts(lines@),
            jsonl(all.take(i as int)) is Ok,
            schema::document_models(out@) == jsonl(all.take(i as int))->Ok_0,
            forall|k: int| 0 <= k < out@.len() ==> (#[trigger] out@[k]).wf(),
        decreases lines@.len() - i,
    {
        let ghost before = schema::document_models(out@);
        proof {
            assert(all.take(i + 1).drop_last() =~= all.take(i as int));
            assert(all.take(i + 1).last() == lines@[i as int]@);
        }
        if !is_blank_text(lines[i].as_str()) {
            match parse_json(lines[i].as_str().as_bytes()) {
                Ok(doc) => {
                    out.push(doc);
                    assert(schema::document_models(out@) =~= before.push(doc@));
                },
                Err(cause) => {
                    proof {
                        lemma_jsonl_fails(all, i + 1);
                    }
                    return Err(LineError { line: i + 1, cause });
                },
            }
        }
        i = i + 1;
    }
    assert(all.take(i as int) =~= all);
    Ok(out)
}

/// Whether a line of a text of JSON documents is in order.
pub open spec fn is_jsonl_line(line: Seq<char>) -> bool {
    text::is_blank(line) || json::is_json(line)
}

/// A text is read exactly where each of its lines is blank or JSON, and the line that is named
/// otherwise is the first that is neither.
pub proof fn law_jsonl(lines: Seq<Seq<char>>)
    ensures
        match jsonl(lines) {
            Ok(docs) => docs.len() <= lines.len() && forall|i: int|
                0 <= i < lines.len() ==> is_jsonl_line(#[trigger] lines[i]),
            Err((line, _)) => 1 <= line <= lines.len() && !is_jsonl_line(lines[line - 1])
                && forall|i: int| 0 <= i < line - 1 ==> is_jsonl_line(#[trigger] lines[i]),
        },
    decreases lines.len(),
{
    if lines.len() > 0 {
        let shorter = lines.drop_last();
        law_jsonl(shorter);
        match jsonl(lines) {
            Ok(_) => {
                assert forall|i: int| 0 <= i < lines.len() implies is_jsonl_line(
                    #[trigger] lines[i],
                ) by {
                    if i < shorter.len() {
                        assert(shorter[i] == lines[i]);
                    }
                }
            },
            Err((line, _)) => {
                assert forall|i: int| 0 <= i < line - 1 implies is_jsonl_line(
                    #[trigger] lines[i],
                ) by {
                    assert(shorter[i] == lines[i]);
                }
            },
        }
    }
}

/// What a build was made of.
#[derive(Debug, Clone)]
pub struct BuildMeta {
    pub dataset_id: String,
    pub index_version: String,
    pub built_at: String,
    pub record_count: usize,
    pub chunk_count: usize,
    pub engine: String,
}

/// What a build was made of, without its representation.
pub struct MetaModel {
    pub dataset_id: Seq<char>,
    pub index_version: Seq<char>,
    pub built_at: Seq<char>,
    pub record_count: int,
    pub chunk_count: int,
    pub engine: Seq<char>,
}

impl View for BuildMeta {
    type V = MetaModel;

    open spec fn view(&self) -> MetaModel {
        MetaModel {
            dataset_id: self.dataset_id@,
            index_version: self.index_version@,
            built_at: self.built_at@,
            record_count: self.record_count as int,
            chunk_count: self.chunk_count as int,
            engine: self.engine@,
        }
    }
}

/// What is to be built, and how.
#[derive(Debug, Clone)]
pub struct BuildOptions {
    pub dataset_id: String,
    pub schema_path: FilePath,
    pub input_path: FilePath,
    pub indexes_root: FilePath,
    pub version: Option<String>,
    pub embedding: Option<EmbeddingConfig>,
    pub chunking: ChunkOptions,
}

/// Why no index is built.
#[derive(Debug, Clone)]
pub enum BuildError {
    /// The schema is of another dataset.
    OtherDataset { wanted: String, found: String },
    /// A line of the input is no JSON.
    Line(LineError),
    /// The schema or a record is refused.
    Schema(SchemaError),
    /// The records cannot be cut like this.
    Chunking(ChunkOptionsError),
}

/// Why no index is built, without its representation.
pub enum BuildErrorModel {
    OtherDataset { wanted: Seq<char>, found: Seq<char> },
    Line(int, Seq<char>),
    Schema(SchemaErrorModel),
    Chunking(ChunkOptionsError),
}

impl View for BuildError {
    type V = BuildErrorModel;

    open spec fn view(&self) -> BuildErrorModel {
        match self {
            BuildError::OtherDataset { wanted, found } => BuildErrorModel::OtherDataset {
                wanted: wanted@,
                found: found@,
            },
            BuildError::Line(e) => BuildErrorModel::Line(e@.0, e@.1),
            BuildError::Schema(e) => BuildErrorModel::Schema(e@),
            BuildError::Chunking(e) => BuildErrorModel::Chunking(*e),
        }
    }
}

impl BuildErrorModel {
    /// What is said of the error.
    pub open spec fn message(self) -> Seq<char> {
        match self {
            BuildErrorModel::OtherDataset { wanted, found } => "dataset id mismatch: CLI `"@
                + wanted + "` vs schema `"@ + found + "`"@,
            BuildErrorModel::Line(n, _) => "parse JSONL line "@ + text::decimal(n as nat),
            BuildErrorModel::Schema(e) => e.message(),
            BuildErrorModel::Chunking(e) => e.spec_message(),
        }
    }
}

impl BuildError {
    /// What is said of the error.
    pub fn message(&self) -> (r: String)
        ensures
            r@ == self@.message(),
    {
        match self {
            BuildError::OtherDataset { wanted, found } => {
                let mut out = "dataset id mismatch: CLI `".to_string();
                out.append(wanted.as_str());
                out.append("` vs schema `");
                out.append(found.as_str());
                out.append("`");
                out
            },
            BuildError::Line(e) => {
                let mut out = "parse JSONL line ".to_string();
                out.append(decimal_text(e.line).as_str());
                out
            },
            BuildError::Schema(e) => e.message(),
            BuildError::Chunking(e) => e.message(),
        }
    }
}

/// What is put into an index.
pub struct ContentModel {
    pub records: Seq<RecordModel>,
    pub chunks: Seq<ChunkModel>,
}

/// What is put into an index of a dataset: the records of the lines and their chunks, or the
/// first thing that is wrong.
pub open spec fn index_content(
    dataset_id: Seq<char>,
    chunk_options: ChunkOptions,
    schema: SchemaModel,
    lines: Seq<Seq<char>>,
) -> Result<ContentModel, BuildErrorModel> {
    if schema.dataset_id != dataset_id {
        Err(BuildErrorModel::OtherDataset { wanted: dataset_id, found: schema.dataset_id })
    } else {
        match jsonl(lines) {
            Err((n, cause)) => Err(BuildErrorModel::Line(n, cause)),
            Ok(docs) => match schema.validate() {
                Err(e) => Err(BuildErrorModel::Schema(e)),
                Ok(_) => match schema::prepared_all(schema, docs, Set::empty()) {
                    Err(e) => Err(BuildErrorModel::Schema(e)),
                    Ok(records) => match chunk_options.spec_validate() {
                        Err(e) => Err(BuildErrorModel::Chunking(e)),
                        Ok(_) => Ok(
                            ContentModel {
                                records,
                                chunks: chunking::all_chunks(records, chunk_options),
                            },
                        ),
                    },
                },
            },
        }
    }
}

/// The directory of a version of an index.
pub open spec fn version_location(
    indexes_root: Seq<StepModel>,
    dataset_id: Seq<char>,
    version: Seq<char>,
) -> Seq<StepModel> {
    shared_folder::named(
        shared_folder::named(shared_folder::named(indexes_root, dataset_id), "versions"@),
        version,
    )
}

/// The file that says which version of an index is current.
pub open spec fn current_location(
    indexes_root: Seq<StepModel>,
    dataset_id: Seq<char>,
) -> Seq<StepModel> {
    shared_folder::named(shared_folder::named(indexes_root, dataset_id), "current.json"@)
}

/// The file that says which version of an index is current.
pub fn current_path(indexes_root: &FilePath, dataset_id: &str) -> (r: FilePath)
    ensures
        r@ == current_location(indexes_root@, dataset_id@),
{
    indexes_root.join(dataset_id).join("current.json")
}

/// The files and directories of a version of an index.
#[derive(Debug, Clone, Copy, PartialEq, Eq)]
pub enum IndexFile {
    Schema,
    Database,
    Facets,
    TextIndex,
    Embedding,
    Vectors,
    Meta,
}

impl IndexFile {
    /// The name of the file.
    pub open spec fn spec_name(self) -> Seq<char> {
        match self {
            IndexFile::Schema => "schema.json"@,
            IndexFile::Database => "records.db"@,
            IndexFile::Facets => "filter_facets.json"@,
            IndexFile::TextIndex => "tantivy"@,
            IndexFile::Embedding => "embedding_config.json"@,
            IndexFile::Vectors => "hnsw"@,
            IndexFile::Meta => "build_meta.json"@,
        }
    }
}

/// Where a file of a version of an index is, given the version's directory.
pub open spec fn file_location(dir: Seq<StepModel>, file: IndexFile) -> Seq<StepModel> {
    shared_folder::named(dir, file.spec_name())
}

/// Where a file of a version of an index is, given the version's directory.
pub fn file_path(dir: &FilePath, file: IndexFile) -> (r: FilePath)
    ensures
        r@ == file_location(dir@, file),
{
    match file {
        IndexFile::Schema => dir.join("schema.json"),
        IndexFile::Database => dir.join("records.db"),
        IndexFile::Facets => dir.join("filter_facets.json"),
        IndexFile::TextIndex => dir.join("tantivy"),
        IndexFile::Embedding => dir.join("embedding_config.json"),
        IndexFile::Vectors => dir.join("hnsw"),
        IndexFile::Meta => dir.join("build_meta.json"),
    }
}

/// What is done to the file system when an index is built.
#[derive(Debug, Clone, PartialEq, Eq)]
pub enum BuildAction {
    /// Makes the directory and those above it.
    CreateDirs(FilePath),
    /// Copies the schema.
    CopySchema(FilePath, FilePath),
    /// Writes the record database.
    WriteDatabase(FilePath),
    /// Writes the facets.
    WriteFacets(FilePath),
    /// Makes the text index.
    WriteTextIndex(FilePath),
    /// Writes the configuration of the embedding model.
    WriteEmbedding(FilePath),
    /// Makes the vector index.
    WriteVectors(FilePath),
    /// Writes what the build was made of.
    WriteMeta(FilePath),
    /// Says that this version is current.
    WriteCurrent(FilePath),
}

/// What is done to the file system, without its representation.
pub enum BuildStep {
    CreateDirs(Seq<StepModel>),
    CopySchema(Seq<StepModel>, Seq<StepModel>),
    WriteDatabase(Seq<StepModel>),
    WriteFacets(Seq<StepModel>),
    WriteTextIndex(Seq<StepModel>),
    WriteEmbedding(Seq<StepModel>),
    WriteVectors(Seq<StepModel>),
    WriteMeta(Seq<StepModel>),
    WriteCurrent(Seq<StepModel>),
}

impl View for BuildAction {
    type V = BuildStep;

    open spec fn view(&self) -> BuildStep {
        match self {
            BuildAction::CreateDirs(p) => BuildStep::CreateDirs(p@),
            BuildAction::CopySchema(from, to) => BuildStep::CopySchema(from@, to@),
            BuildAction::WriteDatabase(p) => BuildStep::WriteDatabase(p@),
            BuildAction::WriteFacets(p) => BuildStep::WriteFacets(p@),
            BuildAction::WriteTextIndex(p) => BuildStep::WriteTextIndex(p@),
            BuildAction::WriteEmbedding(p) => BuildStep::WriteEmbedding(p@),
            BuildAction::WriteVectors(p) => BuildStep::WriteVectors(p@),
            BuildAction::WriteMeta(p) => BuildStep::WriteMeta(p@),
            BuildAction::WriteCurrent(p) => BuildStep::WriteCurrent(p@),
        }
    }
}

/// The views of a list of actions.
pub open spec fn build_steps(v: Seq<BuildAction>) -> Seq<BuildStep> {
    Seq::new(v.len(), |i: int| v[i]@)
}

/// What is done to the file system when an index is built, in its order.
pub open spec fn build_actions(
    schema_path: Seq<StepModel>,
    indexes_root: Seq<StepModel>,
    dataset_id: Seq<char>,
    version: Seq<char>,
    has_embedding: bool,
) -> Seq<BuildStep> {
    let dir = version_location(indexes_root, dataset_id, version);
    seq![
        BuildStep::CreateDirs(dir),
        BuildStep::CopySchema(schema_path, file_location(dir, IndexFile::Schema)),
        BuildStep::WriteDatabase(file_location(dir, IndexFile::Database)),
        BuildStep::WriteFacets(file_location(dir, IndexFile::Facets)),
        BuildStep::WriteTextIndex(file_location(dir, IndexFile::TextIndex)),
    ] + (if has_embedding {
        seq![
            BuildStep::WriteEmbedding(file_location(dir, IndexFile::Embedding)),
            BuildStep::WriteVectors(file_location(dir, IndexFile::Vectors)),
        ]
    } else {
        Seq::empty()
    }) + seq![
        BuildStep::WriteMeta(file_location(dir, IndexFile::Meta)),
        BuildStep::CreateDirs(shared_folder::named(indexes_root, dataset_id)),
        BuildStep::WriteCurrent(current_location(indexes_root, dataset_id)),
    ]
}

/// A version becomes current only when everything else of it is there: the last step says so,
/// and no other step does.
pub proof fn law_current_comes_last(
    schema_path: Seq<StepModel>,
    indexes_root: Seq<StepModel>,
    dataset_id: Seq<char>,
    version: Seq<char>,
    has_embedding: bool,
)
    ensures
        ({
            let steps = build_actions(
                schema_path,
                indexes_root,
                dataset_id,
                version,
                has_embedding,
            );
            &&& steps.len() > 0
            &&& steps.last() == BuildStep::WriteCurrent(current_location(indexes_root, dataset_id))
            &&& forall|i: int|
                0 <= i < steps.len() - 1 ==> !(#[trigger] steps[i] is WriteCurrent)
        }),
{
}

/// Two versions of an index, or the indexes of two datasets, have different directories.
pub proof fn law_versions_have_their_own_place(
    indexes_root: Seq<StepModel>,
    dataset_id: Seq<char>,
    version: Seq<char>,
    other_dataset: Seq<char>,
    other_version: Seq<char>,
)
    requires
        version_location(indexes_root, dataset_id, version) == version_location(
            indexes_root,
            other_dataset,
            other_version,
        ),
    ensures
        dataset_id == other_dataset,
        version == other_version,
{
    let a = version_location(indexes_root, dataset_id, version);
    let b = version_location(indexes_root, other_dataset, other_version);
    assert(a[indexes_root.len() as int] == b[indexes_root.len() as int]);
    assert(a.last() == b.last());
}

fn plan_actions(options: &BuildOptions, version: &str) -> (r: Vec<BuildAction>)
    ensures
        build_steps(r@) == build_actions(
            options.schema_path@,
            options.indexes_root@,
            options.dataset_id@,
            version@,
            options.embedding is Some,
        ),
{
    let home = options.indexes_root.join(options.dataset_id.as_str());
    let dir = home.join("versions").join(version);
    let mut out: Vec<BuildAction> = Vec::new();
    out.push(BuildAction::CreateDirs(dir.copy()));
    out.push(BuildAction::CopySchema(options.schema_path.copy(), file_path(&dir, IndexFile::Schema)));
    out.push(BuildAction::WriteDatabase(file_path(&dir, IndexFile::Database)));
    out.push(BuildAction::WriteFacets(file_path(&dir, IndexFile::Facets)));
    out.push(BuildAction::WriteTextIndex(file_path(&dir, IndexFile::TextIndex)));
    if options.embedding.is_some() {
        out.push(BuildAction::WriteEmbedding(file_path(&dir, IndexFile::Embedding)));
        out.push(BuildAction::WriteVectors(file_path(&dir, IndexFile::Vectors)));
    }
    out.push(BuildAction::WriteMeta(file_path(&dir, IndexFile::Meta)));
    out.push(BuildAction::CreateDirs(home.copy()));
    out.push(BuildAction::WriteCurrent(home.join("current.json")));
    assert(build_steps(out@) =~= build_actions(
        options.schema_path@,
        options.indexes_root@,
        options.dataset_id@,
        version@,
        options.embedding is Some,
    ));
    out
}

/// An index that is ready to be written: what is put into it, and what is done in which order.
#[derive(Debug, Clone)]
pub struct BuildPlan {
    pub version_dir: FilePath,
    pub records: Vec<PreparedRecord>,
    pub chunks: Vec<PreparedChunk>,
    pub facets: TextMap<Vec<FacetValue>>,
    pub meta: BuildMeta,
    pub actions: Vec<BuildAction>,
}

/// The name of what an index is searched with.
pub open spec fn engine_name(has_embedding: bool) -> Seq<char> {
    if has_embedding {
        "tantivy-lindera-bm25+hnsw-onnx-rrf"@
    } else {
        "tantivy-lindera-bm25"@
    }
}

/// Whether a plan is that of the options for the given content, version and time.
pub open spec fn is_plan(
    plan: BuildPlan,
    options: BuildOptions,
    content: ContentModel,
    version: Seq<char>,
    built_at: Seq<char>,
) -> bool {
    &&& schema::record_models(plan.records@) == content.records
    &&& chunking::chunk_models(plan.chunks@) == content.chunks
    &&& forall|i: int| 0 <= i < plan.records@.len() ==> (#[trigger] plan.records@[i]).wf()
    &&& plan.facets.wf()
    &&& forall|field: Seq<char>| #[trigger]
        facets::facets_at(plan.facets@, field) == (if facets::has_field(content.records, field) {
            Some(facets::facets_of(content.records, field))
        } else {
            None
        })
    &&& plan.version_dir@ == version_location(
        options.indexes_root@,
        options.dataset_id@,
        version,
    )
    &&& plan.meta@ == (MetaModel {
        dataset_id: options.dataset_id@,
        index_version: version,
        built_at,
        record_count: content.records.len() as int,
        chunk_count: content.chunks.len() as int,
        engine: engine_name(options.embedding is Some),
    })
    &&& build_steps(plan.actions@) == build_actions(
        options.schema_path@,
        options.indexes_root@,
        options.dataset_id@,
        version,
        options.embedding is Some,
    )
}

/// Whether a build keeps what it was given: there is a record for each document, in order, and
/// what is stored of it is read as the document that it was made of.
pub open spec fn keeps_documents(
    plan: BuildPlan,
    schema: SchemaModel,
    docs: Seq<Option<Seq<(Seq<char>, JsonModel)>>>,
) -> bool {
    &&& plan.records@.len() == docs.len()
    &&& forall|i: int|
        0 <= i < docs.len() ==> docs[i] is Some && schema::is_read_back(
            schema,
            docs[i]->0,
            (#[trigger] plan.records@[i])@,
        )
}

proof fn lemma_jsonl_numbers(lines: Seq<Seq<char>>)
    ensures
        jsonl(lines) matches Ok(docs) ==> forall|i: int|
            0 <= i < docs.len() ==> ((#[trigger] docs[i]) matches Some(fields)
                ==> json::has_read_numbers(fields)),
    decreases lines.len(),
{
    if lines.len() > 0 {
        lemma_jsonl_numbers(lines.drop_last());
        json::lemma_read_numbers(vstd::utf8::encode_utf8(lines.last()));
    }
}

/// The plan of an index of the given lines. `now` names the version where the options do not,
/// and `built_at` is written down as the time of the build.
pub fn build_index_at(
    options: &BuildOptions,
    schema: &DatasetSchema,
    lines: &Vec<String>,
    now: String,
    built_at: String,
) -> (r: Result<BuildPlan, BuildError>)
    requires
        schema.wf(),
    ensures
        match index_content(
            options.dataset_id@,
            options.chunking,
            schema@,
            text::texts(lines@),
        ) {
            Err(e) => r is Err && r->Err_0@ == e,
            Ok(content) => r is Ok && is_plan(
                r->Ok_0,
                *options,
                content,
                embedding::chosen(schema::optional_text(options.version), now@),
                built_at@,
            ),
        },
        r matches Ok(plan) ==> keeps_documents(
            plan,
            schema@,
            jsonl(text::texts(lines@))->Ok_0,
        ),
{
    if !same_text(schema.dataset_id.as_str(), options.dataset_id.as_str()) {
        return Err(
            BuildError::OtherDataset {
                wanted: options.dataset_id.clone(),
                found: schema.dataset_id.clone(),
            },
        );
    }
    let docs = match read_jsonl(lines) {
        Ok(v) => v,
        Err(e) => {
            return Err(BuildError::Line(e));
        },
    };
    let records = match schema.prepare_records(&docs) {
        Ok(v) => v,
        Err(e) => {
            return Err(BuildError::Schema(e));
        },
    };
    let chunks = match build_chunks(&records, &options.chunking) {
        Ok(v) => v,
        Err(e) => {
            return Err(BuildError::Chunking(e));
        },
    };
    let version = match &options.version {
        Some(v) => v.clone(),
        None => now,
    };
    let facets = write_facets(&records);
    let meta = BuildMeta {
        dataset_id: options.dataset_id.clone(),
        index_version: version.clone(),
        built_at,
        record_count: records.len(),
        chunk_count: chunks.len(),
        engine: if options.embedding.is_some() {
            "tantivy-lindera-bm25+hnsw-onnx-rrf".to_string()
        } else {
            "tantivy-lindera-bm25".to_string()
        },
    };
    let version_dir = options.indexes_root.join(options.dataset_id.as_str()).join("versions").join(
        version.as_str(),
    );
    let actions = plan_actions(options, version.as_str());
    proof {
        let parsed = jsonl(text::texts(lines@))->Ok_0;
        schema::law_prepared_records(schema@, parsed, Set::empty());
        lemma_jsonl_numbers(text::texts(lines@));
        assert forall|i: int| 0 <= i < parsed.len() implies parsed[i] is Some
            && schema::is_read_back(schema@, parsed[i]->0, (#[trigger] records@[i])@) by {
            assert(schema::is_acceptable(schema@, parsed[i]));
            assert(schema::record_models(records@)[i] == records@[i]@);
        }
        assert(schema::record_models(records@).len() == records@.len());
        assert(chunking::chunk_models(chunks@).len() == chunks@.len());
    }
    Ok(BuildPlan { version_dir, records, chunks, facets, meta, actions })
}

/// Whether a plan is that of the options for the given content, at some time. The version is
/// named by the time where the options do not name it.
pub open spec fn is_plan_of(plan: BuildPlan, options: BuildOptions, content: ContentModel) -> bool {
    &&& is_plan(plan, options, content, plan.meta.index_version@, plan.meta.built_at@)
    &&& match options.version {
        Some(v) => plan.meta.index_version@ == v@,
        None => clock::is_version_stamp(plan.meta.index_version@),
    }
    &&& clock::is_time_stamp(plan.meta.built_at@)
}

/// The plan of an index of the given lines. The version is named by the time where the options
/// do not name it.
pub fn build_index(options: &BuildOptions, schema: &DatasetSchema, lines: &Vec<String>) -> (r:
    Result<BuildPlan, BuildError>)
    requires
        schema.wf(),
    ensures
        match index_content(
            options.dataset_id@,
            options.chunking,
            schema@,
            text::texts(lines@),
        ) {
            Err(e) => r is Err && r->Err_0@ == e,
            Ok(content) => r is Ok && is_plan_of(r->Ok_0, *options, content),
        },
        r matches Ok(plan) ==> keeps_documents(
            plan,
            schema@,
            jsonl(text::texts(lines@))->Ok_0,
        ),
{
    build_index_at(options, schema, lines, version_stamp(), time_stamp())
}

/// What is put into an index can be stored under its ids: no two records have the same id, and
/// no two chunks do.
pub proof fn law_ids_are_unique(
    dataset_id: Seq<char>,
    chunk_options: ChunkOptions,
    schema: SchemaModel,
    lines: Seq<Seq<char>>,
)
    requires
        index_content(dataset_id, chunk_options, schema, lines) is Ok,
    ensures
        ({
            let content = index_content(dataset_id, chunk_options, schema, lines)->Ok_0;
            &&& forall|i: int, j: int|
                0 <= i < j < content.records.len() ==> (#[trigger] content.records[i]).record_id
                    != (#[trigger] content.records[j]).record_id
            &&& forall|i: int, j: int|
                0 <= i < j < content.chunks.len() ==> (#[trigger] content.chunks[i]).chunk_id != (
                #[trigger] content.chunks[j]).chunk_id
        }),
{
    let content = index_content(dataset_id, chunk_options, schema, lines)->Ok_0;
    schema::law_record_ids_differ(schema, jsonl(lines)->Ok_0);
    chunking::law_chunk_ids_differ(content.records, chunk_options);
}

/// Where the current version of an index is, and which one it is.
#[derive(Debug, Clone, PartialEq, Eq)]
pub struct CurrentIndex {
    pub path: String,
    pub index_version: String,
}

/// Why the current version of an index is not known.
#[derive(Debug, Clone, PartialEq, Eq)]
pub enum CurrentError {
    /// The file is no JSON, for the given reason.
    NotJson(String),
    /// The file names no directory.
    MissingPath,
}

/// Why the current version of an index is not known, without its representation.
pub enum CurrentErrorModel {
    NotJson(Seq<char>),
    MissingPath,
}

impl View for CurrentError {
    type V = CurrentErrorModel;

    open spec fn view(&self) -> CurrentErrorModel {
        match self {
            CurrentError::NotJson(cause) => CurrentErrorModel::NotJson(cause@),
            CurrentError::MissingPath => CurrentErrorModel::MissingPath,
        }
    }
}

impl CurrentErrorModel {
    /// What is said of the error.
    pub open spec fn message(self) -> Seq<char> {
        match self {
            CurrentErrorModel::NotJson(cause) => cause,
            CurrentErrorModel::MissingPath => "current.json missing path"@,
        }
    }
}

impl CurrentError {
    /// What is said of the error.
    pub fn message(&self) -> (r: String)
        ensures
            r@ == self@.message(),
    {
        match self {
            CurrentError::NotJson(cause) => cause.clone(),
            CurrentError::MissingPath => "current.json missing path".to_string(),
        }
    }
}

/// The text of a field, where it has one.
pub open spec fn text_field(
    doc: Option<Seq<(Seq<char>, JsonModel)>>,
    name: Seq<char>,
) -> Option<Seq<char>> {
    match doc {
        Some(fields) => match text_map::value_of(fields, name) {
            Some(JsonModel::Text(s)) => Some(s),
            _ => None,
        },
        None => None,
    }
}

/// Where the current version is and which one it is, by what the file says.
pub open spec fn current_of(
    doc: Result<Option<Seq<(Seq<char>, JsonModel)>>, Seq<char>>,
) -> Result<(Seq<char>, Seq<char>), CurrentErrorModel> {
    match doc {
        Err(cause) => Err(CurrentErrorModel::NotJson(cause)),
        Ok(d) => match text_field(d, "path"@) {
            None => Err(CurrentErrorModel::MissingPath),
            Some(path) => Ok((path, embedding::chosen(text_field(d, "index_version"@), "unknown"@))),
        },
    }
}

fn get_text(doc: &JsonDocument, name: &str) -> (r: Option<String>)
    requires
        doc.wf(),
    ensures
        schema::optional_text(r) == text_field(doc@, name@),
{
    match doc {
        JsonDocument::Object(fields) => match json::field_value(fields, name) {
            Some(JsonValue::Text(s)) => Some(s.clone()),
            _ => None,
        },
        JsonDocument::Other => None,
    }
}

/// Where the current version of an index is and which one it is, by the text of the file that
/// says so.
pub fn read_current(bytes: &[u8]) -> (r: Result<CurrentIndex, CurrentError>)
    ensures
        match current_of(json::json_outcome(bytes@)) {
            Ok((path, version)) => r is Ok && r->Ok_0.path@ == path && r->Ok_0.index_version@
                == version,
            Err(e) => r is Err && r->Err_0@ == e,
        },
{
    let doc = match parse_json(bytes) {
        Ok(d) => d,
        Err(cause) => {
            return Err(CurrentError::NotJson(cause));
        },
    };
    let path = match get_text(&doc, "path") {
        Some(s) => s,
        None => {
            return Err(CurrentError::MissingPath);
        },
    };
    let index_version = match get_text(&doc, "index_version") {
        Some(s) => s,
        None => "unknown".to_string(),
    };
    Ok(CurrentIndex { path, index_version })
}

/// What the file says of a version at the directory `path`.
pub open spec fn current_texts(
    dataset_id: Seq<char>,
    version: Seq<char>,
    path: Seq<char>,
) -> Seq<(Seq<char>, Seq<char>)> {
    seq![("dataset_id"@, dataset_id), ("index_version"@, version), ("path"@, path)]
}

proof fn lemma_current_names()
    ensures
        text::text_lt("dataset_id"@, "index_version"@),
        text::text_lt("index_version"@, "path"@),
        text::text_lt("dataset_id"@, "path"@),
{
    reveal_strlit("dataset_id");
    reveal_strlit("index_version");
    reveal_strlit("path");
}

/// The text of the file that says that a version of an index, at the directory `path`, is
/// current. Reading it gives back the version and the directory.
pub fn current_json(dataset_id: &str, version: &str, path: &str) -> (r: Vec<u8>)
    ensures
        r@ == json::json_pretty_text(current_texts(dataset_id@, version@, path@)),
        current_of(json::json_outcome(r@)) == Ok::<(Seq<char>, Seq<char>), CurrentErrorModel>(
            (path@, version@),
        ),
{
    let mut fields: Vec<(String, String)> = Vec::new();
    fields.push(("dataset_id".to_string(), dataset_id.to_string()));
    fields.push(("index_version".to_string(), version.to_string()));
    fields.push(("path".to_string(), path.to_string()));
    proof {
        let texts = current_texts(dataset_id@, version@, path@);
        assert(json::text_pairs(fields@) =~= texts);
        lemma_current_names();
        assert(text_map::is_ordered(texts));
        assert(json::is_plain(texts)) by {
            reveal_strlit("$serde_json::private::RawValue");
            reveal_strlit("dataset_id");
            text_map::lemma_put_all_ordered(texts);
            assert("dataset_id"@.len() != json::raw_name().len());
        }
        let values = json::text_values(texts);
        assert forall|i: int, j: int| 0 <= i < j < values.len() implies text::text_lt(
            (#[trigger] values[i]).0,
            (#[trigger] values[j]).0,
        ) by {
            assert(values[i].0 == texts[i].0 && values[j].0 == texts[j].0);
        }
        text_map::lemma_value_of(values, 1);
        text_map::lemma_value_of(values, 2);
    }
    pretty_json(&fields)
}

/// An index that can be searched.
#[derive(Debug, Clone)]
pub struct SearchIndex {
    pub dataset_id: String,
    pub index_version: String,
    pub root: FilePath,
    pub schema: DatasetSchema,
    pub embedding: Option<EmbeddingConfig>,
}

/// The current version of the index of a dataset, with the schema and the configuration of the
/// embedding model that were read from its directory.
pub fn load_current_index(
    dataset_id: &str,
    current: &CurrentIndex,
    schema: DatasetSchema,
    embedding: Option<EmbeddingConfig>,
) -> (r: SearchIndex)
    ensures
        r.dataset_id@ == dataset_id@,
        r.index_version@ == current.index_version@,
        r.root@ == seq![StepModel::Name(current.path@)],
        r.schema == schema,
        r.embedding == embedding,
{
    SearchIndex {
        dataset_id: dataset_id.to_string(),
        index_version: current.index_version.clone(),
        root: FilePath::from_text(current.path.as_str()),
        schema,
        embedding,
    }
}

/// The current version of the index of a dataset, with the configuration of its embedding
/// model, where it has one, changed.
pub fn load_current_index_with_embedding_override(
    dataset_id: &str,
    current: &CurrentIndex,
    schema: DatasetSchema,
    embedding: Option<EmbeddingConfig>,
    over: &EmbeddingConfigOverride,
) -> (r: SearchIndex)
    ensures
        r.dataset_id@ == dataset_id@,
        r.index_version@ == current.index_version@,
        r.root@ == seq![StepModel::Name(current.path@)],
        r.schema == schema,
        embedding::optional_config(r.embedding) == (match embedding {
            Some(cfg) => Some(over@.applied(cfg@)),
            None => None::<EmbeddingModel>,
        }),
{
    let changed = match embedding {
        Some(cfg) => {
            let mut cfg = cfg;
            over.apply_to(&mut cfg);
            Some(cfg)
        },
        None => None,
    };
    load_current_index(dataset_id, current, schema, changed)
}

impl SearchIndex {
    /// The schema is in order.
    pub open spec fn wf(&self) -> bool {
        self.schema.wf()
    }

    /// The terms of a query to highlight, given the tokens of the query.
    pub fn query_terms(&self, query: &str, tokens: &Vec<String>) -> (r: Vec<String>)
        ensures
            text::texts(r@) == snippet::query_terms(query@, text::texts(tokens@)),
    {
        normalize_query_terms(query, tokens)
    }

    /// The answer to a search, given the tokens of its query, its candidates, the pages of rows
    /// that were fetched for them, and the rows that were fetched for the words of the query.
    pub fn search(
        &self,
        req: &SearchRequest,
        tokens: &Vec<String>,
        candidates: &CandidateSearch,
        pages: &Vec<Vec<RecordRow>>,
        fallback: &Vec<RecordRow>,
    ) -> (r: Result<SearchResponse, ResultError>)
        requires
            candidates.wf(),
            results::can_have_fetched(results::page_models(pages@), *candidates, req@),
        ensures
            match results::listed_results(
                results::page_models(pages@),
                results::row_models(fallback@),
                *candidates,
                req@,
            ) {
                Ok(listed) => r is Ok && r->Ok_0@ == (SearchResponseModel {
                    request_id: req.request_id@,
                    dataset_id: self.dataset_id@,
                    index_version: self.index_version@,
                    query_terms: snippet::query_terms(req.query@, text::texts(tokens@)),
                    results: listed,
                }),
                Err(e) => r is Err && r->Err_0@ == e,
            },
    {
        let query_terms = self.query_terms(req.query.as_str(), tokens);
        let results = match list_results(pages, fallback, req, candidates) {
            Ok(v) => v,
            Err(e) => {
                return Err(e);
            },
        };
        Ok(
            SearchResponse {
                request_id: req.request_id.clone(),
                dataset_id: self.dataset_id.clone(),
                index_version: self.index_version.clone(),
                query_terms,
                results,
            },
        )
    }

    /// What the dataset is, given the facets that were read from its directory, if any.
    pub fn describe(&self, request_id: String, facets: Option<TextMap<Vec<FacetValue>>>) -> (r:
        DatasetDescription)
        requires
            self.wf(),
        ensures
            r.request_id == request_id,
            r.dataset_id@ == self.dataset_id@,
            r.index_version@ == self.index_version@,
            r.schema@ == self.schema@,
            match facets {
                Some(f) => r.facets == f,
                None => r.facets@.len() == 0,
            },
    {
        DatasetDescription {
            request_id,
            dataset_id: self.dataset_id.clone(),
            index_version: self.index_version.clone(),
            schema: self.schema.copy(),
            facets: match facets {
                Some(f) => f,
                None => TextMap::new(),
            },
        }
    }
}

/// How many of the first `n` lines are not blank.
pub open spec fn full_lines(lines: Seq<Seq<char>>, n: int) -> int
    decreases n,
{
    if n <= 0 {
        0
    } else {
        full_lines(lines, n - 1) + (if text::is_blank(lines[n - 1]) {
            0int
        } else {
            1int
        })
    }
}

/// Every line that is not blank is one document, in the order of the lines, and no other line is:
/// there are as many documents as such lines, and the one of a line has as many before it as there
/// are such lines before.
pub proof fn law_lines_are_documents(lines: Seq<Seq<char>>)
    requires
        jsonl(lines) is Ok,
    ensures
        jsonl(lines)->Ok_0.len() == full_lines(lines, lines.len() as int),
        forall|i: int|
            0 <= i < lines.len() && !text::is_blank(#[trigger] lines[i]) ==> {
                let k = full_lines(lines, i);
                &&& 0 <= k < jsonl(lines)->Ok_0.len()
                &&& json::json_outcome(vstd::utf8::encode_utf8(lines[i])) == Ok::<
                    Option<Seq<(Seq<char>, JsonModel)>>,
                    Seq<char>,
                >(jsonl(lines)->Ok_0[k])
            },
    decreases lines.len(),
{
    if lines.len() > 0 {
        let shorter = lines.drop_last();
        let last = lines.len() - 1;
        law_lines_are_documents(shorter);
        lemma_full_lines(lines, shorter, last);
        let before = jsonl(shorter)->Ok_0;
        let docs = jsonl(lines)->Ok_0;
        assert forall|i: int| 0 <= i < lines.len() && !text::is_blank(#[trigger] lines[i]) implies {
            let k = full_lines(lines, i);
            &&& 0 <= k < docs.len()
            &&& json::json_outcome(vstd::utf8::encode_utf8(lines[i])) == Ok::<
                Option<Seq<(Seq<char>, JsonModel)>>,
                Seq<char>,
            >(docs[k])
        } by {
            lemma_full_lines(lines, shorter, i);
            if i < last {
                assert(shorter[i] == lines[i]);
                assert(docs[full_lines(lines, i)] == before[full_lines(shorter, i)]);
            }
        }
    }
}

proof fn lemma_full_lines(lines: Seq<Seq<char>>, shorter: Seq<Seq<char>>, n: int)
    requires
        n <= shorter.len() <= lines.len(),
        shorter == lines.take(shorter.len() as int),
    ensures
        full_lines(lines, n) == full_lines(shorter, n),
    decreases n,
{
    if n > 0 {
        lemma_full_lines(lines, shorter, n - 1);
        assert(shorter[n - 1] == lines[n - 1]);
    }
}

/// An index is built exactly where the dataset is that of the schema, every line is blank or JSON,
/// the schema is in order, every document is as the schema asks, and the options for chunks can be
/// used. It then has one record for each line that is not blank, and the chunks of these records. What
/// is wrong is told in that order.
pub proof fn law_content(
    dataset_id: Seq<char>,
    chunk_options: ChunkOptions,
    schema: SchemaModel,
    lines: Seq<Seq<char>>,
)
    ensures
        index_content(dataset_id, chunk_options, schema, lines) is Ok <==> {
            &&& schema.dataset_id == dataset_id
            &&& jsonl(lines) is Ok
            &&& !text::is_blank(schema.dataset_id)
            &&& !text::is_blank(schema.primary_key)
            &&& schema.text_fields.len() > 0
            &&& schema::prepared_all(schema, jsonl(lines)->Ok_0, Set::empty()) is Ok
            &&& chunk_options.mode == chunking::ChunkMode::Whole || chunk_options.overlap
                < chunk_options.size
        },
        schema.dataset_id != dataset_id ==> index_content(
            dataset_id,
            chunk_options,
            schema,
            lines,
        ) == Err::<ContentModel, BuildErrorModel>(
            BuildErrorModel::OtherDataset { wanted: dataset_id, found: schema.dataset_id },
        ),
        schema.dataset_id == dataset_id && jsonl(lines) is Err ==> index_content(
            dataset_id,
            chunk_options,
            schema,
            lines,
        ) == Err::<ContentModel, BuildErrorModel>(
            BuildErrorModel::Line(jsonl(lines)->Err_0.0, jsonl(lines)->Err_0.1),
        ),
        schema.dataset_id == dataset_id && jsonl(lines) is Ok && schema.validate() is Err
            ==> index_content(dataset_id, chunk_options, schema, lines) == Err::<
            ContentModel,
            BuildErrorModel,
        >(BuildErrorModel::Schema(schema.validate()->Err_0)),
        schema.dataset_id == dataset_id && jsonl(lines) is Ok && schema.validate() is Ok
            && schema::prepared_all(schema, jsonl(lines)->Ok_0, Set::empty()) is Err
            ==> index_content(dataset_id, chunk_options, schema, lines) == Err::<
            ContentModel,
            BuildErrorModel,
        >(
            BuildErrorModel::Schema(
                schema::prepared_all(schema, jsonl(lines)->Ok_0, Set::empty())->Err_0,
            ),
        ),
        index_content(dataset_id, chunk_options, schema, lines) matches Ok(content) ==> {
            &&& content.records.len() == full_lines(lines, lines.len() as int)
            &&& content.chunks == chunking::all_chunks(content.records, chunk_options)
        },
{
    if index_content(dataset_id, chunk_options, schema, lines) is Ok {
        law_lines_are_documents(lines);
        schema::law_prepared_records(schema, jsonl(lines)->Ok_0, Set::empty());
    }
}

/// Everything of a version is written below its own directory, which is made first: the schema, the
/// records, the facets, the text index and what was built, and the vectors with their model exactly
/// where there is one.
pub proof fn law_build_places(
    schema_path: Seq<StepModel>,
    indexes_root: Seq<StepModel>,
    dataset_id: Seq<char>,
    version: Seq<char>,
    has_embedding: bool,
)
    ensures
        ({
            let steps = build_actions(
                schema_path,
                indexes_root,
                dataset_id,
                version,
                has_embedding,
            );
            let dir = indexes_root + seq![
                StepModel::Name(dataset_id),
                StepModel::Name("versions"@),
                StepModel::Name(version),
            ];
            &&& steps[0] == BuildStep::CreateDirs(dir)
            &&& steps.contains(
                BuildStep::CopySchema(schema_path, dir.push(StepModel::Name("schema.json"@))),
            )
            &&& steps.contains(BuildStep::WriteDatabase(dir.push(StepModel::Name("records.db"@))))
            &&& steps.contains(
                BuildStep::WriteFacets(dir.push(StepModel::Name("filter_facets.json"@))),
            )
            &&& steps.contains(BuildStep::WriteTextIndex(dir.push(StepModel::Name("tantivy"@))))
            &&& steps.contains(BuildStep::WriteMeta(dir.push(StepModel::Name("build_meta.json"@))))
            &&& steps.contains(
                BuildStep::WriteCurrent(
                    indexes_root + seq![
                        StepModel::Name(dataset_id),
                        StepModel::Name("current.json"@),
                    ],
                ),
            )
            &&& has_embedding <==> steps.contains(
                BuildStep::WriteEmbedding(dir.push(StepModel::Name("embedding_config.json"@))),
            )
            &&& has_embedding <==> steps.contains(
                BuildStep::WriteVectors(dir.push(StepModel::Name("hnsw"@))),
            )
            &&& steps.len() == if has_embedding {
                10int
            } else {
                8int
            }
        }),
{
    let steps = build_actions(schema_path, indexes_root, dataset_id, version, has_embedding);
    let dir = version_location(indexes_root, dataset_id, version);
    assert(dir =~= indexes_root + seq![
        StepModel::Name(dataset_id),
        StepModel::Name("versions"@),
        StepModel::Name(version),
    ]);
    assert(current_location(indexes_root, dataset_id) =~= indexes_root + seq![
        StepModel::Name(dataset_id),
        StepModel::Name("current.json"@),
    ]);
    let n = steps.len() as int;
    assert(steps[1] == BuildStep::CopySchema(
        schema_path,
        dir.push(StepModel::Name("schema.json"@)),
    ));
    assert(steps[2] == BuildStep::WriteDatabase(dir.push(StepModel::Name("records.db"@))));
    assert(steps[3] == BuildStep::WriteFacets(dir.push(StepModel::Name("filter_facets.json"@))));
    assert(steps[4] == BuildStep::WriteTextIndex(dir.push(StepModel::Name("tantivy"@))));
    assert(steps[n - 3] == BuildStep::WriteMeta(dir.push(StepModel::Name("build_meta.json"@))));
    assert(steps[n - 1] == BuildStep::WriteCurrent(current_location(indexes_root, dataset_id)));
    if has_embedding {
        assert(steps[5] == BuildStep::WriteEmbedding(
            dir.push(StepModel::Name("embedding_config.json"@)),
        ));
        assert(steps[6] == BuildStep::WriteVectors(dir.push(StepModel::Name("hnsw"@))));
    } else {
        assert forall|i: int| 0 <= i < steps.len() implies !(#[trigger] steps[i] is WriteEmbedding)
            && !(steps[i] is WriteVectors) by {}
    }
}

/// The file that says which version is current is read by its two texts: the directory, without
/// which it says nothing, and the name of the version, which is unknown where it is not given.
pub proof fn law_current_is_read(
    fields: Seq<(Seq<char>, JsonModel)>,
    path: Seq<char>,
    version: Seq<char>,
    cause: Seq<char>,
)
    ensures
        text_map::value_of(fields, "path"@) == Some(JsonModel::Text(path)) && text_map::value_of(
            fields,
            "index_version"@,
        ) == Some(JsonModel::Text(version)) ==> current_of(Ok(Some(fields))) == Ok::<
            (Seq<char>, Seq<char>),
            CurrentErrorModel,
        >((path, version)),
        text_map::value_of(fields, "path"@) == Some(JsonModel::Text(path)) && text_map::value_of(
            fields,
            "index_version"@,
        ) is None ==> current_of(Ok(Some(fields))) == Ok::<
            (Seq<char>, Seq<char>),
            CurrentErrorModel,
        >((path, "unknown"@)),
        !(text_map::value_of(fields, "path"@) matches Some(JsonModel::Text(_))) ==> current_of(
            Ok(Some(fields)),
        ) == Err::<(Seq<char>, Seq<char>), CurrentErrorModel>(CurrentErrorModel::MissingPath),
        current_of(Ok(None)) == Err::<(Seq<char>, Seq<char>), CurrentErrorModel>(
            CurrentErrorModel::MissingPath,
        ),
        current_of(Err(cause)) == Err::<(Seq<char>, Seq<char>), CurrentErrorModel>(
            CurrentErrorModel::NotJson(cause),
        ),
{
}

/// What is said of a version that was built is true of it: which dataset and version it is, how many
/// records and chunks it has, and whether it has vectors beside its texts.
pub proof fn law_what_was_built(plan: BuildPlan, options: BuildOptions, content: ContentModel)
    requires
        is_plan_of(plan, options, content),
    ensures
        plan.meta.dataset_id@ == options.dataset_id@,
        plan.meta.record_count == plan.records@.len(),
        plan.meta.chunk_count == plan.chunks@.len(),
        plan.records@.len() == content.records.len(),
        options.embedding is Some <==> plan.meta.engine@ == "tantivy-lindera-bm25+hnsw-onnx-rrf"@,
        options.embedding is None <==> plan.meta.engine@ == "tantivy-lindera-bm25"@,
        options.version matches Some(v) ==> plan.meta.index_version@ == v@,
        plan.version_dir@ == options.indexes_root@ + seq![
            StepModel::Name(options.dataset_id@),
            StepModel::Name("versions"@),
            StepModel::Name(plan.meta.index_version@),
        ],
{
    reveal_strlit("tantivy-lindera-bm25+hnsw-onnx-rrf");
    reveal_strlit("tantivy-lindera-bm25");
    assert("tantivy-lindera-bm25+hnsw-onnx-rrf"@.len() != "tantivy-lindera-bm25"@.len());
    assert(plan.meta@.engine == engine_name(options.embedding is Some));
    assert(schema::record_models(plan.records@).len() == content.records.len());
    assert(chunking::chunk_models(plan.chunks@).len() == content.chunks.len());
    assert(plan.version_dir@ =~= options.indexes_root@ + seq![
        StepModel::Name(options.dataset_id@),
        StepModel::Name("versions"@),
        StepModel::Name(plan.meta.index_version@),
    ]);
}

/// The file that says which version is current says of which dataset, which version and where.
pub proof fn law_current_texts(dataset_id: Seq<char>, version: Seq<char>, path: Seq<char>)
    ensures
        current_texts(dataset_id, version, path).len() == 3,
        current_texts(dataset_id, version, path).contains(("dataset_id"@, dataset_id)),
        current_texts(dataset_id, version, path).contains(("index_version"@, version)),
        current_texts(dataset_id, version, path).contains(("path"@, path)),
{
    let all = current_texts(dataset_id, version, path);
    assert(all[0] == ("dataset_id"@, dataset_id));
    assert(all[1] == ("index_version"@, version));
    assert(all[2] == ("path"@, path));
}

} // verus!
