//! What clients and the server say to each other.
use vstd::prelude::*;
use vstd::string::*;

use crate::json::{JsonModel, JsonValue};
use crate::order::Score;
use crate::schema::{DatasetSchema, SchemaModel};
use crate::text;
use crate::text_map::TextMap;

verus! {

/// What a client asks for.
#[derive(Debug, Clone)]
pub enum Request {
    Search(SearchRequest),
    DescribeDataset(DescribeDatasetRequest),
}

/// Asks for the records of a dataset that match a query.
#[derive(Debug, Clone)]
pub struct SearchRequest {
    pub request_id: String,
    pub client_id: String,
    pub dataset_id: String,
    pub query: String,
    pub top_k: usize,
    pub filters: TextMap<FilterExpr>,
    pub search_mode: SearchMode,
    pub result_granularity: ResultGranularity,
}

/// Which indexes a search goes through.
#[derive(Debug, Clone, Copy, PartialEq, Eq, Structural)]
pub enum SearchMode {
    Hybrid,
    Bm25,
    Vector,
}

impl Default for SearchMode {
    fn default() -> (r: Self)
        ensures
            r == SearchMode::Hybrid,
    {
        SearchMode::Hybrid
    }
}

/// Whether a search lists records or chunks of records.
#[derive(Debug, Clone, Copy, PartialEq, Eq, Structural)]
pub enum ResultGranularity {
    Document,
    Chunk,
}

impl Default for ResultGranularity {
    fn default() -> (r: Self)
        ensures
            r == ResultGranularity::Document,
    {
        ResultGranularity::Document
    }
}

/// Asks what a dataset is.
#[derive(Debug, Clone)]
pub struct DescribeDatasetRequest {
    pub request_id: String,
    pub client_id: String,
    pub dataset_id: String,
}

/// What a filter field of a record has to be.
#[derive(Debug, Clone)]
pub enum FilterExpr {
    /// The given value.
    Eq { eq: JsonValue },
    /// One of the given values; any value where none is given.
    In { any_of: Vec<JsonValue> },
    /// Within the given bounds.
    Range { gte: Option<JsonValue>, lte: Option<JsonValue> },
}

/// What the server answers.
#[derive(Debug, Clone)]
pub enum Response {
    Success(ResponseOk),
    Error(ResponseError),
}

/// The answer to a request that could be served.
#[derive(Debug, Clone)]
pub enum ResponseOk {
    Search(SearchResponse),
    Dataset(DatasetDescription),
}

/// The records that a search found.
#[derive(Debug, Clone)]
pub struct SearchResponse {
    pub request_id: String,
    pub dataset_id: String,
    pub index_version: String,
    pub query_terms: Vec<String>,
    pub results: Vec<SearchResult>,
}

/// A record, or a chunk of a record, that a search found. `display` and `payload` are JSON.
#[derive(Debug, Clone)]
pub struct SearchResult {
    pub result_id: String,
    pub record_id: String,
    pub score: Score,
    pub display: String,
    pub snippet: String,
    pub matched_chunk: Option<MatchedChunk>,
    pub scores: ScoreBreakdown,
    pub payload: String,
}

/// How a result came by its score.
#[derive(Debug, Clone, Copy, PartialEq, Eq)]
pub struct ScoreBreakdown {
    pub final_score: Score,
    pub bm25_rank: Option<usize>,
    pub vector_rank: Option<usize>,
    pub vector_score: Option<Score>,
}

impl Default for ScoreBreakdown {
    fn default() -> (r: Self)
        ensures
            r.final_score.bits == 0,
            r.bm25_rank is None,
            r.vector_rank is None,
            r.vector_score is None,
    {
        ScoreBreakdown {
            final_score: Score::zero(),
            bm25_rank: None,
            vector_rank: None,
            vector_score: None,
        }
    }
}

/// A chunk of a record that is close to the query.
#[derive(Debug, Clone)]
pub struct MatchedChunk {
    pub chunk_id: String,
    pub chunk_index: usize,
    pub score: Score,
    pub text: String,
}

/// What a dataset is, and which values its filter fields have.
#[derive(Debug, Clone)]
pub struct DatasetDescription {
    pub request_id: String,
    pub dataset_id: String,
    pub index_version: String,
    pub schema: DatasetSchema,
    pub facets: TextMap<Vec<FacetValue>>,
}

/// A value of a filter field, and how many records have it.
#[derive(Debug, Clone)]
pub struct FacetValue {
    pub value: JsonValue,
    pub count: u64,
}

/// Why a request could not be served.
#[derive(Debug, Clone)]
pub struct ResponseError {
    pub request_id: String,
    pub message: String,
}

/// How many results a search lists where the client does not say.
pub fn default_top_k() -> (r: usize)
    ensures
        r == 20,
{
    20
}

/// What a filter field of a record has to be, without its representation.
pub enum ExprModel {
    Eq(JsonModel),
    In(Seq<JsonModel>),
    Range(Option<JsonModel>, Option<JsonModel>),
}

/// The views of a list of JSON values.
pub open spec fn value_models(v: Seq<JsonValue>) -> Seq<JsonModel> {
    Seq::new(v.len(), |i: int| v[i]@)
}

/// The view of an optional JSON value.
pub open spec fn optional_value(v: Option<JsonValue>) -> Option<JsonModel> {
    match v {
        Some(x) => Some(x@),
        None => None,
    }
}

impl View for FilterExpr {
    type V = ExprModel;

    open spec fn view(&self) -> ExprModel {
        match self {
            FilterExpr::Eq { eq } => ExprModel::Eq(eq@),
            FilterExpr::In { any_of } => ExprModel::In(value_models(any_of@)),
            FilterExpr::Range { gte, lte } => ExprModel::Range(
                optional_value(*gte),
                optional_value(*lte),
            ),
        }
    }
}

/// The names and conditions of filters.
pub open spec fn filter_exprs(s: Seq<(Seq<char>, FilterExpr)>) -> Seq<(Seq<char>, ExprModel)> {
    Seq::new(s.len(), |i: int| (s[i].0, s[i].1@))
}

/// A search request without its representation.
pub struct SearchModel {
    pub request_id: Seq<char>,
    pub client_id: Seq<char>,
    pub dataset_id: Seq<char>,
    pub query: Seq<char>,
    pub top_k: int,
    pub filters: Seq<(Seq<char>, ExprModel)>,
    pub search_mode: SearchMode,
    pub result_granularity: ResultGranularity,
}

impl View for SearchRequest {
    type V = SearchModel;

    open spec fn view(&self) -> SearchModel {
        SearchModel {
            request_id: self.request_id@,
            client_id: self.client_id@,
            dataset_id: self.dataset_id@,
            query: self.query@,
            top_k: self.top_k as int,
            filters: filter_exprs(self.filters@),
            search_mode: self.search_mode,
            result_granularity: self.result_granularity,
        }
    }
}

/// A request without its representation.
pub enum RequestModel {
    Search(SearchModel),
    DescribeDataset { request_id: Seq<char>, client_id: Seq<char>, dataset_id: Seq<char> },
}

impl View for Request {
    type V = RequestModel;

    open spec fn view(&self) -> RequestModel {
        match self {
            Request::Search(req) => RequestModel::Search(req@),
            Request::DescribeDataset(req) => RequestModel::DescribeDataset {
                request_id: req.request_id@,
                client_id: req.client_id@,
                dataset_id: req.dataset_id@,
            },
        }
    }
}

impl RequestModel {
    /// Which request it is.
    pub open spec fn id(self) -> Seq<char> {
        match self {
            RequestModel::Search(req) => req.request_id,
            RequestModel::DescribeDataset { request_id, .. } => request_id,
        }
    }

    /// Who asks.
    pub open spec fn client(self) -> Seq<char> {
        match self {
            RequestModel::Search(req) => req.client_id,
            RequestModel::DescribeDataset { client_id, .. } => client_id,
        }
    }
}

/// A matched chunk without its representation.
pub struct MatchModel {
    pub chunk_id: Seq<char>,
    pub chunk_index: usize,
    pub score: Score,
    pub text: Seq<char>,
}

impl View for MatchedChunk {
    type V = MatchModel;

    open spec fn view(&self) -> MatchModel {
        MatchModel {
            chunk_id: self.chunk_id@,
            chunk_index: self.chunk_index,
            score: self.score,
            text: self.text@,
        }
    }
}

impl MatchedChunk {
    /// A chunk equal to this one.
    pub fn copy(&self) -> (r: MatchedChunk)
        ensures
            r == *self,
    {
        MatchedChunk {
            chunk_id: self.chunk_id.clone(),
            chunk_index: self.chunk_index,
            score: self.score,
            text: self.text.clone(),
        }
    }
}

/// The view of an optional matched chunk.
pub open spec fn optional_match(m: Option<MatchedChunk>) -> Option<MatchModel> {
    match m {
        Some(x) => Some(x@),
        None => None,
    }
}

/// A result without its representation.
pub struct ResultModel {
    pub result_id: Seq<char>,
    pub record_id: Seq<char>,
    pub score: Score,
    pub display: Seq<char>,
    pub snippet: Seq<char>,
    pub matched_chunk: Option<MatchModel>,
    pub scores: ScoreBreakdown,
    pub payload: Seq<char>,
}

impl View for SearchResult {
    type V = ResultModel;

    open spec fn view(&self) -> ResultModel {
        ResultModel {
            result_id: self.result_id@,
            record_id: self.record_id@,
            score: self.score,
            display: self.display@,
            snippet: self.snippet@,
            matched_chunk: optional_match(self.matched_chunk),
            scores: self.scores,
            payload: self.payload@,
        }
    }
}

impl SearchResult {
    /// A result equal to this one.
    pub fn copy(&self) -> (r: SearchResult)
        ensures
            r == *self,
    {
        SearchResult {
            result_id: self.result_id.clone(),
            record_id: self.record_id.clone(),
            score: self.score,
            display: self.display.clone(),
            snippet: self.snippet.clone(),
            matched_chunk: match &self.matched_chunk {
                Some(chunk) => Some(chunk.copy()),
                None => None,
            },
            scores: self.scores,
            payload: self.payload.clone(),
        }
    }
}

/// The views of a list of results.
pub open spec fn result_models(v: Seq<SearchResult>) -> Seq<ResultModel> {
    Seq::new(v.len(), |i: int| v[i]@)
}

/// The answer to a search without its representation.
pub struct SearchResponseModel {
    pub request_id: Seq<char>,
    pub dataset_id: Seq<char>,
    pub index_version: Seq<char>,
    pub query_terms: Seq<Seq<char>>,
    pub results: Seq<ResultModel>,
}

impl View for SearchResponse {
    type V = SearchResponseModel;

    open spec fn view(&self) -> SearchResponseModel {
        SearchResponseModel {
            request_id: self.request_id@,
            dataset_id: self.dataset_id@,
            index_version: self.index_version@,
            query_terms: text::texts(self.query_terms@),
            results: result_models(self.results@),
        }
    }
}

/// A facet value without its representation.
pub struct FacetModel {
    pub value: JsonModel,
    pub count: int,
}

impl View for FacetValue {
    type V = FacetModel;

    open spec fn view(&self) -> FacetModel {
        FacetModel { value: self.value@, count: self.count as int }
    }
}

/// The views of a list of facet values.
pub open spec fn facet_models(v: Seq<FacetValue>) -> Seq<FacetModel> {
    Seq::new(v.len(), |i: int| v[i]@)
}

/// The fields of facets and their values.
pub open spec fn facet_fields(
    s: Seq<(Seq<char>, Vec<FacetValue>)>,
) -> Seq<(Seq<char>, Seq<FacetModel>)> {
    Seq::new(s.len(), |i: int| (s[i].0, facet_models(s[i].1@)))
}

/// The description of a dataset without its representation.
pub struct DescriptionModel {
    pub request_id: Seq<char>,
    pub dataset_id: Seq<char>,
    pub index_version: Seq<char>,
    pub schema: SchemaModel,
    pub facets: Seq<(Seq<char>, Seq<FacetModel>)>,
}

impl View for DatasetDescription {
    type V = DescriptionModel;

    open spec fn view(&self) -> DescriptionModel {
        DescriptionModel {
            request_id: self.request_id@,
            dataset_id: self.dataset_id@,
            index_version: self.index_version@,
            schema: self.schema@,
            facets: facet_fields(self.facets@),
        }
    }
}

/// An answer without its representation.
pub enum ResponseModel {
    Search(SearchResponseModel),
    Dataset(DescriptionModel),
    Error { request_id: Seq<char>, message: Seq<char> },
}

impl View for Response {
    type V = ResponseModel;

    open spec fn view(&self) -> ResponseModel {
        match self {
            Response::Success(ResponseOk::Search(found)) => ResponseModel::Search(found@),
            Response::Success(ResponseOk::Dataset(dataset)) => ResponseModel::Dataset(dataset@),
            Response::Error(error) => ResponseModel::Error {
                request_id: error.request_id@,
                message: error.message@,
            },
        }
    }
}

} // verus!
