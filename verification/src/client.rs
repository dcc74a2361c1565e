//! The decisions of the client that offers the search in a browser.
use vstd::prelude::*;
use vstd::string::*;

use crate::config;
use crate::config::SharedSearchConfig;
use crate::embedding;
use crate::protocol;
use crate::protocol::{
    DescribeDatasetRequest, FilterExpr, Request, RequestModel, Response, ResponseError,
    ResponseModel, ResultGranularity, SearchMode, SearchModel, SearchRequest,
};
use crate::schema;
use crate::server;
use crate::server::settle_path;
use crate::shared_folder;
use crate::shared_folder::{request_path, response_path, FilePath, StepModel};
use crate::text::concat_text;
use crate::text_map::TextMap;

verus! {

/// What the client is told when it is started.
#[derive(Debug, Clone)]
pub struct ClientArgs {
    pub shared_root: Option<FilePath>,
    pub dataset: Option<String>,
    pub no_open: Option<bool>,
    pub keep_responses: Option<bool>,
}

/// How the client runs.
#[derive(Debug, Clone)]
pub struct ClientSettings {
    pub shared_root: FilePath,
    pub dataset: String,
    pub no_open: bool,
    pub keep_responses: bool,
    pub default_top_k: usize,
    pub request_timeout_secs: u64,
    pub browser_shutdown_secs: u64,
    pub search_poll_interval_ms: u64,
    pub client_port: u16,
}

/// Why the client does not run, or why it has no answer.
#[derive(Debug, Clone, Copy, PartialEq, Eq)]
pub enum ClientError {
    /// No dataset is given.
    MissingDataset,
    /// The server did not answer in time.
    Timeout,
}

impl ClientError {
    /// What is said of the error.
    pub open spec fn spec_message(self) -> Seq<char> {
        match self {
            ClientError::MissingDataset =>
                "dataset is required; set --dataset or shared-search.toml dataset_id"@,
            ClientError::Timeout => "timeout waiting for server response"@,
        }
    }

    /// What is said of the error.
    pub fn message(&self) -> (r: String)
        ensures
            r@ == self.spec_message(),
    {
        match self {
            ClientError::MissingDataset =>
                "dataset is required; set --dataset or shared-search.toml dataset_id".to_string(),
            ClientError::Timeout => "timeout waiting for server response".to_string(),
        }
    }
}

fn settle_flag(told: Option<bool>, configured: Option<bool>) -> (r: bool)
    ensures
        r == server::settled(told, configured, false),
{
    match told {
        Some(v) => v,
        None => match configured {
            Some(v) => v,
            None => false,
        },
    }
}

fn number_or(value: Option<u64>, otherwise: u64) -> (r: u64)
    ensures
        r == embedding::chosen(value, otherwise),
{
    match value {
        Some(v) => v,
        None => otherwise,
    }
}

/// How the client runs: as it is told, else as it is configured, else as it always does. A
/// dataset has to be given.
pub fn resolve_client_args(args: ClientArgs, config: SharedSearchConfig) -> (r: Result<
    ClientSettings,
    ClientError,
>)
    ensures
        match config::first_given(
            schema::optional_text(args.dataset),
            config@.chosen_dataset(),
        ) {
            None => r == Err::<ClientSettings, ClientError>(ClientError::MissingDataset),
            Some(dataset) => {
                &&& r is Ok
                &&& r->Ok_0.dataset@ == dataset
                &&& r->Ok_0.shared_root@ == server::settled(
                    shared_folder::optional_path(args.shared_root),
                    config@.shared_root,
                    seq![StepModel::Name("shared_demo"@)],
                )
                &&& r->Ok_0.no_open == server::settled(args.no_open, config.no_open, false)
                &&& r->Ok_0.keep_responses == server::settled(
                    args.keep_responses,
                    config.keep_responses,
                    false,
                )
                &&& r->Ok_0.default_top_k == embedding::chosen(config.default_top_k, 20)
                &&& r->Ok_0.request_timeout_secs == embedding::chosen(
                    config.request_timeout_secs,
                    60,
                )
                &&& r->Ok_0.browser_shutdown_secs == embedding::chosen(
                    config.browser_shutdown_secs,
                    30,
                )
                &&& r->Ok_0.search_poll_interval_ms == embedding::chosen(
                    config.search_poll_interval_ms,
                    300,
                )
                &&& r->Ok_0.client_port == embedding::chosen(config.client_port, 0)
            },
        },
{
    let dataset = match args.dataset {
        Some(d) => d,
        None => match config.dataset_id() {
            Some(d) => d,
            None => {
                return Err(ClientError::MissingDataset);
            },
        },
    };
    Ok(
        ClientSettings {
            shared_root: settle_path(args.shared_root, config.shared_root, "shared_demo"),
            dataset,
            no_open: settle_flag(args.no_open, config.no_open),
            keep_responses: settle_flag(args.keep_responses, config.keep_responses),
            default_top_k: match config.default_top_k {
                Some(v) => v,
                None => 20,
            },
            request_timeout_secs: number_or(config.request_timeout_secs, 60),
            browser_shutdown_secs: number_or(config.browser_shutdown_secs, 30),
            search_poll_interval_ms: number_or(config.search_poll_interval_ms, 300),
            client_port: match config.client_port {
                Some(v) => v,
                None => 0,
            },
        },
    )
}

/// Whether a character can stand in a fresh id.
pub open spec fn is_id_char(c: char) -> bool {
    ('0' <= c && c <= '9') || ('a' <= c && c <= 'f') || c == '-'
}

/// `uuid::Uuid::new_v4`, written with hyphens: 36 lower-case hexadecimal digits and hyphens.
/// Which ones they are is left to chance.
#[verifier::external_body]
fn fresh_id() -> (r: String)
    ensures
        r@.len() == 36,
        forall|i: int| 0 <= i < r@.len() ==> is_id_char(#[trigger] r@[i]),
{
    uuid::Uuid::new_v4().to_string()
}

/// A fresh name for a client.
pub fn new_client_id() -> (r: String)
    ensures
        r@.len() == "client-"@.len() + 36,
        r@.take("client-"@.len() as int) == "client-"@,
        forall|i: int| "client-"@.len() <= i < r@.len() ==> is_id_char(#[trigger] r@[i]),
{
    let id = fresh_id();
    let r = concat_text("client-", id.as_str());
    proof {
        let n = "client-"@.len() as int;
        assert(r@.take(n) =~= "client-"@);
        assert forall|i: int| n <= i < r@.len() implies is_id_char(#[trigger] r@[i]) by {
            assert(r@[i] == id@[i - n]);
        }
    }
    r
}

/// What the user asks for.
#[derive(Debug, Clone)]
pub struct UiSearchRequest {
    pub query: String,
    pub top_k: usize,
    pub filters: TextMap<FilterExpr>,
    pub search_mode: SearchMode,
    pub result_granularity: ResultGranularity,
}

/// A request that is ready to be written, where it is written and where its answer will be.
#[derive(Debug, Clone)]
pub struct Submission {
    pub request_id: String,
    pub request: Request,
    pub path: FilePath,
    pub response_path: FilePath,
}

/// Whether a request is written where requests wait and its answer is looked for where the
/// answers to its client are.
pub open spec fn is_submitted(
    s: Submission,
    root: Seq<StepModel>,
    client_id: Seq<char>,
    request: RequestModel,
) -> bool {
    &&& s.request@ == request
    &&& request.id() == s.request_id@
    &&& request.client() == client_id
    &&& s.path@ == shared_folder::request_location(root, s.request_id@)
    &&& s.response_path@ == shared_folder::response_location(root, client_id, s.request_id@)
}

/// The search request that the user's wishes make.
pub open spec fn asked(
    request_id: Seq<char>,
    client_id: Seq<char>,
    dataset_id: Seq<char>,
    input: UiSearchRequest,
) -> SearchModel {
    SearchModel {
        request_id,
        client_id,
        dataset_id,
        query: input.query@,
        top_k: input.top_k as int,
        filters: protocol::filter_exprs(input.filters@),
        search_mode: input.search_mode,
        result_granularity: input.result_granularity,
    }
}

/// The search request with the given id that the user's wishes make.
pub fn submit_search_as(
    request_id: String,
    shared_root: &FilePath,
    client_id: &str,
    dataset_id: &str,
    input: UiSearchRequest,
) -> (r: Submission)
    ensures
        r.request_id@ == request_id@,
        is_submitted(
            r,
            shared_root@,
            client_id@,
            RequestModel::Search(asked(request_id@, client_id@, dataset_id@, input)),
        ),
        r.request matches Request::Search(sent) && {
            &&& sent.filters@ == input.filters@
            &&& sent.query@ == input.query@
            &&& sent.top_k == input.top_k
            &&& sent.search_mode == input.search_mode
            &&& sent.result_granularity == input.result_granularity
            &&& sent.request_id@ == r.request_id@
            &&& sent.client_id@ == client_id@
            &&& sent.dataset_id@ == dataset_id@
        },
{
    let path = request_path(shared_root, request_id.as_str());
    let answer = response_path(shared_root, client_id, request_id.as_str());
    let request = Request::Search(
        SearchRequest {
            request_id: request_id.clone(),
            client_id: client_id.to_string(),
            dataset_id: dataset_id.to_string(),
            query: input.query,
            top_k: input.top_k,
            filters: input.filters,
            search_mode: input.search_mode,
            result_granularity: input.result_granularity,
        },
    );
    Submission { request_id, request, path, response_path: answer }
}

/// The search request, with a fresh id, that the user's wishes make.
pub fn submit_search(
    shared_root: &FilePath,
    client_id: &str,
    dataset_id: &str,
    input: UiSearchRequest,
) -> (r: Submission)
    ensures
        r.request_id@.len() == 36,
        forall|i: int| 0 <= i < r.request_id@.len() ==> is_id_char(#[trigger] r.request_id@[i]),
        is_submitted(
            r,
            shared_root@,
            client_id@,
            RequestModel::Search(asked(r.request_id@, client_id@, dataset_id@, input)),
        ),
        r.request matches Request::Search(sent) && {
            &&& sent.filters@ == input.filters@
            &&& sent.query@ == input.query@
            &&& sent.top_k == input.top_k
            &&& sent.search_mode == input.search_mode
            &&& sent.result_granularity == input.result_granularity
            &&& sent.request_id@ == r.request_id@
            &&& sent.client_id@ == client_id@
            &&& sent.dataset_id@ == dataset_id@
        },
{
    submit_search_as(fresh_id(), shared_root, client_id, dataset_id, input)
}

/// The question with the given id about the client's dataset.
pub fn describe_dataset_as(
    request_id: String,
    shared_root: &FilePath,
    client_id: &str,
    dataset_id: &str,
) -> (r: Submission)
    ensures
        r.request_id@ == request_id@,
        is_submitted(
            r,
            shared_root@,
            client_id@,
            RequestModel::DescribeDataset {
                request_id: request_id@,
                client_id: client_id@,
                dataset_id: dataset_id@,
            },
        ),
        r.request matches Request::DescribeDataset(sent) && {
            &&& sent.request_id@ == r.request_id@
            &&& sent.client_id@ == client_id@
            &&& sent.dataset_id@ == dataset_id@
        },
{
    let path = request_path(shared_root, request_id.as_str());
    let answer = response_path(shared_root, client_id, request_id.as_str());
    let request = Request::DescribeDataset(
        DescribeDatasetRequest {
            request_id: request_id.clone(),
            client_id: client_id.to_string(),
            dataset_id: dataset_id.to_string(),
        },
    );
    Submission { request_id, request, path, response_path: answer }
}

/// The question, with a fresh id, about the client's dataset.
pub fn describe_dataset(shared_root: &FilePath, client_id: &str, dataset_id: &str) -> (r:
    Submission)
    ensures
        r.request_id@.len() == 36,
        forall|i: int| 0 <= i < r.request_id@.len() ==> is_id_char(#[trigger] r.request_id@[i]),
        is_submitted(
            r,
            shared_root@,
            client_id@,
            RequestModel::DescribeDataset {
                request_id: r.request_id@,
                client_id: client_id@,
                dataset_id: dataset_id@,
            },
        ),
        r.request matches Request::DescribeDataset(sent) && {
            &&& sent.request_id@ == r.request_id@
            &&& sent.client_id@ == client_id@
            &&& sent.dataset_id@ == dataset_id@
        },
{
    describe_dataset_as(fresh_id(), shared_root, client_id, dataset_id)
}

/// A submitted search asks for what the user wishes, no more and no less: its query, its filters
/// one by one and in their order, its number of results, its indexes and its granularity are the
/// user's own, and it is the client's request on the client's dataset. It waits under its own id,
/// and its answer is looked for under that id in the folder of the client.
pub proof fn law_search_asks_for_the_wishes(
    s: Submission,
    root: Seq<StepModel>,
    client_id: Seq<char>,
    dataset_id: Seq<char>,
    input: UiSearchRequest,
)
    requires
        is_submitted(
            s,
            root,
            client_id,
            RequestModel::Search(asked(s.request_id@, client_id, dataset_id, input)),
        ),
    ensures
        s.request matches Request::Search(sent) && {
            &&& sent.query@ == input.query@
            &&& sent.top_k == input.top_k
            &&& sent.search_mode == input.search_mode
            &&& sent.result_granularity == input.result_granularity
            &&& sent.request_id@ == s.request_id@
            &&& sent.client_id@ == client_id
            &&& sent.dataset_id@ == dataset_id
            &&& sent.filters@.len() == input.filters@.len()
            &&& forall|i: int|
                0 <= i < input.filters@.len() ==> {
                    &&& (#[trigger] sent.filters@[i]).0 == input.filters@[i].0
                    &&& sent.filters@[i].1@ == input.filters@[i].1@
                }
        },
        s.path@ == root + seq![
            StepModel::Name("requests"@),
            StepModel::Name("pending"@),
            StepModel::Name(s.request_id@ + ".request.json"@),
        ],
        s.response_path@ == root + seq![
            StepModel::Name("responses"@),
            StepModel::Name(client_id),
            StepModel::Name(s.request_id@ + ".response.json"@),
        ],
{
    shared_folder::law_places(root, client_id, s.request_id@, "pending"@);
    assert(s.request is Search);
    let sent = s.request->Search_0;
    let wishes = asked(s.request_id@, client_id, dataset_id, input);
    assert(sent@ == wishes);
    assert(sent@.filters.len() == wishes.filters.len());
    assert forall|i: int| 0 <= i < input.filters@.len() implies {
        &&& (#[trigger] sent.filters@[i]).0 == input.filters@[i].0
        &&& sent.filters@[i].1@ == input.filters@[i].1@
    } by {
        assert(sent@.filters[i] == wishes.filters[i]);
    }
}

/// The server answers a request at the very place where its client looks for the answer.
pub proof fn law_answers_are_found(
    s: Submission,
    root: Seq<StepModel>,
    client_id: Seq<char>,
    request: RequestModel,
)
    requires
        is_submitted(s, root, client_id, request),
    ensures
        s.response_path@ == shared_folder::response_location(root, request.client(), request.id()),
{
}

/// What the browser is told of a request.
#[derive(Debug, Clone)]
pub enum JobAnswer {
    /// There is no answer yet.
    Pending,
    /// The answer, and whether its file is to be removed.
    Found { response: Response, remove: bool },
    /// The answer cannot be read.
    Error(String),
}

/// What the browser is told of a request, given what was read of the answer where there is one.
pub fn get_job(read: Option<Result<Response, String>>, keep_responses: bool) -> (r: JobAnswer)
    ensures
        r == (match read {
            None => JobAnswer::Pending,
            Some(Ok(response)) => JobAnswer::Found { response, remove: !keep_responses },
            Some(Err(message)) => JobAnswer::Error(message),
        }),
{
    match read {
        None => JobAnswer::Pending,
        Some(Ok(response)) => JobAnswer::Found { response, remove: !keep_responses },
        Some(Err(message)) => JobAnswer::Error(message),
    }
}

/// What the client does while it waits for an answer.
#[derive(Debug, Clone, Copy, PartialEq, Eq)]
pub enum PollStep {
    /// Reads the answer.
    Read,
    /// Gives up.
    GiveUp(ClientError),
    /// Looks again after so many milliseconds.
    Wait(u64),
}

/// What the client does next while it waits for an answer, given whether it is there, and the
/// nanoseconds that it has waited and may wait.
pub fn roundtrip(answered: bool, elapsed: u128, timeout: u128) -> (r: PollStep)
    ensures
        r == (if answered {
            PollStep::Read
        } else if elapsed > timeout {
            PollStep::GiveUp(ClientError::Timeout)
        } else {
            PollStep::Wait(250)
        }),
{
    if answered {
        PollStep::Read
    } else if elapsed > timeout {
        PollStep::GiveUp(ClientError::Timeout)
    } else {
        PollStep::Wait(250)
    }
}

/// What the browser is told where a question about the dataset failed.
pub fn failed_description(message: String) -> (r: Response)
    ensures
        r@ == (ResponseModel::Error { request_id: Seq::empty(), message: message@ }),
{
    Response::Error(ResponseError { request_id: String::new(), message })
}

/// Whether the client ends because the browser has been silent for too long, in nanoseconds.
pub fn browser_is_gone(silent: u128, allowed: u128) -> (r: bool)
    ensures
        r == (silent > allowed),
{
    silent > allowed
}

} // verus!
