//! How candidates become the results of a search.
use vstd::prelude::*;
use vstd::string::*;

use crate::json;
use crate::json::parse_json;
use crate::order;
use crate::order::{order_falling, Score};
use crate::protocol;
use crate::protocol::{
    MatchedChunk, ResultGranularity, ResultModel, ScoreBreakdown, SearchModel, SearchRequest,
    SearchResult,
};
use crate::schema;
use crate::search;
use crate::search::{
    fetch_limit, fuse_candidates, rank_candidates, rank_map, CandidateModel, ChunkCandidate,
    FusedItem, FusedModel, RankedId, VectorCandidates,
};
use crate::snippet;
use crate::snippet::try_make_snippet;
use crate::sql;
use crate::sql::{
    fetch_record, fetch_records, result_limit, search_like, QueryModel, SqlQuery,
};
use crate::text;
use crate::text::{is_blank_text, same_text};
use crate::text_map;
use crate::text_map::TextMap;

verus! {

/// What the record database holds of a record, and the score that it gives it.
#[derive(Debug, Clone, PartialEq, Eq)]
pub struct RecordRow {
    pub record_id: String,
    pub display_json: String,
    pub payload_json: String,
    pub searchable_text: String,
    pub score: Score,
}

/// What the database holds of a record, without its representation.
pub struct RecordRowModel {
    pub record_id: Seq<char>,
    pub display_json: Seq<char>,
    pub payload_json: Seq<char>,
    pub searchable_text: Seq<char>,
    pub score: Score,
}

impl View for RecordRow {
    type V = RecordRowModel;

    open spec fn view(&self) -> RecordRowModel {
        RecordRowModel {
            record_id: self.record_id@,
            display_json: self.display_json@,
            payload_json: self.payload_json@,
            searchable_text: self.searchable_text@,
            score: self.score,
        }
    }
}

impl RecordRow {
    /// A row equal to this one.
    pub fn copy(&self) -> (r: RecordRow)
        ensures
            r@ == self@,
    {
        RecordRow {
            record_id: self.record_id.clone(),
            display_json: self.display_json.clone(),
            payload_json: self.payload_json.clone(),
            searchable_text: self.searchable_text.clone(),
            score: self.score,
        }
    }
}

/// The views of a list of rows.
pub open spec fn row_models(v: Seq<RecordRow>) -> Seq<RecordRowModel> {
    Seq::new(v.len(), |i: int| v[i]@)
}

/// Why there are no results.
#[derive(Debug, Clone, PartialEq, Eq)]
pub enum ResultError {
    /// What a record displays is no JSON, for the given reason.
    Display(String),
    /// The payload of a record is no JSON, for the given reason.
    Payload(String),
    /// No snippet can be cut from a text.
    Snippet,
}

/// Why there are no results, without its representation.
pub enum ResultErrorModel {
    Display(Seq<char>),
    Payload(Seq<char>),
    Snippet,
}

impl View for ResultError {
    type V = ResultErrorModel;

    open spec fn view(&self) -> ResultErrorModel {
        match self {
            ResultError::Display(cause) => ResultErrorModel::Display(cause@),
            ResultError::Payload(cause) => ResultErrorModel::Payload(cause@),
            ResultError::Snippet => ResultErrorModel::Snippet,
        }
    }
}

impl ResultErrorModel {
    /// What is said of the error.
    pub open spec fn message(self) -> Seq<char> {
        match self {
            ResultErrorModel::Display(cause) => cause,
            ResultErrorModel::Payload(cause) => cause,
            ResultErrorModel::Snippet => "no snippet can be cut from the text of a record"@,
        }
    }
}

impl ResultError {
    /// What is said of the error.
    pub fn message(&self) -> (r: String)
        ensures
            r@ == self@.message(),
    {
        match self {
            ResultError::Display(cause) => cause.clone(),
            ResultError::Payload(cause) => cause.clone(),
            ResultError::Snippet => "no snippet can be cut from the text of a record".to_string(),
        }
    }
}

/// What is wrong with a text that is no JSON.
pub open spec fn json_problem(s: Seq<char>) -> Option<Seq<char>> {
    match json::json_outcome(vstd::utf8::encode_utf8(s)) {
        Ok(_) => None,
        Err(cause) => Some(cause),
    }
}

fn find_json_problem(s: &str) -> (r: Option<String>)
    ensures
        schema::optional_text(r) == json_problem(s@),
{
    match parse_json(s.as_bytes()) {
        Ok(_) => None,
        Err(cause) => Some(cause),
    }
}

/// The score by itself.
pub open spec fn plain_scores(score: Score) -> ScoreBreakdown {
    ScoreBreakdown {
        final_score: score,
        bm25_rank: None,
        vector_rank: None,
        vector_score: None,
    }
}

/// The result that shows a record for a query.
pub open spec fn row_result(row: RecordRowModel, query: Seq<char>) -> Result<
    ResultModel,
    ResultErrorModel,
> {
    if json_problem(row.display_json) is Some {
        Err(ResultErrorModel::Display(json_problem(row.display_json)->0))
    } else if !snippet::has_snippet(row.searchable_text, query) {
        Err(ResultErrorModel::Snippet)
    } else if json_problem(row.payload_json) is Some {
        Err(ResultErrorModel::Payload(json_problem(row.payload_json)->0))
    } else {
        Ok(
            ResultModel {
                result_id: row.record_id,
                record_id: row.record_id,
                score: row.score,
                display: row.display_json,
                snippet: snippet::snippet(row.searchable_text, query),
                matched_chunk: None,
                scores: plain_scores(row.score),
                payload: row.payload_json,
            },
        )
    }
}

/// The results that show records for a query, or what is wrong with the first record that
/// cannot be shown.
pub open spec fn row_results(rows: Seq<RecordRowModel>, query: Seq<char>) -> Result<
    Seq<ResultModel>,
    ResultErrorModel,
>
    decreases rows.len(),
{
    if rows.len() == 0 {
        Ok(Seq::empty())
    } else {
        match row_results(rows.drop_last(), query) {
            Err(e) => Err(e),
            Ok(before) => match row_result(rows.last(), query) {
                Err(e) => Err(e),
                Ok(m) => Ok(before.push(m)),
            },
        }
    }
}

proof fn lemma_row_results_fail(rows: Seq<RecordRowModel>, query: Seq<char>, n: int)
    requires
        0 <= n <= rows.len(),
        row_results(rows.take(n), query) is Err,
    ensures
        row_results(rows, query) == row_results(rows.take(n), query),
    decreases rows.len() - n,
{
    if n < rows.len() {
        assert(rows.take(n + 1).drop_last() =~= rows.take(n));
        lemma_row_results_fail(rows, query, n + 1);
    } else {
        assert(rows.take(n) =~= rows);
    }
}

/// The result that shows a record for a query.
pub fn materialize_row(row: &RecordRow, query: &str) -> (r: Result<SearchResult, ResultError>)
    ensures
        match row_result(row@, query@) {
            Ok(m) => r is Ok && r->Ok_0@ == m,
            Err(e) => r is Err && r->Err_0@ == e,
        },
{
    if let Some(cause) = find_json_problem(row.display_json.as_str()) {
        return Err(ResultError::Display(cause));
    }
    let snippet = match try_make_snippet(row.searchable_text.as_str(), query) {
        Some(s) => s,
        None => {
            return Err(ResultError::Snippet);
        },
    };
    if let Some(cause) = find_json_problem(row.payload_json.as_str()) {
        return Err(ResultError::Payload(cause));
    }
    Ok(
        SearchResult {
            result_id: row.record_id.clone(),
            record_id: row.record_id.clone(),
            score: row.score,
            display: row.display_json.clone(),
            snippet,
            matched_chunk: None,
            scores: ScoreBreakdown {
                final_score: row.score,
                bm25_rank: None,
                vector_rank: None,
                vector_score: None,
            },
            payload: row.payload_json.clone(),
        },
    )
}

/// The results that show records for a query, or what is wrong with the first record that
/// cannot be shown.
pub fn materialize_rows(rows: &Vec<RecordRow>, query: &str) -> (r: Result<
    Vec<SearchResult>,
    ResultError,
>)
    ensures
        match row_results(row_models(rows@), query@) {
            Ok(m) => r is Ok && protocol::result_models(r->Ok_0@) == m,
            Err(e) => r is Err && r->Err_0@ == e,
        },
{
    let ghost all = row_models(rows@);
    let mut out: Vec<SearchResult> = Vec::new();
    let mut i: usize = 0;
    assert(protocol::result_models(out@) =~= Seq::empty());
    while i < rows.len()
        invariant
            i <= rows@.len(),
            all == row_models(rows@),
            row_results(all.take(i as int), query@) is Ok,
            protocol::result_models(out@) == row_results(all.take(i as int), query@)->Ok_0,
        decreases rows@.len() - i,
    {
        let ghost before = protocol::result_models(out@);
        proof {
            assert(all.take(i + 1).drop_last() =~= all.take(i as int));
            assert(all.take(i + 1).last() == rows@[i as int]@);
        }
        match materialize_row(&rows[i], query) {
            Ok(result) => {
                out.push(result);
                assert(protocol::result_models(out@) =~= before.push(result@));
            },
            Err(e) => {
                proof {
                    lemma_row_results_fail(all, query@, i + 1);
                }
                return Err(e);
            },
        }
        i = i + 1;
    }
    assert(all.take(i as int) =~= all);
    Ok(out)
}

/// What the indexes found: the candidates by their scores, the chunk by which the vector index
/// found each of them, all chunks that it found, and the ranks.
#[derive(Debug, Clone)]
pub struct CandidateSearch {
    pub ranked: Vec<RankedId>,
    pub vector_chunks: TextMap<MatchedChunk>,
    pub vector_chunk_hits: Vec<ChunkCandidate>,
    pub bm25_ranks: TextMap<usize>,
    pub vector_ranks: TextMap<usize>,
}

impl CandidateSearch {
    /// The maps are in order.
    pub open spec fn wf(&self) -> bool {
        self.vector_chunks.wf() && self.bm25_ranks.wf() && self.vector_ranks.wf()
    }
}

/// The rankings that were found: that of the text index and that of the vector index.
pub open spec fn found_rankings(
    text_hits: Option<Vec<String>>,
    vector: Option<VectorCandidates>,
) -> Seq<Seq<Seq<char>>> {
    (match text_hits {
        Some(v) => seq![text::texts(v@)],
        None => Seq::empty(),
    }) + (match vector {
        Some(v) => seq![text::texts(v.ranking@)],
        None => Seq::empty(),
    })
}

/// The ranking of the text index, empty where it was not asked.
pub open spec fn text_ranking(text_hits: Option<Vec<String>>) -> Seq<Seq<char>> {
    match text_hits {
        Some(v) => text::texts(v@),
        None => Seq::empty(),
    }
}

/// The ranking of the vector index, empty where it was not asked.
pub open spec fn vector_ranking(vector: Option<VectorCandidates>) -> Seq<Seq<char>> {
    match vector {
        Some(v) => text::texts(v.ranking@),
        None => Seq::empty(),
    }
}

fn copy_texts(v: &Vec<String>) -> (r: Vec<String>)
    ensures
        text::texts(r@) == text::texts(v@),
{
    let mut out: Vec<String> = Vec::new();
    let mut i: usize = 0;
    while i < v.len()
        invariant
            i <= v@.len(),
            out@.len() == i,
            forall|k: int| 0 <= k < i ==> (#[trigger] out@[k])@ == v@[k]@,
        decreases v@.len() - i,
    {
        out.push(v[i].clone());
        i = i + 1;
    }
    assert(text::texts(out@) =~= text::texts(v@));
    out
}

/// The rankings that were found: that of the text index and that of the vector index.
pub fn candidate_lists(text_hits: &Option<Vec<String>>, vector: &Option<VectorCandidates>) -> (r:
    Vec<Vec<String>>)
    ensures
        search::ranking_models(r@) == found_rankings(*text_hits, *vector),
{
    let mut out: Vec<Vec<String>> = Vec::new();
    if let Some(v) = text_hits {
        out.push(copy_texts(v));
    }
    if let Some(v) = vector {
        out.push(copy_texts(&v.ranking));
    }
    assert(search::ranking_models(out@) =~= found_rankings(*text_hits, *vector));
    out
}

/// Whether `items` are the candidates that rankings give, with the terms of their scores: the
/// places of a ranking where there is only one, else the fusion of the rankings.
pub open spec fn are_candidates(
    items: Seq<FusedModel>,
    rankings: Seq<Seq<Seq<char>>>,
    limit: int,
) -> bool {
    if rankings.len() == 1 {
        items == search::ranked_places(rankings[0], limit)
    } else {
        search::are_fused(items, rankings, 60)
    }
}

/// The candidates that two rankings without repetitions give have the reciprocals of their ranks,
/// each plus sixty, for the terms of their scores: two where they are in both rankings, else one.
pub proof fn law_candidates_of_two_rankings(
    items: Seq<FusedModel>,
    first: Seq<Seq<char>>,
    second: Seq<Seq<char>>,
    limit: int,
    m: int,
)
    requires
        are_candidates(items, seq![first, second], limit),
        0 <= m < items.len(),
        forall|a: int, b: int|
            0 <= a < b < first.len() ==> #[trigger] first[a] != #[trigger] first[b],
        forall|a: int, b: int|
            0 <= a < b < second.len() ==> #[trigger] second[a] != #[trigger] second[b],
    ensures
        forall|i: int, j: int|
            0 <= i < first.len() && 0 <= j < second.len() && #[trigger] first[i]
                == items[m].record_id && #[trigger] second[j] == items[m].record_id
                ==> items[m].terms == seq![61 + i, 61 + j],
        forall|i: int|
            0 <= i < first.len() && #[trigger] first[i] == items[m].record_id && !second.contains(
                items[m].record_id,
            ) ==> items[m].terms == seq![61 + i],
        forall|j: int|
            0 <= j < second.len() && #[trigger] second[j] == items[m].record_id && !first.contains(
                items[m].record_id,
            ) ==> items[m].terms == seq![61 + j],
        first.contains(items[m].record_id) || second.contains(items[m].record_id),
{
    search::law_fused_by_sixty(items, first, second, m);
}

/// Every id of two rankings is among the candidates that they give.
pub proof fn law_no_candidate_is_left_out(
    items: Seq<FusedModel>,
    first: Seq<Seq<char>>,
    second: Seq<Seq<char>>,
    limit: int,
    id: Seq<char>,
)
    requires
        are_candidates(items, seq![first, second], limit),
        first.contains(id) || second.contains(id),
        forall|a: int, b: int|
            0 <= a < b < first.len() ==> #[trigger] first[a] != #[trigger] first[b],
        forall|a: int, b: int|
            0 <= a < b < second.len() ==> #[trigger] second[a] != #[trigger] second[b],
    ensures
        exists|m: int| 0 <= m < items.len() && (#[trigger] items[m]).record_id == id,
{
    let both = seq![first, second];
    reveal_with_fuel(search::fusion_terms, 3);
    search::law_ranking_terms(first, first.len() as int, 60, id);
    search::law_ranking_terms(second, second.len() as int, 60, id);
    assert(both.drop_last() =~= seq![first]);
    assert(both.drop_last().drop_last() =~= Seq::empty());
    assert(search::fusion_terms(both, 60, id).len() > 0);
    assert(search::has_item(items, id));
}

/// The candidates that one ranking gives are its first ids in its order, each with its rank for
/// the only term of its score.
pub proof fn law_candidates_of_one_ranking(
    items: Seq<FusedModel>,
    ranking: Seq<Seq<char>>,
    limit: int,
)
    requires
        are_candidates(items, seq![ranking], limit),
        limit >= 0,
    ensures
        items.len() == if ranking.len() < limit {
            ranking.len() as int
        } else {
            limit
        },
        forall|i: int|
            0 <= i < items.len() ==> (#[trigger] items[i]).record_id == ranking[i]
                && items[i].terms == seq![i + 1],
{
    search::law_single_ranking(ranking, limit);
}

/// Candidates with their scores: in the order of the ranking where there is only one, else the
/// best first, and as many as are wanted.
pub open spec fn ranked_candidates(
    items: Seq<FusedModel>,
    scores: Seq<Score>,
    rankings: Seq<Seq<Seq<char>>>,
    limit: int,
) -> Seq<(Seq<char>, Score)> {
    if rankings.len() == 1 {
        search::scored(items, scores)
    } else {
        search::best_items(items, scores, limit)
    }
}

/// The candidates that the indexes found for a search for `top_k` results, with the terms of
/// their scores.
pub fn fuse_hits(
    text_hits: &Option<Vec<String>>,
    vector: &Option<VectorCandidates>,
    top_k: usize,
) -> (r: Vec<FusedItem>)
    ensures
        are_candidates(
            search::fused_models(r@),
            found_rankings(*text_hits, *vector),
            search::hits_wanted(top_k as int),
        ),
{
    let lists = candidate_lists(text_hits, vector);
    assert(search::ranking_models(lists@).len() == lists@.len());
    fuse_candidates(&lists, fetch_limit(top_k))
}

/// What the indexes found for a search for `top_k` results, given the candidates and the score
/// of each of them.
pub fn search_candidates(
    text_hits: Option<Vec<String>>,
    vector: Option<VectorCandidates>,
    items: &Vec<FusedItem>,
    scores: &Vec<Score>,
    top_k: usize,
) -> (r: CandidateSearch)
    requires
        vector matches Some(v) ==> v.chunks.wf(),
        items@.len() == scores@.len(),
        are_candidates(
            search::fused_models(items@),
            found_rankings(text_hits, vector),
            search::hits_wanted(top_k as int),
        ),
    ensures
        r.wf(),
        search::ranked_models(r.ranked@) == ranked_candidates(
            search::fused_models(items@),
            scores@,
            found_rankings(text_hits, vector),
            search::hits_wanted(top_k as int),
        ),
        forall|id: Seq<char>| #[trigger]
            text_map::value_of(r.bm25_ranks@, id) == (match text_hits {
                Some(v) => search::rank_of(text::texts(v@), id),
                None => None,
            }),
        forall|id: Seq<char>| #[trigger]
            text_map::value_of(r.vector_ranks@, id) == (match vector {
                Some(v) => search::rank_of(text::texts(v.ranking@), id),
                None => None,
            }),
        forall|id: Seq<char>|
            search::is_place(
                text_ranking(text_hits),
                id,
                #[trigger] text_map::value_of(r.bm25_ranks@, id),
            ),
        forall|id: Seq<char>|
            search::is_place(
                vector_ranking(vector),
                id,
                #[trigger] text_map::value_of(r.vector_ranks@, id),
            ),
        match vector {
            Some(v) => r.vector_chunks == v.chunks && r.vector_chunk_hits == v.chunk_hits,
            None => r.vector_chunks@.len() == 0 && r.vector_chunk_hits@.len() == 0,
        },
{
    let single = text_hits.is_some() != vector.is_some();
    let ranked = rank_candidates(items, scores, single, fetch_limit(top_k));
    let bm25_ranks = match &text_hits {
        Some(v) => rank_map(v),
        None => TextMap::new(),
    };
    match vector {
        Some(v) => CandidateSearch {
            ranked,
            vector_ranks: rank_map(&v.ranking),
            vector_chunks: v.chunks,
            vector_chunk_hits: v.chunk_hits,
            bm25_ranks,
        },
        None => CandidateSearch {
            ranked,
            vector_chunks: TextMap::new(),
            vector_chunk_hits: Vec::new(),
            bm25_ranks,
            vector_ranks: TextMap::new(),
        },
    }
}

/// The score of a record among the candidates, zero where it is none of them.
pub open spec fn score_of(ranked: Seq<(Seq<char>, Score)>, id: Seq<char>) -> Score
    decreases ranked.len(),
{
    if ranked.len() == 0 {
        Score { bits: 0 }
    } else if ranked.last().0 == id {
        ranked.last().1
    } else {
        score_of(ranked.drop_last(), id)
    }
}

/// Among candidates whose ids differ each one has its own score, and what is no candidate has the
/// score zero.
pub proof fn law_score_of(ranked: Seq<(Seq<char>, Score)>, id: Seq<char>)
    requires
        forall|i: int, j: int|
            0 <= i < j < ranked.len() ==> (#[trigger] ranked[i]).0 != (#[trigger] ranked[j]).0,
    ensures
        forall|i: int|
            0 <= i < ranked.len() && (#[trigger] ranked[i]).0 == id ==> score_of(ranked, id)
                == ranked[i].1,
        (forall|i: int| 0 <= i < ranked.len() ==> (#[trigger] ranked[i]).0 != id) ==> score_of(
            ranked,
            id,
        ).bits == 0,
    decreases ranked.len(),
{
    if ranked.len() > 0 {
        let shorter = ranked.drop_last();
        assert forall|i: int, j: int| 0 <= i < j < shorter.len() implies (#[trigger] shorter[i]).0
            != (#[trigger] shorter[j]).0 by {
            assert(shorter[i] == ranked[i] && shorter[j] == ranked[j]);
        }
        law_score_of(shorter, id);
        assert forall|i: int| 0 <= i < ranked.len() && (#[trigger] ranked[i]).0 == id implies score_of(
            ranked,
            id,
        ) == ranked[i].1 by {
            if i < shorter.len() {
                assert(shorter[i] == ranked[i]);
                assert(ranked[i].0 != ranked[ranked.len() - 1].0);
            }
        }
    }
}

/// A record's result with what the indexes found of it: its score, its ranks and its chunk,
/// from which the snippet is cut.
pub open spec fn ranked_result(
    base: ResultModel,
    candidates: CandidateSearch,
    query: Seq<char>,
) -> Result<ResultModel, ResultErrorModel> {
    let id = base.record_id;
    let score = score_of(search::ranked_models(candidates.ranked@), id);
    let chunk = search::chunk_at(candidates.vector_chunks@, id);
    if chunk is Some && !snippet::has_snippet(chunk->0.text, query) {
        Err(ResultErrorModel::Snippet)
    } else {
        Ok(
            ResultModel {
                score,
                matched_chunk: chunk,
                scores: ScoreBreakdown {
                    final_score: score,
                    bm25_rank: text_map::value_of(candidates.bm25_ranks@, id),
                    vector_rank: text_map::value_of(candidates.vector_ranks@, id),
                    vector_score: match chunk {
                        Some(c) => Some(c.score),
                        None => None,
                    },
                },
                snippet: match chunk {
                    Some(c) => snippet::snippet(c.text, query),
                    None => base.snippet,
                },
                ..base
            },
        )
    }
}

/// Records' results with what the indexes found of them.
pub open spec fn ranked_results(
    bases: Seq<ResultModel>,
    candidates: CandidateSearch,
    query: Seq<char>,
) -> Result<Seq<ResultModel>, ResultErrorModel>
    decreases bases.len(),
{
    if bases.len() == 0 {
        Ok(Seq::empty())
    } else {
        match ranked_results(bases.drop_last(), candidates, query) {
            Err(e) => Err(e),
            Ok(before) => match ranked_result(bases.last(), candidates, query) {
                Err(e) => Err(e),
                Ok(m) => Ok(before.push(m)),
            },
        }
    }
}

/// Where the scores of results stand among all scores.
pub open spec fn result_levels(results: Seq<ResultModel>) -> Seq<int> {
    Seq::new(results.len(), |i: int| results[i].score.level())
}

/// The results with the best scores, best first.
pub open spec fn best_results(results: Seq<ResultModel>, limit: int) -> Seq<ResultModel> {
    order::first_of(
        order::listed(results, order::falling_order(result_levels(results))),
        limit,
    )
}

/// The results that list records: those of the fetched rows, by falling score.
pub open spec fn document_results(
    rows: Seq<RecordRowModel>,
    candidates: CandidateSearch,
    query: Seq<char>,
    top_k: int,
) -> Result<Seq<ResultModel>, ResultErrorModel> {
    match row_results(rows, query) {
        Err(e) => Err(e),
        Ok(bases) => match ranked_results(bases, candidates, query) {
            Err(e) => Err(e),
            Ok(results) => Ok(best_results(results, sql::at_least_one(top_k))),
        },
    }
}

proof fn lemma_ranked_results_fail(
    bases: Seq<ResultModel>,
    candidates: CandidateSearch,
    query: Seq<char>,
    n: int,
)
    requires
        0 <= n <= bases.len(),
        ranked_results(bases.take(n), candidates, query) is Err,
    ensures
        ranked_results(bases, candidates, query) == ranked_results(
            bases.take(n),
            candidates,
            query,
        ),
    decreases bases.len() - n,
{
    if n < bases.len() {
        assert(bases.take(n + 1).drop_last() =~= bases.take(n));
        lemma_ranked_results_fail(bases, candidates, query, n + 1);
    } else {
        assert(bases.take(n) =~= bases);
    }
}

fn score_in(ranked: &Vec<RankedId>, id: &str) -> (r: Score)
    ensures
        r == score_of(search::ranked_models(ranked@), id@),
{
    let ghost all = search::ranked_models(ranked@);
    let mut i: usize = ranked.len();
    assert(all.take(i as int) =~= all);
    while i > 0
        invariant
            i <= ranked@.len(),
            all == search::ranked_models(ranked@),
            score_of(all, id@) == score_of(all.take(i as int), id@),
        decreases i,
    {
        proof {
            assert(all.take(i as int).last() == all[i - 1]);
            assert(all.take(i as int).drop_last() =~= all.take(i - 1));
        }
        if same_text(ranked[i - 1].record_id.as_str(), id) {
            return ranked[i - 1].score;
        }
        i = i - 1;
    }
    Score::zero()
}

fn copy_rank(rank: Option<&usize>) -> (r: Option<usize>)
    ensures
        match rank {
            Some(n) => r == Some(*n),
            None => r is None,
        },
{
    match rank {
        Some(n) => Some(*n),
        None => None,
    }
}

fn add_ranks(base: &SearchResult, candidates: &CandidateSearch, query: &str) -> (r: Result<
    SearchResult,
    ResultError,
>)
    requires
        candidates.wf(),
    ensures
        match ranked_result(base@, *candidates, query@) {
            Ok(m) => r is Ok && r->Ok_0@ == m,
            Err(e) => r is Err && r->Err_0@ == e,
        },
{
    let id = base.record_id.as_str();
    let score = score_in(&candidates.ranked, id);
    let bm25_rank = copy_rank(candidates.bm25_ranks.get(id));
    let vector_rank = copy_rank(candidates.vector_ranks.get(id));
    let mut out = base.copy();
    out.score = score;
    match candidates.vector_chunks.get(id) {
        Some(chunk) => {
            let snippet = match try_make_snippet(chunk.text.as_str(), query) {
                Some(s) => s,
                None => {
                    return Err(ResultError::Snippet);
                },
            };
            out.snippet = snippet;
            out.matched_chunk = Some(chunk.copy());
            out.scores =
                ScoreBreakdown {
                    final_score: score,
                    bm25_rank,
                    vector_rank,
                    vector_score: Some(chunk.score),
                };
        },
        None => {
            out.matched_chunk = None;
            out.scores =
                ScoreBreakdown { final_score: score, bm25_rank, vector_rank, vector_score: None };
        },
    }
    Ok(out)
}

fn take_best(results: &Vec<SearchResult>, limit: usize) -> (r: Vec<SearchResult>)
    ensures
        protocol::result_models(r@) == best_results(
            protocol::result_models(results@),
            limit as int,
        ),
{
    let ghost all = protocol::result_models(results@);
    let mut keys: Vec<i128> = Vec::new();
    let mut i: usize = 0;
    assert(order::ints(keys@) =~= result_levels(all).take(0));
    while i < results.len()
        invariant
            i <= results@.len(),
            all == protocol::result_models(results@),
            order::ints(keys@) == result_levels(all).take(i as int),
        decreases results@.len() - i,
    {
        let ghost before = order::ints(keys@);
        keys.push(results[i].score.get_level());
        proof {
            assert(order::ints(keys@) =~= before.push(results@[i as int].score.level()));
            assert(order::ints(keys@) =~= result_levels(all).take(i + 1));
        }
        i = i + 1;
    }
    assert(result_levels(all).take(i as int) =~= result_levels(all));
    let listing = order_falling(&keys);
    let ghost sorted = order::listed(all, order::falling_order(result_levels(all)));
    let mut out: Vec<SearchResult> = Vec::new();
    let mut k: usize = 0;
    assert(protocol::result_models(out@) =~= sorted.take(0));
    while k < listing.len() && k < limit
        invariant
            k <= listing@.len(),
            k <= limit,
            all == protocol::result_models(results@),
            order::positions(listing@) == order::falling_order(result_levels(all)),
            order::lists_all(order::positions(listing@), results@.len() as int),
            sorted == order::listed(all, order::falling_order(result_levels(all))),
            protocol::result_models(out@) == sorted.take(k as int),
        decreases listing@.len() - k,
    {
        let ghost before = protocol::result_models(out@);
        let at = listing[k];
        assert(order::positions(listing@)[k as int] == at);
        out.push(results[at].copy());
        proof {
            assert(protocol::result_models(out@) =~= before.push(sorted[k as int]));
            assert(protocol::result_models(out@) =~= sorted.take(k + 1));
        }
        k = k + 1;
    }
    assert(protocol::result_models(out@) =~= order::first_of(sorted, limit as int));
    out
}

/// The results that list records: those of the rows that were fetched for the candidates, by
/// falling score.
pub fn materialize_ranked_ids(
    rows: &Vec<RecordRow>,
    req: &SearchRequest,
    candidates: &CandidateSearch,
) -> (r: Result<Vec<SearchResult>, ResultError>)
    requires
        candidates.wf(),
    ensures
        match document_results(row_models(rows@), *candidates, req.query@, req.top_k as int) {
            Ok(m) => r is Ok && protocol::result_models(r->Ok_0@) == m,
            Err(e) => r is Err && r->Err_0@ == e,
        },
{
    let query = req.query.as_str();
    let bases = match materialize_rows(rows, query) {
        Ok(v) => v,
        Err(e) => {
            return Err(e);
        },
    };
    let ghost all = protocol::result_models(bases@);
    let mut results: Vec<SearchResult> = Vec::new();
    let mut i: usize = 0;
    assert(protocol::result_models(results@) =~= Seq::empty());
    while i < bases.len()
        invariant
            i <= bases@.len(),
            candidates.wf(),
            query@ == req.query@,
            all == protocol::result_models(bases@),
            ranked_results(all.take(i as int), *candidates, query@) is Ok,
            protocol::result_models(results@) == ranked_results(
                all.take(i as int),
                *candidates,
                query@,
            )->Ok_0,
            row_results(row_models(rows@), req.query@) == Ok::<Seq<ResultModel>, ResultErrorModel>(all),
        decreases bases@.len() - i,
    {
        let ghost before = protocol::result_models(results@);
        proof {
            assert(all.take(i + 1).drop_last() =~= all.take(i as int));
            assert(all.take(i + 1).last() == bases@[i as int]@);
        }
        match add_ranks(&bases[i], candidates, query) {
            Ok(result) => {
                results.push(result);
                assert(protocol::result_models(results@) =~= before.push(result@));
            },
            Err(e) => {
                proof {
                    lemma_ranked_results_fail(all, *candidates, query@, i + 1);
                }
                return Err(e);
            },
        }
        i = i + 1;
    }
    assert(all.take(i as int) =~= all);
    Ok(take_best(&results, result_limit(req.top_k)))
}

/// The result that lists a chunk, given the rows that were fetched for its record; none where
/// there are no such rows.
pub open spec fn chunk_result(
    candidate: CandidateModel,
    rows: Seq<RecordRowModel>,
    bm25_ranks: Seq<(Seq<char>, usize)>,
    query: Seq<char>,
) -> Result<Option<ResultModel>, ResultErrorModel> {
    match row_results(rows, query) {
        Err(e) => Err(e),
        Ok(bases) => if bases.len() == 0 {
            Ok(None)
        } else if !snippet::has_snippet(candidate.chunk.text, query) {
            Err(ResultErrorModel::Snippet)
        } else {
            Ok(
                Some(
                    ResultModel {
                        result_id: candidate.chunk.chunk_id,
                        score: candidate.chunk.score,
                        snippet: snippet::snippet(candidate.chunk.text, query),
                        matched_chunk: Some(candidate.chunk),
                        scores: ScoreBreakdown {
                            final_score: candidate.chunk.score,
                            bm25_rank: text_map::value_of(bm25_ranks, bases.last().record_id),
                            vector_rank: Some(candidate.rank as usize),
                            vector_score: Some(candidate.chunk.score),
                        },
                        ..bases.last()
                    },
                ),
            )
        },
    }
}

/// The results that list the first chunks, given the rows that were fetched for each of them:
/// one for each chunk whose record was found, as many as are wanted.
pub open spec fn chunk_results(
    hits: Seq<CandidateModel>,
    pages: Seq<Seq<RecordRowModel>>,
    bm25_ranks: Seq<(Seq<char>, usize)>,
    query: Seq<char>,
    limit: int,
) -> Result<Seq<ResultModel>, ResultErrorModel>
    decreases pages.len(),
{
    if pages.len() == 0 {
        Ok(Seq::empty())
    } else {
        let n = pages.len() - 1;
        match chunk_results(hits, pages.drop_last(), bm25_ranks, query, limit) {
            Err(e) => Err(e),
            Ok(before) => if before.len() >= limit {
                Ok(before)
            } else {
                match chunk_result(hits[n], pages.last(), bm25_ranks, query) {
                    Err(e) => Err(e),
                    Ok(None) => Ok(before),
                    Ok(Some(m)) => Ok(before.push(m)),
                }
            },
        }
    }
}

/// The views of rows that were fetched for several chunks.
pub open spec fn page_models(v: Seq<Vec<RecordRow>>) -> Seq<Seq<RecordRowModel>> {
    Seq::new(v.len(), |i: int| row_models(v[i]@))
}

/// Whether no more results are wanted.
pub fn is_listing_full(found: usize, top_k: usize) -> (r: bool)
    ensures
        r == (found >= sql::at_least_one(top_k as int)),
{
    found >= result_limit(top_k)
}

fn materialize_chunk(
    candidate: &ChunkCandidate,
    rows: &Vec<RecordRow>,
    bm25_ranks: &TextMap<usize>,
    query: &str,
) -> (r: Result<Option<SearchResult>, ResultError>)
    requires
        bm25_ranks.wf(),
    ensures
        match chunk_result(candidate@, row_models(rows@), bm25_ranks@, query@) {
            Ok(None) => r matches Ok(None),
            Ok(Some(m)) => r matches Ok(Some(x)) && x@ == m,
            Err(e) => r is Err && r->Err_0@ == e,
        },
{
    let mut bases = match materialize_rows(rows, query) {
        Ok(v) => v,
        Err(e) => {
            return Err(e);
        },
    };
    let ghost models = protocol::result_models(bases@);
    let row = match bases.pop() {
        Some(x) => x,
        None => {
            return Ok(None);
        },
    };
    assert(models.last() == row@);
    let snippet = match try_make_snippet(candidate.chunk.text.as_str(), query) {
        Some(s) => s,
        None => {
            return Err(ResultError::Snippet);
        },
    };
    let mut out = row;
    out.result_id = candidate.chunk.chunk_id.clone();
    out.score = candidate.chunk.score;
    out.snippet = snippet;
    out.matched_chunk = Some(candidate.chunk.copy());
    out.scores =
        ScoreBreakdown {
            final_score: candidate.chunk.score,
            bm25_rank: copy_rank(bm25_ranks.get(out.record_id.as_str())),
            vector_rank: Some(candidate.rank),
            vector_score: Some(candidate.chunk.score),
        };
    Ok(Some(out))
}

proof fn lemma_chunk_results_fail(
    hits: Seq<CandidateModel>,
    pages: Seq<Seq<RecordRowModel>>,
    bm25_ranks: Seq<(Seq<char>, usize)>,
    query: Seq<char>,
    limit: int,
    n: int,
)
    requires
        0 <= n <= pages.len(),
        chunk_results(hits, pages.take(n), bm25_ranks, query, limit) is Err,
    ensures
        chunk_results(hits, pages, bm25_ranks, query, limit) == chunk_results(
            hits,
            pages.take(n),
            bm25_ranks,
            query,
            limit,
        ),
    decreases pages.len() - n,
{
    if n < pages.len() {
        assert(pages.take(n + 1).drop_last() =~= pages.take(n));
        lemma_chunk_results_fail(hits, pages, bm25_ranks, query, limit, n + 1);
    } else {
        assert(pages.take(n) =~= pages);
    }
}

/// The results that list chunks: one for each of the first chunks whose record was found, in
/// their order, as many as are wanted. `pages` holds the rows that were fetched for the records
/// of the first chunks.
pub fn materialize_chunk_results(
    pages: &Vec<Vec<RecordRow>>,
    req: &SearchRequest,
    candidates: &CandidateSearch,
) -> (r: Result<Vec<SearchResult>, ResultError>)
    requires
        candidates.wf(),
        pages@.len() <= candidates.vector_chunk_hits@.len(),
    ensures
        match chunk_results(
            search::candidate_models(candidates.vector_chunk_hits@),
            page_models(pages@),
            candidates.bm25_ranks@,
            req.query@,
            sql::at_least_one(req.top_k as int),
        ) {
            Ok(m) => r is Ok && protocol::result_models(r->Ok_0@) == m,
            Err(e) => r is Err && r->Err_0@ == e,
        },
{
    let ghost hits = search::candidate_models(candidates.vector_chunk_hits@);
    let ghost all = page_models(pages@);
    let ghost ranks = candidates.bm25_ranks@;
    let ghost limit = sql::at_least_one(req.top_k as int);
    let query = req.query.as_str();
    let mut out: Vec<SearchResult> = Vec::new();
    let mut i: usize = 0;
    assert(protocol::result_models(out@) =~= Seq::empty());
    while i < pages.len()
        invariant
            i <= pages@.len() <= candidates.vector_chunk_hits@.len(),
            candidates.wf(),
            hits == search::candidate_models(candidates.vector_chunk_hits@),
            all == page_models(pages@),
            ranks == candidates.bm25_ranks@,
            limit == sql::at_least_one(req.top_k as int),
            query@ == req.query@,
            chunk_results(hits, all.take(i as int), ranks, query@, limit) is Ok,
            protocol::result_models(out@) == chunk_results(
                hits,
                all.take(i as int),
                ranks,
                query@,
                limit,
            )->Ok_0,
        decreases pages@.len() - i,
    {
        let ghost before = protocol::result_models(out@);
        proof {
            assert(before.len() == out@.len());
            assert(all.take(i + 1).drop_last() =~= all.take(i as int));
            assert(all.take(i + 1).last() == row_models(pages@[i as int]@));
            assert(hits[i as int] == candidates.vector_chunk_hits@[i as int]@);
        }
        if !is_listing_full(out.len(), req.top_k) {
            match materialize_chunk(
                &candidates.vector_chunk_hits[i],
                &pages[i],
                &candidates.bm25_ranks,
                query,
            ) {
                Ok(Some(result)) => {
                    out.push(result);
                    assert(protocol::result_models(out@) =~= before.push(result@));
                },
                Ok(None) => {},
                Err(e) => {
                    proof {
                        lemma_chunk_results_fail(hits, all, ranks, query@, limit, i + 1);
                    }
                    return Err(e);
                },
            }
        }
        i = i + 1;
    }
    assert(all.take(i as int) =~= all);
    Ok(out)
}

proof fn lemma_row_results(rows: Seq<RecordRowModel>, query: Seq<char>)
    requires
        row_results(rows, query) is Ok,
    ensures
        row_results(rows, query)->Ok_0.len() == rows.len(),
        forall|i: int|
            0 <= i < rows.len() ==> row_result(#[trigger] rows[i], query) == Ok::<
                ResultModel,
                ResultErrorModel,
            >(row_results(rows, query)->Ok_0[i]),
    decreases rows.len(),
{
    if rows.len() > 0 {
        let shorter = rows.drop_last();
        lemma_row_results(shorter, query);
        assert forall|i: int| 0 <= i < rows.len() implies row_result(#[trigger] rows[i], query)
            == Ok::<ResultModel, ResultErrorModel>(row_results(rows, query)->Ok_0[i]) by {
            if i < shorter.len() {
                assert(shorter[i] == rows[i]);
            }
        }
    }
}

proof fn lemma_ranked_results(
    bases: Seq<ResultModel>,
    candidates: CandidateSearch,
    query: Seq<char>,
)
    requires
        ranked_results(bases, candidates, query) is Ok,
    ensures
        ranked_results(bases, candidates, query)->Ok_0.len() == bases.len(),
        forall|i: int|
            0 <= i < bases.len() ==> ranked_result(#[trigger] bases[i], candidates, query) == Ok::<
                ResultModel,
                ResultErrorModel,
            >(ranked_results(bases, candidates, query)->Ok_0[i]),
    decreases bases.len(),
{
    if bases.len() > 0 {
        let shorter = bases.drop_last();
        lemma_ranked_results(shorter, candidates, query);
        assert forall|i: int| 0 <= i < bases.len() implies ranked_result(
            #[trigger] bases[i],
            candidates,
            query,
        ) == Ok::<ResultModel, ResultErrorModel>(
            ranked_results(bases, candidates, query)->Ok_0[i],
        ) by {
            if i < shorter.len() {
                assert(shorter[i] == bases[i]);
            }
        }
    }
}

/// The statements that fetch the records of candidates: of as many as a statement takes where
/// records are listed, and of one after the other where chunks are listed.
pub open spec fn candidate_queries(candidates: CandidateSearch, req: SearchModel) -> Seq<
    QueryModel,
> {
    if req.result_granularity == ResultGranularity::Chunk {
        let hits = search::candidate_models(candidates.vector_chunk_hits@);
        Seq::new(hits.len(), |i: int| sql::record_query(hits[i].record_id, req.filters))
    } else {
        sql::page_queries(
            candidate_ids(search::ranked_models(candidates.ranked@)),
            req.filters,
        )
    }
}

/// The ids of candidates.
pub open spec fn candidate_ids(ranked: Seq<(Seq<char>, Score)>) -> Seq<Seq<char>> {
    Seq::new(ranked.len(), |i: int| ranked[i].0)
}

fn list_ids(ranked: &Vec<RankedId>) -> (r: Vec<String>)
    ensures
        text::texts(r@) == candidate_ids(search::ranked_models(ranked@)),
{
    let mut out: Vec<String> = Vec::new();
    let mut i: usize = 0;
    while i < ranked.len()
        invariant
            i <= ranked@.len(),
            out@.len() == i,
            forall|k: int| 0 <= k < i ==> (#[trigger] out@[k])@ == ranked@[k].record_id@,
        decreases ranked@.len() - i,
    {
        out.push(ranked[i].record_id.clone());
        i = i + 1;
    }
    assert(text::texts(out@) =~= candidate_ids(search::ranked_models(ranked@)));
    out
}

/// The statements that fetch the records of the candidates of a search. What each of them finds
/// is a page.
pub fn fetch_candidates(candidates: &CandidateSearch, req: &SearchRequest) -> (r: Vec<SqlQuery>)
    ensures
        sql::query_models(r@) == candidate_queries(*candidates, req@),
{
    if req.result_granularity == ResultGranularity::Chunk {
        let mut out: Vec<SqlQuery> = Vec::new();
        let mut i: usize = 0;
        while i < candidates.vector_chunk_hits.len()
            invariant
                i <= candidates.vector_chunk_hits@.len(),
                out@.len() == i,
                forall|k: int|
                    0 <= k < i ==> (#[trigger] out@[k])@ == sql::record_query(
                        candidates.vector_chunk_hits@[k]@.record_id,
                        req@.filters,
                    ),
            decreases candidates.vector_chunk_hits@.len() - i,
        {
            out.push(
                fetch_record(candidates.vector_chunk_hits[i].record_id.as_str(), &req.filters),
            );
            i = i + 1;
        }
        assert(sql::query_models(out@) =~= candidate_queries(*candidates, req@));
        out
    } else {
        fetch_records(&list_ids(&candidates.ranked), &req.filters)
    }
}

/// Whether another page is to be fetched for a search, where `found` pages had rows: where
/// chunks are listed, not once there are as many as are wanted.
pub fn wants_page(req: &SearchRequest, found: usize) -> (r: bool)
    ensures
        r == !(req.result_granularity == ResultGranularity::Chunk && found >= sql::at_least_one(
            req.top_k as int,
        )),
{
    req.result_granularity != ResultGranularity::Chunk || !is_listing_full(found, req.top_k)
}

/// The rows of pages, one page after the other.
pub open spec fn all_rows(pages: Seq<Seq<RecordRowModel>>) -> Seq<RecordRowModel>
    decreases pages.len(),
{
    if pages.len() == 0 {
        Seq::empty()
    } else {
        all_rows(pages.drop_last()) + pages.last()
    }
}

fn gather_rows(pages: &Vec<Vec<RecordRow>>) -> (r: Vec<RecordRow>)
    ensures
        row_models(r@) == all_rows(page_models(pages@)),
{
    let ghost all = page_models(pages@);
    let mut out: Vec<RecordRow> = Vec::new();
    let mut i: usize = 0;
    assert(row_models(out@) =~= all_rows(all.take(0)));
    while i < pages.len()
        invariant
            i <= pages@.len(),
            all == page_models(pages@),
            row_models(out@) == all_rows(all.take(i as int)),
        decreases pages@.len() - i,
    {
        let ghost before = row_models(out@);
        let page = &pages[i];
        let ghost rows = row_models(page@);
        let mut j: usize = 0;
        assert(row_models(out@) =~= before + rows.take(0));
        while j < page.len()
            invariant
                j <= page@.len(),
                rows == row_models(page@),
                row_models(out@) == before + rows.take(j as int),
            decreases page@.len() - j,
        {
            let ghost so_far = row_models(out@);
            let row = page[j].copy();
            out.push(row);
            proof {
                assert(row_models(out@) =~= so_far.push(row@));
                assert(rows[j as int] == row@);
                assert(row_models(out@) =~= before + rows.take(j + 1));
            }
            j = j + 1;
        }
        proof {
            assert(rows.take(j as int) =~= rows);
            assert(all.take(i + 1).drop_last() =~= all.take(i as int));
            assert(all.take(i + 1).last() == rows);
        }
        i = i + 1;
    }
    assert(all.take(i as int) =~= all);
    out
}

/// What a search finds, given the pages of rows that were fetched for its candidates: chunks or
/// records, as is wanted.
pub open spec fn found_results(
    pages: Seq<Seq<RecordRowModel>>,
    candidates: CandidateSearch,
    req: SearchModel,
) -> Result<Seq<ResultModel>, ResultErrorModel> {
    if req.result_granularity == ResultGranularity::Chunk {
        chunk_results(
            search::candidate_models(candidates.vector_chunk_hits@),
            pages,
            candidates.bm25_ranks@,
            req.query,
            sql::at_least_one(req.top_k),
        )
    } else {
        document_results(all_rows(pages), candidates, req.query, req.top_k)
    }
}

/// Whether the pages can have been fetched for the candidates of a search: where chunks are
/// listed, there is no more than one for each of them.
pub open spec fn can_have_fetched(
    pages: Seq<Seq<RecordRowModel>>,
    candidates: CandidateSearch,
    req: SearchModel,
) -> bool {
    req.result_granularity == ResultGranularity::Chunk ==> pages.len()
        <= candidates.vector_chunk_hits@.len()
}

/// What a search finds, given the pages of rows that were fetched for its candidates.
pub fn materialize_results(
    pages: &Vec<Vec<RecordRow>>,
    req: &SearchRequest,
    candidates: &CandidateSearch,
) -> (r: Result<Vec<SearchResult>, ResultError>)
    requires
        candidates.wf(),
        can_have_fetched(page_models(pages@), *candidates, req@),
    ensures
        match found_results(page_models(pages@), *candidates, req@) {
            Ok(m) => r is Ok && protocol::result_models(r->Ok_0@) == m,
            Err(e) => r is Err && r->Err_0@ == e,
        },
{
    if req.result_granularity == ResultGranularity::Chunk {
        materialize_chunk_results(pages, req, candidates)
    } else {
        materialize_ranked_ids(&gather_rows(pages), req, candidates)
    }
}

/// Whether one of the pages has rows.
pub open spec fn has_rows(pages: Seq<Seq<RecordRowModel>>) -> bool {
    exists|i: int| 0 <= i < pages.len() && (#[trigger] pages[i]).len() > 0
}

/// Whether the words of a query are looked for: where nothing was fetched for its candidates,
/// and the query is not blank.
pub open spec fn falls_back(pages: Seq<Seq<RecordRowModel>>, query: Seq<char>) -> bool {
    !has_rows(pages) && !text::is_blank(query)
}

/// The statement that looks for the words of a query, where they are looked for.
pub fn fallback_query(pages: &Vec<Vec<RecordRow>>, req: &SearchRequest) -> (r: Option<SqlQuery>)
    ensures
        match r {
            Some(query) => falls_back(page_models(pages@), req.query@) && query@
                == sql::like_query(req@),
            None => !falls_back(page_models(pages@), req.query@),
        },
        r is Some <==> !text::is_blank(req.query@) && forall|i: int|
            0 <= i < pages@.len() ==> (#[trigger] pages@[i])@.len() == 0,
{
    let ghost all = page_models(pages@);
    let mut i: usize = 0;
    while i < pages.len()
        invariant
            i <= pages@.len(),
            all == page_models(pages@),
            forall|k: int| 0 <= k < i ==> (#[trigger] all[k]).len() == 0,
        decreases pages@.len() - i,
    {
        assert(all[i as int] == row_models(pages@[i as int]@));
        if pages[i].len() > 0 {
            assert(all[i as int].len() > 0);
            assert(pages@[i as int]@.len() > 0);
            return None;
        }
        i = i + 1;
    }
    assert forall|k: int| 0 <= k < pages@.len() implies (#[trigger] pages@[k])@.len() == 0 by {
        assert(all[k] == row_models(pages@[k]@));
    }
    if is_blank_text(req.query.as_str()) {
        return None;
    }
    Some(search_like(req))
}

/// What a search lists: what was found for its candidates, or else what was found for the words
/// of its query, where that is not blank.
pub open spec fn listed_results(
    pages: Seq<Seq<RecordRowModel>>,
    fallback: Seq<RecordRowModel>,
    candidates: CandidateSearch,
    req: SearchModel,
) -> Result<Seq<ResultModel>, ResultErrorModel> {
    match found_results(pages, candidates, req) {
        Err(e) => Err(e),
        Ok(found) => if found.len() == 0 && !text::is_blank(req.query) {
            row_results(fallback, req.query)
        } else {
            Ok(found)
        },
    }
}

/// What a search lists, given the pages of rows that were fetched for its candidates and the
/// rows that were fetched for the words of its query.
pub fn list_results(
    pages: &Vec<Vec<RecordRow>>,
    fallback: &Vec<RecordRow>,
    req: &SearchRequest,
    candidates: &CandidateSearch,
) -> (r: Result<Vec<SearchResult>, ResultError>)
    requires
        candidates.wf(),
        can_have_fetched(page_models(pages@), *candidates, req@),
    ensures
        match listed_results(page_models(pages@), row_models(fallback@), *candidates, req@) {
            Ok(m) => r is Ok && protocol::result_models(r->Ok_0@) == m,
            Err(e) => r is Err && r->Err_0@ == e,
        },
{
    let found = match materialize_results(pages, req, candidates) {
        Ok(v) => v,
        Err(e) => {
            return Err(e);
        },
    };
    assert(protocol::result_models(found@).len() == found@.len());
    if found.len() == 0 && !is_blank_text(req.query.as_str()) {
        materialize_rows(fallback, req.query.as_str())
    } else {
        Ok(found)
    }
}

proof fn lemma_all_rows(pages: Seq<Seq<RecordRowModel>>)
    ensures
        all_rows(pages).len() > 0 <==> has_rows(pages),
    decreases pages.len(),
{
    if pages.len() > 0 {
        let shorter = pages.drop_last();
        lemma_all_rows(shorter);
        if has_rows(shorter) {
            let i = choose|i: int| 0 <= i < shorter.len() && (#[trigger] shorter[i]).len() > 0;
            assert(pages[i].len() > 0);
        }
        if pages.last().len() > 0 {
            assert(pages[pages.len() - 1].len() > 0);
        }
        if has_rows(pages) && !has_rows(shorter) {
            let i = choose|i: int| 0 <= i < pages.len() && (#[trigger] pages[i]).len() > 0;
            if i < shorter.len() {
                assert(shorter[i].len() > 0);
            }
        }
    }
}

proof fn lemma_chunks_found(
    hits: Seq<CandidateModel>,
    pages: Seq<Seq<RecordRowModel>>,
    bm25_ranks: Seq<(Seq<char>, usize)>,
    query: Seq<char>,
    limit: int,
)
    requires
        limit >= 1,
        chunk_results(hits, pages, bm25_ranks, query, limit) is Ok,
    ensures
        chunk_results(hits, pages, bm25_ranks, query, limit)->Ok_0.len() > 0 <==> has_rows(pages),
    decreases pages.len(),
{
    if pages.len() > 0 {
        let shorter = pages.drop_last();
        let n = pages.len() - 1;
        lemma_chunks_found(hits, shorter, bm25_ranks, query, limit);
        let before = chunk_results(hits, shorter, bm25_ranks, query, limit)->Ok_0;
        if before.len() < limit {
            lemma_row_results(pages.last(), query);
        }
        if has_rows(shorter) {
            let i = choose|i: int| 0 <= i < shorter.len() && (#[trigger] shorter[i]).len() > 0;
            assert(pages[i].len() > 0);
        } else {
            if pages.last().len() > 0 {
                assert(pages[n].len() > 0);
            }
            if has_rows(pages) {
                let i = choose|i: int| 0 <= i < pages.len() && (#[trigger] pages[i]).len() > 0;
                if i < n {
                    assert(shorter[i].len() > 0);
                }
            }
        }
    }
}

/// The words of a query are looked for exactly where nothing was found for its candidates and
/// the query is not blank; and what is listed is what was found by them.
pub proof fn law_fallback(
    pages: Seq<Seq<RecordRowModel>>,
    fallback: Seq<RecordRowModel>,
    candidates: CandidateSearch,
    req: SearchModel,
)
    requires
        found_results(pages, candidates, req) is Ok,
    ensures
        found_results(pages, candidates, req)->Ok_0.len() == 0 <==> !has_rows(pages),
        listed_results(pages, fallback, candidates, req) == (if falls_back(pages, req.query) {
            row_results(fallback, req.query)
        } else {
            found_results(pages, candidates, req)
        }),
{
    if req.result_granularity == ResultGranularity::Chunk {
        lemma_chunks_found(
            search::candidate_models(candidates.vector_chunk_hits@),
            pages,
            candidates.bm25_ranks@,
            req.query,
            sql::at_least_one(req.top_k),
        );
    } else {
        let rows = all_rows(pages);
        let bases = row_results(rows, req.query)->Ok_0;
        let all = ranked_results(bases, candidates, req.query)->Ok_0;
        lemma_all_rows(pages);
        lemma_row_results(rows, req.query);
        lemma_ranked_results(bases, candidates, req.query);
        order::law_falling_order(result_levels(all));
    }
}

/// Whether a result shows a record of the given rows.
pub open spec fn shows_row(rows: Seq<RecordRowModel>, result: ResultModel) -> bool {
    exists|i: int|
        0 <= i < rows.len() && (#[trigger] rows[i]).record_id == result.record_id
            && rows[i].payload_json == result.payload && rows[i].display_json == result.display
}

/// Whether a result shows the record with the given id.
pub open spec fn is_listed(results: Seq<ResultModel>, record_id: Seq<char>) -> bool {
    exists|i: int| 0 <= i < results.len() && (#[trigger] results[i]).record_id == record_id
}

/// A search for records lists as many results as are wanted, or as there are rows where these are
/// fewer, the better scores first. Each result shows a row that was fetched, under the record's
/// id, with the score that the record has among the candidates. No record is listed twice where
/// none was fetched twice, and none that is left out has a better score than one that is listed.
pub proof fn law_document_results(
    rows: Seq<RecordRowModel>,
    candidates: CandidateSearch,
    query: Seq<char>,
    top_k: int,
)
    requires
        document_results(rows, candidates, query, top_k) is Ok,
    ensures
        ({
            let results = document_results(rows, candidates, query, top_k)->Ok_0;
            &&& results.len() == (if rows.len() < sql::at_least_one(top_k) {
                rows.len() as int
            } else {
                sql::at_least_one(top_k)
            })
            &&& (forall|i: int, j: int|
                0 <= i < j < rows.len() ==> (#[trigger] rows[i]).record_id != (
                #[trigger] rows[j]).record_id) ==> forall|i: int, j: int|
                0 <= i < j < results.len() ==> (#[trigger] results[i]).record_id != (
                #[trigger] results[j]).record_id
            &&& forall|k: int, i: int|
                0 <= k < rows.len() && 0 <= i < results.len() && !is_listed(
                    results,
                    (#[trigger] rows[k]).record_id,
                ) ==> (#[trigger] results[i]).score.level() >= score_of(
                    search::ranked_models(candidates.ranked@),
                    rows[k].record_id,
                ).level()
            &&& forall|i: int, j: int|
                0 <= i < j < results.len() ==> (#[trigger] results[i]).score.level() >= (
                #[trigger] results[j]).score.level()
            &&& forall|i: int|
                0 <= i < results.len() ==> {
                    let m = #[trigger] results[i];
                    &&& shows_row(rows, m)
                    &&& m.result_id == m.record_id
                    &&& m.score == score_of(
                        search::ranked_models(candidates.ranked@),
                        m.record_id,
                    )
                    &&& m.scores.final_score == m.score
                }
        }),
{
    let bases = row_results(rows, query)->Ok_0;
    let all = ranked_results(bases, candidates, query)->Ok_0;
    let results = document_results(rows, candidates, query, top_k)->Ok_0;
    let keys = result_levels(all);
    let listing = order::falling_order(keys);
    let sorted = order::listed(all, listing);
    lemma_row_results(rows, query);
    lemma_ranked_results(bases, candidates, query);
    order::law_falling_order(keys);
    assert forall|i: int, j: int| 0 <= i < j < results.len() implies (
    #[trigger] results[i]).score.level() >= (#[trigger] results[j]).score.level() by {
        order::lemma_listed(all, keys, i, j);
        assert(results[i] == sorted[i] && results[j] == sorted[j]);
    }
    assert forall|k: int| 0 <= k < rows.len() implies (#[trigger] rows[k]).record_id
        == all[k].record_id && all[k].score == score_of(
        search::ranked_models(candidates.ranked@),
        rows[k].record_id,
    ) by {
        assert(row_result(rows[k], query) == Ok::<ResultModel, ResultErrorModel>(bases[k]));
        assert(ranked_result(bases[k], candidates, query) == Ok::<ResultModel, ResultErrorModel>(
            all[k],
        ));
    }
    if forall|i: int, j: int|
        0 <= i < j < rows.len() ==> (#[trigger] rows[i]).record_id != (
        #[trigger] rows[j]).record_id {
        assert forall|i: int, j: int| 0 <= i < j < results.len() implies (
        #[trigger] results[i]).record_id != (#[trigger] results[j]).record_id by {
            let x = listing[i];
            let y = listing[j];
            assert(results[i] == all[x] && results[j] == all[y]);
            assert(rows[x].record_id == all[x].record_id && rows[y].record_id == all[y].record_id);
            if x < y {
                assert(rows[x].record_id != rows[y].record_id);
            } else {
                assert(rows[y].record_id != rows[x].record_id);
            }
        }
    }
    assert forall|k: int, i: int|
        0 <= k < rows.len() && 0 <= i < results.len() && !is_listed(
            results,
            (#[trigger] rows[k]).record_id,
        ) implies (#[trigger] results[i]).score.level() >= score_of(
        search::ranked_models(candidates.ranked@),
        rows[k].record_id,
    ).level() by {
        assert(listing.contains(k));
        let p = choose|p: int| 0 <= p < listing.len() && listing[p] == k;
        assert(sorted[p] == all[k]);
        assert(results[i] == sorted[i]);
        if p < results.len() {
            assert(results[p].record_id == rows[k].record_id);
            assert(is_listed(results, rows[k].record_id));
        } else {
            order::lemma_listed(all, keys, i, p);
        }
    }
    assert forall|i: int| 0 <= i < results.len() implies {
        let m = #[trigger] results[i];
        &&& shows_row(rows, m)
        &&& m.result_id == m.record_id
        &&& m.score == score_of(search::ranked_models(candidates.ranked@), m.record_id)
        &&& m.scores.final_score == m.score
    } by {
        let at = listing[i];
        assert(results[i] == sorted[i]);
        assert(results[i] == all[at]);
        assert(ranked_result(bases[at], candidates, query) == Ok::<ResultModel, ResultErrorModel>(
            all[at],
        ));
        assert(row_result(rows[at], query) == Ok::<ResultModel, ResultErrorModel>(bases[at]));
        assert(rows[at].record_id == results[i].record_id);
    }
}

/// A search for chunks lists no more results than are wanted, and each of them shows one of the
/// chunks that were hit, with its score and its rank.
pub proof fn law_chunk_results(
    hits: Seq<CandidateModel>,
    pages: Seq<Seq<RecordRowModel>>,
    bm25_ranks: Seq<(Seq<char>, usize)>,
    query: Seq<char>,
    limit: int,
)
    requires
        pages.len() <= hits.len(),
        limit >= 0,
        chunk_results(hits, pages, bm25_ranks, query, limit) is Ok,
    ensures
        ({
            let results = chunk_results(hits, pages, bm25_ranks, query, limit)->Ok_0;
            &&& results.len() <= limit
            &&& forall|i: int|
                0 <= i < results.len() ==> shows_hit(hits, pages.len() as int, #[trigger] results[i])
        }),
    decreases pages.len(),
{
    if pages.len() > 0 {
        let shorter = pages.drop_last();
        let n = pages.len() - 1;
        law_chunk_results(hits, shorter, bm25_ranks, query, limit);
        let before = chunk_results(hits, shorter, bm25_ranks, query, limit)->Ok_0;
        let results = chunk_results(hits, pages, bm25_ranks, query, limit)->Ok_0;
        assert forall|i: int| 0 <= i < results.len() implies shows_hit(
            hits,
            pages.len() as int,
            #[trigger] results[i],
        ) by {
            if i < before.len() {
                assert(before[i] == results[i]);
                let k = choose|k: int| is_shown_hit(hits, n, results[i], k);
                assert(is_shown_hit(hits, pages.len() as int, results[i], k));
            } else {
                assert(is_shown_hit(hits, pages.len() as int, results[i], n));
            }
        }
    }
}

/// Whether a result shows the `k`-th of the first `n` chunks that were hit.
pub open spec fn is_shown_hit(
    hits: Seq<CandidateModel>,
    n: int,
    result: ResultModel,
    k: int,
) -> bool {
    &&& 0 <= k < n
    &&& result.result_id == hits[k].chunk.chunk_id
    &&& result.matched_chunk == Some(hits[k].chunk)
    &&& result.score == hits[k].chunk.score
    &&& result.scores.vector_rank == Some(hits[k].rank as usize)
}

/// Whether a result shows one of the first `n` chunks that were hit.
pub open spec fn shows_hit(hits: Seq<CandidateModel>, n: int, result: ResultModel) -> bool {
    exists|k: int| is_shown_hit(hits, n, result, k)
}

/// Whether a result lists a chunk that was hit, given the rows that were fetched for the record of
/// the chunk and the ranking of the text index: it has the id, the score and the rank of the chunk,
/// its snippet is cut from the chunk, it shows a row of the chunk's record, and its rank among the
/// texts is the place of that record in the ranking.
pub open spec fn lists_chunk(
    result: ResultModel,
    hit: CandidateModel,
    rows: Seq<RecordRowModel>,
    ranking: Seq<Seq<char>>,
    query: Seq<char>,
) -> bool {
    &&& rows.len() > 0
    &&& result.result_id == hit.chunk.chunk_id
    &&& result.record_id == hit.record_id
    &&& shows_row(rows, result)
    &&& result.score == hit.chunk.score
    &&& result.matched_chunk == Some(hit.chunk)
    &&& result.snippet == snippet::snippet(hit.chunk.text, query)
    &&& result.scores.final_score == hit.chunk.score
    &&& result.scores.vector_score == Some(hit.chunk.score)
    &&& result.scores.vector_rank == Some(hit.rank as usize)
    &&& match result.scores.bm25_rank {
        Some(n) => 1 <= n <= ranking.len() && ranking[n - 1] == hit.record_id,
        None => !ranking.contains(hit.record_id),
    }
}

/// The results of a search for chunks are the chunks that were hit and whose records were fetched,
/// in the order of the hits and each at most once, as many as are wanted: `places` says which hit
/// each of the results lists. Each shows the record that its chunk is of, and the place of that
/// record in the ranking of the text index.
pub open spec fn lists_chunks(
    results: Seq<ResultModel>,
    places: Seq<int>,
    hits: Seq<CandidateModel>,
    pages: Seq<Seq<RecordRowModel>>,
    ranking: Seq<Seq<char>>,
    query: Seq<char>,
    limit: int,
) -> bool {
    &&& places.len() == results.len()
    &&& results.len() <= limit
    &&& forall|i: int| 0 <= i < places.len() ==> 0 <= #[trigger] places[i] < pages.len()
    &&& forall|i: int, j: int|
        0 <= i < j < places.len() ==> #[trigger] places[i] < #[trigger] places[j]
    &&& forall|i: int|
        0 <= i < results.len() ==> lists_chunk(
            #[trigger] results[i],
            hits[places[i]],
            pages[places[i]],
            ranking,
            query,
        )
    &&& results.len() < limit ==> forall|k: int|
        0 <= k < pages.len() && (#[trigger] pages[k]).len() > 0 ==> places.contains(k)
}

/// A search for chunks lists the chunks that were hit, in their order, each with the record that
/// it is of and with the place of that record in the ranking of the text index; it leaves out only
/// those whose record was not fetched, and those for which there is no room.
pub proof fn law_chunks_are_listed(
    hits: Seq<CandidateModel>,
    pages: Seq<Seq<RecordRowModel>>,
    bm25_ranks: Seq<(Seq<char>, usize)>,
    ranking: Seq<Seq<char>>,
    query: Seq<char>,
    limit: int,
) -> (places: Seq<int>)
    requires
        pages.len() <= hits.len(),
        limit >= 0,
        chunk_results(hits, pages, bm25_ranks, query, limit) is Ok,
        forall|k: int, j: int|
            0 <= k < pages.len() && 0 <= j < pages[k].len() ==> (
            #[trigger] pages[k][j]).record_id == hits[k].record_id,
        forall|id: Seq<char>|
            search::is_place(ranking, id, #[trigger] text_map::value_of(bm25_ranks, id)),
    ensures
        lists_chunks(
            chunk_results(hits, pages, bm25_ranks, query, limit)->Ok_0,
            places,
            hits,
            pages,
            ranking,
            query,
            limit,
        ),
    decreases pages.len(),
{
    let results = chunk_results(hits, pages, bm25_ranks, query, limit)->Ok_0;
    if pages.len() == 0 {
        Seq::empty()
    } else {
        let shorter = pages.drop_last();
        let n = pages.len() - 1;
        let before = chunk_results(hits, shorter, bm25_ranks, query, limit)->Ok_0;
        assert forall|k: int, j: int| 0 <= k < shorter.len() && 0 <= j < shorter[k].len() implies (
        #[trigger] shorter[k][j]).record_id == hits[k].record_id by {
            assert(pages[k][j].record_id == hits[k].record_id);
        }
        let at = law_chunks_are_listed(hits, shorter, bm25_ranks, ranking, query, limit);
        let rows = pages.last();
        if before.len() < limit {
            lemma_row_results(rows, query);
        }
        if results.len() == before.len() {
            assert(results == before);
            assert forall|i: int| 0 <= i < results.len() implies lists_chunk(
                #[trigger] results[i],
                hits[at[i]],
                pages[at[i]],
                ranking,
                query,
            ) by {
                assert(0 <= at[i] < shorter.len());
                assert(shorter[at[i]] == pages[at[i]]);
            }
            if results.len() < limit {
                assert(rows.len() == 0);
                assert forall|k: int| 0 <= k < pages.len() && (
                #[trigger] pages[k]).len() > 0 implies at.contains(k) by {
                    assert(shorter[k].len() > 0);
                }
            }
            at
        } else {
            let places = at.push(n);
            let last = rows.len() - 1;
            assert(results == before.push(results.last()));
            assert(rows.len() > 0);
            let bases = row_results(rows, query)->Ok_0;
            assert(row_result(rows[last], query) == Ok::<ResultModel, ResultErrorModel>(
                bases[last],
            ));
            assert(pages[n][last].record_id == hits[n].record_id);
            let rank = text_map::value_of(bm25_ranks, hits[n].record_id);
            assert(search::is_place(ranking, hits[n].record_id, rank));
            assert(rows[last].record_id == results.last().record_id);
            assert(shows_row(rows, results.last()));
            assert(lists_chunk(results.last(), hits[n], rows, ranking, query));
            assert forall|i: int| 0 <= i < results.len() implies lists_chunk(
                #[trigger] results[i],
                hits[places[i]],
                pages[places[i]],
                ranking,
                query,
            ) by {
                if i < before.len() {
                    assert(results[i] == before[i]);
                    assert(0 <= at[i] < shorter.len());
                    assert(shorter[at[i]] == pages[at[i]]);
                }
            }
            assert forall|k: int| 0 <= k < pages.len() && (
            #[trigger] pages[k]).len() > 0 && results.len() < limit implies places.contains(k) by {
                if k < n {
                    assert(shorter[k].len() > 0);
                    let i = choose|i: int| 0 <= i < at.len() && at[i] == k;
                    assert(places[i] == k);
                } else {
                    assert(places[at.len() as int] == k);
                }
            }
            assert forall|i: int, j: int| 0 <= i < j < places.len() implies #[trigger] places[i]
                < #[trigger] places[j] by {
                if j < at.len() {
                    assert(at[i] < at[j]);
                } else {
                    assert(0 <= at[i] < shorter.len());
                }
            }
            places
        }
    }
}

/// Whether a result lists a record that was fetched, given the rankings of the text index and of
/// the vector index and the chunk by which the vector index found the record: its ranks are the
/// places of the record in the rankings, and where there is such a chunk, the result shows it with
/// its score, and its snippet is cut from it; else the snippet is cut from the text of the record.
pub open spec fn lists_record(
    result: ResultModel,
    row: RecordRowModel,
    chunk: Option<protocol::MatchModel>,
    texts: Seq<Seq<char>>,
    vectors: Seq<Seq<char>>,
    query: Seq<char>,
) -> bool {
    &&& result.record_id == row.record_id
    &&& result.result_id == row.record_id
    &&& result.display == row.display_json
    &&& result.payload == row.payload_json
    &&& result.scores.final_score == result.score
    &&& result.matched_chunk == chunk
    &&& match result.scores.bm25_rank {
        Some(n) => 1 <= n <= texts.len() && texts[n - 1] == row.record_id,
        None => !texts.contains(row.record_id),
    }
    &&& match result.scores.vector_rank {
        Some(n) => 1 <= n <= vectors.len() && vectors[n - 1] == row.record_id,
        None => !vectors.contains(row.record_id),
    }
    &&& match chunk {
        Some(c) => result.scores.vector_score == Some(c.score) && result.snippet
            == snippet::snippet(c.text, query),
        None => result.scores.vector_score is None && result.snippet == snippet::snippet(
            row.searchable_text,
            query,
        ),
    }
}

/// Each result of a search for records lists a record that was fetched, with its places in the
/// rankings and with the chunk by which the vector index found it.
pub proof fn law_records_are_listed(
    rows: Seq<RecordRowModel>,
    candidates: CandidateSearch,
    texts: Seq<Seq<char>>,
    vectors: Seq<Seq<char>>,
    query: Seq<char>,
    top_k: int,
    i: int,
) -> (k: int)
    requires
        document_results(rows, candidates, query, top_k) is Ok,
        0 <= i < document_results(rows, candidates, query, top_k)->Ok_0.len(),
        forall|id: Seq<char>|
            search::is_place(texts, id, #[trigger] text_map::value_of(candidates.bm25_ranks@, id)),
        forall|id: Seq<char>|
            search::is_place(
                vectors,
                id,
                #[trigger] text_map::value_of(candidates.vector_ranks@, id),
            ),
    ensures
        0 <= k < rows.len(),
        lists_record(
            document_results(rows, candidates, query, top_k)->Ok_0[i],
            rows[k],
            search::chunk_at(candidates.vector_chunks@, rows[k].record_id),
            texts,
            vectors,
            query,
        ),
{
    let bases = row_results(rows, query)->Ok_0;
    let all = ranked_results(bases, candidates, query)->Ok_0;
    let results = document_results(rows, candidates, query, top_k)->Ok_0;
    let keys = result_levels(all);
    let listing = order::falling_order(keys);
    let sorted = order::listed(all, listing);
    lemma_row_results(rows, query);
    lemma_ranked_results(bases, candidates, query);
    order::law_falling_order(keys);
    let k = listing[i];
    assert(results[i] == sorted[i]);
    assert(results[i] == all[k]);
    assert(ranked_result(bases[k], candidates, query) == Ok::<ResultModel, ResultErrorModel>(
        all[k],
    ));
    assert(row_result(rows[k], query) == Ok::<ResultModel, ResultErrorModel>(bases[k]));
    let id = rows[k].record_id;
    assert(search::is_place(texts, id, text_map::value_of(candidates.bm25_ranks@, id)));
    assert(search::is_place(vectors, id, text_map::value_of(candidates.vector_ranks@, id)));
    k
}

/// Once there are as many results as are wanted, nothing that is fetched for further chunks
/// changes them.
pub proof fn law_full_listing_stays(
    hits: Seq<CandidateModel>,
    pages: Seq<Seq<RecordRowModel>>,
    bm25_ranks: Seq<(Seq<char>, usize)>,
    query: Seq<char>,
    limit: int,
    n: int,
)
    requires
        0 <= n <= pages.len(),
        chunk_results(hits, pages.take(n), bm25_ranks, query, limit) is Ok,
        chunk_results(hits, pages.take(n), bm25_ranks, query, limit)->Ok_0.len() >= limit,
    ensures
        chunk_results(hits, pages, bm25_ranks, query, limit) == chunk_results(
            hits,
            pages.take(n),
            bm25_ranks,
            query,
            limit,
        ),
    decreases pages.len() - n,
{
    if n < pages.len() {
        assert(pages.take(n + 1).drop_last() =~= pages.take(n));
        law_full_listing_stays(hits, pages, bm25_ranks, query, limit, n + 1);
    } else {
        assert(pages.take(n) =~= pages);
    }
}

/// Rows that are listed as they are become one result each, in their order: each shows its row with
/// the row's own score and without ranks, and its snippet is cut from the text of the record.
pub proof fn law_rows_are_listed(rows: Seq<RecordRowModel>, query: Seq<char>)
    requires
        row_results(rows, query) is Ok,
    ensures
        row_results(rows, query)->Ok_0.len() == rows.len(),
        forall|i: int|
            0 <= i < rows.len() ==> {
                let m = #[trigger] row_results(rows, query)->Ok_0[i];
                &&& m.record_id == rows[i].record_id
                &&& m.result_id == rows[i].record_id
                &&& m.display == rows[i].display_json
                &&& m.payload == rows[i].payload_json
                &&& m.snippet == snippet::snippet(rows[i].searchable_text, query)
                &&& m.score == rows[i].score
                &&& m.scores.final_score == rows[i].score
                &&& m.scores.bm25_rank is None
                &&& m.scores.vector_rank is None
                &&& m.scores.vector_score is None
                &&& m.matched_chunk is None
            },
{
    lemma_row_results(rows, query);
    let all = row_results(rows, query)->Ok_0;
    assert forall|i: int| 0 <= i < rows.len() implies {
        let m = #[trigger] all[i];
        &&& m.record_id == rows[i].record_id
        &&& m.result_id == rows[i].record_id
        &&& m.display == rows[i].display_json
        &&& m.payload == rows[i].payload_json
        &&& m.snippet == snippet::snippet(rows[i].searchable_text, query)
        &&& m.score == rows[i].score
        &&& m.scores.final_score == rows[i].score
        &&& m.scores.bm25_rank is None
        &&& m.scores.vector_rank is None
        &&& m.scores.vector_score is None
        &&& m.matched_chunk is None
    } by {
        assert(row_result(rows[i], query) == Ok::<ResultModel, ResultErrorModel>(all[i]));
    }
}

/// Rows are not listed exactly where one of them cannot be shown: what it displays is no JSON, no
/// snippet can be cut from its text, or its payload is no JSON.
pub proof fn law_rows_that_cannot_be_listed(rows: Seq<RecordRowModel>, query: Seq<char>)
    ensures
        row_results(rows, query) is Err <==> exists|i: int|
            0 <= i < rows.len() && is_unfit(#[trigger] rows[i], query),
    decreases rows.len(),
{
    if rows.len() > 0 {
        let shorter = rows.drop_last();
        let last = rows.len() - 1;
        law_rows_that_cannot_be_listed(shorter, query);
        if row_results(shorter, query) is Err {
            let i = choose|i: int| 0 <= i < shorter.len() && is_unfit(#[trigger] shorter[i], query);
            assert(is_unfit(rows[i], query));
        } else {
            assert(is_unfit(rows[last], query) <==> row_result(rows.last(), query) is Err);
            if exists|i: int| 0 <= i < rows.len() && is_unfit(#[trigger] rows[i], query) {
                let i = choose|i: int| 0 <= i < rows.len() && is_unfit(#[trigger] rows[i], query);
                if i < last {
                    assert(is_unfit(shorter[i], query));
                }
            }
        }
    }
}

/// Whether a row cannot be shown.
pub open spec fn is_unfit(row: RecordRowModel, query: Seq<char>) -> bool {
    ||| json::json_outcome(vstd::utf8::encode_utf8(row.display_json)) is Err
    ||| json::json_outcome(vstd::utf8::encode_utf8(row.payload_json)) is Err
    ||| !snippet::has_snippet(row.searchable_text, query)
}

/// The candidates of a search keep their own scores: of one ranking they come as they stand, all of
/// them; of several each that comes is one of them.
pub proof fn law_candidates_keep_their_scores(
    items: Seq<FusedModel>,
    scores: Seq<Score>,
    rankings: Seq<Seq<Seq<char>>>,
    limit: int,
)
    requires
        items.len() == scores.len(),
        limit >= 0,
    ensures
        ({
            let ranked = ranked_candidates(items, scores, rankings, limit);
            &&& rankings.len() == 1 ==> ranked.len() == items.len() && forall|i: int|
                0 <= i < items.len() ==> (#[trigger] ranked[i]).0 == items[i].record_id && ranked[i].1
                    == scores[i]
            &&& rankings.len() != 1 ==> forall|i: int|
                0 <= i < ranked.len() ==> is_candidate(items, scores, #[trigger] ranked[i])
        }),
{
    let ranked = ranked_candidates(items, scores, rankings, limit);
    if rankings.len() != 1 {
        let keys = search::levels(scores);
        let listing = order::falling_order(keys);
        order::law_falling_order(keys);
        let all = search::scored(items, scores);
        let sorted = order::listed(all, listing);
        assert forall|i: int| 0 <= i < ranked.len() implies is_candidate(
            items,
            scores,
            #[trigger] ranked[i],
        ) by {
            let k = listing[i];
            assert(ranked[i] == sorted[i]);
            assert(0 <= k < items.len());
            assert(ranked[i] == all[k]);
            assert(items[k].record_id == ranked[i].0);
        }
    }
}

/// Whether an id with its score is one of the items with its score.
pub open spec fn is_candidate(
    items: Seq<FusedModel>,
    scores: Seq<Score>,
    ranked: (Seq<char>, Score),
) -> bool {
    exists|k: int|
        0 <= k < items.len() && (#[trigger] items[k]).record_id == ranked.0 && scores[k] == ranked.1
}

/// A search for chunks asks for the record of each chunk that was hit, in the order of the hits, and
/// only as far as it meets the filters.
pub proof fn law_records_of_hits_are_asked_for(
    candidates: CandidateSearch,
    req: SearchModel,
    i: int,
)
    requires
        req.result_granularity == ResultGranularity::Chunk,
        0 <= i < candidates.vector_chunk_hits@.len(),
    ensures
        ({
            let queries = candidate_queries(candidates, req);
            let hit = candidates.vector_chunk_hits@[i];
            &&& queries.len() == candidates.vector_chunk_hits@.len()
            &&& queries[i].args == seq![sql::ArgModel::Text(hit.record_id@)] + sql::filter_args(
                req.filters,
            )
            &&& queries[i].sql == sql::record_query(hit.record_id@, Seq::empty()).sql
                + sql::filter_sql(req.filters)
        }),
{
    assert(sql::filter_sql(Seq::empty()) =~= Seq::empty());
    assert(candidate_queries(candidates, req)[i].sql =~= sql::record_query(
        candidates.vector_chunk_hits@[i].record_id@,
        Seq::empty(),
    ).sql + sql::filter_sql(req.filters));
}

/// What was found for the candidates of a search is listed wherever there is any of it, and for a
/// blank query in any case; the rows that were found for the words of the query are listed only
/// where no page has rows and the query is not blank.
pub proof fn law_words_are_the_last_resort(
    pages: Seq<Seq<RecordRowModel>>,
    fallback: Seq<RecordRowModel>,
    candidates: CandidateSearch,
    req: SearchModel,
)
    requires
        found_results(pages, candidates, req) is Ok,
    ensures
        text::is_blank(req.query) ==> listed_results(pages, fallback, candidates, req)
            == found_results(pages, candidates, req),
        (exists|i: int| 0 <= i < pages.len() && (#[trigger] pages[i]).len() > 0)
            ==> listed_results(pages, fallback, candidates, req) == found_results(
            pages,
            candidates,
            req,
        ) && found_results(pages, candidates, req)->Ok_0.len() > 0,
        !text::is_blank(req.query) && (forall|i: int|
            0 <= i < pages.len() ==> (#[trigger] pages[i]).len() == 0) ==> listed_results(
            pages,
            fallback,
            candidates,
            req,
        ) == row_results(fallback, req.query),
{
    law_fallback(pages, fallback, candidates, req);
}

/// The rows of pages are all of theirs, one page after the other.
pub proof fn law_all_rows(pages: Seq<Seq<RecordRowModel>>)
    ensures
        all_rows(pages) == pages.flatten(),
        all_rows(Seq::empty()).len() == 0,
    decreases pages.len(),
{
    if pages.len() > 0 {
        let shorter = pages.drop_last();
        law_all_rows(shorter);
        assert(pages =~= shorter + seq![pages.last()]);
        pages.lemma_flatten_and_flatten_alt_are_equivalent();
        shorter.lemma_flatten_and_flatten_alt_are_equivalent();
        assert(pages.flatten_alt() =~= shorter.flatten_alt() + pages.last());
    } else {
        assert(pages.flatten() =~= Seq::empty());
        assert(all_rows(pages) =~= Seq::empty());
    }
}

/// Rows that cannot be listed are refused for the first of them that cannot be shown, and for the
/// first of the reasons that it has: what it displays, its text, its payload.
pub proof fn law_first_unfit_row(rows: Seq<RecordRowModel>, query: Seq<char>) -> (i: int)
    requires
        row_results(rows, query) is Err,
    ensures
        0 <= i < rows.len(),
        forall|k: int| 0 <= k < i ==> !is_unfit(#[trigger] rows[k], query),
        ({
            let display = json::json_outcome(vstd::utf8::encode_utf8(rows[i].display_json));
            let payload = json::json_outcome(vstd::utf8::encode_utf8(rows[i].payload_json));
            let e = row_results(rows, query)->Err_0;
            if display is Err {
                e == ResultErrorModel::Display(display->Err_0)
            } else if !snippet::has_snippet(rows[i].searchable_text, query) {
                e == ResultErrorModel::Snippet
            } else {
                payload is Err && e == ResultErrorModel::Payload(payload->Err_0)
            }
        }),
    decreases rows.len(),
{
    let shorter = rows.drop_last();
    let last = rows.len() - 1;
    if row_results(shorter, query) is Err {
        let i = law_first_unfit_row(shorter, query);
        assert(shorter[i] == rows[i]);
        assert forall|k: int| 0 <= k < i implies !is_unfit(#[trigger] rows[k], query) by {
            assert(shorter[k] == rows[k]);
        }
        i
    } else {
        law_rows_that_cannot_be_listed(shorter, query);
        assert forall|k: int| 0 <= k < last implies !is_unfit(#[trigger] rows[k], query) by {
            assert(shorter[k] == rows[k]);
        }
        last
    }
}

/// The rankings that candidates are made of are those that were found, that of the text index first.
pub proof fn law_found_rankings(
    text_hits: Option<Vec<String>>,
    vector: Option<VectorCandidates>,
)
    ensures
        text_hits is Some && vector is Some ==> found_rankings(text_hits, vector) == seq![
            text::texts(text_hits->0@),
            text::texts(vector->0.ranking@),
        ],
        text_hits is Some && vector is None ==> found_rankings(text_hits, vector) == seq![
            text::texts(text_hits->0@),
        ],
        text_hits is None && vector is Some ==> found_rankings(text_hits, vector) == seq![
            text::texts(vector->0.ranking@),
        ],
        text_hits is None && vector is None ==> found_rankings(text_hits, vector).len() == 0,
{
    if text_hits is Some && vector is Some {
        assert(found_rankings(text_hits, vector) =~= seq![
            text::texts(text_hits->0@),
            text::texts(vector->0.ranking@),
        ]);
    } else if text_hits is Some {
        assert(found_rankings(text_hits, vector) =~= seq![text::texts(text_hits->0@)]);
    } else if vector is Some {
        assert(found_rankings(text_hits, vector) =~= seq![text::texts(vector->0.ranking@)]);
    }
}

/// A search for records asks for every candidate, in the order of the candidates, and only as far as
/// it meets the filters: the ids of the statements, one after the other, are those of the candidates.
pub proof fn law_candidates_are_asked_for(candidates: CandidateSearch, req: SearchModel) -> (pages:
    Seq<Seq<Seq<char>>>)
    requires
        req.result_granularity == ResultGranularity::Document,
    ensures
        pages.flatten() == Seq::new(
            candidates.ranked@.len(),
            |i: int| candidates.ranked@[i].record_id@,
        ),
        candidate_queries(candidates, req).len() == pages.len(),
        forall|i: int|
            0 <= i < pages.len() ==> candidate_queries(candidates, req)[i] == sql::page_query(
                #[trigger] pages[i],
                req.filters,
            ),
{
    let ids = candidate_ids(search::ranked_models(candidates.ranked@));
    sql::law_pages(ids, req.filters);
    assert(ids =~= Seq::new(
        candidates.ranked@.len(),
        |i: int| candidates.ranked@[i].record_id@,
    ));
    sql::pages(ids)
}

} // verus!
