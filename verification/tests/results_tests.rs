use hybrid_shared_core::order::Score;
use hybrid_shared_core::protocol::{
    MatchedChunk, ResultGranularity, ScoreBreakdown, SearchMode, SearchRequest,
};
use hybrid_shared_core::results::{
    candidate_lists, fallback_query, fetch_candidates, fuse_hits, is_listing_full, list_results,
    materialize_chunk_results, materialize_ranked_ids, materialize_results, materialize_rows,
    search_candidates, wants_page, CandidateSearch, RecordRow, ResultError,
};
use hybrid_shared_core::search::{
    aggregate_vector_hits, ChunkRow, HitRow, VectorCandidates,
};
use hybrid_shared_core::text_map::TextMap;

fn score(value: f32) -> Score {
    Score { bits: value.to_bits() }
}

fn row(id: &str, text: &str) -> RecordRow {
    RecordRow {
        record_id: id.to_string(),
        display_json: format!("{{\"id\":\"{id}\"}}"),
        payload_json: "{}".to_string(),
        searchable_text: text.to_string(),
        score: score(-0.0),
    }
}

fn request(query: &str, top_k: usize) -> SearchRequest {
    SearchRequest {
        request_id: "r".to_string(),
        client_id: "c".to_string(),
        dataset_id: "d".to_string(),
        query: query.to_string(),
        top_k,
        filters: TextMap::new(),
        search_mode: SearchMode::Hybrid,
        result_granularity: ResultGranularity::Document,
    }
}

fn vectors() -> VectorCandidates {
    let hit = |id: &str, value: f32, record: &str, text: &str| HitRow {
        id: id.to_string(),
        score: score(value),
        row: Some(ChunkRow {
            record_id: record.to_string(),
            chunk_index: 0,
            start_char: 0,
            end_char: 0,
            text: text.to_string(),
        }),
        matches: true,
    };
    aggregate_vector_hits(
        true,
        &vec![
            hit("b#chunk-0", 0.9, "b", "chunk of b"),
            hit("a#chunk-1", 0.8, "a", "chunk of a"),
            hit("b#chunk-1", 0.7, "b", "more of b"),
        ],
    )
}

fn candidates() -> CandidateSearch {
    let text_hits = Some(vec!["c".to_string(), "a".to_string()]);
    let vector = Some(vectors());
    let items = fuse_hits(&text_hits, &vector, 5);
    let ids: Vec<&str> = items.iter().map(|item| item.record_id.as_str()).collect();
    assert_eq!(ids, vec!["a", "b", "c"]);
    assert_eq!(items[0].terms, vec![62, 62]);
    let scores = vec![score(0.5), score(0.25), score(0.25)];
    search_candidates(text_hits, vector, &items, &scores, 5)
}

#[test]
fn rows_become_results() {
    let results = materialize_rows(&vec![row("a", "some text")], "text").unwrap();
    let r = &results[0];
    assert_eq!(r.result_id, "a");
    assert_eq!(r.record_id, "a");
    assert_eq!(r.display, "{\"id\":\"a\"}");
    assert_eq!(r.payload, "{}");
    assert_eq!(r.snippet, "some text");
    assert!(r.matched_chunk.is_none());
    assert_eq!(
        r.scores,
        ScoreBreakdown {
            final_score: score(-0.0),
            bm25_rank: None,
            vector_rank: None,
            vector_score: None
        }
    );
    assert_eq!(ScoreBreakdown::default().final_score, Score::zero());
}

fn problem(text: &str) -> String {
    serde_json::from_str::<serde_json::Value>(text).unwrap_err().to_string()
}

#[test]
fn what_cannot_be_shown_is_an_error() {
    let mut bad = row("a", "x");
    bad.display_json = "{".to_string();
    let error = materialize_rows(&vec![bad], "x").unwrap_err();
    assert!(matches!(&error, ResultError::Display(_)));
    assert_eq!(error.message(), problem("{"));
    let mut bad = row("a", "x");
    bad.payload_json = "nope".to_string();
    let error = materialize_rows(&vec![row("b", "x"), bad], "x").unwrap_err();
    assert_eq!(error, ResultError::Payload(problem("nope")));
    assert_eq!(error.message(), problem("nope"));
    let bad = row("a", "\u{130}\u{130}x");
    assert_eq!(materialize_rows(&vec![bad], "x").unwrap_err(), ResultError::Snippet);
    assert_eq!(
        ResultError::Snippet.message(),
        "no snippet can be cut from the text of a record"
    );
}

#[test]
fn rankings_are_collected() {
    assert!(candidate_lists(&None, &None).is_empty());
    let text = Some(vec!["x".to_string()]);
    assert_eq!(candidate_lists(&text, &None), vec![vec!["x".to_string()]]);
    let lists = candidate_lists(&text, &Some(vectors()));
    assert_eq!(lists.len(), 2);
    assert_eq!(lists[1], vec!["b".to_string(), "a".to_string()]);
}

#[test]
fn ranks_and_chunks_are_kept_by_record() {
    let c = candidates();
    assert_eq!(c.bm25_ranks.get("c"), Some(&1));
    assert_eq!(c.vector_ranks.get("b"), Some(&1));
    assert_eq!(c.vector_chunks.len(), 2);
    assert_eq!(c.vector_chunk_hits.len(), 3);
    let none = search_candidates(None, None, &Vec::new(), &Vec::new(), 5);
    assert!(none.bm25_ranks.is_empty() && none.vector_ranks.is_empty());
}

#[test]
fn records_are_listed_by_score() {
    let rows = vec![row("c", "text of c"), row("b", "text of b"), row("a", "text of a")];
    let results = materialize_ranked_ids(&rows, &request("text", 5), &candidates()).unwrap();
    let ids: Vec<&str> = results.iter().map(|r| r.record_id.as_str()).collect();
    assert_eq!(ids, vec!["a", "c", "b"]);
    let a = &results[0];
    assert_eq!(a.score, score(0.5));
    assert_eq!(
        a.scores,
        ScoreBreakdown {
            final_score: score(0.5),
            bm25_rank: Some(2),
            vector_rank: Some(2),
            vector_score: Some(score(0.8))
        }
    );
    assert_eq!(a.snippet, "chunk of a");
    let MatchedChunk { chunk_id, .. } = a.matched_chunk.as_ref().unwrap();
    assert_eq!(chunk_id, "a#chunk-1");
    let c = &results[1];
    assert_eq!(c.snippet, "text of c");
    assert!(c.matched_chunk.is_none());
    assert_eq!(c.scores.vector_rank, None);
    let two = materialize_ranked_ids(&rows, &request("text", 2), &candidates()).unwrap();
    assert_eq!(two.len(), 2);
    let one = materialize_ranked_ids(&rows, &request("text", 0), &candidates()).unwrap();
    assert_eq!(one.len(), 1);
    let stray = materialize_ranked_ids(&vec![row("z", "t")], &request("t", 5), &candidates());
    assert_eq!(stray.unwrap()[0].score, Score::zero());
}

#[test]
fn chunks_are_listed_as_they_were_hit() {
    let pages = vec![vec![row("b", "text of b")], Vec::new(), vec![row("b", "text of b")]];
    let results = materialize_chunk_results(&pages, &request("of", 5), &candidates()).unwrap();
    let ids: Vec<&str> = results.iter().map(|r| r.result_id.as_str()).collect();
    assert_eq!(ids, vec!["b#chunk-0", "b#chunk-1"]);
    assert_eq!(results[1].record_id, "b");
    assert_eq!(results[1].snippet, "more of b");
    assert_eq!(results[1].score, score(0.7));
    assert_eq!(
        results[1].scores,
        ScoreBreakdown {
            final_score: score(0.7),
            bm25_rank: None,
            vector_rank: Some(3),
            vector_score: Some(score(0.7))
        }
    );
    let one = materialize_chunk_results(&pages, &request("of", 1), &candidates()).unwrap();
    assert_eq!(one.len(), 1);
    assert!(is_listing_full(1, 0));
    assert!(is_listing_full(3, 3));
    assert!(!is_listing_full(2, 3));
}

#[test]
fn a_bad_row_of_a_further_chunk_does_not_matter() {
    let mut bad = row("a", "x");
    bad.payload_json = "{".to_string();
    let pages = vec![vec![row("b", "text of b")], vec![bad]];
    assert!(materialize_chunk_results(&pages, &request("of", 1), &candidates()).is_ok());
    assert_eq!(
        materialize_chunk_results(&pages, &request("of", 2), &candidates()).unwrap_err(),
        ResultError::Payload(problem("{"))
    );
}

#[test]
fn one_ranking_keeps_its_order() {
    let text_hits = Some(vec!["z".to_string(), "a".to_string()]);
    let items = fuse_hits(&text_hits, &None, 5);
    assert_eq!(items[1].terms, vec![2]);
    let scores = vec![score(1.0), score(0.5)];
    let c = search_candidates(text_hits, None, &items, &scores, 5);
    let ids: Vec<&str> = c.ranked.iter().map(|item| item.record_id.as_str()).collect();
    assert_eq!(ids, vec!["z", "a"]);
}

#[test]
fn rows_are_fetched_as_they_are_listed() {
    let mut req = request("text", 1);
    let queries = fetch_candidates(&candidates(), &req);
    assert_eq!(queries.len(), 1);
    assert_eq!(queries[0].args.len(), 3);
    assert!(wants_page(&req, 1));
    let pages = vec![vec![row("c", "text of c"), row("a", "text of a")]];
    let found = materialize_results(&pages, &req, &candidates()).unwrap();
    assert_eq!((found.len(), found[0].record_id.as_str()), (1, "a"));
    req.result_granularity = ResultGranularity::Chunk;
    assert_eq!(fetch_candidates(&candidates(), &req).len(), 3);
    assert!(wants_page(&req, 0));
    assert!(!wants_page(&req, 1));
    let pages = vec![Vec::new(), vec![row("a", "text of a")]];
    let found = materialize_results(&pages, &req, &candidates()).unwrap();
    assert_eq!((found.len(), found[0].result_id.as_str()), (1, "a#chunk-1"));
}

#[test]
fn words_are_looked_for_where_nothing_else_was_found() {
    let req = request("text", 5);
    let nothing = vec![Vec::new(), Vec::new()];
    let page = vec![vec![row("a", "text of a")]];
    assert!(fallback_query(&nothing, &req).unwrap().sql.contains("LIKE"));
    assert!(fallback_query(&page, &req).is_none());
    assert!(fallback_query(&nothing, &request(" ", 5)).is_none());
    let words = vec![row("w", "text of w")];
    let listed = |pages: &Vec<Vec<RecordRow>>, query: &str| -> Vec<String> {
        let results = list_results(pages, &words, &request(query, 5), &candidates()).unwrap();
        results.iter().map(|r| r.record_id.clone()).collect()
    };
    assert_eq!(listed(&nothing, "text"), vec!["w"]);
    assert_eq!(listed(&page, "text"), vec!["a"]);
    assert!(listed(&nothing, " ").is_empty());
    let broken = vec![vec![RecordRow { payload_json: "{".to_string(), ..row("a", "text") }]];
    assert_eq!(
        list_results(&broken, &words, &req, &candidates()).unwrap_err(),
        ResultError::Payload(problem("{"))
    );
}
