use hybrid_shared_core::order::Score;
use hybrid_shared_core::protocol::{ResultGranularity, SearchMode};
use hybrid_shared_core::search::{
    aggregate_vector_hits, candidates_found, fetch_limit, fuse_candidates, rank_candidates,
    rank_map, rrf_fuse, searches_text, searches_vectors, unique_record_ids, ChunkRow, FusedItem,
    HitRow, VectorFetch,
};

fn texts(list: &[&str]) -> Vec<String> {
    list.iter().map(|s| s.to_string()).collect()
}

fn score(value: f32) -> Score {
    Score { bits: value.to_bits() }
}

fn hit(id: &str, value: f32, record: Option<&str>, matches: bool) -> HitRow {
    HitRow {
        id: id.to_string(),
        score: score(value),
        row: record.map(|r| ChunkRow {
            record_id: r.to_string(),
            chunk_index: 3,
            start_char: 0,
            end_char: 0,
            text: format!("text of {id}"),
        }),
        matches,
    }
}

#[test]
fn ids_are_listed_once() {
    assert_eq!(unique_record_ids(&texts(&["b", "a", "b", "c", "a"])), texts(&["b", "a", "c"]));
}

#[test]
fn ranks_count_from_one() {
    let ranks = rank_map(&texts(&["b", "a"]));
    assert_eq!(ranks.get("b"), Some(&1));
    assert_eq!(ranks.get("a"), Some(&2));
    assert_eq!(ranks.get("c"), None);
}

#[test]
fn hits_are_gathered_by_record() {
    let hits = vec![
        hit("r1#chunk-2", 0.9, Some("r1"), true),
        hit("gone", 0.8, None, true),
        hit("r2#chunk-0", 0.7, Some("r2"), false),
        hit("r3#chunk-0", 0.6, Some("r3"), true),
        hit("r1#chunk-0", 0.5, Some("r1"), true),
    ];
    let found = aggregate_vector_hits(true, &hits);
    assert_eq!(found.ranking, texts(&["r1", "r3"]));
    let best = found.chunks.get("r1").unwrap();
    assert_eq!(best.chunk_id, "r1#chunk-2");
    assert_eq!(best.score, score(0.9));
    assert_eq!(best.chunk_index, 3);
    assert_eq!(best.text, "text of r1#chunk-2");
    assert_eq!(found.chunks.len(), 2);
    let ranks: Vec<(String, usize)> =
        found.chunk_hits.iter().map(|c| (c.chunk.chunk_id.clone(), c.rank)).collect();
    assert_eq!(
        ranks,
        vec![
            ("r1#chunk-2".to_string(), 1),
            ("r3#chunk-0".to_string(), 2),
            ("r1#chunk-0".to_string(), 3)
        ]
    );
    assert_eq!(candidates_found(&found, ResultGranularity::Document), 2);
    assert_eq!(candidates_found(&found, ResultGranularity::Chunk), 3);
}

#[test]
fn a_chunk_may_be_a_slice_of_its_record() {
    let mut one = hit("r1#chunk-0", 0.9, Some("r1"), true);
    if let Some(row) = &mut one.row {
        row.text = "契約更新の確認".to_string();
        row.start_char = 2;
        row.end_char = 4;
    }
    let found = aggregate_vector_hits(true, &vec![one]);
    assert_eq!(found.chunks.get("r1").unwrap().text, "更新");
}

#[test]
fn without_chunks_hits_are_records() {
    let hits = vec![
        hit("r1", 0.9, None, true),
        hit("r2", 0.8, None, false),
        hit("r1", 0.7, None, true),
        hit("r3", 0.6, None, true),
    ];
    let found = aggregate_vector_hits(false, &hits);
    assert_eq!(found.ranking, texts(&["r1", "r3"]));
    assert!(found.chunks.is_empty());
    assert!(found.chunk_hits.is_empty());
}

#[test]
fn modes_choose_the_indexes() {
    assert!(searches_text(SearchMode::Hybrid));
    assert!(searches_text(SearchMode::Bm25));
    assert!(!searches_text(SearchMode::Vector));
    assert!(searches_vectors(SearchMode::Hybrid, true));
    assert!(!searches_vectors(SearchMode::Hybrid, false));
    assert!(!searches_vectors(SearchMode::Bm25, true));
    assert!(searches_vectors(SearchMode::Vector, true));
    assert_eq!(SearchMode::default(), SearchMode::Hybrid);
    assert_eq!(ResultGranularity::default(), ResultGranularity::Document);
}

#[test]
fn enough_hits_are_asked_for() {
    assert_eq!(fetch_limit(0), 100);
    assert_eq!(fetch_limit(5), 100);
    assert_eq!(fetch_limit(20), 400);
    assert_eq!(fetch_limit(usize::MAX), usize::MAX);
}

#[test]
fn the_vector_index_is_asked_for_more_until_there_is_enough() {
    let first = VectorFetch::first(100, 5);
    assert_eq!(first, VectorFetch { target: 100, fetch: 100, max_fetch: 5000 });
    assert_eq!(first.next(100), None);
    let mut sizes = vec![first.fetch];
    let mut state = first;
    while let Some(next) = state.next(99) {
        sizes.push(next.fetch);
        state = next;
    }
    assert_eq!(sizes, vec![100, 300, 900, 2700, 5000]);
    let wide = VectorFetch::first(6000, 5);
    assert_eq!(wide.next(0), None);
    assert_eq!(VectorFetch::first(3, 9).target, 9);
}

#[test]
fn fusion_adds_up_the_places() {
    let lists = vec![texts(&["b", "a"]), texts(&["a", "c"])];
    let map = rrf_fuse(&lists, 60);
    assert_eq!(map.len(), 3);
    assert_eq!(map.get("a"), Some(&vec![62, 61]));
    assert_eq!(map.get("b"), Some(&vec![61]));
    assert_eq!(map.get("c"), Some(&vec![62]));
    let items = fuse_candidates(&lists, 10);
    let ids: Vec<&str> = items.iter().map(|i| i.record_id.as_str()).collect();
    assert_eq!(ids, vec!["a", "b", "c"]);
    assert!(fuse_candidates(&Vec::new(), 10).is_empty());
}

#[test]
fn a_single_ranking_keeps_its_places() {
    let items = fuse_candidates(&vec![texts(&["b", "a", "c"])], 2);
    assert_eq!(
        items,
        vec![
            FusedItem { record_id: "b".to_string(), terms: vec![1] },
            FusedItem { record_id: "a".to_string(), terms: vec![2] },
        ]
    );
}

#[test]
fn candidates_come_by_falling_score() {
    let lists = vec![texts(&["b", "a"]), texts(&["a", "c"])];
    let items = fuse_candidates(&lists, 10);
    let scores: Vec<Score> = items
        .iter()
        .map(|item| score(item.terms.iter().fold(0.0f32, |sum, t| sum + 1.0 / (*t as f32))))
        .collect();
    let ranked = rank_candidates(&items, &scores, false, 2);
    assert_eq!(ranked.len(), 2);
    assert_eq!(ranked[0].record_id, "a");
    assert_eq!(ranked[0].score, score(1.0 / 62.0 + 1.0 / 61.0));
    assert_eq!(ranked[1].record_id, "b");
    let kept = rank_candidates(&items, &scores, true, 1);
    let ids: Vec<&str> = kept.iter().map(|r| r.record_id.as_str()).collect();
    assert_eq!(ids, vec!["a", "b", "c"]);
}
