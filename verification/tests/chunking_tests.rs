use hybrid_shared_core::chunking::{
    boundary_score, build_chunks, choose_cut_char, make_span, next_start_char, smart_chunks,
    ChunkMode, ChunkOptions, ChunkOptionsError,
};
use hybrid_shared_core::schema::PreparedRecord;
use hybrid_shared_core::text::to_chars;
use hybrid_shared_core::text_map::TextMap;

fn record(id: &str, text: &str) -> PreparedRecord {
    PreparedRecord {
        record_id: id.to_string(),
        searchable_text: text.to_string(),
        payload_json: "{}".to_string(),
        display_json: "{}".to_string(),
        filters: TextMap::new(),
        row_hash: String::new(),
    }
}

fn spans(text: &str, size: usize, overlap: usize) -> Vec<(usize, usize, String)> {
    smart_chunks(text, size, overlap)
        .into_iter()
        .map(|s| (s.start_char, s.end_char, s.text))
        .collect()
}

#[test]
fn options_have_defaults_and_limits() {
    let d = ChunkOptions::default();
    assert_eq!((d.mode, d.size, d.overlap), (ChunkMode::Whole, 1200, 200));
    let whole = ChunkOptions { mode: ChunkMode::Whole, size: 0, overlap: 9 };
    assert_eq!(whole.validate(), Ok(()));
    let zero = ChunkOptions { mode: ChunkMode::Smart, size: 0, overlap: 0 };
    assert_eq!(zero.validate(), Err(ChunkOptionsError::ZeroSize));
    let wide = ChunkOptions { mode: ChunkMode::Smart, size: 5, overlap: 5 };
    assert_eq!(wide.validate(), Err(ChunkOptionsError::OverlapNotSmaller));
    let good = ChunkOptions { mode: ChunkMode::Smart, size: 5, overlap: 4 };
    assert_eq!(good.validate(), Ok(()));
    assert_eq!(
        ChunkOptionsError::ZeroSize.message(),
        "chunk size must be greater than zero"
    );
    assert_eq!(
        ChunkOptionsError::OverlapNotSmaller.message(),
        "chunk overlap must be smaller than chunk size"
    );
}

#[test]
fn boundaries_have_their_weight() {
    assert_eq!(boundary_score('\n'), 5);
    for c in ['。', '！', '？', '.', '!', '?'] {
        assert_eq!(boundary_score(c), 4);
    }
    for c in ['、', ',', ';', '；', ':', '：'] {
        assert_eq!(boundary_score(c), 2);
    }
    for c in [' ', '\t', '\u{3000}', '\r'] {
        assert_eq!(boundary_score(c), 1);
    }
    for c in ['a', '契', '-'] {
        assert_eq!(boundary_score(c), 0);
    }
}

#[test]
fn the_best_boundary_is_chosen() {
    let text = to_chars("ab c.de,f\ngh");
    assert_eq!(choose_cut_char(&text, 0, 6, 12, 1), Some(10));
    assert_eq!(choose_cut_char(&text, 0, 6, 9, 1), Some(5));
    assert_eq!(choose_cut_char(&text, 5, 9, 9, 1), Some(8));
    assert_eq!(choose_cut_char(&text, 0, 4, 4, 1), Some(3));
    assert_eq!(choose_cut_char(&text, 0, 2, 2, 1), None);
    let even = to_chars("a.b.c.d");
    assert_eq!(choose_cut_char(&even, 0, 4, 7, 1), Some(4));
    assert_eq!(choose_cut_char(&even, 0, 5, 7, 1), Some(4));
}

#[test]
fn the_next_chunk_starts_at_a_sentence() {
    let text = to_chars("abc。def。ghij");
    assert_eq!(next_start_char(&text, 0, 10, 0), 10);
    assert_eq!(next_start_char(&text, 0, 10, 10), 10);
    assert_eq!(next_start_char(&text, 0, 10, 4), 8);
    assert_eq!(next_start_char(&text, 0, 10, 8), 8);
    assert_eq!(next_start_char(&text, 0, 7, 5), 4);
    assert_eq!(next_start_char(&text, 0, 7, 2), 5);
}

#[test]
fn spans_are_trimmed() {
    let text = to_chars("  ab  cd ");
    let span = make_span(&text, 0, 6).unwrap();
    assert_eq!((span.start_char, span.end_char, span.text.as_str()), (2, 4, "ab"));
    assert!(make_span(&text, 4, 6).is_none());
}

#[test]
fn a_short_text_is_one_chunk() {
    assert_eq!(spans("  契約更新  ", 10, 2), vec![(0, 4, "契約更新".to_string())]);
    assert_eq!(spans("", 10, 2), vec![(0, 0, String::new())]);
}

#[test]
fn a_long_text_is_cut_at_sentences() {
    let text = "一二三四五。六七八九十。あいうえお。かきくけこ";
    assert_eq!(
        spans(text, 8, 0),
        vec![
            (0, 6, "一二三四五。".to_string()),
            (6, 12, "六七八九十。".to_string()),
            (12, 18, "あいうえお。".to_string()),
            (18, 23, "かきくけこ".to_string()),
        ]
    );
}

#[test]
fn a_text_without_boundaries_is_cut_anyway() {
    assert_eq!(
        spans("abcdefghij", 4, 1),
        vec![
            (0, 4, "abcd".to_string()),
            (3, 7, "defg".to_string()),
            (6, 10, "ghij".to_string()),
        ]
    );
}

#[test]
fn every_character_is_in_some_chunk() {
    let text = "これは長い文章です。いくつかの文、そして改行\nがあります！ 終わり。".repeat(20);
    let chars: Vec<char> = text.trim().chars().collect();
    for (size, overlap) in [(10, 3), (25, 0), (40, 20), (7, 6)] {
        let mut seen = vec![false; chars.len()];
        for (start, end, piece) in spans(&text, size, overlap) {
            assert!(end - start <= size + size / 4);
            assert_eq!(piece, chars[start..end].iter().collect::<String>());
            for at in seen.iter_mut().take(end).skip(start) {
                *at = true;
            }
        }
        for (i, c) in chars.iter().enumerate() {
            assert!(seen[i] || c.is_whitespace());
        }
    }
}

#[test]
fn chunks_are_named_after_their_records() {
    let records = vec![record("a", "一二三。四五六。七八"), record("b", "  "), record("c", "x")];
    let whole = build_chunks(&records, &ChunkOptions::default()).unwrap();
    assert_eq!(whole.len(), 2);
    assert_eq!(whole[0].chunk_id, "a#chunk-0");
    assert_eq!((whole[0].start_char, whole[0].end_char), (0, 10));
    assert_eq!(whole[1].chunk_id, "c#chunk-0");
    let options = ChunkOptions { mode: ChunkMode::Smart, size: 4, overlap: 0 };
    let smart = build_chunks(&records, &options).unwrap();
    let ids: Vec<&str> = smart.iter().map(|c| c.chunk_id.as_str()).collect();
    assert_eq!(ids, vec!["a#chunk-0", "a#chunk-1", "a#chunk-2", "c#chunk-0"]);
    assert_eq!(smart[1].text, "四五六。");
    assert_eq!(smart[1].record_id, "a");
    assert_eq!(smart[1].chunk_index, 1);
    let bad = ChunkOptions { mode: ChunkMode::Smart, size: 4, overlap: 4 };
    assert_eq!(build_chunks(&records, &bad).unwrap_err(), ChunkOptionsError::OverlapNotSmaller);
}

#[test]
fn pieces_come_in_order() {
    let text = "あいう。えお、かきくけこ。さし\n\nすせそ たちつてと。な".repeat(5);
    for (size, overlap) in [(10, 0), (10, 4), (7, 6), (3, 2), (1, 0)] {
        let pieces = smart_chunks(&text, size, overlap);
        assert!(pieces.len() > 1);
        for pair in pieces.windows(2) {
            assert!(pair[0].start_char <= pair[1].start_char);
            assert!(pair[0].end_char <= pair[1].end_char);
            assert!(pair[0].end_char <= pair[1].start_char + overlap);
        }
    }
}
