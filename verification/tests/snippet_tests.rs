use hybrid_shared_core::snippet::{
    is_highlight_term, make_snippet, normalize_query_terms, slice_chars_owned, try_make_snippet,
};

#[test]
fn a_blank_query_shows_the_start() {
    let text = "あ".repeat(200);
    assert_eq!(make_snippet(&text, " \u{3000}"), "あ".repeat(180));
    assert_eq!(make_snippet("short", ""), "short");
}

#[test]
fn a_snippet_starts_before_the_word() {
    let text = format!("{}リスク{}", "あ".repeat(100), "い".repeat(300));
    let expected = format!("{}リスク{}", "あ".repeat(40), "い".repeat(137));
    assert_eq!(make_snippet(&text, "リスク 評価"), expected);
    assert_eq!(try_make_snippet(&text, "リスク"), Some(expected));
}

#[test]
fn case_does_not_matter() {
    assert_eq!(make_snippet("The CONTRACT is new", "contract"), "The CONTRACT is new");
    let text = format!("{}Contract", "x".repeat(60));
    assert_eq!(make_snippet(&text, "CONTRACT"), format!("{}Contract", "x".repeat(40)));
}

#[test]
fn a_word_that_is_not_there_shows_the_start() {
    let text = "あ".repeat(200);
    assert_eq!(make_snippet(&text, "なし"), "あ".repeat(180));
}

#[test]
fn lower_case_may_move_the_word_into_a_character() {
    // In lower case this letter takes three bytes in place of two.
    let letter = "\u{130}";
    assert_eq!(letter.len(), 2);
    assert_eq!(letter.to_lowercase().len(), 3);
    assert_eq!(try_make_snippet("\u{130}x\u{3042}", "x"), Some("\u{130}x\u{3042}".to_string()));
    assert_eq!(try_make_snippet("\u{130}\u{130}x\u{3042}", "x"), None);
    assert_eq!(try_make_snippet("\u{130}\u{130}x", "x"), None);
}

#[test]
fn slices_are_counted_in_characters() {
    assert_eq!(slice_chars_owned("契約更新", 1, 3), "約更");
    assert_eq!(slice_chars_owned("契約更新", 2, 9), "更新");
    assert_eq!(slice_chars_owned("契約更新", 5, 9), "");
    assert_eq!(slice_chars_owned("契約更新", 3, 3), "");
    assert_eq!(slice_chars_owned("契約更新", 3, 1), "");
}

#[test]
fn terms_worth_highlighting_have_letters_or_more() {
    assert!(is_highlight_term("ab"));
    assert!(is_highlight_term("a-"));
    assert!(is_highlight_term("12"));
    assert!(is_highlight_term("契約"));
    assert!(is_highlight_term("…-"));
    assert!(!is_highlight_term("a"));
    assert!(!is_highlight_term("契"));
    assert!(!is_highlight_term("--"));
    assert!(!is_highlight_term(""));
}

#[test]
fn terms_come_longest_first_and_once() {
    let tokens = vec![
        "risk".to_string(),
        "評価".to_string(),
        " 契約更新 ".to_string(),
        "の".to_string(),
        "RISK".to_string(),
    ];
    assert_eq!(
        normalize_query_terms(" Risk 評価 ", &tokens),
        vec!["Risk 評価".to_string(), "Risk".to_string(), "契約更新".to_string(), "評価".to_string()]
    );
}

#[test]
fn no_more_than_32_terms_are_kept() {
    let tokens: Vec<String> = (0..50).map(|n| format!("term{n:02}")).collect();
    let terms = normalize_query_terms("q", &tokens);
    assert_eq!(terms.len(), 32);
    assert_eq!(terms[0], "term00");
    assert_eq!(terms[31], "term31");
    assert!(normalize_query_terms("  ", &Vec::new()).is_empty());
}
