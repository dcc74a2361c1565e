use hybrid_shared_core::json::{parse_json, JsonDocument, JsonValue};
use hybrid_shared_core::mediawiki::{
    has_enough, is_bzip2, page_to_record, page_to_record_with, record_line, write_schema,
    ConvertOptions, DumpEvent, DumpReader, Field, Page, WikiTextCleaner,
};

fn clean(text: &str) -> String {
    match WikiTextCleaner::new() {
        Ok(cleaner) => cleaner.clean(text),
        Err(error) => panic!("{error:?}"),
    }
}

#[test]
fn markup_is_taken_out() {
    assert_eq!(clean("'''太字'''と''斜体''"), "太字 と 斜体");
    assert_eq!(clean("== 見出し ==\n\n本文"), "見出し 本文");
    assert_eq!(clean("a<!-- x\ny -->b"), "a b");
    assert_eq!(clean("a<ref name=\"x\">y</ref>b<REF/>c"), "a b c");
    assert_eq!(clean("{{a|{{b}}}}c"), "}}c");
    assert_eq!(clean("{{a}}{{b}}c"), "c");
    assert_eq!(clean("[[ファイル:x.png|thumb]]a[[Image:y.png]]"), "a");
    assert_eq!(clean("a[[Category:本]]b[[カテゴリ:x]]"), "a b");
    assert_eq!(clean("[https://example.org 例] です"), "例 です");
    assert_eq!(clean("[[本|書籍]]と[[紙]]"), "書籍と紙");
    assert_eq!(clean("a&nbsp;<br/>b"), "a b");
    assert_eq!(clean("  a \t\r\n b  "), "a b");
    assert_eq!(clean(""), "");
}

fn start(name: &str) -> DumpEvent {
    DumpEvent::Start(name.to_string())
}

fn end(name: &str) -> DumpEvent {
    DumpEvent::End(name.to_string())
}

fn text(s: &str) -> DumpEvent {
    DumpEvent::Text(s.to_string())
}

fn read(events: Vec<DumpEvent>) -> (DumpReader, Vec<Page>) {
    let mut reader = DumpReader::new();
    let mut pages = Vec::new();
    for event in &events {
        if reader.read(event) {
            pages.push(reader.page.clone());
        }
    }
    (reader, pages)
}

fn page_events(title: &str, redirect: bool) -> Vec<DumpEvent> {
    let mut events = vec![
        text("stray"),
        start("page"),
        start("title"),
        text(title),
        end("title"),
        start("ns"),
        text("0"),
        end("ns"),
        start("id"),
        text("12"),
        end("id"),
    ];
    if redirect {
        events.push(start("redirect"));
        events.push(end("redirect"));
    }
    events.extend(vec![
        start("revision"),
        start("id"),
        text("99"),
        end("id"),
        start("text"),
        text("first "),
        DumpEvent::CData("second".to_string()),
        DumpEvent::Other,
        end("text"),
        end("revision"),
        end("page"),
    ]);
    events
}

#[test]
fn a_page_is_read() {
    let (reader, pages) = read(page_events("本", false));
    assert_eq!(
        pages,
        vec![Page {
            title: "本".to_string(),
            id: "12".to_string(),
            ns: "0".to_string(),
            text: "first second".to_string(),
            redirect: false
        }]
    );
    assert!(!reader.in_page && !reader.in_revision);
    assert_eq!(reader.field, Field::Nothing);
}

#[test]
fn pages_do_not_mix() {
    let mut events = page_events("一", true);
    events.extend(page_events("二", false));
    let (_, pages) = read(events);
    assert_eq!(pages.len(), 2);
    assert!(pages[0].redirect && !pages[1].redirect);
    assert_eq!(pages[1].title, "二");
    assert_eq!(pages[1].text, "first second");
}

#[test]
fn parts_outside_a_page_are_not_read() {
    let (reader, pages) = read(vec![
        start("siteinfo"),
        start("title"),
        text("x"),
        end("title"),
        start("text"),
        DumpEvent::CData("y".to_string()),
        end("text"),
    ]);
    assert!(pages.is_empty());
    assert_eq!(reader, DumpReader::new());
    let mut reader = DumpReader::new();
    reader.read(&start("page"));
    reader.read(&start("title"));
    reader.read(&DumpEvent::CData("z".to_string()));
    assert_eq!(reader.page.title, "");
}

fn options(min_chars: usize) -> ConvertOptions {
    ConvertOptions { dataset: "books".to_string(), min_chars }
}

fn page() -> Page {
    Page {
        title: "赤い 本 一".to_string(),
        id: "12".to_string(),
        ns: "0".to_string(),
        text: "'''abc'''".to_string(),
        redirect: false,
    }
}

#[test]
fn an_article_becomes_a_record() {
    let cleaner = match WikiTextCleaner::new() {
        Ok(c) => c,
        Err(error) => panic!("{error:?}"),
    };
    let record = page_to_record(&options(3), &cleaner, &page()).unwrap();
    assert_eq!(record.page_id, "12");
    assert_eq!(record.title, "赤い 本 一");
    assert_eq!(record.text, "abc");
    assert_eq!(record.source, "books");
    assert_eq!(record.url, "https://ja.wikibooks.org/wiki/赤い_本_一");
    assert!(record.converted_at.contains('T'));
    assert!(record.converted_at.ends_with("+00:00"));
    assert!(page_to_record(&options(4), &cleaner, &page()).is_none());
}

#[test]
fn other_pages_do_not() {
    let with = |change: fn(&mut Page)| {
        let mut p = page();
        change(&mut p);
        page_to_record_with(&options(0), &p, String::new(), "now".to_string())
    };
    assert!(with(|_| {}).is_some());
    assert!(with(|p| p.redirect = true).is_none());
    assert!(with(|p| p.ns = "1".to_string()).is_none());
    assert!(with(|p| p.id = String::new()).is_none());
    assert!(with(|p| p.title = " ".to_string()).is_none());
}

#[test]
fn the_schema_takes_what_pages_become() {
    let record =
        page_to_record_with(&options(0), &page(), "abc".to_string(), "now".to_string()).unwrap();
    let line = record_line(&record);
    assert_eq!(
        line,
        "{\"converted_at\":\"now\",\"page_id\":\"12\",\"source\":\"books\",\"text\":\"abc\",\"title\":\"赤い 本 一\",\"url\":\"https://ja.wikibooks.org/wiki/赤い_本_一\"}"
    );
    let doc = parse_json(line.as_bytes()).unwrap();
    assert!(matches!(&doc, JsonDocument::Object(_)));
    let schema = write_schema("books");
    assert_eq!(schema.dataset_id, "books");
    assert_eq!(schema.primary_key, "page_id");
    let records = schema.prepare_records(&vec![doc]).unwrap();
    assert_eq!(records[0].record_id, "12");
    assert_eq!(records[0].searchable_text, "赤い 本 一\nabc");
    assert_eq!(records[0].filters.get("source"), Some(&JsonValue::Text("books".to_string())));
}

#[test]
fn enough_is_enough() {
    assert!(!has_enough(1_000_000, None));
    assert!(has_enough(50, Some(50)));
    assert!(!has_enough(49, Some(50)));
    assert!(is_bzip2(Some("bz2")));
    assert!(is_bzip2(Some("BZ2")));
    assert!(!is_bzip2(Some("xml")));
    assert!(!is_bzip2(Some("bz22")));
    assert!(!is_bzip2(None));
}
