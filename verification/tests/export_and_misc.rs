use sinorag::cef::CorpusToml;
use sinorag::cef_ingest::{find_work, passage_row, passage_rows, CefPassage, CefWork};
use sinorag::expand::{resolve_request, HitRef};
use sinorag::export::{markdown_to_pdf_sections, strip_markdown};
use sinorag::frontier::looks_low_value_phrase;

#[test]
fn markdown_markers_are_stripped() {
    assert_eq!(strip_markdown("## Heading "), "Heading");
    assert_eq!(strip_markdown("- - item"), "item");
    assert_eq!(strip_markdown("> > quoted"), "quoted");
    assert_eq!(strip_markdown("#- > mixed"), "mixed");
    assert_eq!(strip_markdown("  - not a marker"), "- not a marker");
    assert_eq!(strip_markdown(""), "");
}

#[test]
fn sections_from_code_blocks() {
    let md = "# Title\nintro\n```\n天地玄黃\nplain\n宇宙洪荒\n```\n---\nafter\n```\n日月\n```\n```\nno chinese\n```\n";
    let (zh, en) = markdown_to_pdf_sections(md);
    assert_eq!(zh, vec!["天地玄黃\n宇宙洪荒".to_string(), "日月".to_string()]);
    assert_eq!(en, vec!["Title\nintro".to_string(), "after".to_string()]);
}

#[test]
fn sections_without_code_blocks() {
    let (zh, en) = markdown_to_pdf_sections("# A\n- b\n\nc");
    assert_eq!(zh, vec![String::new()]);
    assert_eq!(en, vec!["A\nb\n\nc".to_string()]);
}

#[test]
fn low_value_phrases() {
    assert!(looks_low_value_phrase(""));
    assert!(looks_low_value_phrase("佛佛佛佛"));
    assert!(looks_low_value_phrase("如是如是"));
    assert!(looks_low_value_phrase("a"));
    assert!(!looks_low_value_phrase("如是我聞"));
    assert!(!looks_low_value_phrase("如是如"));
    assert!(!looks_low_value_phrase("ab"));
}

#[test]
fn expansion_requests() {
    match resolve_request(Some("T01#p1".to_string()), None, None) {
        Ok(HitRef::Passage(p)) => assert_eq!(p, "T01#p1"),
        _ => panic!("a passage id alone is a passage"),
    }
    match resolve_request(None, Some(std::path::PathBuf::from("s.json")), Some("h3".to_string())) {
        Ok(HitRef::SessionHit { session, hit_id }) => {
            assert_eq!(session, std::path::PathBuf::from("s.json"));
            assert_eq!(hit_id, "h3");
        }
        _ => panic!("a session with a hit is a session hit"),
    }
    let err = resolve_request(Some("x".to_string()), None, Some("h".to_string())).err().unwrap();
    assert_eq!(err, "provide either --passage-id OR both --session and --hit");
    assert!(resolve_request(None, None, None).is_err());
}

fn corpus() -> CorpusToml {
    CorpusToml {
        schema: "gd-cef-v1".to_string(),
        corpus_id: "my-corpus".to_string(),
        name: "My Corpus".to_string(),
        language: "zh-Hant".to_string(),
        snapshot_id: "2026-05-09".to_string(),
        script: None,
        description: None,
        source_url: Some("https://example.org".to_string()),
        source_type: None,
        rights_id: "unknown".to_string(),
        rights_notes: None,
        default_period: Some("Unknown".to_string()),
        default_period_rank: None,
        default_origin: Some("China".to_string()),
        default_traditions: vec!["Chan".to_string()],
        conversion: None,
    }
}

fn passage(id: &str, work: &str) -> CefPassage {
    CefPassage {
        passage_id: id.to_string(),
        work_id: work.to_string(),
        text: "子曰".to_string(),
        rights_id: None,
        section_id: None,
        section_title: None,
        locator: None,
        source_rel_path: None,
        source_url: None,
        text_normalized: None,
        text_type: None,
        heading_path: None,
        line_start: Some("0001a01".to_string()),
        line_end: None,
        contains_person: Some(true),
        contains_term: None,
        quality_flags: Some("{\"x\":1}".to_string()),
    }
}

#[test]
fn passage_rows_take_defaults() {
    let c = corpus();
    let works = vec![
        CefWork { work_id: "w1".to_string(), title_zh: "舊".to_string(), author: None, period: None, period_rank: Some(3), traditions: vec![] },
        CefWork {
            work_id: "w1".to_string(),
            title_zh: "論語".to_string(),
            author: Some("孔子".to_string()),
            period: Some("Zhou".to_string()),
            period_rank: None,
            traditions: vec!["Ru".to_string()],
        },
    ];
    assert_eq!(find_work(&works, "w1").unwrap().title_zh, "論語");
    assert!(find_work(&works, "w2").is_none());
    let rows = passage_rows(&c, &works, &[passage("w1#p0001#x", "w1"), passage("nohash", "w2")]);
    assert_eq!(rows.len(), 2);
    let r = &rows[0];
    assert_eq!(r.source_corpus, "my-corpus");
    assert_eq!(r.source_url, "https://example.org");
    assert_eq!(r.rights_id, "unknown");
    assert_eq!(r.retrieval_method, "gd-cef");
    assert_eq!(r.source_rel_path, "my-corpus/w1");
    assert_eq!(r.xml_id, "p0001");
    assert_eq!(r.heading, "論語");
    assert_eq!(r.main_title, "論語");
    assert_eq!(r.author, "孔子");
    assert_eq!(r.period, "Zhou");
    assert_eq!(r.period_rank, 99);
    assert_eq!(r.traditions, vec!["Ru".to_string()]);
    assert_eq!(r.text_type, "prose");
    assert!(r.contains_person);
    assert!(!r.contains_term);
    assert_eq!(r.from_lb.as_deref(), Some("0001a01"));
    assert_eq!(r.quality_flags_json, "{\"x\":1}");
    assert_eq!(r.origin, "China");
    assert_eq!(r.passage_ord_in_file, 0);
    let r2 = &rows[1];
    assert_eq!(r2.xml_id, "unknown");
    assert_eq!(r2.heading, "");
    assert_eq!(r2.author, "");
    assert_eq!(r2.period, "Unknown");
    assert_eq!(r2.traditions, vec!["Chan".to_string()]);
    assert_eq!(r2.passage_ord_in_file, 1);
}

#[test]
fn passage_fields_win_over_defaults() {
    let c = corpus();
    let mut p = passage("id", "w");
    p.source_url = Some("u".to_string());
    p.rights_id = Some("cc".to_string());
    p.section_title = Some("sec".to_string());
    p.source_rel_path = Some("a/b".to_string());
    p.text_type = Some("verse".to_string());
    let r = passage_row(&c, None, &p, 7);
    assert_eq!(r.source_url, "u");
    assert_eq!(r.rights_id, "cc");
    assert_eq!(r.heading, "sec");
    assert_eq!(r.source_rel_path, "a/b");
    assert_eq!(r.text_type, "verse");
    assert_eq!(r.passage_ord_in_file, 7);
}
