use sinorag::cef::{validate_corpus, CefFile, CorpusToml, PassageCheck, WorkCheck};

fn corpus(schema: &str, corpus_id: &str) -> CorpusToml {
    CorpusToml {
        schema: schema.to_string(),
        corpus_id: corpus_id.to_string(),
        name: "My Corpus".to_string(),
        language: "zh-Hant".to_string(),
        snapshot_id: "2026-05-09".to_string(),
        script: None,
        description: None,
        source_url: None,
        source_type: None,
        rights_id: "unknown".to_string(),
        rights_notes: None,
        default_period: None,
        default_period_rank: None,
        default_origin: None,
        default_traditions: Vec::new(),
        conversion: None,
    }
}

fn work(id: &str, title: &str, start: Option<i32>, end: Option<i32>) -> WorkCheck {
    WorkCheck { work_id: id.to_string(), title_zh: title.to_string(), date_start: start, date_end: end }
}

fn passage(id: &str, work: &str, text: &str) -> PassageCheck {
    PassageCheck { passage_id: id.to_string(), work_id: work.to_string(), text: text.to_string() }
}

fn file<T>(items: Vec<Result<T, String>>) -> CefFile<T> {
    let lines = items.iter().map(|_| "{}".to_string()).collect();
    CefFile { lines, parsed: items }
}

#[test]
fn missing_files_are_errors() {
    let r = validate_corpus(None, None, None);
    assert!(!r.valid);
    assert_eq!(r.schema, "gd-cef-validation-v1");
    let codes: Vec<&str> = r.errors.iter().map(|e| e.code.as_str()).collect();
    assert_eq!(codes, vec!["missing_file", "missing_file", "missing_file"]);
    assert_eq!(r.errors[0].file, "corpus.toml");
    assert_eq!(r.errors[0].message, "corpus.toml is required");
    assert_eq!(r.errors[1].file, "works.jsonl");
    assert_eq!(r.errors[2].file, "passages.jsonl");
}

#[test]
fn valid_corpus_counts() {
    let c = corpus("gd-cef-v1", "c1");
    let works = file(vec![Ok(work("w1", "示例", Some(600), Some(700))), Ok(work("w2", "另一", None, None))]);
    let passages = file(vec![
        Ok(passage("w1#1", "w1", "子曰學而時習之不亦說乎")),
        Ok(passage("w2#1", "w2", "這是另一部作品的示例文本")),
    ]);
    let r = validate_corpus(Some(&c), Some(&works), Some(&passages));
    assert!(r.valid);
    assert!(r.errors.is_empty());
    assert_eq!(r.stats.works, 2);
    assert_eq!(r.stats.passages, 2);
    assert_eq!(r.stats.cjk_chars, 11 + 12);
    assert!(r.warnings.is_empty());
}

#[test]
fn each_error_code() {
    let c = corpus("v0", "");
    let works = file(vec![
        Ok(work("w1", "題", Some(900), Some(800))),
        Ok(work("w1", "", None, None)),
        Ok(work("", "題", None, None)),
        Err("expected value".to_string()),
    ]);
    let passages = file(vec![
        Ok(passage("p1", "w1", "一二三四五六七八九")),
        Ok(passage("p1", "nope", "")),
        Ok(passage("", "", "x")),
    ]);
    let r = validate_corpus(Some(&c), Some(&works), Some(&passages));
    assert!(!r.valid);
    let codes: Vec<&str> = r.errors.iter().map(|e| e.code.as_str()).collect();
    assert!(codes.contains(&"invalid_schema"));
    assert!(codes.contains(&"missing_field"));
    assert!(codes.contains(&"invalid_date_range"));
    assert!(codes.contains(&"duplicate_work_id"));
    assert!(codes.contains(&"invalid_json"));
    assert!(codes.contains(&"duplicate_passage_id"));
    assert!(codes.contains(&"invalid_work_id"));
    let bad_json = r.errors.iter().find(|e| e.code == "invalid_json").unwrap();
    assert_eq!(bad_json.file, "works.jsonl");
    assert_eq!(bad_json.line, Some(4));
    assert_eq!(bad_json.message, "failed to parse JSON: expected value");
    let range = r.errors.iter().find(|e| e.code == "invalid_date_range").unwrap();
    assert_eq!(range.message, "date_start (900) > date_end (800)");
    let wcodes: Vec<&str> = r.warnings.iter().map(|w| w.code.as_str()).collect();
    assert!(wcodes.contains(&"short_passage"));
    assert!(wcodes.contains(&"missing_dates"));
}
