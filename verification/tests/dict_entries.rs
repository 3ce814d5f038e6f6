use sinorag::dict::{kept_entries, parse_entries, DictEntry, DictValue, SourceFormat};

fn f(k: &str, v: Option<&str>) -> (String, Option<String>) {
    (k.to_string(), v.map(|s| s.to_string()))
}

#[test]
fn dingfubao_entries() {
    let items = vec![(
        "佛陀".to_string(),
        DictValue::Arr(vec![
            Some(vec![f("def", Some("覺者")), f("usg", Some("術語"))]),
            Some(vec![f("def", Some(""))]),
            None,
            Some(vec![f("def", None), f("usg", Some("x"))]),
            Some(vec![f("def", Some("又"))]),
        ]),
    ), ("x".to_string(), DictValue::Str("ignored".to_string()))];
    let es = parse_entries(SourceFormat::DingFubao, &items);
    assert_eq!(es.len(), 2);
    assert_eq!(es[0].gloss, "覺者");
    assert_eq!(es[0].category.as_deref(), Some("術語"));
    assert_eq!(es[1].gloss, "又");
    assert_eq!(es[1].category, None);
}

#[test]
fn simple_map_entries() {
    let items = vec![
        ("阿含".to_string(), DictValue::Str("經".to_string())),
        ("般若".to_string(), DictValue::Obj(vec![f("content", Some("智慧")), f("def", None)])),
        ("涅槃".to_string(), DictValue::Obj(vec![f("content", Some("寂滅"))])),
        ("空".to_string(), DictValue::Str(String::new())),
        ("數".to_string(), DictValue::Other),
    ];
    let es = parse_entries(SourceFormat::SimpleMap, &items);
    let glosses: Vec<&str> = es.iter().map(|e| e.gloss.as_str()).collect();
    assert_eq!(glosses, vec!["經", "寂滅"]);
}

#[test]
fn pentaglot_entries() {
    let items = vec![(
        "佛".to_string(),
        DictValue::Obj(vec![f("mnc", Some("fucihi")), f("mon", None), f("san", Some("buddha"))]),
    )];
    let es = parse_entries(SourceFormat::Pentaglot, &items);
    assert_eq!(es.len(), 1);
    assert_eq!(es[0].gloss, "mnc: fucihi; mon: ; san: buddha");
    assert_eq!(es[0].sanskrit.as_deref(), Some("buddha"));
}

#[test]
fn short_terms_and_empty_glosses_are_dropped() {
    let e = |t: &str, g: &str| DictEntry { term: t.to_string(), sanskrit: None, gloss: g.to_string(), category: None };
    let kept = kept_entries(&[e("佛", "x"), e("佛陀", ""), e("佛陀", "覺者"), e("ab", "y")]);
    let terms: Vec<&str> = kept.iter().map(|k| k.term.as_str()).collect();
    assert_eq!(terms, vec!["佛陀", "ab"]);
}

#[test]
fn dict_bytes_decompresses_gzip_files_only() {
    let mut enc = flate2::write::GzEncoder::new(Vec::new(), flate2::Compression::default());
    std::io::Write::write_all(&mut enc, "{\"佛\": \"Buddha\"}".as_bytes()).unwrap();
    let gz = enc.finish().unwrap();
    assert_eq!(sinorag::dict::dict_bytes(&gz, true), Some("{\"佛\": \"Buddha\"}".as_bytes().to_vec()));
    assert_eq!(sinorag::dict::dict_bytes(b"not gzip", true), None);
    assert_eq!(sinorag::dict::dict_bytes(b"plain", false), Some(b"plain".to_vec()));
}
