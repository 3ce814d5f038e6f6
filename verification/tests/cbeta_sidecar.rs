use sinorag::catalog::{parse_catalog_fields, work_catalog};
use sinorag::parallels::parallel_works;
use sinorag::sidecar::{normalize_file_key, RawEntry, SidecarIndex};

#[test]
fn normalize_strips_distribution_prefix() {
    assert_eq!(
        normalize_file_key("/mnt/d/foo/xml-p5/T/T01/T01n0001.xml"),
        "T/T01/T01n0001.xml"
    );
    assert_eq!(
        normalize_file_key("/x/xml-iso/J/J01/J01nA001.xml"),
        "J/J01/J01nA001.xml"
    );
}

#[test]
fn normalize_handles_already_relative() {
    assert_eq!(
        normalize_file_key("T/T01/T01n0001.xml"),
        "T/T01/T01n0001.xml"
    );
}

#[test]
fn catalog_parses_standard_entry() {
    let (title, juan, translator) =
        parse_catalog_fields("長阿含經 (22卷)【後秦 佛陀耶舍共竺佛念譯】");
    assert_eq!(title, "長阿含經");
    assert_eq!(juan, Some(22));
    assert_eq!(translator, "後秦 佛陀耶舍共竺佛念譯");
}

#[test]
fn catalog_parses_lost_translator() {
    let (title, juan, translator) = parse_catalog_fields("般泥洹經 (2卷)【失譯】");
    assert_eq!(title, "般泥洹經");
    assert_eq!(juan, Some(2));
    assert_eq!(translator, "失譯");
}

/// A catalog of the shape of the CBETA work list (`sutra_sch.lst`): the first work as in the real list, then
/// numbered works, each with a fascicle line that folds into it.
fn sample_catalog() -> Vec<u8> {
    let mut text = String::from("T01n0001 長阿含經 (22卷)【後秦 佛陀耶舍共竺佛念譯】\n");
    text.push_str("T01n0001_002 長阿含經 (1卷)【後秦 佛陀耶舍共竺佛念譯】\n");
    for i in 2..4200 {
        text.push_str(&format!("T{:02}n{:04} 經{} ({}卷)【唐 不空譯】\n", i / 100, i, i, i % 7 + 1));
        text.push_str(&format!("T{:02}n{:04}_001#p0001a01 經{} (1卷)\n", i / 100, i, i));
    }
    text.into_bytes()
}

#[test]
fn embedded_catalog_loads() {
    let cat = work_catalog(&sample_catalog()).expect("catalog parses");
    assert!(cat.len() > 4000, "expected >4000 works, got {}", cat.len());
    let entry = cat.get("T01n0001").expect("T01n0001 should be in catalog");
    assert_eq!(entry.title, "長阿含經");
    assert_eq!(entry.juan_count, Some(22));
}

/// A parallels list of the same shape as the bundled one.
fn sample_parallels() -> Vec<u8> {
    let mut text = String::from(
        "T01n0005 佛般泥洹經 (2卷)【西晉 白法祖譯】 T01n0006, T01n0007 T01n0001_002#p0011a01\n",
    );
    for i in 10..80 {
        text.push_str(&format!("T02n{:04} 經 (1卷)【失譯】\tT02n{:04},T02n{:04}\n", i, i + 1, i));
    }
    text.into_bytes()
}

#[test]
fn parallel_works_loads() {
    let pw = parallel_works(&sample_parallels());
    assert!(
        pw.len() > 50,
        "expected >50 entries with parallels, got {}",
        pw.len()
    );
    let refs = pw
        .parallels("T01n0005")
        .expect("T01n0005 should have parallels");
    assert!(refs.contains(&"T01n0006".to_string()));
    assert!(refs.contains(&"T01n0007".to_string()));
}

#[test]
fn fascicle_fallback() {
    let idx = SidecarIndex::from_records(vec![RawEntry {
        file: "T/T01/T01n0001.xml".to_string(),
        canon_name: None,
        traditions: vec!["Chan/Zen".to_string()],
        period: "Tang".to_string(),
        origin: "China".to_string(),
        author: None,
        main_title: None,
    }]);
    assert!(idx.lookup("T/T01/T01n0001_005.xml").is_some());
    assert!(idx.lookup("T/T01/T01n9999.xml").is_none());
}
