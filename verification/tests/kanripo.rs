use sinorag::kanripo::{
    edition_from_readme, escape_xml_attr, escape_xml_text, section_body, section_stats, section_tally,
    segment_paragraphs, title_from_readme, work_id_for_repo, work_of_stem, ManifestTally,
};

#[test]
fn paragraphs_keep_cjk_lines_only() {
    let raw = "\u{feff}  #+TITLE: x\n\n 天地玄黃 \nplain text\n# 註\n宇宙洪荒\r\n";
    let ps = segment_paragraphs(raw);
    assert_eq!(ps, vec!["天地玄黃".to_string(), "宇宙洪荒".to_string()]);
}

#[test]
fn titles_from_readme() {
    assert_eq!(title_from_readme(None), None);
    assert_eq!(title_from_readme(Some("#+TITLE:  論語 \nTitle: other")).as_deref(), Some("論語"));
    assert_eq!(title_from_readme(Some("#+TITLE:   \nTitle: 孟子")).as_deref(), Some("孟子"));
    assert_eq!(title_from_readme(Some("nothing here")), None);
}

#[test]
fn editions_from_readme() {
    assert_eq!(edition_from_readme(None), (String::new(), String::new()));
    assert_eq!(
        edition_from_readme(Some("#+PROPERTY: EDITION : SBCK 四部叢刊本")),
        ("SBCK".to_string(), "SBCK 四部叢刊本".to_string())
    );
    assert_eq!(edition_from_readme(Some("edition: WYG")), ("WYG".to_string(), "WYG".to_string()));
    assert_eq!(edition_from_readme(Some("edition:   ")), (String::new(), String::new()));
}

#[test]
fn escaping() {
    assert_eq!(escape_xml_text("a<b>&c\""), "a&lt;b&gt;&amp;c\"");
    assert_eq!(escape_xml_attr("a<b>&c\""), "a&lt;b&gt;&amp;c&quot;");
    let e = escape_xml_attr("<<\"'>>");
    assert!(!e.contains('<') && !e.contains('>') && !e.contains('"'));
}

#[test]
fn section_xml() {
    let body = section_body("論語", "KR1h0004_001", &["學而時習之".to_string(), "a<b".to_string()]);
    let expected = "      <div type=\"juan\" xml:id=\"KR1h0004_001\" n=\"001\">\n        <head>論語 KR1h0004_001</head>\n        <p xml:id=\"KR1h0004_001-p0001\">學而時習之</p>\n        <p xml:id=\"KR1h0004_001-p0002\">a&lt;b</p>\n      </div>\n";
    assert_eq!(body, expected);
}

#[test]
fn unescaping_escaped_text_gives_it_back() {
    for v in ["<&>", "a &lt; b", "\"q\" & 'p'", "經 > 論"] {
        let e = escape_xml_text(v);
        assert!(!e.contains('<') && !e.contains('>'));
        assert_eq!(e.replace("&lt;", "<").replace("&gt;", ">").replace("&amp;", "&"), v);
        let a = escape_xml_attr(v);
        assert_eq!(a.replace("&lt;", "<").replace("&gt;", ">").replace("&quot;", "\"").replace("&amp;", "&"), v);
    }
    assert_eq!(escape_xml_text("<&>"), "&lt;&amp;&gt;");
}

#[test]
fn work_id_comes_from_the_directory_or_the_first_naming_stem() {
    let none: Vec<String> = Vec::new();
    assert_eq!(work_id_for_repo("KR6q0001", &none), Some("KR6q0001".to_string()));
    let stems = vec!["repo".to_string(), "Readme".to_string(), "KR1a0002_001".to_string(), "KR9z_x".to_string()];
    assert_eq!(work_id_for_repo("repo", &stems), Some("KR1a0002".to_string()));
    assert_eq!(work_id_for_repo("repo", &vec!["notes_1".to_string(), "KR".to_string()]), None);
    assert_eq!(work_id_for_repo("repo", &none), None);
}

#[test]
fn stems_name_a_work_before_their_first_underscore() {
    assert_eq!(work_of_stem("KR3a0001_002_x"), Some("KR3a0001".to_string()));
    assert_eq!(work_of_stem("KR3a0001"), None);
    assert_eq!(work_of_stem("ab_KR"), None);
    assert_eq!(work_of_stem("_x"), None);
}

#[test]
fn manifest_tally_adds_sections_and_works() {
    let a = section_stats("天地\n\n玄黃\n");
    let b = section_stats("宇宙\n");
    let mut work = ManifestTally::new();
    for s in [&a, &b] {
        let one = section_tally(s);
        assert!(work.can_add(&one));
        work.add(&one);
    }
    assert_eq!(work, ManifestTally { sections: 2, raw_bytes: a.raw_bytes + b.raw_bytes, cjk_char_count: 6, passages: 3 });
    let mut total = ManifestTally::new();
    total.add(&work);
    total.add(&work);
    assert_eq!(total.sections, 4);
    assert_eq!(total.passages, 6);
    let full = ManifestTally { sections: usize::MAX, raw_bytes: 0, cjk_char_count: 0, passages: 0 };
    assert!(!full.can_add(&work));
}
