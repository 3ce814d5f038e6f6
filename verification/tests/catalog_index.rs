use sinorag::catalog_index::{
    build_catalog_from_passages, catalog_row, count_cjk, parse_traditions, CatalogRow,
    CorpusCatalogIndex, OutlineNode, OutlineNodeKind,
};
use sinorag::catalog_index::OutlineNodeKind as K;

fn row(
    doc_id: u32,
    work: &str,
    title: &str,
    rel: &str,
    div: &str,
    heading: &str,
    zh: &str,
    from_lb: Option<&str>,
    to_lb: Option<&str>,
) -> CatalogRow {
    catalog_row(
        doc_id, zh, "cbeta", "T", "Taisho", work, rel, div, heading, title, "佚名", "唐",
        Some(7), "印度", "阿含, 小乘", from_lb, to_lb,
    )
}

fn sample_rows() -> Vec<CatalogRow> {
    vec![
        row(0, "T0001", "長阿含經", "T01/T0001.xml", "卷一 / 序", "序", "如是我聞", Some("0001a01"), Some("0001a05")),
        row(1, "T0001", "長阿含經", "T01/T0001.xml", "卷一 / 序", "", "一時佛", None, Some("0001b02")),
        row(2, "T0001", "長阿含經", "T01/T0001.xml", "卷一 / 正文", "正文", "佛告諸比丘曰汝等當知", None, None),
        row(3, "T0002", "", "", "", "", "經曰", None, None),
    ]
}

fn node(c: &CorpusCatalogIndex, id: u32) -> &OutlineNode {
    c.get_node(id).unwrap()
}

#[test]
fn catalog_tree_shape_and_labels() {
    let rows = sample_rows();
    let c = build_catalog_from_passages(&rows, "fp-1".to_string());
    assert_eq!(c.schema, "readzen-corpus-catalog-v2");
    assert_eq!(c.doc_table_fingerprint.as_deref(), Some("fp-1"));
    assert!(c.source_fingerprint.is_none());
    assert_eq!(c.nodes.len(), 12);

    let kinds: Vec<OutlineNodeKind> = c.nodes.iter().map(|n| n.node_kind).collect();
    assert_eq!(
        kinds,
        vec![K::Corpus, K::Canon, K::Work, K::Division, K::Division, K::Division, K::PassageRange, K::Division, K::PassageRange, K::Work, K::Division, K::PassageRange]
    );
    for (i, n) in c.nodes.iter().enumerate() {
        assert_eq!(n.node_id as usize, i);
    }
    assert_eq!(node(&c, 0).label, "");
    assert_eq!(node(&c, 0).work_id, "cbeta");
    assert_eq!(node(&c, 1).label, "Taisho");
    assert_eq!(node(&c, 2).label, "長阿含經");
    assert_eq!(node(&c, 3).label, "T01/T0001.xml");
    assert_eq!(node(&c, 4).label, "卷一");
    assert_eq!(node(&c, 4).div_path, "卷一");
    assert_eq!(node(&c, 5).label, "序");
    assert_eq!(node(&c, 5).div_path, "卷一 / 序");
    assert_eq!(node(&c, 7).div_path, "卷一 / 正文");
    assert_eq!(node(&c, 9).label, "T0002");
    assert_eq!(node(&c, 11).label, "");

    assert_eq!(node(&c, 0).children, vec![1]);
    assert_eq!(node(&c, 1).children, vec![2, 9]);
    assert_eq!(node(&c, 4).children, vec![5, 7]);
    assert_eq!(node(&c, 10).children, vec![11]);
    assert_eq!(node(&c, 11).parent_id, Some(10));
    assert_eq!(node(&c, 0).parent_id, None);
}

#[test]
fn catalog_ranges_and_totals() {
    let rows = sample_rows();
    let c = build_catalog_from_passages(&rows, String::new());
    let r = node(&c, 6);
    assert_eq!(r.label, "序");
    assert_eq!(r.heading_path, "卷一 / 序");
    assert_eq!((r.first_doc_id, r.last_doc_id), (Some(0), Some(1)));
    assert_eq!((r.passage_count, r.cjk_char_count), (2, 7));
    assert_eq!(r.from_lb.as_deref(), Some("0001a01"));
    assert_eq!(r.to_lb.as_deref(), Some("0001b02"));
    let r2 = node(&c, 8);
    assert_eq!((r2.passage_count, r2.cjk_char_count), (1, 10));
    assert_eq!((r2.from_lb.clone(), r2.to_lb.clone()), (None, None));

    // divisions take in the ranges below them
    let d = node(&c, 4);
    assert_eq!((d.first_doc_id, d.last_doc_id, d.passage_count, d.cjk_char_count), (Some(0), Some(2), 3, 17));
    let f = node(&c, 3);
    assert_eq!((f.first_doc_id, f.last_doc_id, f.passage_count, f.cjk_char_count), (Some(0), Some(2), 3, 17));
    // work, canon and corpus carry the totals of their rows
    let w = node(&c, 2);
    assert_eq!((w.first_doc_id, w.last_doc_id, w.passage_count, w.cjk_char_count), (Some(0), Some(2), 3, 17));
    let canon = node(&c, 1);
    assert_eq!((canon.first_doc_id, canon.last_doc_id, canon.passage_count, canon.cjk_char_count), (Some(0), Some(3), 4, 19));
    let corpus = node(&c, 0);
    assert_eq!((corpus.passage_count, corpus.cjk_char_count), (4, 19));

    assert_eq!(c.doc_parent.get(&0), Some(&6));
    assert_eq!(c.doc_parent.get(&1), Some(&6));
    assert_eq!(c.doc_parent.get(&2), Some(&8));
    assert_eq!(c.doc_parent.get(&3), Some(&11));
    assert_eq!(c.doc_parent.len(), 4);
}

#[test]
fn catalog_work_records() {
    let rows = sample_rows();
    let c = build_catalog_from_passages(&rows, String::new());
    assert_eq!(c.works.len(), 2);
    let w = c.get_work("T0001").unwrap();
    assert_eq!(w.root_node, 2);
    assert_eq!(w.source_rel_paths, vec!["T01/T0001.xml".to_string()]);
    assert_eq!((w.passage_count, w.cjk_char_count), (3, 17));
    assert_eq!(w.traditions, vec!["阿含".to_string(), "小乘".to_string()]);
    assert_eq!(w.period_rank, 7);
    assert_eq!(w.canon_name, "Taisho");
    let w2 = c.get_work("T0002").unwrap();
    assert_eq!(w2.root_node, 9);
    assert!(w2.source_rel_paths.is_empty());
    assert!(c.get_work("T9999").is_none());
    let total: u32 = c.works.iter().map(|w| w.passage_count).sum();
    assert_eq!(total as usize, rows.len());
}

#[test]
fn work_roots_carry_their_records_totals() {
    let rows = sample_rows();
    let c = build_catalog_from_passages(&rows, String::new());
    for w in c.works.iter() {
        let n = node(&c, w.root_node);
        assert_eq!(n.node_kind, OutlineNodeKind::Work);
        assert_eq!(n.work_id, w.work_id);
        assert_eq!((n.passage_count, n.cjk_char_count), (w.passage_count, w.cjk_char_count));
    }
}

#[test]
fn catalog_rel_paths_sorted_and_distinct() {
    let rows = vec![
        row(0, "X1", "t", "b.xml", "", "", "", None, None),
        row(1, "X1", "t", "a.xml", "", "", "", None, None),
        row(2, "X1", "t", "b.xml", "", "", "", None, None),
        row(3, "X1", "t", "", "", "", "", None, None),
    ];
    let c = build_catalog_from_passages(&rows, String::new());
    let w = c.get_work("X1").unwrap();
    assert_eq!(w.source_rel_paths, vec!["a.xml".to_string(), "b.xml".to_string()]);
    // one file node per run of rows sharing a file
    let files = c
        .nodes
        .iter()
        .filter(|n| n.node_kind == OutlineNodeKind::Division && n.div_path.is_empty())
        .count();
    assert_eq!(files, 4);
}

#[test]
fn catalog_division_paths_are_normalized() {
    let rows = vec![
        row(0, "W", "t", "f", "  A  /  B ", "", "", None, None),
        row(1, "W", "t", "f", "A / B", "", "", None, None),
        row(2, "W", "t", "f", " / A /  / C", "", "", None, None),
    ];
    let c = build_catalog_from_passages(&rows, String::new());
    let paths: Vec<(OutlineNodeKind, String)> =
        c.nodes.iter().map(|n| (n.node_kind, n.div_path.clone())).collect();
    assert_eq!(
        paths,
        vec![
            (K::Corpus, String::new()),
            (K::Canon, String::new()),
            (K::Work, String::new()),
            (K::Division, String::new()),
            (K::Division, "A".to_string()),
            (K::Division, "A / B".to_string()),
            (K::PassageRange, "  A  /  B ".to_string()),
            (K::PassageRange, "A / B".to_string()),
            (K::Division, "A / C".to_string()),
            (K::PassageRange, " / A /  / C".to_string()),
        ]
    );
    // both spellings of "A / B" share one division; "A / C" hangs under "A"
    assert_eq!(node(&c, 6).parent_id, Some(5));
    assert_eq!(node(&c, 7).parent_id, Some(5));
    assert_eq!(node(&c, 8).parent_id, Some(4));
    assert_eq!(node(&c, 9).parent_id, Some(8));
    assert_eq!(node(&c, 4).children, vec![5, 8]);
}

#[test]
fn catalog_of_no_rows_is_empty() {
    let c = build_catalog_from_passages(&[], "fp".to_string());
    assert!(c.nodes.is_empty());
    assert!(c.works.is_empty());
    assert!(c.doc_parent.is_empty());
    assert!(c.get_children(0).is_none());
}

#[test]
fn catalog_children_and_canon_labels() {
    let mut rows = sample_rows();
    rows[3].canon = "X".to_string();
    rows[3].canon_name = String::new();
    let extra = catalog_row(
        9, "", "cbeta", "", "", "Y1", "", "", "", "", "", "", None, "", "", None, None,
    );
    rows.push(extra);
    let c = build_catalog_from_passages(&rows, String::new());
    let canons: Vec<String> = c
        .nodes
        .iter()
        .filter(|n| n.node_kind == OutlineNodeKind::Canon)
        .map(|n| n.label.clone())
        .collect();
    assert_eq!(canons, vec!["Taisho".to_string(), "X".to_string(), "(no canon)".to_string()]);
    let kids = c.get_children(0).unwrap();
    let kid_labels: Vec<&str> = kids.iter().map(|n| n.label.as_str()).collect();
    assert_eq!(kid_labels, vec!["Taisho", "X", "(no canon)"]);
    assert_eq!(c.get_work("Y1").unwrap().period_rank, 0);
}

#[test]
fn catalog_row_fields() {
    let r = catalog_row(
        5, "a禪𠀀b豈", "c", "T", "", "T1", "r", "d", "h", "m", "au", "p", None, "o", " 禪, 天台 ,,淨土 ",
        Some(""), None,
    );
    assert_eq!(r.cjk_char_count, 3);
    assert_eq!(r.period_rank, 0);
    assert_eq!(r.traditions, vec!["禪".to_string(), "天台".to_string(), "淨土".to_string()]);
    assert_eq!(r.from_lb, "");
    assert_eq!(r.to_lb, "");
    assert_eq!(count_cjk("abc"), 0);
    assert!(parse_traditions("").is_empty());
    assert_eq!(parse_traditions("a,b"), vec!["a".to_string(), "b".to_string()]);
}

#[test]
fn catalog_push_and_roll_up() {
    let mut c = CorpusCatalogIndex::new();
    let root = c.push_node(OutlineNode::leaf(
        OutlineNodeKind::Corpus,
        None,
        "c".to_string(),
        String::new(),
        String::new(),
        "root".to_string(),
    ));
    let child = c.push_node(OutlineNode::leaf(
        OutlineNodeKind::Canon,
        Some(root),
        "c".to_string(),
        String::new(),
        String::new(),
        "kid".to_string(),
    ));
    c.add_child(root, child);
    assert_eq!((root, child), (0, 1));
    c.roll_up(child, 4, 9, 2, 6);
    c.roll_up(child, 2, 5, 1, 1);
    let r = c.get_node(root).unwrap();
    assert_eq!((r.first_doc_id, r.last_doc_id, r.passage_count, r.cjk_char_count), (Some(2), Some(9), 3, 7));
    let k = c.get_node(child).unwrap();
    assert_eq!((k.first_doc_id, k.passage_count), (None, 0));
}

#[test]
fn catalog_sections_in_preorder() {
    let rows = sample_rows();
    let c = build_catalog_from_passages(&rows, String::new());
    assert_eq!(c.section_nodes(Some("T0001"), 2), Some(vec![3, 4]));
    assert_eq!(c.section_nodes(Some("T0001"), 3), Some(vec![3, 4, 5, 7]));
    assert_eq!(c.section_nodes(Some("T0001"), 4), Some(vec![3, 4, 5, 6, 7, 8]));
    assert_eq!(c.section_nodes(Some("T0001"), 0), Some(vec![]));
    assert_eq!(c.section_nodes(None, 1), Some(vec![3, 10]));
    assert_eq!(c.section_nodes(Some("nope"), 3), None);
}

#[test]
fn catalog_nodes_inherit_and_docs_point_at_their_rows() {
    let rows = sample_rows();
    let c = build_catalog_from_passages(&rows, String::new());
    for n in &c.nodes {
        if let Some(p) = n.parent_id {
            let parent = node(&c, p);
            assert_eq!(n.source_corpus, parent.source_corpus);
            if matches!(n.node_kind, K::Division | K::PassageRange) {
                assert_eq!(n.work_id, parent.work_id);
            }
            if parent.node_kind == K::Division {
                assert_eq!(n.source_rel_path, parent.source_rel_path);
            }
        }
    }
    for r in &rows {
        let range = node(&c, *c.doc_parent.get(&r.doc_id).unwrap());
        assert_eq!(range.node_kind, K::PassageRange);
        assert_eq!(range.work_id, r.source_work_id);
        assert_eq!(range.source_rel_path, r.source_rel_path);
        assert_eq!(range.div_path, r.div_path);
        assert_eq!(range.source_corpus, r.source_corpus);
    }
}

fn grouped_row(doc_id: u32, corpus: &str, canon: &str, work: &str, zh: &str) -> CatalogRow {
    catalog_row(
        doc_id, zh, corpus, canon, "", work, "a.xml", "", "", "", "", "", None, "", "", None, None,
    )
}

#[test]
fn corpus_and_canon_nodes_carry_their_runs() {
    let rows = vec![
        grouped_row(10, "cbeta", "T", "T1", "佛說"),
        grouped_row(11, "cbeta", "T", "T2", "經"),
        grouped_row(12, "cbeta", "X", "X1", "法"),
        grouped_row(20, "kanripo", "T", "K1", "道德經"),
    ];
    let c = build_catalog_from_passages(&rows, String::new());
    let corpora: Vec<&OutlineNode> = c.nodes.iter().filter(|n| n.node_kind == K::Corpus).collect();
    let canons: Vec<&OutlineNode> = c.nodes.iter().filter(|n| n.node_kind == K::Canon).collect();
    let totals = |n: &OutlineNode| (n.source_corpus.clone(), n.first_doc_id, n.last_doc_id, n.passage_count, n.cjk_char_count);
    assert_eq!(
        corpora.iter().map(|n| totals(n)).collect::<Vec<_>>(),
        vec![("cbeta".to_string(), Some(10), Some(12), 3, 4), ("kanripo".to_string(), Some(20), Some(20), 1, 3)]
    );
    assert_eq!(
        canons.iter().map(|n| totals(n)).collect::<Vec<_>>(),
        vec![
            ("cbeta".to_string(), Some(10), Some(11), 2, 3),
            ("cbeta".to_string(), Some(12), Some(12), 1, 1),
            ("kanripo".to_string(), Some(20), Some(20), 1, 3),
        ]
    );
    assert_eq!(canons.iter().map(|n| n.label.clone()).collect::<Vec<_>>(), vec!["T", "X", "T"]);
}

#[test]
fn filter_works_keeps_matching_works_in_order_up_to_the_limit() {
    let rows = vec![
        catalog_row(0, "經", "cbeta", "T", "", "T1", "a.xml", "", "", "", "安世高", "東漢", None, "", "阿含, 小乘", None, None),
        catalog_row(1, "經", "cbeta", "T", "", "T2", "b.xml", "", "", "", "鳩摩羅什", "姚秦", None, "", "般若", None, None),
        catalog_row(2, "經", "cbeta", "T", "", "T3", "c.xml", "", "", "", "安世高", "東漢", None, "", "小乘", None, None),
        catalog_row(3, "經", "cbeta", "X", "", "X1", "d.xml", "", "", "", "安世高", "東漢", None, "", "小乘", None, None),
    ];
    let c = build_catalog_from_passages(&rows, String::new());
    let ids = |v: Vec<&sinorag::catalog_index::WorkRecord>| v.iter().map(|w| w.work_id.clone()).collect::<Vec<_>>();
    assert_eq!(ids(c.filter_works(None, None, None, None, 10)), vec!["T1", "T2", "T3", "X1"]);
    assert_eq!(ids(c.filter_works(Some("小乘"), None, None, None, 10)), vec!["T1", "T3", "X1"]);
    assert_eq!(ids(c.filter_works(Some("小乘"), None, Some("T"), None, 10)), vec!["T1", "T3"]);
    assert_eq!(ids(c.filter_works(None, Some("東漢"), None, Some("安世高"), 2)), vec!["T1", "T3"]);
    assert_eq!(ids(c.filter_works(None, Some("唐"), None, None, 10)), Vec::<String>::new());
    assert_eq!(ids(c.filter_works(None, None, None, None, 0)), Vec::<String>::new());
}

#[test]
fn one_record_per_work_counting_its_rows_and_ranges_enclose_their_documents() {
    let rows = sample_rows();
    let c = build_catalog_from_passages(&rows, String::new());
    let mut ids: Vec<String> = rows.iter().map(|r| r.source_work_id.clone()).collect();
    ids.dedup();
    assert_eq!(c.works.len(), ids.len());
    for w in c.works.iter() {
        let n = rows.iter().filter(|r| r.source_work_id == w.work_id).count();
        assert_eq!(w.passage_count as usize, n);
    }
    for r in rows.iter() {
        let range = node(&c, *c.doc_parent.get(&r.doc_id).unwrap());
        assert_eq!(range.node_kind, K::PassageRange);
        assert!(range.first_doc_id.unwrap() <= r.doc_id && r.doc_id <= range.last_doc_id.unwrap());
    }
}

#[test]
fn corpus_passage_counts_add_up_to_the_rows() {
    let rows = vec![
        grouped_row(1, "cbeta", "T", "T1", "佛"),
        grouped_row(2, "cbeta", "T", "T1", "說"),
        grouped_row(3, "kanripo", "K", "K1", "道"),
        grouped_row(4, "cbeta", "X", "X1", "法"),
        grouped_row(5, "cbeta", "X", "X2", "經"),
    ];
    let c = build_catalog_from_passages(&rows, String::new());
    let counts: Vec<u32> = c.nodes.iter().filter(|n| n.node_kind == K::Corpus).map(|n| n.passage_count).collect();
    assert_eq!(counts, vec![2, 1, 2]);
    assert_eq!(counts.iter().sum::<u32>() as usize, rows.len());
}
