use sinorag::catalog_index::{
    build_catalog_from_passages, catalog_row, CorpusCatalogIndex, OutlineNode, OutlineNodeKind,
    WorkRecord,
};
use sinorag::scope::{
    pick_context_node, resolve_doc_range, resolve_search_scope, ContextError, ContextPick, ScopeError,
};

fn catalog() -> CorpusCatalogIndex {
    let row = |doc: u32, work: &str, div: &str, heading: &str| {
        catalog_row(
            doc, "經", "cbeta", "T", "Taisho", work, "f.xml", div, heading, "題", "", "", None, "", "",
            None, None,
        )
    };
    let rows = vec![
        row(0, "T0001", "卷一 / 序", "序"),
        row(1, "T0001", "卷一 / 序", ""),
        row(2, "T0001", "卷一 / 正文", "正文"),
        row(3, "T0002", "", ""),
    ];
    build_catalog_from_passages(&rows, String::new())
}

fn record(work_id: &str, root: u32) -> WorkRecord {
    WorkRecord {
        work_id: work_id.to_string(),
        source_corpus: String::new(),
        canon: String::new(),
        canon_name: String::new(),
        main_title: String::new(),
        author: String::new(),
        period: String::new(),
        period_rank: 0,
        origin: String::new(),
        traditions: vec![],
        source_rel_paths: vec![],
        root_node: root,
        passage_count: 0,
        cjk_char_count: 0,
    }
}

#[test]
fn doc_range_of_node_work_or_corpus() {
    let c = catalog();
    assert_eq!(resolve_doc_range(&c, Some(4), None), Ok(Some((0, 2))));
    assert_eq!(resolve_doc_range(&c, Some(4), Some("T0002")), Ok(Some((0, 2))));
    assert_eq!(resolve_doc_range(&c, None, Some("T0002")), Ok(Some((3, 3))));
    assert_eq!(resolve_doc_range(&c, None, None), Ok(None));
    let e = resolve_doc_range(&c, Some(99), None).unwrap_err();
    assert_eq!(e, ScopeError::UnknownNode(99));
    assert_eq!(e.message(), "unknown node_id: 99");
    let e = resolve_doc_range(&c, None, Some("zz")).unwrap_err();
    assert_eq!(e.message(), "unknown work_id: zz");
}

#[test]
fn search_scope_start_node_and_label() {
    let c = catalog();
    assert_eq!(resolve_search_scope(&c, None, None), Ok((0, "corpus".to_string(), None)));
    assert_eq!(resolve_search_scope(&c, Some(6), None), Ok((6, "序".to_string(), Some((0, 1)))));
    assert_eq!(resolve_search_scope(&c, None, Some("T0001")), Ok((2, "題".to_string(), Some((0, 2)))));
}

#[test]
fn search_scope_errors() {
    let mut c = CorpusCatalogIndex::new();
    c.push_node(OutlineNode::leaf(
        OutlineNodeKind::Corpus,
        None,
        String::new(),
        String::new(),
        String::new(),
        "root".to_string(),
    ));
    c.works.push(record("W1", 0));
    c.works.push(record("W2", 5));
    let e = resolve_search_scope(&c, Some(0), None).unwrap_err();
    assert_eq!(e.message(), "node 0 has no doc range");
    let e = resolve_search_scope(&c, None, Some("W1")).unwrap_err();
    assert_eq!(e, ScopeError::WorkWithoutRange("W1".to_string()));
    assert_eq!(e.message(), "work W1 has no doc range");
    let e = resolve_search_scope(&c, None, Some("W2")).unwrap_err();
    assert_eq!(e.message(), "work root node missing");
    assert_eq!(resolve_doc_range(&c, None, Some("W2")), Err(ScopeError::MissingWorkRoot));
    assert_eq!(resolve_doc_range(&c, Some(0), None), Ok(None));
}

#[test]
fn context_node_climbs_until_it_fits() {
    let c = catalog();
    assert!(c.parents_come_first());
    let leaf = OutlineNodeKind::PassageRange;
    assert_eq!(
        pick_context_node(&c, 0, 100),
        Ok(ContextPick { node_id: 6, climbed: 0, leaf_kind: Some(leaf), first_doc_id: 0, last_doc_id: 1 })
    );
    assert_eq!(
        pick_context_node(&c, 0, 0),
        Ok(ContextPick { node_id: 2, climbed: 4, leaf_kind: Some(leaf), first_doc_id: 0, last_doc_id: 2 })
    );
    assert_eq!(
        pick_context_node(&c, 2, 10),
        Ok(ContextPick { node_id: 8, climbed: 0, leaf_kind: Some(leaf), first_doc_id: 2, last_doc_id: 2 })
    );
    assert_eq!(pick_context_node(&c, 2, 0).map(|p| (p.node_id, p.climbed)), Ok((2, 4)));
    let e = pick_context_node(&c, 99, 10).unwrap_err();
    assert_eq!(e, ContextError::NoCatalogNode(99));
    assert_eq!(e.message(), "doc_id 99 has no catalog node (rebuild catalog?)");
}

fn node(kind: OutlineNodeKind, parent: Option<u32>, cjk: u32, range: Option<(u32, u32)>) -> OutlineNode {
    let mut n = OutlineNode::leaf(kind, parent, String::new(), String::new(), String::new(), String::new());
    n.cjk_char_count = cjk;
    n.first_doc_id = range.map(|r| r.0);
    n.last_doc_id = range.map(|r| r.1);
    n
}

#[test]
fn context_node_stops_below_a_canon() {
    let mut c = CorpusCatalogIndex::new();
    c.push_node(node(OutlineNodeKind::Corpus, None, 60, Some((5, 8))));
    c.push_node(node(OutlineNodeKind::Canon, Some(0), 60, Some((5, 8))));
    c.push_node(node(OutlineNodeKind::Division, Some(1), 10, Some((7, 8))));
    c.push_node(node(OutlineNodeKind::PassageRange, Some(1), 50, Some((5, 6))));
    c.add_child(0, 1);
    c.add_child(1, 2);
    c.add_child(1, 3);
    c.doc_parent.insert(5, 3);
    let pick = pick_context_node(&c, 5, 10).unwrap();
    assert_eq!((pick.node_id, pick.climbed, pick.first_doc_id, pick.last_doc_id), (2, 1, 7, 8));
    c.nodes[2].first_doc_id = None;
    assert_eq!(pick_context_node(&c, 5, 10), Err(ContextError::NoDocRange));
    assert_eq!(ContextError::NoDocRange.message(), "node has no doc range");
    c.nodes[3].parent_id = Some(7);
    assert!(!c.parents_come_first());
}
