//! The corpus catalog: an outline tree of Corpus / Canon / Work / Division /
//! PassageRange nodes built from passage rows, one record per work, and for
//! each document the passage-range node that holds it.

use vstd::prelude::*;
use std::collections::HashMap;
use crate::text::{chars_of, glue, is_ws, matches_at, push_all, split_by, split_chars, string_from, trim, trimmed, views, strs, clone_strings};

verus! {

broadcast use vstd::std_specs::hash::group_hash_axioms;

// ---------------------------------------------------------------------------
// Types
// ---------------------------------------------------------------------------

/// The level of a node in the outline tree.
#[derive(Debug, Clone, Copy, PartialEq, Eq, Structural)]
pub enum OutlineNodeKind {
    Corpus,
    Canon,
    Work,
    Volume,
    Fascicle,
    Chapter,
    Section,
    Division,
    PassageRange,
}

/// One node of the outline tree. Node and document ids are positions in
/// the catalog's node table and the document table.
#[derive(Debug, Clone)]
pub struct OutlineNode {
    pub node_id: u32,
    pub parent_id: Option<u32>,
    pub children: Vec<u32>,
    pub source_corpus: String,
    pub work_id: String,
    pub source_rel_path: String,
    pub node_kind: OutlineNodeKind,
    pub label: String,
    pub heading_path: String,
    pub div_path: String,
    pub first_doc_id: Option<u32>,
    pub last_doc_id: Option<u32>,
    pub passage_count: u32,
    pub cjk_char_count: u32,
    pub from_lb: Option<String>,
    pub to_lb: Option<String>,
}

/// What the catalog records of one work.
#[derive(Debug, Clone)]
pub struct WorkRecord {
    pub work_id: String,
    pub source_corpus: String,
    pub canon: String,
    pub canon_name: String,
    pub main_title: String,
    pub author: String,
    pub period: String,
    pub period_rank: i32,
    pub origin: String,
    pub traditions: Vec<String>,
    pub source_rel_paths: Vec<String>,
    pub root_node: u32,
    pub passage_count: u32,
    pub cjk_char_count: u32,
}

/// What the catalog builder needs of one passage.
#[derive(Debug, Clone)]
pub struct CatalogRow {
    pub doc_id: u32,
    pub source_corpus: String,
    pub canon: String,
    pub canon_name: String,
    pub source_work_id: String,
    pub source_rel_path: String,
    pub div_path: String,
    pub heading: String,
    pub main_title: String,
    pub author: String,
    pub period: String,
    pub period_rank: i32,
    pub origin: String,
    pub traditions: Vec<String>,
    pub cjk_char_count: u32,
    pub from_lb: String,
    pub to_lb: String,
}

/// The catalog: works, outline nodes, and the range node of each document.
/// A node's id is its position in `nodes`.
#[derive(Debug, Clone)]
pub struct CorpusCatalogIndex {
    pub schema: String,
    pub source_fingerprint: Option<String>,
    pub doc_table_fingerprint: Option<String>,
    pub works: Vec<WorkRecord>,
    pub nodes: Vec<OutlineNode>,
    pub doc_parent: HashMap<u32, u32>,
}

// ---------------------------------------------------------------------------
// The shape of a well-formed outline tree
// ---------------------------------------------------------------------------

/// May a node of kind `child` hang under a node of kind `parent`? Canons
/// hang under corpora, works under canons, divisions under works or
/// divisions, and passage ranges under divisions.
pub open spec fn fits_under(child: OutlineNodeKind, parent: OutlineNodeKind) -> bool {
    match child {
        OutlineNodeKind::Canon => parent == OutlineNodeKind::Corpus,
        OutlineNodeKind::Work => parent == OutlineNodeKind::Canon,
        OutlineNodeKind::Division => parent == OutlineNodeKind::Work || parent
            == OutlineNodeKind::Division,
        OutlineNodeKind::PassageRange => parent == OutlineNodeKind::Division,
        _ => false,
    }
}

/// Node `i` knows its own id; it is a corpus root or hangs under an earlier
/// node of a fitting kind that lists it as a child; and its children are
/// later nodes, in increasing order, that name it as their parent.
pub open spec fn node_ok(ns: Seq<OutlineNode>, i: int) -> bool {
    let n = ns[i];
    &&& n.node_id == i
    &&& match n.parent_id {
        None => n.node_kind == OutlineNodeKind::Corpus,
        Some(p) => {
            &&& p < i
            &&& fits_under(n.node_kind, ns[p as int].node_kind)
            &&& ns[p as int].children@.contains(i as u32)
        },
    }
    &&& forall|k: int|
        0 <= k < n.children@.len() ==> i < #[trigger] n.children@[k] < ns.len() && ns[n.children@[k] as int].parent_id
            == Some(i as u32)
    &&& forall|k1: int, k2: int|
        0 <= k1 < k2 < n.children@.len() ==> n.children@[k1] < n.children@[k2]
}

/// Every node of `ns` is in place, and every id fits in a `u32`.
#[verifier::opaque]
pub open spec fn tree_ok(ns: Seq<OutlineNode>) -> bool {
    &&& ns.len() <= u32::MAX
    &&& forall|i: int| 0 <= i < ns.len() ==> #[trigger] node_ok(ns, i)
}

/// `b` is `a` with only the document ranges and counts of nodes changed.
#[verifier::opaque]
pub open spec fn same_shape(a: Seq<OutlineNode>, b: Seq<OutlineNode>) -> bool {
    &&& a.len() == b.len()
    &&& forall|i: int|
        0 <= i < a.len() ==> #[trigger] b[i] == (OutlineNode {
            first_doc_id: b[i].first_doc_id,
            last_doc_id: b[i].last_doc_id,
            passage_count: b[i].passage_count,
            cjk_char_count: b[i].cjk_char_count,
            ..a[i]
        })
}

proof fn lemma_same_shape_tree(a: Seq<OutlineNode>, b: Seq<OutlineNode>)
    requires
        tree_ok(a),
        same_shape(a, b),
    ensures
        tree_ok(b),
{
    reveal(tree_ok);
    reveal(same_shape);
    assert forall|i: int| 0 <= i < b.len() implies #[trigger] node_ok(b, i) by {
        assert(node_ok(a, i));
        assert(b[i].children == a[i].children);
        assert forall|k: int| 0 <= k < b[i].children@.len() implies i < #[trigger] b[i].children@[k]
            < b.len() && b[b[i].children@[k] as int].parent_id == Some(i as u32) by {
            let c = a[i].children@[k] as int;
            assert(b[c].parent_id == a[c].parent_id);
        }
        if let Some(p) = b[i].parent_id {
            assert(b[p as int].children == a[p as int].children);
            assert(b[p as int].node_kind == a[p as int].node_kind);
        }
    }
}

/// A new node `n`, with no children, appended to `a` and listed as the last
/// child of node `p`, gives `b`.
pub open spec fn attached(a: Seq<OutlineNode>, n: OutlineNode, p: int, b: Seq<OutlineNode>) -> bool {
    &&& b.len() == a.len() + 1
    &&& b[a.len() as int] == n
    &&& forall|j: int| 0 <= j < a.len() && j != p ==> #[trigger] b[j] == a[j]
    &&& b[p]
        == (OutlineNode { children: b[p].children, ..a[p] })
    &&& b[p].children@ == a[p].children@.push(a.len() as u32)
}

proof fn lemma_attach(a: Seq<OutlineNode>, n: OutlineNode, p: int, b: Seq<OutlineNode>)
    requires
        tree_ok(a),
        a.len() < u32::MAX,
        0 <= p < a.len(),
        n.node_id == a.len(),
        n.parent_id == Some(p as u32),
        n.children@.len() == 0,
        fits_under(n.node_kind, a[p].node_kind),
        attached(a, n, p, b),
    ensures
        tree_ok(b),
{
    reveal(tree_ok);
    let m = a.len() as int;
    assert forall|i: int| 0 <= i < b.len() implies #[trigger] node_ok(b, i) by {
        if i < m {
            assert(node_ok(a, i));
            assert(b[i].node_id == a[i].node_id);
            assert(b[i].parent_id == a[i].parent_id);
            assert(b[i].node_kind == a[i].node_kind);
            if let Some(q) = a[i].parent_id {
                assert(b[q as int].node_kind == a[q as int].node_kind);
                if q as int == p {
                    assert(b[p].children@.contains(i as u32)) by {
                        let k = choose|k: int| 0 <= k < a[p].children@.len() && a[p].children@[k] == i as u32;
                        assert(b[p].children@[k] == i as u32);
                    }
                } else {
                    assert(b[q as int] == a[q as int]);
                }
            }
            assert forall|k: int| 0 <= k < b[i].children@.len() implies i < #[trigger] b[i].children@[k]
                < b.len() && b[b[i].children@[k] as int].parent_id == Some(i as u32) by {
                if i == p && k == a[p].children@.len() {
                    assert(b[i].children@[k] == m as u32);
                } else {
                    assert(b[i].children@[k] == a[i].children@[k]);
                    let c = a[i].children@[k] as int;
                    assert(c < m);
                    if c == p {
                        assert(b[c].parent_id == a[c].parent_id);
                    } else {
                        assert(b[c] == a[c]);
                    }
                }
            }
            assert forall|k1: int, k2: int| 0 <= k1 < k2 < b[i].children@.len() implies b[i].children@[k1]
                < b[i].children@[k2] by {
                if i == p && k2 == a[p].children@.len() {
                    assert(b[i].children@[k1] == a[i].children@[k1]);
                    assert(a[i].children@[k1] < m);
                } else {
                    assert(b[i].children@[k1] == a[i].children@[k1]);
                    assert(b[i].children@[k2] == a[i].children@[k2]);
                }
            }
        } else {
            assert(b[i] == n);
            assert(b[p].children@[a[p].children@.len() as int] == m as u32);
        }
    }
}

// ---------------------------------------------------------------------------
// Building blocks
// ---------------------------------------------------------------------------

impl OutlineNode {
    /// A node of kind `kind` under `parent_id`, with no children, no
    /// documents and empty paths; `push_node` gives it its id.
    pub fn leaf(
        kind: OutlineNodeKind,
        parent_id: Option<u32>,
        source_corpus: String,
        work_id: String,
        source_rel_path: String,
        label: String,
    ) -> (n: OutlineNode)
        ensures
            n.node_id == 0,
            n.parent_id == parent_id,
            n.children@.len() == 0,
            n.source_corpus == source_corpus,
            n.work_id == work_id,
            n.source_rel_path == source_rel_path,
            n.node_kind == kind,
            n.label == label,
            n.heading_path@.len() == 0,
            n.div_path@.len() == 0,
            n.first_doc_id is None,
            n.last_doc_id is None,
            n.passage_count == 0,
            n.cjk_char_count == 0,
            n.from_lb is None,
            n.to_lb is None,
    {
        OutlineNode {
            node_id: 0,
            parent_id,
            children: Vec::new(),
            source_corpus,
            work_id,
            source_rel_path,
            node_kind: kind,
            label,
            heading_path: String::new(),
            div_path: String::new(),
            first_doc_id: None,
            last_doc_id: None,
            passage_count: 0,
            cjk_char_count: 0,
            from_lb: None,
            to_lb: None,
        }
    }
}

/// The position of the last work in `ws` with id `id`, or -1.
pub open spec fn last_work_with(ws: Seq<WorkRecord>, id: Seq<char>) -> int
    decreases ws.len(),
{
    if ws.len() == 0 {
        -1
    } else if ws.last().work_id@ == id {
        ws.len() - 1
    } else {
        last_work_with(ws.drop_last(), id)
    }
}

proof fn lemma_last_work_with(ws: Seq<WorkRecord>, id: Seq<char>)
    ensures
        -1 <= last_work_with(ws, id) < ws.len(),
        last_work_with(ws, id) >= 0 ==> ws[last_work_with(ws, id)].work_id@ == id,
        forall|j: int| last_work_with(ws, id) < j < ws.len() ==> ws[j].work_id@ != id,
    decreases ws.len(),
{
    if ws.len() > 0 && ws.last().work_id@ != id {
        lemma_last_work_with(ws.drop_last(), id);
        assert forall|j: int| last_work_with(ws, id) < j < ws.len() implies ws[j].work_id@ != id by {
            if j < ws.len() - 1 {
                assert(ws[j] == ws.drop_last()[j]);
            }
        }
    }
}

/// The nodes named by `ids` that exist in `ns`, in order.
pub open spec fn existing_nodes(ns: Seq<OutlineNode>, ids: Seq<u32>) -> Seq<OutlineNode>
    decreases ids.len(),
{
    if ids.len() == 0 {
        Seq::empty()
    } else if ids.last() < ns.len() {
        existing_nodes(ns, ids.drop_last()).push(ns[ids.last() as int])
    } else {
        existing_nodes(ns, ids.drop_last())
    }
}

impl CorpusCatalogIndex {
    /// An empty catalog of the current schema.
    pub fn new() -> (c: CorpusCatalogIndex)
        ensures
            c.schema@ == "readzen-corpus-catalog-v2"@,
            c.source_fingerprint is None,
            c.doc_table_fingerprint is None,
            c.works@.len() == 0,
            c.nodes@.len() == 0,
            c.doc_parent@ == Map::<u32, u32>::empty(),
    {
        CorpusCatalogIndex {
            schema: String::from_str("readzen-corpus-catalog-v2"),
            source_fingerprint: None,
            doc_table_fingerprint: None,
            works: Vec::new(),
            nodes: Vec::new(),
            doc_parent: HashMap::new(),
        }
    }

    /// Appends `node` with its id set to its position, and returns that id.
    pub fn push_node(&mut self, node: OutlineNode) -> (id: u32)
        requires
            old(self).nodes@.len() < u32::MAX,
        ensures
            id == old(self).nodes@.len(),
            final(self).nodes@ == old(self).nodes@.push(OutlineNode { node_id: id, ..node }),
            final(self).works == old(self).works,
            final(self).doc_parent == old(self).doc_parent,
            final(self).schema == old(self).schema,
            final(self).source_fingerprint == old(self).source_fingerprint,
            final(self).doc_table_fingerprint == old(self).doc_table_fingerprint,
    {
        let id = self.nodes.len() as u32;
        let mut node = node;
        node.node_id = id;
        self.nodes.push(node);
        id
    }

    /// Lists `child` as the last child of `parent`.
    pub fn add_child(&mut self, parent: u32, child: u32)
        requires
            parent < old(self).nodes@.len(),
        ensures
            final(self).nodes@.len() == old(self).nodes@.len(),
            forall|j: int|
                0 <= j < old(self).nodes@.len() && j != parent ==> #[trigger] final(self).nodes@[j]
                    == old(self).nodes@[j],
            final(self).nodes@[parent as int] == (OutlineNode {
                children: final(self).nodes@[parent as int].children,
                ..old(self).nodes@[parent as int]
            }),
            final(self).nodes@[parent as int].children@ == old(self).nodes@[parent as int].children@.push(
                child,
            ),
            final(self).works == old(self).works,
            final(self).doc_parent == old(self).doc_parent,
            final(self).schema == old(self).schema,
            final(self).source_fingerprint == old(self).source_fingerprint,
            final(self).doc_table_fingerprint == old(self).doc_table_fingerprint,
    {
        self.nodes[parent as usize].children.push(child);
    }

    /// The node with id `node_id`, if there is one.
    pub fn get_node(&self, node_id: u32) -> (r: Option<&OutlineNode>)
        ensures
            r == (if node_id < self.nodes@.len() {
                Some(&self.nodes@[node_id as int])
            } else {
                None
            }),
    {
        if (node_id as usize) < self.nodes.len() {
            Some(&self.nodes[node_id as usize])
        } else {
            None
        }
    }

    /// The record of the work with id `work_id`; where several works share
    /// the id, the last one recorded.
    pub fn get_work(&self, work_id: &str) -> (r: Option<&WorkRecord>)
        ensures
            r == (if last_work_with(self.works@, work_id@) >= 0 {
                Some(&self.works@[last_work_with(self.works@, work_id@)])
            } else {
                None
            }),
    {
        proof {
            lemma_last_work_with(self.works@, work_id@);
        }
        let mut i = self.works.len();
        while i > 0
            invariant
                i <= self.works@.len(),
                -1 <= last_work_with(self.works@, work_id@) < self.works@.len(),
                last_work_with(self.works@, work_id@) >= 0 ==> self.works@[last_work_with(
                    self.works@,
                    work_id@,
                )].work_id@ == work_id@,
                forall|j: int|
                    last_work_with(self.works@, work_id@) < j < self.works@.len() ==> self.works@[j].work_id@
                        != work_id@,
                forall|j: int| i <= j < self.works@.len() ==> self.works@[j].work_id@ != work_id@,
            decreases i,
        {
            if crate::text::str_eq(self.works[i - 1].work_id.as_str(), work_id) {
                return Some(&self.works[i - 1]);
            }
            i -= 1;
        }
        None
    }

    /// The existing children of node `node_id`, in order, or `None` when
    /// there is no such node.
    pub fn get_children(&self, node_id: u32) -> (r: Option<Vec<&OutlineNode>>)
        ensures
            match r {
                None => node_id >= self.nodes@.len(),
                Some(v) => node_id < self.nodes@.len() && v@.map_values(|x: &OutlineNode| *x)
                    == existing_nodes(self.nodes@, self.nodes@[node_id as int].children@),
            },
    {
        let node = match self.get_node(node_id) {
            Some(n) => n,
            None => return None,
        };
        let mut out: Vec<&OutlineNode> = Vec::new();
        let mut k: usize = 0;
        while k < node.children.len()
            invariant
                node_id < self.nodes@.len(),
                *node == self.nodes@[node_id as int],
                k <= node.children@.len(),
                out@.map_values(|x: &OutlineNode| *x) == existing_nodes(
                    self.nodes@,
                    node.children@.take(k as int),
                ),
            decreases node.children@.len() - k,
        {
            let c = node.children[k];
            proof {
                assert(node.children@.take(k + 1).drop_last() =~= node.children@.take(k as int));
            }
            match self.get_node(c) {
                Some(n) => {
                    out.push(n);
                },
                None => {},
            }
            proof {
                assert(out@.map_values(|x: &OutlineNode| *x) =~= existing_nodes(
                    self.nodes@,
                    node.children@.take(k + 1),
                ));
            }
            k += 1;
        }
        proof {
            assert(node.children@.take(k as int) =~= node.children@);
        }
        Some(out)
    }
}

// ---------------------------------------------------------------------------
// Runs and totals over sorted rows
// ---------------------------------------------------------------------------

/// A field by which rows are grouped.
#[derive(Debug, Clone, Copy, PartialEq, Eq)]
pub enum RowKey {
    Corpus,
    Canon,
    Work,
    RelPath,
    DivPath,
}

pub open spec fn key_of(r: CatalogRow, k: RowKey) -> Seq<char> {
    match k {
        RowKey::Corpus => r.source_corpus@,
        RowKey::Canon => r.canon@,
        RowKey::Work => r.source_work_id@,
        RowKey::RelPath => r.source_rel_path@,
        RowKey::DivPath => r.div_path@,
    }
}

fn key_str(r: &CatalogRow, k: RowKey) -> (s: &str)
    ensures
        s@ == key_of(*r, k),
{
    match k {
        RowKey::Corpus => r.source_corpus.as_str(),
        RowKey::Canon => r.canon.as_str(),
        RowKey::Work => r.source_work_id.as_str(),
        RowKey::RelPath => r.source_rel_path.as_str(),
        RowKey::DivPath => r.div_path.as_str(),
    }
}

/// Rows `lo..e` share the key of row `lo`, and row `e`, if before `hi`,
/// does not: `e` ends the run that starts at `lo`.
pub open spec fn is_run_end(rows: Seq<CatalogRow>, lo: int, hi: int, k: RowKey, e: int) -> bool {
    &&& lo < e <= hi
    &&& forall|j: int| lo <= j < e ==> key_of(#[trigger] rows[j], k) == key_of(rows[lo], k)
    &&& e < hi ==> key_of(rows[e], k) != key_of(rows[lo], k)
}

/// The end of the run of rows that share key `k` with row `lo`, looking no
/// further than `hi`.
fn count_run(rows: &[CatalogRow], lo: usize, hi: usize, k: RowKey) -> (e: usize)
    requires
        lo < hi <= rows@.len(),
    ensures
        is_run_end(rows@, lo as int, hi as int, k, e as int),
{
    let key = key_str(&rows[lo], k);
    let mut e = lo + 1;
    while e < hi && crate::text::str_eq(key_str(&rows[e], k), key)
        invariant
            lo < e <= hi <= rows@.len(),
            key@ == key_of(rows@[lo as int], k),
            forall|j: int| lo <= j < e ==> key_of(#[trigger] rows@[j], k) == key_of(rows@[lo as int], k),
        decreases hi - e,
    {
        e += 1;
    }
    e
}

/// The CJK ideographs counted over `rows`.
pub open spec fn cjk_total(rows: Seq<CatalogRow>) -> int
    decreases rows.len(),
{
    if rows.len() == 0 {
        0
    } else {
        cjk_total(rows.drop_last()) + rows.last().cjk_char_count
    }
}

/// The smallest document id in `rows` (which is not empty).
pub open spec fn min_doc(rows: Seq<CatalogRow>) -> u32
    decreases rows.len(),
{
    if rows.len() <= 1 {
        rows[0].doc_id
    } else {
        let m = min_doc(rows.drop_last());
        if rows.last().doc_id < m {
            rows.last().doc_id
        } else {
            m
        }
    }
}

/// The largest document id in `rows` (which is not empty).
pub open spec fn max_doc(rows: Seq<CatalogRow>) -> u32
    decreases rows.len(),
{
    if rows.len() <= 1 {
        rows[0].doc_id
    } else {
        let m = max_doc(rows.drop_last());
        if rows.last().doc_id > m {
            rows.last().doc_id
        } else {
            m
        }
    }
}

/// First and last document, number of passages and CJK ideographs of
/// `rows`.
pub open spec fn totals(rows: Seq<CatalogRow>) -> (Option<u32>, Option<u32>, int, int) {
    if rows.len() == 0 {
        (None, None, 0, 0)
    } else {
        (Some(min_doc(rows)), Some(max_doc(rows)), rows.len() as int, cjk_total(rows))
    }
}

proof fn lemma_cjk_total_grows(rows: Seq<CatalogRow>, i: int, j: int)
    requires
        0 <= i <= j <= rows.len(),
    ensures
        0 <= cjk_total(rows.take(i)) <= cjk_total(rows.take(j)),
    decreases j - i,
{
    if i < j {
        lemma_cjk_total_grows(rows, i, j - 1);
        assert(rows.take(j).drop_last() =~= rows.take(j - 1));
    } else {
        lemma_cjk_total_nonneg(rows.take(i));
    }
}

proof fn lemma_cjk_total_nonneg(rows: Seq<CatalogRow>)
    ensures
        cjk_total(rows) >= 0,
    decreases rows.len(),
{
    if rows.len() > 0 {
        lemma_cjk_total_nonneg(rows.drop_last());
    }
}

/// Totals of rows `lo..hi`.
fn aggregate_work(rows: &[CatalogRow], lo: usize, hi: usize) -> (r: (Option<u32>, Option<u32>, u32, u32))
    requires
        lo <= hi <= rows@.len(),
        hi - lo <= u32::MAX,
        cjk_total(rows@.subrange(lo as int, hi as int)) <= u32::MAX,
    ensures
        (r.0, r.1, r.2 as int, r.3 as int) == totals(rows@.subrange(lo as int, hi as int)),
{
    if lo == hi {
        return (None, None, 0, 0);
    }
    let mut first = rows[lo].doc_id;
    let mut last = rows[lo].doc_id;
    let mut cjk: u32 = rows[lo].cjk_char_count;
    let mut i = lo + 1;
    proof {
        let one = rows@.subrange(lo as int, i as int);
        assert(one.drop_last() =~= rows@.subrange(lo as int, lo as int));
        assert(one.last() == rows@[lo as int]);
        assert(cjk_total(one.drop_last()) == 0);
    }
    while i < hi
        invariant
            lo < i <= hi <= rows@.len(),
            hi - lo <= u32::MAX,
            cjk_total(rows@.subrange(lo as int, hi as int)) <= u32::MAX,
            first == min_doc(rows@.subrange(lo as int, i as int)),
            last == max_doc(rows@.subrange(lo as int, i as int)),
            cjk == cjk_total(rows@.subrange(lo as int, i as int)),
        decreases hi - i,
    {
        let ghost s = rows@.subrange(lo as int, hi as int);
        proof {
            assert(rows@.subrange(lo as int, i + 1).drop_last() =~= rows@.subrange(lo as int, i as int));
            assert(s.take(i + 1 - lo) =~= rows@.subrange(lo as int, i + 1));
            lemma_cjk_total_grows(s, i + 1 - lo, hi - lo);
            assert(s.take(hi - lo) =~= s);
        }
        let d = rows[i].doc_id;
        if d < first {
            first = d;
        }
        if d > last {
            last = d;
        }
        cjk = cjk + rows[i].cjk_char_count;
        i += 1;
    }
    (Some(first), Some(last), (hi - lo) as u32, cjk)
}

// ---------------------------------------------------------------------------
// Rolling counts up to the ancestors
// ---------------------------------------------------------------------------

/// Is node `a` on the chain of parents above node `i`?
pub open spec fn is_ancestor(ns: Seq<OutlineNode>, a: int, i: int) -> bool
    decreases i,
{
    if 0 <= i < ns.len() {
        match ns[i].parent_id {
            Some(p) => (p as int) < i && (p == a || is_ancestor(ns, a, p as int)),
            None => false,
        }
    } else {
        false
    }
}

proof fn lemma_ancestor_below(ns: Seq<OutlineNode>, a: int, i: int)
    requires
        is_ancestor(ns, a, i),
    ensures
        0 <= a < i < ns.len(),
    decreases i,
{
    let p = ns[i].parent_id.unwrap() as int;
    if p != a {
        lemma_ancestor_below(ns, a, p);
    }
}

proof fn lemma_ancestor_chain(ns: Seq<OutlineNode>, a: int, c: int, i: int)
    requires
        is_ancestor(ns, a, i),
        is_ancestor(ns, c, i),
        a <= c,
    ensures
        a == c || is_ancestor(ns, a, c),
    decreases i,
{
    let p = ns[i].parent_id.unwrap() as int;
    if c == p {
    } else {
        lemma_ancestor_below(ns, c, p);
        if a == p {
        } else {
            lemma_ancestor_chain(ns, a, c, p);
        }
    }
}

proof fn lemma_ancestor_parent(ns: Seq<OutlineNode>, a: int, i: int)
    requires
        is_ancestor(ns, a, i),
        ns[a].parent_id is Some,
        (ns[a].parent_id.unwrap() as int) < a,
    ensures
        is_ancestor(ns, ns[a].parent_id.unwrap() as int, i),
    decreases i,
{
    let p = ns[i].parent_id.unwrap() as int;
    if p != a {
        lemma_ancestor_parent(ns, a, p);
    } else {
        assert(is_ancestor(ns, ns[a].parent_id.unwrap() as int, a));
    }
}

/// `n` with the range `first..=last` and the counts of a run of passages
/// added in.
pub open spec fn rolled(n: OutlineNode, first: u32, last: u32, count: u32, cjk: u32) -> OutlineNode {
    OutlineNode {
        first_doc_id: Some(
            match n.first_doc_id {
                Some(v) => if v < first {
                    v
                } else {
                    first
                },
                None => first,
            },
        ),
        last_doc_id: Some(
            match n.last_doc_id {
                Some(v) => if v > last {
                    v
                } else {
                    last
                },
                None => last,
            },
        ),
        passage_count: (n.passage_count + count) as u32,
        cjk_char_count: (n.cjk_char_count + cjk) as u32,
        ..n
    }
}

impl CorpusCatalogIndex {
    /// Widens the document range of every ancestor of `start_node` to take
    /// in `first..=last`, and adds `passage_count` and `cjk` to its counts.
    pub fn roll_up(&mut self, start_node: u32, first: u32, last: u32, passage_count: u32, cjk: u32)
        requires
            tree_ok(old(self).nodes@),
            start_node < old(self).nodes@.len(),
            forall|a: int|
                is_ancestor(old(self).nodes@, a, start_node as int) ==> #[trigger] old(self).nodes@[a].passage_count
                    + passage_count <= u32::MAX && old(self).nodes@[a].cjk_char_count + cjk
                    <= u32::MAX,
        ensures
            same_shape(old(self).nodes@, final(self).nodes@),
            final(self).nodes@.len() == old(self).nodes@.len(),
            forall|j: int|
                0 <= j < old(self).nodes@.len() ==> #[trigger] final(self).nodes@[j] == if is_ancestor(
                    old(self).nodes@,
                    j,
                    start_node as int,
                ) {
                    rolled(old(self).nodes@[j], first, last, passage_count, cjk)
                } else {
                    old(self).nodes@[j]
                },
            final(self).works == old(self).works,
            final(self).doc_parent == old(self).doc_parent,
            final(self).schema == old(self).schema,
            final(self).source_fingerprint == old(self).source_fingerprint,
            final(self).doc_table_fingerprint == old(self).doc_table_fingerprint,
    {
        let ghost ns0 = self.nodes@;
        let ghost s = start_node as int;
        proof {
            reveal(tree_ok);
        }
        let mut cur = self.nodes[start_node as usize].parent_id;
        proof {
            assert(node_ok(ns0, s));
            assert forall|j: int| is_ancestor(ns0, j, s) implies cur is Some && j <= cur.unwrap() by {
                let p = cur.unwrap() as int;
                if j != p {
                    lemma_ancestor_below(ns0, j, p);
                }
            }
        }
        loop
            invariant_except_break
                tree_ok(ns0),
                0 <= s < ns0.len(),
                forall|a: int|
                    is_ancestor(ns0, a, s) ==> #[trigger] ns0[a].passage_count + passage_count <= u32::MAX
                        && ns0[a].cjk_char_count + cjk <= u32::MAX,
                self.nodes@.len() == ns0.len(),
                self.works == old(self).works,
                self.doc_parent == old(self).doc_parent,
                self.schema == old(self).schema,
                self.source_fingerprint == old(self).source_fingerprint,
                self.doc_table_fingerprint == old(self).doc_table_fingerprint,
                cur matches Some(c) ==> is_ancestor(ns0, c as int, s),
                forall|j: int|
                    0 <= j < ns0.len() ==> #[trigger] self.nodes@[j] == if is_ancestor(ns0, j, s) && (
                    cur is None || j > cur.unwrap()) {
                        rolled(ns0[j], first, last, passage_count, cjk)
                    } else {
                        ns0[j]
                    },
            ensures
                self.nodes@.len() == ns0.len(),
                self.works == old(self).works,
                self.doc_parent == old(self).doc_parent,
                self.schema == old(self).schema,
                self.source_fingerprint == old(self).source_fingerprint,
                self.doc_table_fingerprint == old(self).doc_table_fingerprint,
                forall|j: int|
                    0 <= j < ns0.len() ==> #[trigger] self.nodes@[j] == if is_ancestor(ns0, j, s) {
                        rolled(ns0[j], first, last, passage_count, cjk)
                    } else {
                        ns0[j]
                    },
            decreases
                match cur {
                    Some(c) => c as int + 1,
                    None => 0,
                },
        {
            match cur {
                None => {
                    break ;
                },
                Some(id) => {
                    proof {
                        reveal(tree_ok);
                        lemma_ancestor_below(ns0, id as int, s);
                        assert(self.nodes@[id as int] == ns0[id as int]);
                        assert(node_ok(ns0, id as int));
                    }
                    let n = &mut self.nodes[id as usize];
                    n.first_doc_id = match n.first_doc_id {
                        Some(v) => Some(if v < first { v } else { first }),
                        None => Some(first),
                    };
                    n.last_doc_id = match n.last_doc_id {
                        Some(v) => Some(if v > last { v } else { last }),
                        None => Some(last),
                    };
                    n.passage_count = n.passage_count + passage_count;
                    n.cjk_char_count = n.cjk_char_count + cjk;
                    cur = n.parent_id;
                    proof {
                        if let Some(q) = cur {
                            lemma_ancestor_parent(ns0, id as int, s);
                        }
                        assert forall|j: int| 0 <= j < ns0.len() implies #[trigger] self.nodes@[j] == if is_ancestor(ns0, j, s) && (
                        cur is None || j > cur.unwrap()) {
                            rolled(ns0[j], first, last, passage_count, cjk)
                        } else {
                            ns0[j]
                        } by {
                            if j != id as int {
                                if is_ancestor(ns0, j, s) {
                                    if j < id as int {
                                        lemma_ancestor_chain(ns0, j, id as int, s);
                                        if let Some(q) = cur {
                                            if j != q as int {
                                                lemma_ancestor_below(ns0, j, q as int);
                                            }
                                        }
                                    }
                                }
                            }
                        }
                    }
                },
            }
        }
        proof {
            reveal(same_shape);
            assert forall|i: int| 0 <= i < ns0.len() implies #[trigger] self.nodes@[i] == (OutlineNode {
                first_doc_id: self.nodes@[i].first_doc_id,
                last_doc_id: self.nodes@[i].last_doc_id,
                passage_count: self.nodes@[i].passage_count,
                cjk_char_count: self.nodes@[i].cjk_char_count,
                ..ns0[i]
            }) by {
            }
        }
    }
}

// ---------------------------------------------------------------------------
// Division paths
// ---------------------------------------------------------------------------

/// The separator between the components of a division path.
pub open spec fn div_sep() -> Seq<char> {
    seq![' ', '/', ' ']
}

/// The pieces of `s` between occurrences of " / ", found from the left
/// without overlap, as `str::split(" / ")` gives them.
pub open spec fn div_pieces(s: Seq<char>) -> Seq<Seq<char>>
    decreases s.len(),
{
    if s.len() == 0 {
        seq![Seq::<char>::empty()]
    } else if s.len() >= 3 && s.take(3) == div_sep() {
        seq![Seq::<char>::empty()] + div_pieces(s.skip(3))
    } else {
        let rest = div_pieces(s.drop_first());
        rest.update(0, seq![s[0]] + rest[0])
    }
}

proof fn lemma_div_pieces_len(s: Seq<char>)
    ensures
        div_pieces(s).len() >= 1,
    decreases s.len(),
{
    if s.len() == 0 {
    } else if s.len() >= 3 && s.take(3) == div_sep() {
        lemma_div_pieces_len(s.skip(3));
    } else {
        lemma_div_pieces_len(s.drop_first());
    }
}

/// The components of `ps` that are not blank, trimmed and joined by " / ".
pub open spec fn joined_path(ps: Seq<Seq<char>>) -> Seq<char>
    decreases ps.len(),
{
    if ps.len() == 0 {
        Seq::empty()
    } else {
        let pre = joined_path(ps.drop_last());
        let t = trim(ps.last());
        if t.len() == 0 {
            pre
        } else if pre.len() == 0 {
            t
        } else {
            pre + div_sep() + t
        }
    }
}

/// A division path with blank components dropped and each component
/// trimmed: the path of the division node it leads to.
pub open spec fn normal_div_path(s: Seq<char>) -> Seq<char> {
    joined_path(div_pieces(s))
}

/// How many pieces of `ps` are not blank.
pub open spec fn solid_count(ps: Seq<Seq<char>>) -> nat
    decreases ps.len(),
{
    if ps.len() == 0 {
        0
    } else {
        solid_count(ps.drop_last()) + if trim(ps.last()).len() > 0 {
            1nat
        } else {
            0nat
        }
    }
}

proof fn lemma_trim_len(s: Seq<char>)
    ensures
        trim(s).len() <= s.len(),
{
    lemma_trim_start_len(s);
    lemma_trim_end_len(crate::text::trim_start(s));
}

proof fn lemma_trim_start_len(s: Seq<char>)
    ensures
        crate::text::trim_start(s).len() <= s.len(),
    decreases s.len(),
{
    if s.len() > 0 && is_ws(s[0]) {
        lemma_trim_start_len(s.drop_first());
    }
}

proof fn lemma_trim_end_len(s: Seq<char>)
    ensures
        crate::text::trim_end(s).len() <= s.len(),
    decreases s.len(),
{
    if s.len() > 0 && is_ws(s.last()) {
        lemma_trim_end_len(s.drop_last());
    }
}

proof fn lemma_solid_count_first(ps: Seq<Seq<char>>)
    requires
        ps.len() >= 1,
    ensures
        solid_count(ps) == solid_count(ps.drop_first()) + if trim(ps[0]).len() > 0 {
            1nat
        } else {
            0nat
        },
    decreases ps.len(),
{
    if ps.len() > 1 {
        lemma_solid_count_first(ps.drop_last());
        assert(ps.drop_last().drop_first() =~= ps.drop_first().drop_last());
        let dl = ps.drop_last();
        let df = ps.drop_first();
        assert(df.last() == ps.last());
        assert(dl[0] == ps[0]);
        assert(solid_count(df) == solid_count(df.drop_last()) + if trim(df.last()).len() > 0 {
            1nat
        } else {
            0nat
        });
        assert(solid_count(ps) == solid_count(dl) + if trim(ps.last()).len() > 0 {
            1nat
        } else {
            0nat
        });
    } else {
        assert(ps.drop_first().len() == 0);
        assert(ps.drop_last().len() == 0);
        assert(ps.last() == ps[0]);
        assert(solid_count(ps.drop_first()) == 0);
        assert(solid_count(ps.drop_last()) == 0);
    }
}

proof fn lemma_solid_count_bound(s: Seq<char>)
    ensures
        solid_count(div_pieces(s)) <= s.len(),
    decreases s.len(),
{
    lemma_div_pieces_len(s);
    let ps = div_pieces(s);
    if s.len() == 0 {
        assert(ps =~= seq![Seq::<char>::empty()]);
        assert(ps.drop_last().len() == 0);
        assert(trim(Seq::<char>::empty()).len() == 0) by {
            lemma_trim_len(Seq::<char>::empty());
        }
        assert(solid_count(ps) == solid_count(ps.drop_last()) + if trim(ps.last()).len() > 0 {
            1nat
        } else {
            0nat
        });
    } else if s.len() >= 3 && s.take(3) == div_sep() {
        lemma_solid_count_bound(s.skip(3));
        assert(ps.drop_first() =~= div_pieces(s.skip(3)));
        assert(ps[0] == Seq::<char>::empty());
        assert(trim(Seq::<char>::empty()).len() == 0) by {
            lemma_trim_len(Seq::<char>::empty());
        }
        lemma_solid_count_first(ps);
    } else {
        lemma_solid_count_bound(s.drop_first());
        let rest = div_pieces(s.drop_first());
        lemma_div_pieces_len(s.drop_first());
        assert(ps.drop_first() =~= rest.drop_first());
        lemma_solid_count_first(ps);
        lemma_solid_count_first(rest);
    }
}

/// The pieces of `v` between occurrences of " / ".
fn split_div_path(v: &[char]) -> (out: Vec<Vec<char>>)
    ensures
        views(out@) == div_pieces(v@),
{
    let sep: Vec<char> = vec![' ', '/', ' '];
    proof {
        assert(sep@ =~= div_sep());
    }
    let mut parts: Vec<Vec<char>> = Vec::new();
    let mut cur: Vec<char> = Vec::new();
    let mut i: usize = 0;
    proof {
        assert(v@.skip(0) =~= v@);
        lemma_div_pieces_len(v@);
        assert(glue(views(parts@), cur@, div_pieces(v@)) =~= div_pieces(v@));
    }
    while i < v.len()
        invariant
            i <= v.len(),
            sep@ == div_sep(),
            div_pieces(v@) == glue(views(parts@), cur@, div_pieces(v@.skip(i as int))),
        decreases v.len() - i,
    {
        let ghost t = v@.skip(i as int);
        if matches_at(v, sep.as_slice(), i) {
            let ghost rest = div_pieces(v@.skip(i + 3));
            proof {
                assert(t.take(3) =~= v@.subrange(i as int, i + 3));
                assert(t.skip(3) =~= v@.skip(i + 3));
                lemma_div_pieces_len(v@.skip(i + 3));
            }
            let ghost old_parts = views(parts@);
            let ghost old_cur = cur@;
            let mut done: Vec<char> = Vec::new();
            std::mem::swap(&mut done, &mut cur);
            parts.push(done);
            proof {
                assert(views(parts@) =~= old_parts.push(old_cur));
                assert(glue(old_parts, old_cur, seq![Seq::<char>::empty()] + rest) =~= glue(
                    views(parts@),
                    cur@,
                    rest,
                ));
            }
            i += 3;
        } else {
            let ghost rest = div_pieces(v@.skip(i + 1));
            proof {
                if t.len() >= 3 && t.take(3) == div_sep() {
                    assert(t.take(3) =~= v@.subrange(i as int, i + 3));
                }
                assert(t.drop_first() =~= v@.skip(i + 1));
                assert(t[0] == v@[i as int]);
                lemma_div_pieces_len(v@.skip(i + 1));
            }
            let ghost old_cur = cur@;
            cur.push(v[i]);
            proof {
                let r2 = rest.update(0, seq![v@[i as int]] + rest[0]);
                assert(old_cur + r2[0] =~= cur@ + rest[0]);
                assert(r2.skip(1) =~= rest.skip(1));
            }
            i += 1;
        }
    }
    let ghost old_parts = views(parts@);
    let ghost old_cur = cur@;
    proof {
        assert(v@.skip(i as int) =~= Seq::<char>::empty());
    }
    parts.push(cur);
    proof {
        assert(views(parts@) =~= old_parts.push(old_cur));
        assert(glue(old_parts, old_cur, seq![Seq::<char>::empty()]) =~= views(parts@));
    }
    parts
}

// ---------------------------------------------------------------------------
// Growing the tree
// ---------------------------------------------------------------------------

/// `b` is `a` with nodes appended and only the child lists of old nodes
/// changed.
#[verifier::opaque]
pub open spec fn grows(a: Seq<OutlineNode>, b: Seq<OutlineNode>) -> bool {
    &&& a.len() <= b.len()
    &&& forall|j: int|
        0 <= j < a.len() ==> #[trigger] b[j] == (OutlineNode { children: b[j].children, ..a[j] })
}

proof fn lemma_attached_grows(a: Seq<OutlineNode>, n: OutlineNode, p: int, b: Seq<OutlineNode>)
    requires
        attached(a, n, p, b),
    ensures
        grows(a, b),
{
    reveal(grows);
    assert forall|j: int| 0 <= j < a.len() implies #[trigger] b[j] == (OutlineNode {
        children: b[j].children,
        ..a[j]
    }) by {
        if j != p {
            assert(b[j] == a[j]);
        }
    }
}

proof fn lemma_grows_trans(a: Seq<OutlineNode>, b: Seq<OutlineNode>, c: Seq<OutlineNode>)
    requires
        grows(a, b),
        grows(b, c),
    ensures
        grows(a, c),
{
    reveal(grows);
    assert forall|j: int| 0 <= j < a.len() implies #[trigger] c[j] == (OutlineNode {
        children: c[j].children,
        ..a[j]
    }) by {
        assert(b[j] == (OutlineNode { children: b[j].children, ..a[j] }));
        assert(c[j] == (OutlineNode { children: c[j].children, ..b[j] }));
    }
}

/// The nodes of `ns` from position `from` on are divisions with no
/// documents counted yet.
#[verifier::opaque]
pub open spec fn fresh_divisions(ns: Seq<OutlineNode>, from: int) -> bool {
    forall|j: int|
        from <= j < ns.len() ==> (#[trigger] ns[j]).node_kind == OutlineNodeKind::Division
            && ns[j].passage_count == 0 && ns[j].cjk_char_count == 0 && ns[j].first_doc_id is None
            && ns[j].last_doc_id is None
}

/// Every entry of the path cache names a division node of `ns` whose path
/// is the entry's key.
#[verifier::opaque]
pub open spec fn path_cache_ok(ns: Seq<OutlineNode>, cache: Seq<(String, u32)>) -> bool {
    forall|k: int|
        0 <= k < cache.len() ==> (#[trigger] cache[k]).1 < ns.len() && ns[cache[k].1 as int].node_kind
            == OutlineNodeKind::Division && ns[cache[k].1 as int].div_path@ == cache[k].0@
}

/// Walks the components of `div_path` below `file_node`, making the
/// division nodes that do not exist yet, and returns the deepest one: the
/// division whose path is `div_path` normalized (`file_node` itself when
/// that is empty).
fn ensure_path(
    catalog: &mut CorpusCatalogIndex,
    file_node: u32,
    path_nodes: &mut Vec<(String, u32)>,
    div_path: &str,
    sample_row: &CatalogRow,
) -> (r: u32)
    requires
        tree_ok(old(catalog).nodes@),
        file_node < old(catalog).nodes@.len(),
        old(catalog).nodes@[file_node as int].node_kind == OutlineNodeKind::Division,
        old(catalog).nodes@[file_node as int].div_path@.len() == 0,
        path_cache_ok(old(catalog).nodes@, old(path_nodes)@),
        old(catalog).nodes@.len() + div_path@.len() <= u32::MAX,
        lineage_ok(old(catalog).nodes@),
        node_fields(old(catalog).nodes@[file_node as int]) == fields_of(*sample_row),
        cache_fields(old(catalog).nodes@, old(path_nodes)@, fields_of(*sample_row)),
        cache_below(old(catalog).nodes@, old(path_nodes)@, file_node as int),
    ensures
        cache_below(final(catalog).nodes@, final(path_nodes)@, file_node as int),
        descends(final(catalog).nodes@, file_node as int, r as int),
        lineage_ok(final(catalog).nodes@),
        cache_fields(final(catalog).nodes@, final(path_nodes)@, fields_of(*sample_row)),
        node_fields(final(catalog).nodes@[r as int]) == fields_of(*sample_row),
        tree_ok(final(catalog).nodes@),
        grows(old(catalog).nodes@, final(catalog).nodes@),
        final(catalog).nodes@.len() <= old(catalog).nodes@.len() + div_path@.len(),
        fresh_divisions(final(catalog).nodes@, old(catalog).nodes@.len() as int),
        path_cache_ok(final(catalog).nodes@, final(path_nodes)@),
        r < final(catalog).nodes@.len(),
        final(catalog).nodes@[r as int].node_kind == OutlineNodeKind::Division,
        final(catalog).nodes@[r as int].div_path@ == normal_div_path(div_path@),
        final(catalog).works == old(catalog).works,
        final(catalog).doc_parent == old(catalog).doc_parent,
        final(catalog).schema == old(catalog).schema,
        final(catalog).source_fingerprint == old(catalog).source_fingerprint,
        final(catalog).doc_table_fingerprint == old(catalog).doc_table_fingerprint,
{
    let ghost ns0 = catalog.nodes@;
    let ghost n0 = ns0.len() as int;
    proof {
        reveal(grows);
        reveal(fresh_divisions);
    }
    let v = chars_of(div_path);
    let pieces = split_div_path(v.as_slice());
    let ghost ps = views(pieces@);
    proof {
        lemma_solid_count_bound(v@);
        assert(ps.take(0) =~= Seq::<Seq<char>>::empty());
    }
    let mut cur = file_node;
    let mut joined: Vec<char> = Vec::new();
    let mut k: usize = 0;
    while k < pieces.len()
        invariant
            ps == views(pieces@),
            ps == div_pieces(div_path@),
            solid_count(ps) <= div_path@.len(),
            k <= pieces@.len(),
            joined@ == joined_path(ps.take(k as int)),
            n0 == ns0.len(),
            n0 + div_path@.len() <= u32::MAX,
            tree_ok(catalog.nodes@),
            grows(ns0, catalog.nodes@),
            catalog.nodes@.len() <= n0 + solid_count(ps.take(k as int)),
            fresh_divisions(catalog.nodes@, n0),
            path_cache_ok(catalog.nodes@, path_nodes@),
            cur < catalog.nodes@.len(),
            catalog.nodes@[cur as int].node_kind == OutlineNodeKind::Division,
            catalog.nodes@[cur as int].div_path@ == joined@,
            lineage_ok(catalog.nodes@),
            node_fields(catalog.nodes@[cur as int]) == fields_of(*sample_row),
            cache_fields(catalog.nodes@, path_nodes@, fields_of(*sample_row)),
            cache_below(catalog.nodes@, path_nodes@, file_node as int),
            descends(catalog.nodes@, file_node as int, cur as int),
            file_node < ns0.len(),
            catalog.works == old(catalog).works,
            catalog.doc_parent == old(catalog).doc_parent,
            catalog.schema == old(catalog).schema,
            catalog.source_fingerprint == old(catalog).source_fingerprint,
            catalog.doc_table_fingerprint == old(catalog).doc_table_fingerprint,
        decreases pieces@.len() - k,
    {
        let ghost pre = ps.take(k as int);
        let ghost nxt = ps.take(k + 1);
        proof {
            reveal(path_cache_ok);
            reveal(fresh_divisions);
            assert(nxt.drop_last() =~= pre);
            assert(nxt.last() == ps[k as int]);
            assert(ps[k as int] == pieces@[k as int]@);
            lemma_solid_count_prefix(ps, k as int + 1);
        }
        let seg = trimmed(pieces[k].as_slice());
        if seg.len() == 0 {
            k += 1;
            continue;
        }
        if joined.len() > 0 {
            joined.push(' ');
            joined.push('/');
            joined.push(' ');
        }
        push_all(&mut joined, seg.as_slice());
        proof {
            assert(joined@ =~= joined_path(nxt));
        }
        let key = string_from(joined.as_slice());
        let mut found: Option<u32> = None;
        let mut i: usize = 0;
        while i < path_nodes.len()
            invariant
                i <= path_nodes@.len(),
                path_cache_ok(catalog.nodes@, path_nodes@),
                cache_fields(catalog.nodes@, path_nodes@, fields_of(*sample_row)),
                cache_below(catalog.nodes@, path_nodes@, file_node as int),
                found matches Some(id) ==> id < catalog.nodes@.len() && catalog.nodes@[id as int].node_kind
                    == OutlineNodeKind::Division && catalog.nodes@[id as int].div_path@ == key@ && node_fields(
                    catalog.nodes@[id as int],
                ) == fields_of(*sample_row) && descends(catalog.nodes@, file_node as int, id as int),
            decreases path_nodes@.len() - i,
        {
            proof {
                reveal(path_cache_ok);
                reveal(cache_fields);
                reveal(cache_below);
            }
            if crate::text::str_eq(path_nodes[i].0.as_str(), key.as_str()) {
                found = Some(path_nodes[i].1);
                break;
            }
            i += 1;
        }
        match found {
            Some(id) => {
                cur = id;
            },
            None => {
                let ghost before = catalog.nodes@;
                let mut node = OutlineNode::leaf(
                    OutlineNodeKind::Division,
                    Some(cur),
                    sample_row.source_corpus.clone(),
                    sample_row.source_work_id.clone(),
                    sample_row.source_rel_path.clone(),
                    string_from(seg.as_slice()),
                );
                node.heading_path = key.clone();
                node.div_path = key.clone();
                let id = catalog.push_node(node);
                catalog.add_child(cur, id);
                proof {
                    let n = OutlineNode { node_id: id, ..node };
                    assert(attached(before, n, cur as int, catalog.nodes@));
                    lemma_attach(before, n, cur as int, catalog.nodes@);
                    lemma_attached_grows(before, n, cur as int, catalog.nodes@);
                    lemma_grows_trans(ns0, before, catalog.nodes@);
                    lemma_lineage_attach(before, n, cur as int, catalog.nodes@);
                    lemma_grows_keeps(before, catalog.nodes@);
                    reveal(path_cache_ok);
                    lemma_cache_fields_keep(before, catalog.nodes@, path_nodes@, fields_of(*sample_row));
                    lemma_cache_below_keep(before, catalog.nodes@, path_nodes@, file_node as int);
                    lemma_grows_keeps(before, catalog.nodes@);
                    lemma_descends_keep(before, catalog.nodes@, file_node as int, cur as int);
                    lemma_ancestor_step(catalog.nodes@, file_node as int, cur as int, id as int);
                    assert forall|q: int| 0 <= q < path_nodes@.len() implies (#[trigger] path_nodes@[q]).1
                        < catalog.nodes@.len() && catalog.nodes@[path_nodes@[q].1 as int].node_kind
                        == OutlineNodeKind::Division && catalog.nodes@[path_nodes@[q].1 as int].div_path@
                        == path_nodes@[q].0@ by {
                        let t = path_nodes@[q].1 as int;
                        assert(catalog.nodes@[t] == (OutlineNode { children: catalog.nodes@[t].children, ..before[t] }));
                    }
                    assert forall|j: int| n0 <= j < catalog.nodes@.len() implies (#[trigger] catalog.nodes@[j]).node_kind
                        == OutlineNodeKind::Division && catalog.nodes@[j].passage_count == 0
                        && catalog.nodes@[j].cjk_char_count == 0 && catalog.nodes@[j].first_doc_id is None
                        && catalog.nodes@[j].last_doc_id is None by {
                        if j < before.len() {
                            assert(catalog.nodes@[j] == (OutlineNode { children: catalog.nodes@[j].children, ..before[j] }));
                        }
                    }
                    assert(catalog.nodes@[cur as int].div_path == before[cur as int].div_path);
                }
                let ghost old_cache = path_nodes@;
                path_nodes.push((key, id));
                proof {
                    reveal(cache_below);
                    assert forall|k: int| 0 <= k < path_nodes@.len() implies descends(
                        catalog.nodes@,
                        file_node as int,
                        (#[trigger] path_nodes@[k]).1 as int,
                    ) by {
                        if k < old_cache.len() {
                            assert(path_nodes@[k] == old_cache[k]);
                        }
                    }
                    reveal(cache_fields);
                    assert forall|k: int| 0 <= k < path_nodes@.len() && (#[trigger] path_nodes@[k]).1
                        < catalog.nodes@.len() implies node_fields(catalog.nodes@[path_nodes@[k].1 as int]) == fields_of(
                        *sample_row,
                    ) by {
                        if k < old_cache.len() {
                            assert(path_nodes@[k] == old_cache[k]);
                        }
                    }
                }
                cur = id;
            },
        }
        k += 1;
    }
    proof {
        assert(ps.take(k as int) =~= ps);
    }
    cur
}

proof fn lemma_solid_count_prefix(ps: Seq<Seq<char>>, k: int)
    requires
        0 <= k <= ps.len(),
    ensures
        solid_count(ps.take(k)) <= solid_count(ps),
    decreases ps.len() - k,
{
    if k < ps.len() {
        lemma_solid_count_prefix(ps, k + 1);
        assert(ps.take(k + 1).drop_last() =~= ps.take(k));
    } else {
        assert(ps.take(k) =~= ps);
    }
}

// ---------------------------------------------------------------------------
// Sorted sets of names
// ---------------------------------------------------------------------------

/// `a` comes before `b` in code-point order, the order of `str`.
pub open spec fn lex_lt(a: Seq<char>, b: Seq<char>) -> bool
    decreases a.len(),
{
    if b.len() == 0 {
        false
    } else if a.len() == 0 {
        true
    } else if a[0] != b[0] {
        a[0] < b[0]
    } else {
        lex_lt(a.drop_first(), b.drop_first())
    }
}

/// No name comes before itself.
pub(crate) proof fn lemma_lex_irrefl(a: Seq<char>)
    ensures
        !lex_lt(a, a),
    decreases a.len(),
{
    if a.len() > 0 {
        lemma_lex_irrefl(a.drop_first());
    }
}

#[verifier::rlimit(30)]
pub(crate) proof fn lemma_lex_total(a: Seq<char>, b: Seq<char>)
    ensures
        a == b || lex_lt(a, b) || lex_lt(b, a),
    decreases a.len(),
{
    if a.len() > 0 && b.len() > 0 && a[0] == b[0] {
        lemma_lex_total(a.drop_first(), b.drop_first());
        if a.drop_first() == b.drop_first() {
            assert(a =~= seq![a[0]] + a.drop_first());
            assert(b =~= seq![b[0]] + b.drop_first());
        }
    } else if a.len() == 0 && b.len() == 0 {
        assert(a =~= b);
    }
}

pub(crate) proof fn lemma_lex_trans(a: Seq<char>, b: Seq<char>, c: Seq<char>)
    requires
        lex_lt(a, b),
        lex_lt(b, c),
    ensures
        lex_lt(a, c),
    decreases a.len(),
{
    if a.len() > 0 && b.len() > 0 && c.len() > 0 && a[0] == b[0] && b[0] == c[0] {
        lemma_lex_trans(a.drop_first(), b.drop_first(), c.drop_first());
    }
}

proof fn lemma_lex_skip(a: Seq<char>, b: Seq<char>, i: int)
    requires
        0 <= i <= a.len(),
        i <= b.len(),
        a.take(i) == b.take(i),
    ensures
        lex_lt(a, b) == lex_lt(a.skip(i), b.skip(i)),
    decreases i,
{
    if i > 0 {
        assert(a[0] == a.take(i)[0]);
        assert(b[0] == b.take(i)[0]);
        assert(a.drop_first().take(i - 1) =~= a.take(i).drop_first());
        assert(b.drop_first().take(i - 1) =~= b.take(i).drop_first());
        lemma_lex_skip(a.drop_first(), b.drop_first(), i - 1);
        assert(a.drop_first().skip(i - 1) =~= a.skip(i));
        assert(b.drop_first().skip(i - 1) =~= b.skip(i));
    } else {
        assert(a.skip(0) =~= a);
        assert(b.skip(0) =~= b);
    }
}

/// Does `a` come before `b` in code-point order?
fn lex_less(a: &[char], b: &[char]) -> (r: bool)
    ensures
        r == lex_lt(a@, b@),
{
    let mut i: usize = 0;
    while i < a.len() && i < b.len() && a[i] == b[i]
        invariant
            i <= a.len(),
            i <= b.len(),
            a@.take(i as int) == b@.take(i as int),
        decreases a.len() - i,
    {
        proof {
            assert(a@.take(i + 1) =~= a@.take(i as int).push(a@[i as int]));
            assert(b@.take(i + 1) =~= b@.take(i as int).push(b@[i as int]));
        }
        i += 1;
    }
    proof {
        lemma_lex_skip(a@, b@, i as int);
    }
    if i < a.len() && i < b.len() {
        a[i] < b[i]
    } else {
        i == a.len() && i < b.len()
    }
}

/// Each name of `s` comes before the next.
pub open spec fn strictly_sorted(s: Seq<Seq<char>>) -> bool {
    forall|i: int, j: int| 0 <= i < j < s.len() ==> lex_lt(#[trigger] s[i], #[trigger] s[j])
}

pub(crate) fn name_before(a: &String, b: &[char]) -> (r: bool)
    ensures
        r == lex_lt(a@, b@),
{
    let ac = chars_of(a.as_str());
    lex_less(ac.as_slice(), b)
}

/// Adds `name` to the strictly sorted names `v`, unless it is there.
fn insert_sorted(v: &mut Vec<String>, name: String)
    requires
        strictly_sorted(strs(old(v)@)),
    ensures
        strictly_sorted(strs(final(v)@)),
        strs(final(v)@).to_set() == strs(old(v)@).to_set().insert(name@),
{
    let ghost s0 = strs(v@);
    let nc = chars_of(name.as_str());
    let mut p: usize = 0;
    while p < v.len() && name_before(&v[p], nc.as_slice())
        invariant
            p <= v@.len(),
            s0 == strs(v@),
            nc@ == name@,
            forall|j: int| 0 <= j < p ==> lex_lt(#[trigger] s0[j], name@),
        decreases v@.len() - p,
    {
        p += 1;
    }
    // names before `p` come before `name`; the one at `p`, if any, does not
    if p < v.len() {
        let vc = chars_of(v[p].as_str());
        if crate::text::chars_eq(vc.as_slice(), nc.as_slice()) {
            proof {
                assert(s0[p as int] == name@);
                assert(s0.to_set().insert(name@) =~= s0.to_set());
            }
            return;
        }
        proof {
            assert(s0[p as int] == vc@);
            assert(!lex_lt(s0[p as int], name@));
            lemma_lex_total(s0[p as int], name@);
            assert(lex_lt(name@, s0[p as int]));
        }
    }
    v.insert(p, name);
    proof {
        let s1 = strs(v@);
        assert(s1 =~= s0.insert(p as int, name@));
        assert forall|i: int, j: int| 0 <= i < j < s1.len() implies lex_lt(#[trigger] s1[i], #[trigger] s1[j]) by {
            if j < p {
                assert(lex_lt(s0[i], s0[j]));
            } else if j == p {
                assert(lex_lt(s0[i], name@));
            } else if i < p {
                assert(s1[j] == s0[j - 1]);
                if j - 1 == p {
                    lemma_lex_trans(s0[i], name@, s0[p as int]);
                } else {
                    assert(lex_lt(s0[i], s0[j - 1]));
                }
            } else if i == p {
                assert(s1[j] == s0[j - 1]);
                if j - 1 > p {
                    assert(lex_lt(s0[p as int], s0[j - 1]));
                    lemma_lex_trans(name@, s0[p as int], s0[j - 1]);
                }
            } else {
                assert(lex_lt(s0[i - 1], s0[j - 1]));
            }
        }
        assert forall|x: Seq<char>| s1.to_set().contains(x) <==> s0.to_set().insert(name@).contains(x) by {
            if s1.contains(x) {
                let i = choose|i: int| 0 <= i < s1.len() && s1[i] == x;
                if i < p {
                    assert(s0[i] == x);
                } else if i > p {
                    assert(s0[i - 1] == x);
                }
            }
            if s0.contains(x) {
                let i = choose|i: int| 0 <= i < s0.len() && s0[i] == x;
                if i < p {
                    assert(s1[i] == x);
                } else {
                    assert(s1[i + 1] == x);
                }
            }
            if x == name@ {
                assert(s1[p as int] == x);
            }
        }
        assert(s1.to_set() =~= s0.to_set().insert(name@));
    }
}

/// The source files named by rows `lo..hi`, blank names left out.
pub open spec fn rel_paths_of(rows: Seq<CatalogRow>, lo: int, hi: int) -> Set<Seq<char>> {
    Set::new(
        |x: Seq<char>|
            x.len() > 0 && exists|j: int| lo <= j < hi && (#[trigger] rows[j]).source_rel_path@ == x,
    )
}

/// The distinct non-blank source files of rows `lo..hi`, sorted.
fn collect_rel_paths(rows: &[CatalogRow], lo: usize, hi: usize) -> (out: Vec<String>)
    requires
        lo <= hi <= rows@.len(),
    ensures
        strictly_sorted(strs(out@)),
        strs(out@).to_set() == rel_paths_of(rows@, lo as int, hi as int),
{
    let mut out: Vec<String> = Vec::new();
    let mut i = lo;
    proof {
        assert(strs(out@).to_set() =~= rel_paths_of(rows@, lo as int, lo as int));
    }
    while i < hi
        invariant
            lo <= i <= hi <= rows@.len(),
            strictly_sorted(strs(out@)),
            strs(out@).to_set() == rel_paths_of(rows@, lo as int, i as int),
        decreases hi - i,
    {
        if !rows[i].source_rel_path.as_str().is_empty() {
            insert_sorted(&mut out, rows[i].source_rel_path.clone());
            proof {
                assert(rel_paths_of(rows@, lo as int, i + 1) =~= rel_paths_of(rows@, lo as int, i as int).insert(
                    rows@[i as int].source_rel_path@,
                ));
            }
        } else {
            proof {
                assert(rows@[i as int].source_rel_path@.len() == 0);
                assert(rel_paths_of(rows@, lo as int, i + 1) =~= rel_paths_of(rows@, lo as int, i as int));
            }
        }
        i += 1;
    }
    out
}

// ---------------------------------------------------------------------------
// What holds of the catalog while it is built
// ---------------------------------------------------------------------------

/// Every passage-range node hangs under the division whose path is the
/// range's own division path normalized.
#[verifier::opaque]
pub open spec fn ranges_ok(ns: Seq<OutlineNode>) -> bool {
    forall|i: int|
        0 <= i < ns.len() && #[trigger] ns[i].node_kind == OutlineNodeKind::PassageRange ==> ns[i].parent_id
            is Some && ns[i].parent_id.unwrap() < ns.len() && ns[ns[i].parent_id.unwrap() as int].div_path@
            == normal_div_path(ns[i].div_path@)
}

/// Every document points at a passage-range node.
#[verifier::opaque]
pub open spec fn doc_parent_ok(ns: Seq<OutlineNode>, m: Map<u32, u32>) -> bool {
    forall|d: u32|
        #[trigger] m.contains_key(d) ==> m[d] < ns.len() && ns[m[d] as int].node_kind
            == OutlineNodeKind::PassageRange
}

/// The label of a work's node: its main title, or its id when it has none.
pub open spec fn work_label(w: WorkRecord) -> Seq<char> {
    if w.main_title@.len() == 0 {
        w.work_id@
    } else {
        w.main_title@
    }
}

/// Every work record's root is a work node with the work's id and label.
#[verifier::opaque]
pub open spec fn works_ok(ns: Seq<OutlineNode>, ws: Seq<WorkRecord>) -> bool {
    forall|i: int|
        0 <= i < ws.len() ==> (#[trigger] ws[i]).root_node < ns.len() && ns[ws[i].root_node as int].node_kind
            == OutlineNodeKind::Work && ns[ws[i].root_node as int].work_id@ == ws[i].work_id@ && ns[ws[i].root_node as int].label@
            == work_label(ws[i])
}

/// No node counts more than `n` passages or `c` ideographs.
#[verifier::opaque]
pub open spec fn counts_within(ns: Seq<OutlineNode>, n: int, c: int) -> bool {
    forall|i: int|
        0 <= i < ns.len() ==> (#[trigger] ns[i]).passage_count <= n && ns[i].cjk_char_count <= c
}

/// The catalog is a well-formed tree whose ranges sit under their
/// divisions, whose documents point at ranges, whose works point at work
/// nodes, which holds the documents of the first `done` rows, and whose
/// counts come from those rows.
#[verifier::opaque]
pub open spec fn catalog_inv(c: CorpusCatalogIndex, rows: Seq<CatalogRow>, done: int) -> bool {
    &&& 0 <= done <= rows.len()
    &&& tree_ok(c.nodes@)
    &&& ranges_ok(c.nodes@)
    &&& doc_parent_ok(c.nodes@, c.doc_parent@)
    &&& forall|j: int| 0 <= j < done ==> c.doc_parent@.contains_key(#[trigger] rows[j].doc_id)
    &&& works_ok(c.nodes@, c.works@)
    &&& counts_within(c.nodes@, done, cjk_total(rows.take(done)))
}

/// Node `i` (which has a parent) carries its parent's corpus; a division
/// or passage range carries its parent's work; and a node under a division
/// carries its parent's source file.
pub open spec fn inherits(ns: Seq<OutlineNode>, i: int) -> bool {
    let p = ns[i].parent_id.unwrap() as int;
    &&& 0 <= p < ns.len()
    &&& ns[i].source_corpus@ == ns[p].source_corpus@
    &&& (ns[i].node_kind == OutlineNodeKind::Division || ns[i].node_kind == OutlineNodeKind::PassageRange)
        ==> ns[i].work_id@ == ns[p].work_id@
    &&& ns[p].node_kind == OutlineNodeKind::Division ==> ns[i].source_rel_path@ == ns[p].source_rel_path@
}

/// Every node with a parent inherits from it.
#[verifier::opaque]
pub open spec fn lineage_ok(ns: Seq<OutlineNode>) -> bool {
    forall|i: int| 0 <= i < ns.len() && #[trigger] ns[i].parent_id is Some ==> inherits(ns, i)
}

/// The corpus, work and source file of row `r`.
pub open spec fn fields_of(r: CatalogRow) -> (Seq<char>, Seq<char>, Seq<char>) {
    (r.source_corpus@, r.source_work_id@, r.source_rel_path@)
}

/// The corpus, work and source file of node `n`.
pub open spec fn node_fields(n: OutlineNode) -> (Seq<char>, Seq<char>, Seq<char>) {
    (n.source_corpus@, n.work_id@, n.source_rel_path@)
}

/// Node `n` has the corpus, work and source file of row `r`.
pub open spec fn row_fields(n: OutlineNode, r: CatalogRow) -> bool {
    node_fields(n) == fields_of(r)
}

/// Rows `lo..hi` all have the corpus, work and source file `f`.
pub open spec fn rows_share(rows: Seq<CatalogRow>, lo: int, hi: int, f: (Seq<char>, Seq<char>, Seq<char>)) -> bool {
    forall|t: int| lo <= t < hi ==> fields_of(#[trigger] rows[t]) == f
}

/// Passage-range node `n` is the range of row `r`: same corpus, work,
/// source file and division path.
pub open spec fn range_matches(n: OutlineNode, r: CatalogRow) -> bool {
    &&& row_fields(n, r)
    &&& n.div_path@ == r.div_path@
}

/// Each document points at the range of one of the first `done` rows with
/// that document id.
#[verifier::opaque]
pub open spec fn docs_match(ns: Seq<OutlineNode>, m: Map<u32, u32>, rows: Seq<CatalogRow>, done: int) -> bool {
    forall|d: u32|
        #[trigger] m.contains_key(d) ==> m[d] < ns.len() && exists|j: int|
            0 <= j < done && rows[j].doc_id == d && range_matches(ns[m[d] as int], #[trigger] rows[j])
}

/// The nodes the path cache names carry the corpus, work and source file
/// `f`.
#[verifier::opaque]
pub open spec fn cache_fields(ns: Seq<OutlineNode>, cache: Seq<(String, u32)>, f: (Seq<char>, Seq<char>, Seq<char>)) -> bool {
    forall|k: int|
        0 <= k < cache.len() && (#[trigger] cache[k]).1 < ns.len() ==> node_fields(ns[cache[k].1 as int]) == f
}

/// Rows `lo..hi` all belong to corpus `c`.
pub open spec fn rows_in_corpus(rows: Seq<CatalogRow>, lo: int, hi: int, c: Seq<char>) -> bool {
    forall|t: int| lo <= t < hi ==> (#[trigger] rows[t]).source_corpus@ == c
}

/// Node `i` is node `a` or lies below it.
pub open spec fn descends(ns: Seq<OutlineNode>, a: int, i: int) -> bool {
    a == i || is_ancestor(ns, a, i)
}

/// Every work record's root node carries the record's passage and
/// ideograph counts.
#[verifier::opaque]
pub open spec fn roots_hold_totals(ns: Seq<OutlineNode>, ws: Seq<WorkRecord>) -> bool {
    forall|w: int|
        0 <= w < ws.len() ==> (#[trigger] ws[w]).root_node < ns.len() && ns[ws[w].root_node as int].passage_count
            == ws[w].passage_count && ns[ws[w].root_node as int].cjk_char_count == ws[w].cjk_char_count
}

/// The roots of the work records all come before node `n`.
pub open spec fn roots_before(ws: Seq<WorkRecord>, n: int) -> bool {
    forall|w: int| 0 <= w < ws.len() ==> (#[trigger] ws[w]).root_node < n
}

/// The nodes the path cache names lie below node `file`.
#[verifier::opaque]
pub open spec fn cache_below(ns: Seq<OutlineNode>, cache: Seq<(String, u32)>, file: int) -> bool {
    forall|k: int| 0 <= k < cache.len() ==> descends(ns, file, (#[trigger] cache[k]).1 as int)
}

proof fn lemma_ancestor_keep(a: Seq<OutlineNode>, b: Seq<OutlineNode>, x: int, i: int)
    requires
        keeps(a, b),
        0 <= i < a.len(),
        is_ancestor(a, x, i),
    ensures
        is_ancestor(b, x, i),
    decreases i,
{
    lemma_keeps_facts(a, b, i);
    let p = a[i].parent_id.unwrap() as int;
    if p != x {
        lemma_ancestor_keep(a, b, x, p);
    }
}

proof fn lemma_descends_keep(a: Seq<OutlineNode>, b: Seq<OutlineNode>, x: int, i: int)
    requires
        keeps(a, b),
        0 <= i < a.len(),
        descends(a, x, i),
    ensures
        descends(b, x, i),
{
    if x != i {
        lemma_ancestor_keep(a, b, x, i);
    }
}

proof fn lemma_ancestor_step(ns: Seq<OutlineNode>, x: int, p: int, i: int)
    requires
        0 <= i < ns.len(),
        ns.len() <= u32::MAX,
        ns[i].parent_id == Some(p as u32),
        0 <= p < i,
        descends(ns, x, p),
    ensures
        is_ancestor(ns, x, i),
{
}

/// Above a work node there are only its canon and that canon's corpus.
proof fn lemma_above_work(ns: Seq<OutlineNode>, a: int, b: int)
    requires
        tree_ok(ns),
        0 <= b < ns.len(),
        ns[b].node_kind == OutlineNodeKind::Work,
        is_ancestor(ns, a, b),
    ensures
        ns[a].node_kind == OutlineNodeKind::Canon || ns[a].node_kind == OutlineNodeKind::Corpus,
{
    reveal(tree_ok);
    assert(node_ok(ns, b));
    let p = ns[b].parent_id.unwrap() as int;
    assert(node_ok(ns, p));
    assert(ns[p].node_kind == OutlineNodeKind::Canon);
    if a != p {
        assert(is_ancestor(ns, a, p));
        let q = ns[p].parent_id.unwrap() as int;
        assert(node_ok(ns, q));
        assert(ns[q].node_kind == OutlineNodeKind::Corpus);
        if a != q {
            assert(is_ancestor(ns, a, q));
            assert(ns[q].parent_id is None);
            assert(false);
        }
    }
}

proof fn lemma_roots_grow(a: Seq<OutlineNode>, b: Seq<OutlineNode>, ws: Seq<WorkRecord>)
    requires
        roots_hold_totals(a, ws),
        grows(a, b),
    ensures
        roots_hold_totals(b, ws),
{
    reveal(roots_hold_totals);
    reveal(grows);
    assert forall|w: int| 0 <= w < ws.len() implies (#[trigger] ws[w]).root_node < b.len()
        && b[ws[w].root_node as int].passage_count == ws[w].passage_count
        && b[ws[w].root_node as int].cjk_char_count == ws[w].cjk_char_count by {
        let t = ws[w].root_node as int;
        assert(b[t] == (OutlineNode { children: b[t].children, ..a[t] }));
    }
}

proof fn lemma_roots_untouched(a: Seq<OutlineNode>, b: Seq<OutlineNode>, ws: Seq<WorkRecord>)
    requires
        roots_hold_totals(a, ws),
        a.len() == b.len(),
        forall|w: int| 0 <= w < ws.len() ==> b[(#[trigger] ws[w]).root_node as int] == a[ws[w].root_node as int],
    ensures
        roots_hold_totals(b, ws),
{
    reveal(roots_hold_totals);
}

proof fn lemma_roots_push(ns: Seq<OutlineNode>, ws: Seq<WorkRecord>, rec: WorkRecord)
    requires
        roots_hold_totals(ns, ws),
        rec.root_node < ns.len(),
        ns[rec.root_node as int].passage_count == rec.passage_count,
        ns[rec.root_node as int].cjk_char_count == rec.cjk_char_count,
    ensures
        roots_hold_totals(ns, ws.push(rec)),
{
    reveal(roots_hold_totals);
    assert forall|w: int| 0 <= w < ws.push(rec).len() implies (#[trigger] ws.push(rec)[w]).root_node < ns.len()
        && ns[ws.push(rec)[w].root_node as int].passage_count == ws.push(rec)[w].passage_count
        && ns[ws.push(rec)[w].root_node as int].cjk_char_count == ws.push(rec)[w].cjk_char_count by {
        if w < ws.len() {
            assert(ws.push(rec)[w] == ws[w]);
        }
    }
}

/// Rows `lo..hi` are a whole run of rows of corpus `c`: all of them are of
/// `c`, and the rows just before and just after them, if any, are not.
pub open spec fn corpus_run(rows: Seq<CatalogRow>, lo: int, hi: int, c: Seq<char>) -> bool {
    &&& 0 <= lo < hi <= rows.len()
    &&& rows_in_corpus(rows, lo, hi, c)
    &&& lo > 0 ==> rows[lo - 1].source_corpus@ != c
    &&& hi < rows.len() ==> rows[hi].source_corpus@ != c
}

/// Rows `lo..hi` are a whole run of rows of corpus `c` and of one canon:
/// the rows just before and just after them, if any, are of another corpus
/// or canon.
pub open spec fn canon_run(rows: Seq<CatalogRow>, lo: int, hi: int, c: Seq<char>) -> bool {
    &&& 0 <= lo < hi <= rows.len()
    &&& rows_in_corpus(rows, lo, hi, c)
    &&& forall|t: int| lo <= t < hi ==> (#[trigger] rows[t]).canon@ == rows[lo].canon@
    &&& lo > 0 ==> rows[lo - 1].source_corpus@ != c || rows[lo - 1].canon@ != rows[lo].canon@
    &&& hi < rows.len() ==> rows[hi].source_corpus@ != c || rows[hi].canon@ != rows[lo].canon@
}

/// Node `n` carries the document range and the counts of rows `lo..hi`.
pub open spec fn holds_rows(n: OutlineNode, rows: Seq<CatalogRow>, lo: int, hi: int) -> bool {
    (n.first_doc_id, n.last_doc_id, n.passage_count as int, n.cjk_char_count as int) == totals(
        rows.subrange(lo, hi),
    )
}

/// A corpus node carries the totals of a whole run of rows of its corpus,
/// a canon node those of a whole run of rows of its corpus and one canon.
pub open spec fn group_holds(n: OutlineNode, rows: Seq<CatalogRow>) -> bool {
    match n.node_kind {
        OutlineNodeKind::Corpus => exists|lo: int, hi: int|
            #[trigger] corpus_run(rows, lo, hi, n.source_corpus@) && holds_rows(n, rows, lo, hi),
        OutlineNodeKind::Canon => exists|lo: int, hi: int|
            #[trigger] canon_run(rows, lo, hi, n.source_corpus@) && holds_rows(n, rows, lo, hi),
        _ => true,
    }
}

/// Every corpus and canon node but the open ones `oc` and `on` carries
/// the totals of its run of rows.
#[verifier::opaque]
pub open spec fn groups_hold_totals(ns: Seq<OutlineNode>, rows: Seq<CatalogRow>, oc: int, on: int) -> bool {
    forall|i: int| 0 <= i < ns.len() && i != oc && i != on ==> group_holds(#[trigger] ns[i], rows)
}

proof fn lemma_group_holds_same(m: OutlineNode, n: OutlineNode, rows: Seq<CatalogRow>)
    requires
        group_holds(m, rows),
        m.node_kind == n.node_kind,
        m.source_corpus@ == n.source_corpus@,
        m.first_doc_id == n.first_doc_id,
        m.last_doc_id == n.last_doc_id,
        m.passage_count == n.passage_count,
        m.cjk_char_count == n.cjk_char_count,
    ensures
        group_holds(n, rows),
{
    if m.node_kind == OutlineNodeKind::Corpus {
        let (lo, hi) = choose|lo: int, hi: int|
            #[trigger] corpus_run(rows, lo, hi, m.source_corpus@) && holds_rows(m, rows, lo, hi);
        assert(corpus_run(rows, lo, hi, n.source_corpus@) && holds_rows(n, rows, lo, hi));
    } else if m.node_kind == OutlineNodeKind::Canon {
        let (lo, hi) = choose|lo: int, hi: int|
            #[trigger] canon_run(rows, lo, hi, m.source_corpus@) && holds_rows(m, rows, lo, hi);
        assert(canon_run(rows, lo, hi, n.source_corpus@) && holds_rows(n, rows, lo, hi));
    }
}

proof fn lemma_groups_grow(a: Seq<OutlineNode>, b: Seq<OutlineNode>, rows: Seq<CatalogRow>, oc: int, on: int)
    requires
        groups_hold_totals(a, rows, oc, on),
        grows(a, b),
        forall|i: int| a.len() <= i < b.len() && i != oc && i != on ==> group_holds(#[trigger] b[i], rows),
    ensures
        groups_hold_totals(b, rows, oc, on),
{
    reveal(groups_hold_totals);
    reveal(grows);
    assert forall|i: int| 0 <= i < b.len() && i != oc && i != on implies group_holds(#[trigger] b[i], rows) by {
        if i < a.len() {
            assert(b[i] == (OutlineNode { children: b[i].children, ..a[i] }));
            assert(group_holds(a[i], rows));
            lemma_group_holds_same(a[i], b[i], rows);
        }
    }
}

proof fn lemma_groups_untouched(a: Seq<OutlineNode>, b: Seq<OutlineNode>, rows: Seq<CatalogRow>, oc: int, on: int)
    requires
        groups_hold_totals(a, rows, oc, on),
        a.len() == b.len(),
        forall|i: int|
            0 <= i < a.len() && i != oc && i != on ==> #[trigger] b[i] == a[i] || (b[i].node_kind
                != OutlineNodeKind::Corpus && b[i].node_kind != OutlineNodeKind::Canon),
    ensures
        groups_hold_totals(b, rows, oc, on),
{
    reveal(groups_hold_totals);
    assert forall|i: int| 0 <= i < b.len() && i != oc && i != on implies group_holds(#[trigger] b[i], rows) by {
        if b[i] == a[i] {
            assert(group_holds(a[i], rows));
        } else {
            assert(b[i].node_kind != OutlineNodeKind::Corpus && b[i].node_kind != OutlineNodeKind::Canon);
        }
    }
}

proof fn lemma_groups_reopen(ns: Seq<OutlineNode>, rows: Seq<CatalogRow>, oc: int, on: int, oc2: int, on2: int)
    requires
        groups_hold_totals(ns, rows, oc, on),
        oc == oc2 || oc == on2 || !(0 <= oc < ns.len()) || group_holds(ns[oc], rows),
        on == oc2 || on == on2 || !(0 <= on < ns.len()) || group_holds(ns[on], rows),
    ensures
        groups_hold_totals(ns, rows, oc2, on2),
{
    reveal(groups_hold_totals);
}

/// Above a node below `file` (whose parent `p` hangs under the canon `on`,
/// which hangs under the corpus `oc`) the only corpus and canon nodes are
/// `oc` and `on`.
proof fn lemma_group_ancestors(ns: Seq<OutlineNode>, file: int, p: int, on: int, oc: int, r: int)
    requires
        tree_ok(ns),
        0 <= file < ns.len(),
        ns[file].node_kind == OutlineNodeKind::Division,
        ns[file].parent_id == Some(p as u32),
        0 <= p < ns.len(),
        ns[p].node_kind == OutlineNodeKind::Work,
        ns[p].parent_id == Some(on as u32),
        0 <= on < ns.len(),
        ns[on].parent_id == Some(oc as u32),
        0 <= oc < ns.len(),
        ns[oc].node_kind == OutlineNodeKind::Corpus,
        descends(ns, file, r),
    ensures
        forall|a: int|
            is_ancestor(ns, a, r) && (ns[a].node_kind == OutlineNodeKind::Corpus || ns[a].node_kind
                == OutlineNodeKind::Canon) ==> a == on || a == oc,
{
    reveal(tree_ok);
    assert(node_ok(ns, oc));
    assert forall|a: int|
        is_ancestor(ns, a, r) && (ns[a].node_kind == OutlineNodeKind::Corpus || ns[a].node_kind
            == OutlineNodeKind::Canon) implies a == on || a == oc by {
        lemma_ancestor_below(ns, a, r);
        assert(node_ok(ns, a));
        if r != file {
            if a > file {
                lemma_ancestor_chain(ns, file, a, r);
                let q = ns[a].parent_id.unwrap() as int;
                assert(node_ok(ns, q));
                if q != file {
                    assert(is_ancestor(ns, file, q));
                }
            } else if a < file {
                lemma_ancestor_chain(ns, a, file, r);
            }
        }
        assert(is_ancestor(ns, a, file));
        if a != p {
            assert(is_ancestor(ns, a, p));
            if a != on {
                assert(is_ancestor(ns, a, on));
                if a != oc {
                    assert(is_ancestor(ns, a, oc));
                }
            }
        }
    }
}

/// No work record's root lies above a node below `file`, whose parent is a
/// work node that comes after every root.
proof fn lemma_roots_off(ns: Seq<OutlineNode>, ws: Seq<WorkRecord>, parent: int, file: int, r: int)
    requires
        tree_ok(ns),
        works_ok(ns, ws),
        roots_before(ws, parent),
        0 <= file < ns.len(),
        0 <= parent < ns.len(),
        ns[file].parent_id == Some(parent as u32),
        ns[parent].node_kind == OutlineNodeKind::Work,
        descends(ns, file, r),
    ensures
        forall|w: int| 0 <= w < ws.len() ==> !is_ancestor(ns, (#[trigger] ws[w]).root_node as int, r),
{
    reveal(works_ok);
    reveal(tree_ok);
    assert(node_ok(ns, file));
    assert forall|w: int| 0 <= w < ws.len() implies !is_ancestor(ns, (#[trigger] ws[w]).root_node as int, r) by {
        let j = ws[w].root_node as int;
        if is_ancestor(ns, j, r) {
            assert(j < parent);
            if r != file {
                lemma_ancestor_chain(ns, j, file, r);
            }
            assert(is_ancestor(ns, j, file));
            assert(is_ancestor(ns, j, parent));
            lemma_above_work(ns, j, parent);
        }
    }
}

/// Setting the totals of a node that is no work node leaves the roots'
/// totals as they were.
proof fn lemma_roots_set(a: Seq<OutlineNode>, b: Seq<OutlineNode>, ws: Seq<WorkRecord>, id: int)
    requires
        roots_hold_totals(a, ws),
        works_ok(a, ws),
        a.len() == b.len(),
        0 <= id < a.len(),
        a[id].node_kind != OutlineNodeKind::Work,
        forall|j: int| 0 <= j < a.len() && j != id ==> #[trigger] b[j] == a[j],
    ensures
        roots_hold_totals(b, ws),
{
    reveal(works_ok);
    reveal(roots_hold_totals);
    assert forall|w: int| 0 <= w < ws.len() implies b[(#[trigger] ws[w]).root_node as int] == a[ws[w].root_node as int] by {
        assert(a[ws[w].root_node as int].node_kind == OutlineNodeKind::Work);
    }
}

proof fn lemma_cache_below_keep(a: Seq<OutlineNode>, b: Seq<OutlineNode>, cache: Seq<(String, u32)>, file: int)
    requires
        cache_below(a, cache, file),
        path_cache_ok(a, cache),
        keeps(a, b),
    ensures
        cache_below(b, cache, file),
{
    reveal(cache_below);
    reveal(path_cache_ok);
    assert forall|k: int| 0 <= k < cache.len() implies descends(b, file, (#[trigger] cache[k]).1 as int) by {
        lemma_descends_keep(a, b, file, cache[k].1 as int);
    }
}

/// Nodes inherit from their parents, and documents point at ranges of
/// their rows.
pub open spec fn lineage_inv(c: CorpusCatalogIndex, rows: Seq<CatalogRow>, done: int) -> bool {
    &&& lineage_ok(c.nodes@)
    &&& docs_match(c.nodes@, c.doc_parent@, rows, done)
}

proof fn lemma_lineage_keep(a: Seq<OutlineNode>, b: Seq<OutlineNode>)
    requires
        lineage_ok(a),
        keeps(a, b),
        a.len() == b.len(),
    ensures
        lineage_ok(b),
{
    reveal(lineage_ok);
    reveal(keeps);
    assert forall|i: int| 0 <= i < b.len() && #[trigger] b[i].parent_id is Some implies inherits(b, i) by {
        assert(b[i] == (OutlineNode {
            children: b[i].children,
            first_doc_id: b[i].first_doc_id,
            last_doc_id: b[i].last_doc_id,
            passage_count: b[i].passage_count,
            cjk_char_count: b[i].cjk_char_count,
            ..a[i]
        }));
        assert(a[i].parent_id is Some);
        assert(inherits(a, i));
        let p = a[i].parent_id.unwrap() as int;
        assert(b[p] == (OutlineNode {
            children: b[p].children,
            first_doc_id: b[p].first_doc_id,
            last_doc_id: b[p].last_doc_id,
            passage_count: b[p].passage_count,
            cjk_char_count: b[p].cjk_char_count,
            ..a[p]
        }));
    }
}

proof fn lemma_lineage_attach(a: Seq<OutlineNode>, n: OutlineNode, p: int, b: Seq<OutlineNode>)
    requires
        lineage_ok(a),
        attached(a, n, p, b),
        a.len() < u32::MAX,
        0 <= p < a.len(),
        n.parent_id == Some(p as u32),
        n.source_corpus@ == a[p].source_corpus@,
        n.node_kind == OutlineNodeKind::Division || n.node_kind == OutlineNodeKind::PassageRange
            ==> n.work_id@ == a[p].work_id@,
        a[p].node_kind == OutlineNodeKind::Division ==> n.source_rel_path@ == a[p].source_rel_path@,
    ensures
        lineage_ok(b),
{
    reveal(lineage_ok);
    assert(b[p] == (OutlineNode { children: b[p].children, ..a[p] }));
    assert forall|i: int| 0 <= i < b.len() && #[trigger] b[i].parent_id is Some implies inherits(b, i) by {
        if i < a.len() {
            if i != p {
                assert(b[i] == a[i]);
            }
            assert(a[i].parent_id is Some);
            assert(inherits(a, i));
            let q = a[i].parent_id.unwrap() as int;
            if q != p {
                assert(b[q] == a[q]);
            }
        } else {
            assert(b[i] == n);
        }
    }
}

proof fn lemma_lineage_root(a: Seq<OutlineNode>, n: OutlineNode, b: Seq<OutlineNode>)
    requires
        lineage_ok(a),
        b == a.push(n),
        n.parent_id is None,
    ensures
        lineage_ok(b),
{
    reveal(lineage_ok);
    assert forall|i: int| 0 <= i < b.len() && #[trigger] b[i].parent_id is Some implies inherits(b, i) by {
        assert(i < a.len());
        assert(b[i] == a[i]);
        assert(a[i].parent_id is Some);
        assert(inherits(a, i));
        let q = a[i].parent_id.unwrap() as int;
        assert(b[q] == a[q]);
    }
}

proof fn lemma_docs_keep(a: Seq<OutlineNode>, b: Seq<OutlineNode>, m: Map<u32, u32>, rows: Seq<CatalogRow>, done: int)
    requires
        docs_match(a, m, rows, done),
        keeps(a, b),
    ensures
        docs_match(b, m, rows, done),
{
    reveal(docs_match);
    reveal(keeps);
    assert forall|d: u32| #[trigger] m.contains_key(d) implies m[d] < b.len() && exists|j: int|
        0 <= j < done && rows[j].doc_id == d && range_matches(b[m[d] as int], #[trigger] rows[j]) by {
        let t = m[d] as int;
        let j = choose|j: int| 0 <= j < done && rows[j].doc_id == d && range_matches(a[t], #[trigger] rows[j]);
        assert(b[t] == (OutlineNode {
            children: b[t].children,
            first_doc_id: b[t].first_doc_id,
            last_doc_id: b[t].last_doc_id,
            passage_count: b[t].passage_count,
            cjk_char_count: b[t].cjk_char_count,
            ..a[t]
        }));
        assert(range_matches(b[t], rows[j]));
    }
}

proof fn lemma_docs_more(ns: Seq<OutlineNode>, m: Map<u32, u32>, rows: Seq<CatalogRow>, d1: int, d2: int)
    requires
        docs_match(ns, m, rows, d1),
        d1 <= d2,
    ensures
        docs_match(ns, m, rows, d2),
{
    reveal(docs_match);
    assert forall|d: u32| #[trigger] m.contains_key(d) implies m[d] < ns.len() && exists|j: int|
        0 <= j < d2 && rows[j].doc_id == d && range_matches(ns[m[d] as int], #[trigger] rows[j]) by {
        let j = choose|j: int| 0 <= j < d1 && rows[j].doc_id == d && range_matches(ns[m[d] as int], #[trigger] rows[j]);
        assert(rows[j].doc_id == d);
    }
}

proof fn lemma_docs_insert(
    ns: Seq<OutlineNode>,
    m: Map<u32, u32>,
    rows: Seq<CatalogRow>,
    done: int,
    j: int,
    r: u32,
)
    requires
        docs_match(ns, m, rows, done),
        0 <= j < done,
        r < ns.len(),
        range_matches(ns[r as int], rows[j]),
    ensures
        docs_match(ns, m.insert(rows[j].doc_id, r), rows, done),
{
    reveal(docs_match);
    let m2 = m.insert(rows[j].doc_id, r);
    assert forall|d: u32| #[trigger] m2.contains_key(d) implies m2[d] < ns.len() && exists|k: int|
        0 <= k < done && rows[k].doc_id == d && range_matches(ns[m2[d] as int], #[trigger] rows[k]) by {
        if d == rows[j].doc_id {
            assert(range_matches(ns[m2[d] as int], rows[j]));
        } else {
            assert(m.contains_key(d));
            let k = choose|k: int| 0 <= k < done && rows[k].doc_id == d && range_matches(ns[m[d] as int], #[trigger] rows[k]);
            assert(rows[k].doc_id == d);
        }
    }
}

proof fn lemma_cache_fields_keep(
    a: Seq<OutlineNode>,
    b: Seq<OutlineNode>,
    cache: Seq<(String, u32)>,
    f: (Seq<char>, Seq<char>, Seq<char>),
)
    requires
        cache_fields(a, cache, f),
        path_cache_ok(a, cache),
        keeps(a, b),
    ensures
        cache_fields(b, cache, f),
{
    reveal(cache_fields);
    reveal(path_cache_ok);
    reveal(keeps);
    assert forall|k: int| 0 <= k < cache.len() && (#[trigger] cache[k]).1 < b.len() implies node_fields(
        b[cache[k].1 as int],
    ) == f by {
        let t = cache[k].1 as int;
        assert(b[t] == (OutlineNode {
            children: b[t].children,
            first_doc_id: b[t].first_doc_id,
            last_doc_id: b[t].last_doc_id,
            passage_count: b[t].passage_count,
            cjk_char_count: b[t].cjk_char_count,
            ..a[t]
        }));
    }
}

/// `b` is `a` with nodes appended, and only the child lists, document
/// ranges and counts of old nodes changed.
#[verifier::opaque]
pub open spec fn keeps(a: Seq<OutlineNode>, b: Seq<OutlineNode>) -> bool {
    &&& a.len() <= b.len()
    &&& forall|j: int|
        0 <= j < a.len() ==> #[trigger] b[j] == (OutlineNode {
            children: b[j].children,
            first_doc_id: b[j].first_doc_id,
            last_doc_id: b[j].last_doc_id,
            passage_count: b[j].passage_count,
            cjk_char_count: b[j].cjk_char_count,
            ..a[j]
        })
}

proof fn lemma_keeps_trans(a: Seq<OutlineNode>, b: Seq<OutlineNode>, c: Seq<OutlineNode>)
    requires
        keeps(a, b),
        keeps(b, c),
    ensures
        keeps(a, c),
{
    reveal(keeps);
    assert forall|j: int| 0 <= j < a.len() implies #[trigger] c[j] == (OutlineNode {
        children: c[j].children,
        first_doc_id: c[j].first_doc_id,
        last_doc_id: c[j].last_doc_id,
        passage_count: c[j].passage_count,
        cjk_char_count: c[j].cjk_char_count,
        ..a[j]
    }) by {
        assert(b[j] == (OutlineNode {
            children: b[j].children,
            first_doc_id: b[j].first_doc_id,
            last_doc_id: b[j].last_doc_id,
            passage_count: b[j].passage_count,
            cjk_char_count: b[j].cjk_char_count,
            ..a[j]
        }));
        assert(c[j] == (OutlineNode {
            children: c[j].children,
            first_doc_id: c[j].first_doc_id,
            last_doc_id: c[j].last_doc_id,
            passage_count: c[j].passage_count,
            cjk_char_count: c[j].cjk_char_count,
            ..b[j]
        }));
    }
}

proof fn lemma_grows_keeps(a: Seq<OutlineNode>, b: Seq<OutlineNode>)
    requires
        grows(a, b),
    ensures
        keeps(a, b),
{
    reveal(keeps);
    reveal(grows);
    assert forall|j: int| 0 <= j < a.len() implies #[trigger] b[j] == (OutlineNode {
        children: b[j].children,
        first_doc_id: b[j].first_doc_id,
        last_doc_id: b[j].last_doc_id,
        passage_count: b[j].passage_count,
        cjk_char_count: b[j].cjk_char_count,
        ..a[j]
    }) by {
        assert(b[j] == (OutlineNode { children: b[j].children, ..a[j] }));
    }
}

proof fn lemma_shape_keeps(a: Seq<OutlineNode>, b: Seq<OutlineNode>)
    requires
        same_shape(a, b),
    ensures
        keeps(a, b),
{
    reveal(keeps);
    reveal(same_shape);
    assert forall|j: int| 0 <= j < a.len() implies #[trigger] b[j] == (OutlineNode {
        children: b[j].children,
        first_doc_id: b[j].first_doc_id,
        last_doc_id: b[j].last_doc_id,
        passage_count: b[j].passage_count,
        cjk_char_count: b[j].cjk_char_count,
        ..a[j]
    }) by {
        assert(b[j] == (OutlineNode {
            first_doc_id: b[j].first_doc_id,
            last_doc_id: b[j].last_doc_id,
            passage_count: b[j].passage_count,
            cjk_char_count: b[j].cjk_char_count,
            ..a[j]
        }));
    }
}

proof fn lemma_ranges_keep(a: Seq<OutlineNode>, b: Seq<OutlineNode>)
    requires
        tree_ok(a),
        ranges_ok(a),
        keeps(a, b),
        forall|j: int| a.len() <= j < b.len() ==> (#[trigger] b[j]).node_kind != OutlineNodeKind::PassageRange,
    ensures
        ranges_ok(b),
{
    reveal(keeps);
    reveal(ranges_ok);
    reveal(tree_ok);
    assert forall|i: int| 0 <= i < b.len() && #[trigger] b[i].node_kind == OutlineNodeKind::PassageRange implies b[i].parent_id
        is Some && b[i].parent_id.unwrap() < b.len() && b[b[i].parent_id.unwrap() as int].div_path@
        == normal_div_path(b[i].div_path@) by {
        assert(i < a.len());
        assert(b[i].node_kind == a[i].node_kind);
        assert(a[i].node_kind == OutlineNodeKind::PassageRange);
        let p = a[i].parent_id.unwrap() as int;
        assert(b[p].div_path == a[p].div_path);
    }
}

proof fn lemma_doc_parent_keep(a: Seq<OutlineNode>, b: Seq<OutlineNode>, m: Map<u32, u32>)
    requires
        doc_parent_ok(a, m),
        keeps(a, b),
    ensures
        doc_parent_ok(b, m),
{
    reveal(keeps);
    reveal(doc_parent_ok);
    assert forall|d: u32| #[trigger] m.contains_key(d) implies m[d] < b.len() && b[m[d] as int].node_kind
        == OutlineNodeKind::PassageRange by {
        let t = m[d] as int;
        assert(b[t].node_kind == a[t].node_kind);
    }
}

proof fn lemma_works_keep(a: Seq<OutlineNode>, b: Seq<OutlineNode>, ws: Seq<WorkRecord>)
    requires
        works_ok(a, ws),
        keeps(a, b),
    ensures
        works_ok(b, ws),
{
    reveal(keeps);
    reveal(works_ok);
    assert forall|i: int| 0 <= i < ws.len() implies (#[trigger] ws[i]).root_node < b.len()
        && b[ws[i].root_node as int].node_kind == OutlineNodeKind::Work && b[ws[i].root_node as int].work_id@
        == ws[i].work_id@ && b[ws[i].root_node as int].label@ == work_label(ws[i]) by {
        let t = ws[i].root_node as int;
        assert(b[t].node_kind == a[t].node_kind);
        assert(b[t].work_id == a[t].work_id);
        assert(b[t].label == a[t].label);
    }
}

/// Nodes a catalog of `rows` may need: five for each row, and one for each
/// character of its division path.
pub open spec fn node_budget(rows: Seq<CatalogRow>) -> int
    decreases rows.len(),
{
    if rows.len() == 0 {
        0
    } else {
        node_budget(rows.drop_last()) + 5 + rows.last().div_path@.len()
    }
}

proof fn lemma_budget_step(rows: Seq<CatalogRow>, i: int)
    requires
        0 <= i < rows.len(),
    ensures
        node_budget(rows.take(i + 1)) == node_budget(rows.take(i)) + 5 + rows[i].div_path@.len(),
{
    assert(rows.take(i + 1).drop_last() =~= rows.take(i));
}

proof fn lemma_budget_grows(rows: Seq<CatalogRow>, i: int, j: int)
    requires
        0 <= i <= j <= rows.len(),
    ensures
        0 <= node_budget(rows.take(i)) <= node_budget(rows.take(j)),
    decreases j - i,
{
    if i < j {
        lemma_budget_grows(rows, i, j - 1);
        lemma_budget_step(rows, j - 1);
    } else {
        lemma_budget_nonneg(rows.take(i));
    }
}

proof fn lemma_budget_nonneg(rows: Seq<CatalogRow>)
    ensures
        node_budget(rows) >= 0,
    decreases rows.len(),
{
    if rows.len() > 0 {
        lemma_budget_nonneg(rows.drop_last());
    }
}

proof fn lemma_cjk_split(rows: Seq<CatalogRow>, i: int, e: int)
    requires
        0 <= i <= e <= rows.len(),
    ensures
        cjk_total(rows.take(i)) + cjk_total(rows.subrange(i, e)) == cjk_total(rows.take(e)),
    decreases e - i,
{
    if i < e {
        lemma_cjk_split(rows, i, e - 1);
        assert(rows.take(e).drop_last() =~= rows.take(e - 1));
        assert(rows.subrange(i, e).drop_last() =~= rows.subrange(i, e - 1));
    } else {
        assert(rows.subrange(i, e).len() == 0);
    }
}

proof fn lemma_cjk_whole(rows: Seq<CatalogRow>)
    ensures
        rows.take(rows.len() as int) == rows,
{
    assert(rows.take(rows.len() as int) =~= rows);
}

impl CorpusCatalogIndex {
    /// Sets the document range and counts of node `id`.
    fn set_totals(&mut self, id: u32, first: Option<u32>, last: Option<u32>, passage_count: u32, cjk: u32)
        requires
            id < old(self).nodes@.len(),
        ensures
            same_shape(old(self).nodes@, final(self).nodes@),
            final(self).nodes@.len() == old(self).nodes@.len(),
            final(self).nodes@[id as int] == (OutlineNode {
                first_doc_id: first,
                last_doc_id: last,
                passage_count: passage_count,
                cjk_char_count: cjk,
                ..old(self).nodes@[id as int]
            }),
            forall|j: int|
                0 <= j < old(self).nodes@.len() && j != id ==> #[trigger] final(self).nodes@[j]
                    == old(self).nodes@[j],
            final(self).works == old(self).works,
            final(self).doc_parent == old(self).doc_parent,
            final(self).schema == old(self).schema,
            final(self).source_fingerprint == old(self).source_fingerprint,
            final(self).doc_table_fingerprint == old(self).doc_table_fingerprint,
    {
        proof {
            reveal(same_shape);
        }
        let n = &mut self.nodes[id as usize];
        n.first_doc_id = first;
        n.last_doc_id = last;
        n.passage_count = passage_count;
        n.cjk_char_count = cjk;
    }
}

// ---------------------------------------------------------------------------
// Steps that keep the invariant
// ---------------------------------------------------------------------------

proof fn lemma_inv_parts(c: CorpusCatalogIndex, rows: Seq<CatalogRow>, done: int)
    requires
        catalog_inv(c, rows, done),
    ensures
        0 <= done <= rows.len(),
        tree_ok(c.nodes@),
        ranges_ok(c.nodes@),
        doc_parent_ok(c.nodes@, c.doc_parent@),
        forall|j: int| 0 <= j < done ==> c.doc_parent@.contains_key(#[trigger] rows[j].doc_id),
        works_ok(c.nodes@, c.works@),
        counts_within(c.nodes@, done, cjk_total(rows.take(done))),
{
    reveal(catalog_inv);
}

proof fn lemma_inv_from_parts(c: CorpusCatalogIndex, rows: Seq<CatalogRow>, done: int)
    requires
        0 <= done <= rows.len(),
        tree_ok(c.nodes@),
        ranges_ok(c.nodes@),
        doc_parent_ok(c.nodes@, c.doc_parent@),
        forall|j: int| 0 <= j < done ==> c.doc_parent@.contains_key(#[trigger] rows[j].doc_id),
        works_ok(c.nodes@, c.works@),
        counts_within(c.nodes@, done, cjk_total(rows.take(done))),
    ensures
        catalog_inv(c, rows, done),
{
    reveal(catalog_inv);
}

proof fn lemma_counts_grow(a: Seq<OutlineNode>, b: Seq<OutlineNode>, n: int, c: int)
    requires
        counts_within(a, n, c),
        grows(a, b),
        forall|j: int| a.len() <= j < b.len() ==> (#[trigger] b[j]).passage_count <= n && b[j].cjk_char_count <= c,
    ensures
        counts_within(b, n, c),
{
    reveal(counts_within);
    reveal(grows);
    assert forall|i: int| 0 <= i < b.len() implies (#[trigger] b[i]).passage_count <= n && b[i].cjk_char_count <= c by {
        if i < a.len() {
            assert(b[i] == (OutlineNode { children: b[i].children, ..a[i] }));
        }
    }
}

proof fn lemma_counts_prefix(a: Seq<OutlineNode>, b: Seq<OutlineNode>, n: int, c: int)
    requires
        counts_within(a, n, c),
        grows(a, b),
    ensures
        counts_within(b.take(a.len() as int), n, c),
{
    reveal(counts_within);
    reveal(grows);
    assert forall|i: int| 0 <= i < a.len() implies (#[trigger] b.take(a.len() as int)[i]).passage_count <= n
        && b.take(a.len() as int)[i].cjk_char_count <= c by {
        assert(b.take(a.len() as int)[i] == b[i]);
    }
}

proof fn lemma_fresh_parts(ns: Seq<OutlineNode>, from: int)
    requires
        fresh_divisions(ns, from),
    ensures
        forall|j: int|
            from <= j < ns.len() ==> (#[trigger] ns[j]).node_kind == OutlineNodeKind::Division && ns[j].passage_count
                == 0 && ns[j].cjk_char_count == 0,
{
    reveal(fresh_divisions);
}

proof fn lemma_cache_keep(a: Seq<OutlineNode>, b: Seq<OutlineNode>, cache: Seq<(String, u32)>)
    requires
        path_cache_ok(a, cache),
        keeps(a, b),
    ensures
        path_cache_ok(b, cache),
{
    reveal(path_cache_ok);
    reveal(keeps);
    assert forall|k: int| 0 <= k < cache.len() implies (#[trigger] cache[k]).1 < b.len() && b[cache[k].1 as int].node_kind
        == OutlineNodeKind::Division && b[cache[k].1 as int].div_path@ == cache[k].0@ by {
        let t = cache[k].1 as int;
        assert(b[t].node_kind == a[t].node_kind);
        assert(b[t].div_path == a[t].div_path);
    }
}

proof fn lemma_ranges_attach(a: Seq<OutlineNode>, n: OutlineNode, p: int, b: Seq<OutlineNode>)
    requires
        ranges_ok(a),
        attached(a, n, p, b),
        a.len() < u32::MAX,
        0 <= p < a.len(),
        n.parent_id == Some(p as u32),
        n.node_kind == OutlineNodeKind::PassageRange ==> a[p].div_path@ == normal_div_path(n.div_path@),
    ensures
        ranges_ok(b),
{
    reveal(ranges_ok);
    assert forall|i: int| 0 <= i < b.len() && #[trigger] b[i].node_kind == OutlineNodeKind::PassageRange implies b[i].parent_id
        is Some && b[i].parent_id.unwrap() < b.len() && b[b[i].parent_id.unwrap() as int].div_path@
        == normal_div_path(b[i].div_path@) by {
        if i < a.len() {
            if i != p {
                assert(b[i] == a[i]);
            } else {
                assert(b[p] == (OutlineNode { children: b[p].children, ..a[p] }));
            }
            assert(a[i].node_kind == OutlineNodeKind::PassageRange);
            let q = a[i].parent_id.unwrap() as int;
            if q != p {
                assert(b[q] == a[q]);
            } else {
                assert(b[p] == (OutlineNode { children: b[p].children, ..a[p] }));
            }
        } else {
            assert(b[i] == n);
            assert(b[p] == (OutlineNode { children: b[p].children, ..a[p] }));
        }
    }
}

proof fn lemma_doc_parent_insert(ns: Seq<OutlineNode>, m: Map<u32, u32>, d: u32, r: u32)
    requires
        doc_parent_ok(ns, m),
        r < ns.len(),
        ns[r as int].node_kind == OutlineNodeKind::PassageRange,
    ensures
        doc_parent_ok(ns, m.insert(d, r)),
{
    reveal(doc_parent_ok);
    assert forall|k: u32| #[trigger] m.insert(d, r).contains_key(k) implies m.insert(d, r)[k] < ns.len()
        && ns[m.insert(d, r)[k] as int].node_kind == OutlineNodeKind::PassageRange by {
        if k != d {
            assert(m.contains_key(k));
        }
    }
}

proof fn lemma_roll_room(ns: Seq<OutlineNode>, r: int, n: int, c: int, pc: u32, cjk: u32)
    requires
        0 <= r <= ns.len(),
        counts_within(ns.take(r), n, c),
        n + pc <= u32::MAX,
        c + cjk <= u32::MAX,
    ensures
        forall|a: int|
            is_ancestor(ns, a, r) ==> #[trigger] ns[a].passage_count + pc <= u32::MAX && ns[a].cjk_char_count
                + cjk <= u32::MAX,
{
    reveal(counts_within);
    assert forall|a: int| is_ancestor(ns, a, r) implies #[trigger] ns[a].passage_count + pc <= u32::MAX
        && ns[a].cjk_char_count + cjk <= u32::MAX by {
        lemma_ancestor_below(ns, a, r);
        assert(ns.take(r)[a] == ns[a]);
    }
}

proof fn lemma_counts_rolled(
    b4: Seq<OutlineNode>,
    b5: Seq<OutlineNode>,
    r: int,
    n: int,
    c: int,
    pc: u32,
    cjk: u32,
    first: u32,
    last: u32,
    n2: int,
    c2: int,
)
    requires
        b4.len() == r + 1,
        b5.len() == b4.len(),
        counts_within(b4.take(r), n, c),
        b4[r].passage_count <= n2,
        b4[r].cjk_char_count <= c2,
        n + pc <= n2,
        c + cjk <= c2,
        n <= n2,
        c <= c2,
        forall|j: int|
            0 <= j < b4.len() ==> #[trigger] b5[j] == if is_ancestor(b4, j, r) {
                rolled(b4[j], first, last, pc, cjk)
            } else {
                b4[j]
            },
    ensures
        counts_within(b5, n2, c2),
{
    reveal(counts_within);
    assert forall|i: int| 0 <= i < b5.len() implies (#[trigger] b5[i]).passage_count <= n2 && b5[i].cjk_char_count
        <= c2 by {
        if i < r {
            assert(b4.take(r)[i] == b4[i]);
        }
        if is_ancestor(b4, i, r) {
            lemma_ancestor_below(b4, i, r);
        } else {
        }
    }
}

proof fn lemma_shape_counts(a: Seq<OutlineNode>, b: Seq<OutlineNode>)
    requires
        same_shape(a, b),
        tree_ok(a),
        ranges_ok(a),
    ensures
        tree_ok(b),
        ranges_ok(b),
        keeps(a, b),
{
    reveal(same_shape);
    lemma_same_shape_tree(a, b);
    lemma_shape_keeps(a, b);
    lemma_ranges_keep(a, b);
}

proof fn lemma_keeps_facts(a: Seq<OutlineNode>, b: Seq<OutlineNode>, j: int)
    requires
        keeps(a, b),
        0 <= j < a.len(),
    ensures
        a.len() <= b.len(),
        b[j].node_kind == a[j].node_kind,
        b[j].div_path == a[j].div_path,
        b[j].parent_id == a[j].parent_id,
        b[j].work_id == a[j].work_id,
        b[j].label == a[j].label,
        node_fields(b[j]) == node_fields(a[j]),
{
    reveal(keeps);
    assert(b[j] == (OutlineNode {
        children: b[j].children,
        first_doc_id: b[j].first_doc_id,
        last_doc_id: b[j].last_doc_id,
        passage_count: b[j].passage_count,
        cjk_char_count: b[j].cjk_char_count,
        ..a[j]
    }));
}

proof fn lemma_keeps_refl(a: Seq<OutlineNode>)
    ensures
        keeps(a, a),
{
    reveal(keeps);
    assert forall|j: int| 0 <= j < a.len() implies #[trigger] a[j] == (OutlineNode {
        children: a[j].children,
        first_doc_id: a[j].first_doc_id,
        last_doc_id: a[j].last_doc_id,
        passage_count: a[j].passage_count,
        cjk_char_count: a[j].cjk_char_count,
        ..a[j]
    }) by {
    }
}

// ---------------------------------------------------------------------------
// Division subtrees
// ---------------------------------------------------------------------------

/// Adds the passage-range node of the run of rows that starts at `i`
/// (rows sharing row `i`'s division path, up to `hi`): it hangs under the
/// division of that path, which is made where missing; the run's
/// documents point at it; and its counts are added to its ancestors.
/// Returns the end of the run. The ghost `oc` and `on` name the corpus and
/// canon above the file, whose totals are still open.
#[verifier::rlimit(50)]
fn add_range_run(
    catalog: &mut CorpusCatalogIndex,
    file_node: u32,
    path_nodes: &mut Vec<(String, u32)>,
    rows: &[CatalogRow],
    i: usize,
    hi: usize,
    Ghost(oc): Ghost<int>,
    Ghost(on): Ghost<int>,
) -> (e: usize)
    requires
        i < hi <= rows@.len(),
        catalog_inv(*old(catalog), rows@, i as int),
        file_node < old(catalog).nodes@.len(),
        old(catalog).nodes@[file_node as int].node_kind == OutlineNodeKind::Division,
        old(catalog).nodes@[file_node as int].div_path@.len() == 0,
        path_cache_ok(old(catalog).nodes@, old(path_nodes)@),
        old(catalog).nodes@.len() <= node_budget(rows@.take(i as int)) + 4,
        node_budget(rows@) <= u32::MAX,
        rows@.len() <= u32::MAX,
        cjk_total(rows@) <= u32::MAX,
        lineage_inv(*old(catalog), rows@, i as int),
        node_fields(old(catalog).nodes@[file_node as int]) == fields_of(rows@[i as int]),
        cache_fields(old(catalog).nodes@, old(path_nodes)@, fields_of(rows@[i as int])),
        rows_share(rows@, i as int, hi as int, fields_of(rows@[i as int])),
        cache_below(old(catalog).nodes@, old(path_nodes)@, file_node as int),
        roots_hold_totals(old(catalog).nodes@, old(catalog).works@),
        old(catalog).nodes@[file_node as int].parent_id matches Some(p) && p < old(catalog).nodes@.len()
            && old(catalog).nodes@[p as int].node_kind == OutlineNodeKind::Work && roots_before(
            old(catalog).works@,
            p as int,
        ) && old(catalog).nodes@[p as int].parent_id == Some(on as u32),
        0 <= on < old(catalog).nodes@.len(),
        old(catalog).nodes@[on].parent_id == Some(oc as u32),
        0 <= oc < old(catalog).nodes@.len(),
        old(catalog).nodes@[oc].node_kind == OutlineNodeKind::Corpus,
        groups_hold_totals(old(catalog).nodes@, rows@, oc, on),
        docs_in_ranges(old(catalog).nodes@, old(catalog).doc_parent@, rows@, i as int),
    ensures
        docs_in_ranges(final(catalog).nodes@, final(catalog).doc_parent@, rows@, e as int),
        ranges_still(old(catalog).nodes@, final(catalog).nodes@),
        corpora_kept(old(catalog).nodes@, final(catalog).nodes@, oc),
        groups_hold_totals(final(catalog).nodes@, rows@, oc, on),
        cache_below(final(catalog).nodes@, final(path_nodes)@, file_node as int),
        roots_hold_totals(final(catalog).nodes@, final(catalog).works@),
        lineage_inv(*final(catalog), rows@, e as int),
        cache_fields(final(catalog).nodes@, final(path_nodes)@, fields_of(rows@[i as int])),
        is_run_end(rows@, i as int, hi as int, RowKey::DivPath, e as int),
        catalog_inv(*final(catalog), rows@, e as int),
        keeps(old(catalog).nodes@, final(catalog).nodes@),
        final(catalog).nodes@.len() <= node_budget(rows@.take(e as int)),
        path_cache_ok(final(catalog).nodes@, final(path_nodes)@),
        final(catalog).works == old(catalog).works,
        final(catalog).schema == old(catalog).schema,
        final(catalog).source_fingerprint == old(catalog).source_fingerprint,
        final(catalog).doc_table_fingerprint == old(catalog).doc_table_fingerprint,
{
    let e = count_run(rows, i, hi, RowKey::DivPath);
    let ghost c1 = *catalog;
    proof {
        lemma_inv_parts(c1, rows@, i as int);
        lemma_budget_step(rows@, i as int);
        lemma_budget_grows(rows@, i as int + 1, e as int);
        lemma_budget_grows(rows@, e as int, rows@.len() as int);
        lemma_cjk_split(rows@, i as int, e as int);
        lemma_cjk_total_grows(rows@, e as int, rows@.len() as int);
        lemma_cjk_total_grows(rows@, i as int, e as int);
        lemma_cjk_total_nonneg(rows@.subrange(i as int, e as int));
        lemma_cjk_whole(rows@);
    }
    let leaf_node = ensure_path(catalog, file_node, path_nodes, rows[i].div_path.as_str(), &rows[i]);
    let ghost c2 = *catalog;
    proof {
        lemma_fresh_parts(c2.nodes@, c1.nodes@.len() as int);
        lemma_counts_grow(c1.nodes@, c2.nodes@, i as int, cjk_total(rows@.take(i as int)));
        lemma_grows_keeps(c1.nodes@, c2.nodes@);
        lemma_ranges_keep(c1.nodes@, c2.nodes@);
        lemma_doc_parent_keep(c1.nodes@, c2.nodes@, c1.doc_parent@);
        lemma_works_keep(c1.nodes@, c2.nodes@, c1.works@);
        lemma_docs_keep(c1.nodes@, c2.nodes@, c1.doc_parent@, rows@, i as int);
        lemma_roots_grow(c1.nodes@, c2.nodes@, c1.works@);
        assert forall|t: int| c1.nodes@.len() <= t < c2.nodes@.len() && t != oc && t != on implies group_holds(
            #[trigger] c2.nodes@[t],
            rows@,
        ) by {
            reveal(fresh_divisions);
            assert(c2.nodes@[t].node_kind == OutlineNodeKind::Division);
        }
        lemma_groups_grow(c1.nodes@, c2.nodes@, rows@, oc, on);
        lemma_grows_still(c1.nodes@, c2.nodes@);
        assert forall|t: int| c1.nodes@.len() <= t < c2.nodes@.len() implies (#[trigger] c2.nodes@[t]).node_kind
            != OutlineNodeKind::Corpus by {
            reveal(fresh_divisions);
        }
        lemma_kept_grow(c1.nodes@, c2.nodes@, oc);
        lemma_docs_in_ranges_keep(c1.nodes@, c2.nodes@, c1.doc_parent@, rows@, i as int, i as int);
    }
    let first = rows[i].doc_id;
    let last = rows[e - 1].doc_id;
    let passage_count = (e - i) as u32;
    let (_, _, _, cjk) = aggregate_work(rows, i, e);
    let label = if rows[i].heading.as_str().is_empty() {
        rows[i].div_path.clone()
    } else {
        rows[i].heading.clone()
    };
    let mut range_node = OutlineNode::leaf(
        OutlineNodeKind::PassageRange,
        Some(leaf_node),
        rows[i].source_corpus.clone(),
        rows[i].source_work_id.clone(),
        rows[i].source_rel_path.clone(),
        label,
    );
    range_node.heading_path = rows[i].div_path.clone();
    range_node.div_path = rows[i].div_path.clone();
    range_node.first_doc_id = Some(first);
    range_node.last_doc_id = Some(last);
    range_node.passage_count = passage_count;
    range_node.cjk_char_count = cjk;
    range_node.from_lb = if rows[i].from_lb.as_str().is_empty() {
        None
    } else {
        Some(rows[i].from_lb.clone())
    };
    range_node.to_lb = if rows[e - 1].to_lb.as_str().is_empty() {
        None
    } else {
        Some(rows[e - 1].to_lb.clone())
    };
    let range_id = catalog.push_node(range_node);
    catalog.add_child(leaf_node, range_id);
    let ghost c3 = *catalog;
    proof {
        let n = c3.nodes@[range_id as int];
        assert(attached(c2.nodes@, n, leaf_node as int, c3.nodes@));
        lemma_attach(c2.nodes@, n, leaf_node as int, c3.nodes@);
        lemma_attached_grows(c2.nodes@, n, leaf_node as int, c3.nodes@);
        lemma_ranges_attach(c2.nodes@, n, leaf_node as int, c3.nodes@);
        lemma_counts_prefix(c2.nodes@, c3.nodes@, i as int, cjk_total(rows@.take(i as int)));
        lemma_grows_keeps(c2.nodes@, c3.nodes@);
        lemma_doc_parent_keep(c2.nodes@, c3.nodes@, c3.doc_parent@);
        lemma_works_keep(c2.nodes@, c3.nodes@, c3.works@);
        lemma_cache_keep(c2.nodes@, c3.nodes@, path_nodes@);
        lemma_keeps_trans(c1.nodes@, c2.nodes@, c3.nodes@);
        lemma_lineage_attach(c2.nodes@, n, leaf_node as int, c3.nodes@);
        lemma_docs_keep(c2.nodes@, c3.nodes@, c2.doc_parent@, rows@, i as int);
        reveal(path_cache_ok);
        lemma_cache_fields_keep(c2.nodes@, c3.nodes@, path_nodes@, fields_of(rows@[i as int]));
        assert(range_matches(c3.nodes@[range_id as int], rows@[i as int]));
        lemma_roots_grow(c2.nodes@, c3.nodes@, c3.works@);
        lemma_cache_below_keep(c2.nodes@, c3.nodes@, path_nodes@, file_node as int);
        assert(c3.nodes@[range_id as int].node_kind == OutlineNodeKind::PassageRange);
        lemma_groups_grow(c2.nodes@, c3.nodes@, rows@, oc, on);
        lemma_grows_still(c2.nodes@, c3.nodes@);
        lemma_kept_grow(c2.nodes@, c3.nodes@, oc);
        lemma_docs_in_ranges_keep(c2.nodes@, c3.nodes@, c2.doc_parent@, rows@, i as int, i as int);
        assert forall|t: int| i <= t < e implies fields_of(#[trigger] rows@[t]) == fields_of(rows@[i as int])
            && rows@[t].div_path@ == rows@[i as int].div_path@ by {
            assert(key_of(rows@[t], RowKey::DivPath) == key_of(rows@[i as int], RowKey::DivPath));
        }
        assert(range_run(rows@, i as int, e as int));
        assert(spans_rows(c3.nodes@[range_id as int], rows@, i as int, e as int));
    }
    let ghost leaf_below = descends(c2.nodes@, file_node as int, leaf_node as int);
    let mut j = i;
    while j < e
        invariant
            i <= j <= e <= hi <= rows@.len(),
            range_id < catalog.nodes@.len(),
            catalog.nodes@ == c3.nodes@,
            catalog.works == c3.works,
            catalog.schema == c3.schema,
            catalog.source_fingerprint == c3.source_fingerprint,
            catalog.doc_table_fingerprint == c3.doc_table_fingerprint,
            c3.nodes@[range_id as int].node_kind == OutlineNodeKind::PassageRange,
            doc_parent_ok(catalog.nodes@, catalog.doc_parent@),
            forall|k: int| 0 <= k < j ==> catalog.doc_parent@.contains_key(#[trigger] rows@[k].doc_id),
            docs_match(catalog.nodes@, catalog.doc_parent@, rows@, j as int),
            range_matches(c3.nodes@[range_id as int], rows@[i as int]),
            rows_share(rows@, i as int, hi as int, fields_of(rows@[i as int])),
            is_run_end(rows@, i as int, hi as int, RowKey::DivPath, e as int),
            range_run(rows@, i as int, e as int),
            spans_rows(c3.nodes@[range_id as int], rows@, i as int, e as int),
            docs_in_ranges(catalog.nodes@, catalog.doc_parent@, rows@, j as int),
        decreases e - j,
    {
        proof {
            lemma_docs_in_ranges_keep(catalog.nodes@, catalog.nodes@, catalog.doc_parent@, rows@, j as int, j + 1);
            lemma_docs_in_ranges_insert(catalog.nodes@, catalog.doc_parent@, rows@, j + 1, i as int, j as int, e as int, range_id);
            lemma_doc_parent_insert(catalog.nodes@, catalog.doc_parent@, rows@[j as int].doc_id, range_id);
            lemma_docs_more(catalog.nodes@, catalog.doc_parent@, rows@, j as int, j + 1);
            assert(fields_of(rows@[j as int]) == fields_of(rows@[i as int]));
            assert(key_of(rows@[j as int], RowKey::DivPath) == key_of(rows@[i as int], RowKey::DivPath));
            lemma_docs_insert(catalog.nodes@, catalog.doc_parent@, rows@, j + 1, j as int, range_id);
        }
        catalog.doc_parent.insert(rows[j].doc_id, range_id);
        j += 1;
    }
    let ghost c4 = *catalog;
    proof {
        lemma_roll_room(
            c4.nodes@,
            range_id as int,
            i as int,
            cjk_total(rows@.take(i as int)),
            passage_count,
            cjk,
        );
    }
    catalog.roll_up(range_id, first, last, passage_count, cjk);
    let ghost c5 = *catalog;
    proof {
        lemma_counts_rolled(
            c4.nodes@,
            c5.nodes@,
            range_id as int,
            i as int,
            cjk_total(rows@.take(i as int)),
            passage_count,
            cjk,
            first,
            last,
            e as int,
            cjk_total(rows@.take(e as int)),
        );
        lemma_shape_counts(c4.nodes@, c5.nodes@);
        lemma_doc_parent_keep(c4.nodes@, c5.nodes@, c5.doc_parent@);
        lemma_works_keep(c4.nodes@, c5.nodes@, c5.works@);
        lemma_cache_keep(c4.nodes@, c5.nodes@, path_nodes@);
        lemma_keeps_trans(c1.nodes@, c4.nodes@, c5.nodes@);
        lemma_inv_from_parts(c5, rows@, e as int);
        lemma_lineage_keep(c4.nodes@, c5.nodes@);
        lemma_docs_keep(c4.nodes@, c5.nodes@, c4.doc_parent@, rows@, e as int);
        reveal(path_cache_ok);
        lemma_cache_fields_keep(c4.nodes@, c5.nodes@, path_nodes@, fields_of(rows@[i as int]));
        reveal(path_cache_ok);
        lemma_cache_below_keep(c4.nodes@, c5.nodes@, path_nodes@, file_node as int);
        assert(leaf_below);
        lemma_grows_keeps(c2.nodes@, c3.nodes@);
        lemma_descends_keep(c2.nodes@, c3.nodes@, file_node as int, leaf_node as int);
        lemma_ancestor_step(c3.nodes@, file_node as int, leaf_node as int, range_id as int);
        lemma_keeps_facts(c1.nodes@, c3.nodes@, file_node as int);
        let p = c1.nodes@[file_node as int].parent_id.unwrap() as int;
        lemma_keeps_facts(c1.nodes@, c3.nodes@, p);
        lemma_roots_off(c3.nodes@, c3.works@, p, file_node as int, range_id as int);
        lemma_roots_untouched(c4.nodes@, c5.nodes@, c5.works@);
        lemma_keeps_facts(c1.nodes@, c3.nodes@, on);
        lemma_keeps_facts(c1.nodes@, c3.nodes@, oc);
        lemma_group_ancestors(c3.nodes@, file_node as int, p, on, oc, range_id as int);
        lemma_groups_untouched(c4.nodes@, c5.nodes@, rows@, oc, on);
        assert forall|t: int| 0 <= t < c4.nodes@.len() && (#[trigger] c4.nodes@[t]).node_kind == OutlineNodeKind::PassageRange implies c5.nodes@[t].node_kind
            == OutlineNodeKind::PassageRange && c5.nodes@[t].first_doc_id == c4.nodes@[t].first_doc_id && c5.nodes@[t].last_doc_id
            == c4.nodes@[t].last_doc_id by {
            if is_ancestor(c4.nodes@, t, range_id as int) {
                lemma_range_not_above(c4.nodes@, t, range_id as int);
            }
        }
        assert(ranges_still(c4.nodes@, c5.nodes@));
        lemma_docs_in_ranges_keep(c4.nodes@, c5.nodes@, c4.doc_parent@, rows@, e as int, e as int);
        lemma_ranges_still_trans(c1.nodes@, c2.nodes@, c3.nodes@);
        lemma_ranges_still_trans(c1.nodes@, c3.nodes@, c5.nodes@);
        assert(c4.nodes@[on].node_kind != OutlineNodeKind::Corpus) by {
            reveal(tree_ok);
            assert(node_ok(c4.nodes@, on));
        }
        reveal(same_shape);
        assert forall|t: int|
            0 <= t < c4.nodes@.len() && t != oc && (#[trigger] c4.nodes@[t]).node_kind == OutlineNodeKind::Corpus implies c5.nodes@[t]
            == c4.nodes@[t] by {
            if is_ancestor(c4.nodes@, t, range_id as int) {
                assert(t == on || t == oc);
            }
        }
        assert(corpora_kept(c4.nodes@, c5.nodes@, oc));
        lemma_kept_trans(c1.nodes@, c2.nodes@, c3.nodes@, oc);
        lemma_kept_trans(c1.nodes@, c3.nodes@, c5.nodes@, oc);
    }
    e
}

/// Builds, under the work node `parent`, the subtree of one source file:
/// rows `lo..hi` share corpus, work and file. A division node for the file
/// holds the division nodes of the rows' division paths, and each run of
/// rows with one division path becomes a passage-range node under its
/// division. The ghost `oc` and `on` name the corpus and canon above the
/// work, whose totals are still open.
fn build_div_subtree(
    catalog: &mut CorpusCatalogIndex,
    parent: u32,
    rows: &[CatalogRow],
    lo: usize,
    hi: usize,
    Ghost(oc): Ghost<int>,
    Ghost(on): Ghost<int>,
)
    requires
        lo < hi <= rows@.len(),
        catalog_inv(*old(catalog), rows@, lo as int),
        parent < old(catalog).nodes@.len(),
        old(catalog).nodes@[parent as int].node_kind == OutlineNodeKind::Work,
        old(catalog).nodes@.len() <= node_budget(rows@.take(lo as int)) + 3,
        node_budget(rows@) <= u32::MAX,
        rows@.len() <= u32::MAX,
        cjk_total(rows@) <= u32::MAX,
        lineage_inv(*old(catalog), rows@, lo as int),
        rows_share(rows@, lo as int, hi as int, fields_of(rows@[lo as int])),
        old(catalog).nodes@[parent as int].source_corpus@ == rows@[lo as int].source_corpus@,
        old(catalog).nodes@[parent as int].work_id@ == rows@[lo as int].source_work_id@,
        roots_hold_totals(old(catalog).nodes@, old(catalog).works@),
        roots_before(old(catalog).works@, parent as int),
        old(catalog).nodes@[parent as int].parent_id == Some(on as u32),
        0 <= on < old(catalog).nodes@.len(),
        old(catalog).nodes@[on].parent_id == Some(oc as u32),
        0 <= oc < old(catalog).nodes@.len(),
        old(catalog).nodes@[oc].node_kind == OutlineNodeKind::Corpus,
        groups_hold_totals(old(catalog).nodes@, rows@, oc, on),
        docs_in_ranges(old(catalog).nodes@, old(catalog).doc_parent@, rows@, lo as int),
    ensures
        docs_in_ranges(final(catalog).nodes@, final(catalog).doc_parent@, rows@, hi as int),
        ranges_still(old(catalog).nodes@, final(catalog).nodes@),
        corpora_kept(old(catalog).nodes@, final(catalog).nodes@, oc),
        groups_hold_totals(final(catalog).nodes@, rows@, oc, on),
        roots_hold_totals(final(catalog).nodes@, final(catalog).works@),
        lineage_inv(*final(catalog), rows@, hi as int),
        catalog_inv(*final(catalog), rows@, hi as int),
        keeps(old(catalog).nodes@, final(catalog).nodes@),
        final(catalog).nodes@.len() <= node_budget(rows@.take(hi as int)),
        final(catalog).works == old(catalog).works,
        final(catalog).schema == old(catalog).schema,
        final(catalog).source_fingerprint == old(catalog).source_fingerprint,
        final(catalog).doc_table_fingerprint == old(catalog).doc_table_fingerprint,
{
    let ghost c0 = *catalog;
    proof {
        lemma_inv_parts(c0, rows@, lo as int);
        lemma_budget_step(rows@, lo as int);
        lemma_budget_grows(rows@, lo as int + 1, rows@.len() as int);
        lemma_cjk_whole(rows@);
        lemma_cjk_total_grows(rows@, 0, lo as int);
        assert(rows@.take(0) =~= Seq::<CatalogRow>::empty());
    }
    let file_label = rows[lo].source_rel_path.clone();
    let file_node = catalog.push_node(
        OutlineNode::leaf(
            OutlineNodeKind::Division,
            Some(parent),
            rows[lo].source_corpus.clone(),
            rows[lo].source_work_id.clone(),
            rows[lo].source_rel_path.clone(),
            file_label,
        ),
    );
    catalog.add_child(parent, file_node);
    let ghost c1 = *catalog;
    proof {
        let n = c1.nodes@[file_node as int];
        assert(attached(c0.nodes@, n, parent as int, c1.nodes@));
        lemma_attach(c0.nodes@, n, parent as int, c1.nodes@);
        lemma_attached_grows(c0.nodes@, n, parent as int, c1.nodes@);
        lemma_ranges_attach(c0.nodes@, n, parent as int, c1.nodes@);
        lemma_counts_grow(c0.nodes@, c1.nodes@, lo as int, cjk_total(rows@.take(lo as int)));
        lemma_grows_keeps(c0.nodes@, c1.nodes@);
        lemma_doc_parent_keep(c0.nodes@, c1.nodes@, c1.doc_parent@);
        lemma_works_keep(c0.nodes@, c1.nodes@, c1.works@);
        lemma_inv_from_parts(c1, rows@, lo as int);
        lemma_lineage_attach(c0.nodes@, n, parent as int, c1.nodes@);
        lemma_docs_keep(c0.nodes@, c1.nodes@, c0.doc_parent@, rows@, lo as int);
        lemma_roots_grow(c0.nodes@, c1.nodes@, c1.works@);
        lemma_groups_grow(c0.nodes@, c1.nodes@, rows@, oc, on);
        lemma_grows_still(c0.nodes@, c1.nodes@);
        assert(c1.nodes@[file_node as int].node_kind == OutlineNodeKind::Division);
        lemma_kept_grow(c0.nodes@, c1.nodes@, oc);
        lemma_docs_in_ranges_keep(c0.nodes@, c1.nodes@, c0.doc_parent@, rows@, lo as int, lo as int);
    }
    let mut path_nodes: Vec<(String, u32)> = Vec::new();
    proof {
        reveal(path_cache_ok);
        reveal(cache_fields);
        reveal(cache_below);
    }
    let mut i = lo;
    while i < hi
        invariant
            lo <= i <= hi <= rows@.len(),
            node_budget(rows@) <= u32::MAX,
            rows@.len() <= u32::MAX,
            cjk_total(rows@) <= u32::MAX,
            catalog_inv(*catalog, rows@, i as int),
            keeps(c0.nodes@, catalog.nodes@),
            file_node < catalog.nodes@.len(),
            catalog.nodes@[file_node as int].node_kind == OutlineNodeKind::Division,
            catalog.nodes@[file_node as int].div_path@.len() == 0,
            path_cache_ok(catalog.nodes@, path_nodes@),
            lineage_inv(*catalog, rows@, i as int),
            node_fields(catalog.nodes@[file_node as int]) == fields_of(rows@[lo as int]),
            cache_fields(catalog.nodes@, path_nodes@, fields_of(rows@[lo as int])),
            rows_share(rows@, lo as int, hi as int, fields_of(rows@[lo as int])),
            catalog.nodes@.len() <= node_budget(rows@.take(i as int)) + 4,
            i > lo ==> catalog.nodes@.len() <= node_budget(rows@.take(i as int)),
            catalog.works == old(catalog).works,
            catalog.schema == old(catalog).schema,
            catalog.source_fingerprint == old(catalog).source_fingerprint,
            catalog.doc_table_fingerprint == old(catalog).doc_table_fingerprint,
            cache_below(catalog.nodes@, path_nodes@, file_node as int),
            roots_hold_totals(catalog.nodes@, catalog.works@),
            roots_before(catalog.works@, parent as int),
            catalog.nodes@[file_node as int].parent_id == Some(parent),
            parent < catalog.nodes@.len(),
            catalog.nodes@[parent as int].node_kind == OutlineNodeKind::Work,
            catalog.nodes@[parent as int].parent_id == Some(on as u32),
            0 <= on < catalog.nodes@.len(),
            catalog.nodes@[on].parent_id == Some(oc as u32),
            0 <= oc < catalog.nodes@.len(),
            catalog.nodes@[oc].node_kind == OutlineNodeKind::Corpus,
            groups_hold_totals(catalog.nodes@, rows@, oc, on),
            docs_in_ranges(catalog.nodes@, catalog.doc_parent@, rows@, i as int),
            ranges_still(c0.nodes@, catalog.nodes@),
            corpora_kept(c0.nodes@, catalog.nodes@, oc),
        decreases hi - i,
    {
        let ghost before = catalog.nodes@;
        proof {
            assert(fields_of(rows@[i as int]) == fields_of(rows@[lo as int]));
        }
        let e = add_range_run(catalog, file_node, &mut path_nodes, rows, i, hi, Ghost(oc), Ghost(on));
        proof {
            lemma_ranges_still_trans(c0.nodes@, before, catalog.nodes@);
            lemma_kept_trans(c0.nodes@, before, catalog.nodes@, oc);
            lemma_keeps_trans(c0.nodes@, before, catalog.nodes@);
            lemma_keeps_facts(before, catalog.nodes@, file_node as int);
            lemma_keeps_facts(before, catalog.nodes@, parent as int);
            lemma_keeps_facts(before, catalog.nodes@, on);
            lemma_keeps_facts(before, catalog.nodes@, oc);
        }
        i = e;
    }
}

// ---------------------------------------------------------------------------
// Work records
// ---------------------------------------------------------------------------

/// Passages counted over the work records `ws`.
pub open spec fn works_passages(ws: Seq<WorkRecord>) -> int
    decreases ws.len(),
{
    if ws.len() == 0 {
        0
    } else {
        works_passages(ws.drop_last()) + ws.last().passage_count
    }
}

/// CJK ideographs counted over the work records `ws`.
pub open spec fn works_cjk(ws: Seq<WorkRecord>) -> int
    decreases ws.len(),
{
    if ws.len() == 0 {
        0
    } else {
        works_cjk(ws.drop_last()) + ws.last().cjk_char_count
    }
}

/// The work record `w` takes its id and its descriptive fields from row `r`.
pub open spec fn made_from(w: WorkRecord, r: CatalogRow) -> bool {
    &&& w.work_id@ == r.source_work_id@
    &&& w.source_corpus@ == r.source_corpus@
    &&& w.canon@ == r.canon@
    &&& w.canon_name@ == r.canon_name@
    &&& w.main_title@ == r.main_title@
    &&& w.author@ == r.author@
    &&& w.period@ == r.period@
    &&& w.period_rank == r.period_rank
    &&& w.origin@ == r.origin@
    &&& w.traditions@ == r.traditions@
}

/// The work record `w` is made from a row of `rows`, and its source files
/// are, sorted and without repeats, non-blank files of rows of its work.
pub open spec fn record_ok(w: WorkRecord, rows: Seq<CatalogRow>) -> bool {
    &&& strictly_sorted(strs(w.source_rel_paths@))
    &&& forall|x: Seq<char>|
        #[trigger] strs(w.source_rel_paths@).contains(x) ==> x.len() > 0 && exists|j: int|
            0 <= j < rows.len() && (#[trigger] rows[j]).source_work_id@ == w.work_id@
                && rows[j].source_rel_path@ == x
    &&& exists|j: int| 0 <= j < rows.len() && made_from(w, #[trigger] rows[j])
}

/// The work record `w` is one of row `r`'s work, and lists `r`'s source
/// file unless that is blank.
pub open spec fn record_holds(w: WorkRecord, r: CatalogRow) -> bool {
    &&& w.work_id@ == r.source_work_id@
    &&& r.source_rel_path@.len() > 0 ==> strs(w.source_rel_paths@).contains(r.source_rel_path@)
}

/// Some work record of `ws` holds row `r`.
pub open spec fn row_recorded(ws: Seq<WorkRecord>, r: CatalogRow) -> bool {
    exists|w: int| 0 <= w < ws.len() && record_holds(#[trigger] ws[w], r)
}

/// The work records of `ws` account for the first `done` rows: their
/// passages and ideographs add up, each of those rows is recorded, and
/// each record is sound.
#[verifier::opaque]
pub open spec fn works_account(ws: Seq<WorkRecord>, rows: Seq<CatalogRow>, done: int) -> bool {
    &&& works_passages(ws) == done
    &&& works_cjk(ws) == cjk_total(rows.take(done))
    &&& forall|j: int| 0 <= j < done ==> #[trigger] row_recorded(ws, rows[j])
    &&& forall|w: int| 0 <= w < ws.len() ==> #[trigger] record_ok(ws[w], rows)
}

/// The passage-range nodes of `a` keep their document ranges in `b`.
pub open spec fn ranges_still(a: Seq<OutlineNode>, b: Seq<OutlineNode>) -> bool {
    &&& a.len() <= b.len()
    &&& forall|i: int|
        0 <= i < a.len() && (#[trigger] a[i]).node_kind == OutlineNodeKind::PassageRange ==> b[i].node_kind
            == OutlineNodeKind::PassageRange && b[i].first_doc_id == a[i].first_doc_id && b[i].last_doc_id
            == a[i].last_doc_id
}

/// Rows `lo..hi` are a run of rows of one source file and division path.
pub open spec fn range_run(rows: Seq<CatalogRow>, lo: int, hi: int) -> bool {
    &&& 0 <= lo < hi <= rows.len()
    &&& forall|t: int|
        lo <= t < hi ==> fields_of(#[trigger] rows[t]) == fields_of(rows[lo]) && rows[t].div_path@ == rows[lo].div_path@
}

/// Node `n`'s documents run from that of row `lo` to that of row `hi - 1`.
pub open spec fn spans_rows(n: OutlineNode, rows: Seq<CatalogRow>, lo: int, hi: int) -> bool {
    n.first_doc_id == Some(rows[lo].doc_id) && n.last_doc_id == Some(rows[hi - 1].doc_id)
}

/// Each document points at a range whose documents run from the first to
/// the last row of a run of rows of one file and division path that holds
/// one of the first `done` rows with that document id.
#[verifier::opaque]
pub open spec fn docs_in_ranges(ns: Seq<OutlineNode>, m: Map<u32, u32>, rows: Seq<CatalogRow>, done: int) -> bool {
    forall|d: u32|
        #[trigger] m.contains_key(d) ==> exists|lo: int, j: int, hi: int|
            #![trigger rows[lo], rows[j], rows[hi - 1]]
            lo <= j < hi && 0 <= j < done && rows[j].doc_id == d && range_run(rows, lo, hi) && spans_rows(
                ns[m[d] as int],
                rows,
                lo,
                hi,
            )
}

proof fn lemma_ranges_still_trans(a: Seq<OutlineNode>, b: Seq<OutlineNode>, c: Seq<OutlineNode>)
    requires
        ranges_still(a, b),
        ranges_still(b, c),
    ensures
        ranges_still(a, c),
{
    assert forall|i: int| 0 <= i < a.len() && (#[trigger] a[i]).node_kind == OutlineNodeKind::PassageRange implies c[i].node_kind
        == OutlineNodeKind::PassageRange && c[i].first_doc_id == a[i].first_doc_id && c[i].last_doc_id
        == a[i].last_doc_id by {
        assert(b[i].node_kind == OutlineNodeKind::PassageRange);
    }
}

proof fn lemma_grows_still(a: Seq<OutlineNode>, b: Seq<OutlineNode>)
    requires
        grows(a, b),
    ensures
        ranges_still(a, b),
{
    reveal(grows);
    assert forall|i: int| 0 <= i < a.len() && (#[trigger] a[i]).node_kind == OutlineNodeKind::PassageRange implies b[i].node_kind
        == OutlineNodeKind::PassageRange && b[i].first_doc_id == a[i].first_doc_id && b[i].last_doc_id
        == a[i].last_doc_id by {
        assert(b[i] == (OutlineNode { children: b[i].children, ..a[i] }));
    }
}

/// No node hangs under a passage range, so none is above another node.
proof fn lemma_range_not_above(ns: Seq<OutlineNode>, a: int, i: int)
    requires
        tree_ok(ns),
        is_ancestor(ns, a, i),
    ensures
        ns[a].node_kind != OutlineNodeKind::PassageRange,
    decreases i,
{
    reveal(tree_ok);
    let p = ns[i].parent_id.unwrap() as int;
    assert(node_ok(ns, i));
    if p != a {
        lemma_range_not_above(ns, a, p);
    }
}

proof fn lemma_set_still(a: Seq<OutlineNode>, b: Seq<OutlineNode>, id: int)
    requires
        a.len() == b.len(),
        0 <= id < a.len(),
        a[id].node_kind != OutlineNodeKind::PassageRange,
        forall|j: int| 0 <= j < a.len() && j != id ==> #[trigger] b[j] == a[j],
    ensures
        ranges_still(a, b),
{
}

/// The passages the corpus nodes of `ns` carry, added up, leaving out
/// node `skip`.
pub open spec fn corpus_passages(ns: Seq<OutlineNode>, skip: int) -> int
    decreases ns.len(),
{
    if ns.len() == 0 {
        0
    } else {
        corpus_passages(ns.drop_last(), skip) + if ns.len() - 1 != skip && ns.last().node_kind
            == OutlineNodeKind::Corpus {
            ns.last().passage_count as int
        } else {
            0
        }
    }
}

/// The passages the corpus nodes of `ns` carry, added up.
pub open spec fn corpora_passages(ns: Seq<OutlineNode>) -> int {
    corpus_passages(ns, -1)
}

/// `b` keeps the kinds of the nodes of `a` and adds no corpus node, and
/// every corpus node of `a` but `oc` keeps its passage count.
pub open spec fn corpora_kept(a: Seq<OutlineNode>, b: Seq<OutlineNode>, oc: int) -> bool {
    &&& a.len() <= b.len()
    &&& forall|i: int| 0 <= i < a.len() ==> (#[trigger] b[i]).node_kind == a[i].node_kind
    &&& forall|i: int|
        0 <= i < a.len() && i != oc && (#[trigger] a[i]).node_kind == OutlineNodeKind::Corpus
            ==> b[i].passage_count == a[i].passage_count
    &&& forall|i: int| a.len() <= i < b.len() ==> (#[trigger] b[i]).node_kind != OutlineNodeKind::Corpus
}

proof fn lemma_kept_refl(a: Seq<OutlineNode>, oc: int)
    ensures
        corpora_kept(a, a, oc),
{
}

proof fn lemma_kept_trans(a: Seq<OutlineNode>, b: Seq<OutlineNode>, c: Seq<OutlineNode>, oc: int)
    requires
        corpora_kept(a, b, oc),
        corpora_kept(b, c, oc),
    ensures
        corpora_kept(a, c, oc),
{
    assert forall|i: int|
        0 <= i < a.len() && i != oc && (#[trigger] a[i]).node_kind == OutlineNodeKind::Corpus implies c[i].passage_count
        == a[i].passage_count by {
        assert(b[i].node_kind == a[i].node_kind);
    }
    assert forall|i: int| a.len() <= i < c.len() implies (#[trigger] c[i]).node_kind != OutlineNodeKind::Corpus by {
        if i < b.len() {
            assert(c[i].node_kind == b[i].node_kind);
        }
    }
}

/// Nodes added below others, none of them a corpus node, keep the corpora.
proof fn lemma_kept_grow(a: Seq<OutlineNode>, b: Seq<OutlineNode>, oc: int)
    requires
        grows(a, b),
        forall|i: int| a.len() <= i < b.len() ==> (#[trigger] b[i]).node_kind != OutlineNodeKind::Corpus,
    ensures
        corpora_kept(a, b, oc),
{
    reveal(grows);
    assert forall|i: int| 0 <= i < a.len() implies (#[trigger] b[i]).node_kind == a[i].node_kind
        && b[i].passage_count == a[i].passage_count by {
        assert(b[i] == (OutlineNode { children: b[i].children, ..a[i] }));
    }
}

/// Changing one node that is not a corpus node (or is `oc`), and not its
/// kind, keeps the corpora.
proof fn lemma_kept_set(a: Seq<OutlineNode>, b: Seq<OutlineNode>, id: int, oc: int)
    requires
        a.len() == b.len(),
        0 <= id < a.len(),
        b[id].node_kind == a[id].node_kind,
        a[id].node_kind != OutlineNodeKind::Corpus || id == oc,
        forall|j: int| 0 <= j < a.len() && j != id ==> #[trigger] b[j] == a[j],
    ensures
        corpora_kept(a, b, oc),
{
    assert forall|i: int| 0 <= i < a.len() implies (#[trigger] b[i]).node_kind == a[i].node_kind by {
        if i != id {
            assert(b[i] == a[i]);
        }
    }
    assert forall|i: int|
        0 <= i < a.len() && i != oc && (#[trigger] a[i]).node_kind == OutlineNodeKind::Corpus implies b[i].passage_count
        == a[i].passage_count by {
        assert(b[i] == a[i]);
    }
}

/// A node index outside `ns` leaves nothing out.
proof fn lemma_skip_outside(ns: Seq<OutlineNode>, skip: int)
    requires
        !(0 <= skip < ns.len()),
    ensures
        corpus_passages(ns, skip) == corpus_passages(ns, -1),
    decreases ns.len(),
{
    if ns.len() > 0 {
        lemma_skip_outside(ns.drop_last(), skip);
    }
}

/// What the corpora keep, their sum keeps.
proof fn lemma_kept_sum(a: Seq<OutlineNode>, b: Seq<OutlineNode>, oc: int)
    requires
        corpora_kept(a, b, oc),
    ensures
        corpus_passages(b, oc) == corpus_passages(a, oc),
    decreases b.len(),
{
    if b.len() > a.len() {
        let b2 = b.drop_last();
        assert(b[b.len() - 1].node_kind != OutlineNodeKind::Corpus);
        assert forall|i: int| 0 <= i < a.len() implies (#[trigger] b2[i]).node_kind == a[i].node_kind by {
            assert(b2[i] == b[i]);
        }
        assert forall|i: int|
            0 <= i < a.len() && i != oc && (#[trigger] a[i]).node_kind == OutlineNodeKind::Corpus implies b2[i].passage_count
            == a[i].passage_count by {
            assert(b2[i] == b[i]);
        }
        assert forall|i: int| a.len() <= i < b2.len() implies (#[trigger] b2[i]).node_kind != OutlineNodeKind::Corpus by {
            assert(b2[i] == b[i]);
        }
        lemma_kept_sum(a, b2, oc);
    } else if b.len() > 0 {
        let a2 = a.drop_last();
        let b2 = b.drop_last();
        assert forall|i: int| 0 <= i < a2.len() implies (#[trigger] b2[i]).node_kind == a2[i].node_kind by {
            assert(b2[i] == b[i]);
            assert(a2[i] == a[i]);
        }
        assert forall|i: int|
            0 <= i < a2.len() && i != oc && (#[trigger] a2[i]).node_kind == OutlineNodeKind::Corpus implies b2[i].passage_count
            == a2[i].passage_count by {
            assert(b2[i] == b[i]);
            assert(a2[i] == a[i]);
        }
        lemma_kept_sum(a2, b2, oc);
        assert(b[b.len() - 1].node_kind == a[a.len() - 1].node_kind);
    }
}

/// Setting the count of corpus node `id` adds it to the sum of the others.
proof fn lemma_sum_set(a: Seq<OutlineNode>, b: Seq<OutlineNode>, id: int)
    requires
        a.len() == b.len(),
        0 <= id < a.len(),
        b[id].node_kind == OutlineNodeKind::Corpus,
        forall|j: int| 0 <= j < a.len() && j != id ==> #[trigger] b[j] == a[j],
    ensures
        corpus_passages(b, -1) == corpus_passages(a, id) + b[id].passage_count,
    decreases a.len(),
{
    let a2 = a.drop_last();
    let b2 = b.drop_last();
    if id == a.len() - 1 {
        assert(a2 =~= b2);
        lemma_skip_outside(a2, id);
    } else {
        assert forall|j: int| 0 <= j < a2.len() && j != id implies #[trigger] b2[j] == a2[j] by {
            assert(b2[j] == b[j]);
            assert(a2[j] == a[j]);
        }
        lemma_sum_set(a2, b2, id);
        assert(b[a.len() - 1] == a[a.len() - 1]);
    }
}

proof fn lemma_docs_in_ranges_keep(
    a: Seq<OutlineNode>,
    b: Seq<OutlineNode>,
    m: Map<u32, u32>,
    rows: Seq<CatalogRow>,
    d1: int,
    d2: int,
)
    requires
        docs_in_ranges(a, m, rows, d1),
        doc_parent_ok(a, m),
        ranges_still(a, b),
        d1 <= d2,
    ensures
        docs_in_ranges(b, m, rows, d2),
{
    reveal(docs_in_ranges);
    reveal(doc_parent_ok);
    assert forall|d: u32| #[trigger] m.contains_key(d) implies exists|lo: int, j: int, hi: int|
        #![trigger rows[lo], rows[j], rows[hi - 1]]
        lo <= j < hi && 0 <= j < d2 && rows[j].doc_id == d && range_run(rows, lo, hi) && spans_rows(
            b[m[d] as int],
            rows,
            lo,
            hi,
        ) by {
        let t = m[d] as int;
        assert(a[t].node_kind == OutlineNodeKind::PassageRange);
        let (lo, j, hi) = choose|lo: int, j: int, hi: int|
            #![trigger rows[lo], rows[j], rows[hi - 1]]
            lo <= j < hi && 0 <= j < d1 && rows[j].doc_id == d && range_run(rows, lo, hi) && spans_rows(
                a[t],
                rows,
                lo,
                hi,
            );
        assert(spans_rows(b[t], rows, lo, hi));
    }
}

proof fn lemma_docs_in_ranges_insert(
    ns: Seq<OutlineNode>,
    m: Map<u32, u32>,
    rows: Seq<CatalogRow>,
    done: int,
    lo: int,
    j: int,
    hi: int,
    r: u32,
)
    requires
        docs_in_ranges(ns, m, rows, done),
        lo <= j < hi,
        0 <= j < done,
        range_run(rows, lo, hi),
        r < ns.len(),
        spans_rows(ns[r as int], rows, lo, hi),
    ensures
        docs_in_ranges(ns, m.insert(rows[j].doc_id, r), rows, done),
{
    reveal(docs_in_ranges);
    let m2 = m.insert(rows[j].doc_id, r);
    assert forall|d: u32| #[trigger] m2.contains_key(d) implies exists|lo2: int, j2: int, hi2: int|
        #![trigger rows[lo2], rows[j2], rows[hi2 - 1]]
        lo2 <= j2 < hi2 && 0 <= j2 < done && rows[j2].doc_id == d && range_run(rows, lo2, hi2) && spans_rows(
            ns[m2[d] as int],
            rows,
            lo2,
            hi2,
        ) by {
        if d == rows[j].doc_id {
            assert(rows[lo] == rows[lo] && rows[j] == rows[j] && rows[hi - 1] == rows[hi - 1]);
        } else {
            assert(m.contains_key(d));
        }
    }
}

/// Rows `a` and `b` are of one work: same corpus, canon and work id.
pub open spec fn same_work(a: CatalogRow, b: CatalogRow) -> bool {
    &&& a.source_corpus@ == b.source_corpus@
    &&& a.canon@ == b.canon@
    &&& a.source_work_id@ == b.source_work_id@
}

/// Rows `lo..hi` are a whole run of rows of one work: the rows just
/// before and just after them, if any, are of another.
pub open spec fn work_run(rows: Seq<CatalogRow>, lo: int, hi: int) -> bool {
    &&& 0 <= lo < hi <= rows.len()
    &&& forall|t: int| lo <= t < hi ==> same_work(#[trigger] rows[t], rows[lo])
    &&& lo > 0 ==> !same_work(rows[lo - 1], rows[lo])
    &&& hi < rows.len() ==> !same_work(rows[hi], rows[lo])
}

/// Record `w` is that of rows `lo..hi`: their work id, the number of
/// them, and their ideographs.
pub open spec fn record_counts(w: WorkRecord, rows: Seq<CatalogRow>, lo: int, hi: int) -> bool {
    &&& w.work_id@ == rows[lo].source_work_id@
    &&& w.passage_count == hi - lo
    &&& w.cjk_char_count == cjk_total(rows.subrange(lo, hi))
}

/// Rows `0..done` cut at the bounds `b` into the runs of the records `ws`,
/// in order.
pub open spec fn partition_at(ws: Seq<WorkRecord>, rows: Seq<CatalogRow>, done: int, b: Seq<int>) -> bool {
    &&& b.len() == ws.len() + 1
    &&& b[0] == 0
    &&& b[ws.len() as int] == done
    &&& forall|w: int| 0 <= w < ws.len() ==> #[trigger] entry_ok(ws, rows, b, w)
}

/// Record `w` of `ws` is that of the whole run of rows `b[w]..b[w + 1]`.
pub open spec fn entry_ok(ws: Seq<WorkRecord>, rows: Seq<CatalogRow>, b: Seq<int>, w: int) -> bool {
    work_run(rows, b[w], b[w + 1]) && record_counts(ws[w], rows, b[w], b[w + 1])
}

/// The records `ws` are, one for each and in order, those of the whole
/// runs of rows of one work that make up rows `0..done`.
#[verifier::opaque]
pub open spec fn works_partition(ws: Seq<WorkRecord>, rows: Seq<CatalogRow>, done: int) -> bool {
    exists|b: Seq<int>| #[trigger] partition_at(ws, rows, done, b)
}

proof fn lemma_partition_start(rows: Seq<CatalogRow>)
    ensures
        works_partition(Seq::<WorkRecord>::empty(), rows, 0),
{
    reveal(works_partition);
    assert(partition_at(Seq::<WorkRecord>::empty(), rows, 0, seq![0int]));
}

proof fn lemma_partition_push(ws: Seq<WorkRecord>, rows: Seq<CatalogRow>, done: int, rec: WorkRecord, e: int)
    requires
        works_partition(ws, rows, done),
        work_run(rows, done, e),
        record_counts(rec, rows, done, e),
    ensures
        works_partition(ws.push(rec), rows, e),
{
    reveal(works_partition);
    let b = choose|b: Seq<int>| #[trigger] partition_at(ws, rows, done, b);
    let b2 = b.push(e);
    let ws2 = ws.push(rec);
    assert forall|w: int| 0 <= w < ws2.len() implies #[trigger] entry_ok(ws2, rows, b2, w) by {
        if w < ws.len() {
            assert(entry_ok(ws, rows, b, w));
            assert(ws2[w] == ws[w]);
            assert(b2[w] == b[w] && b2[w + 1] == b[w + 1]);
        } else {
            assert(ws2[w] == rec);
            assert(b2[w] == b[ws.len() as int]);
            assert(b2[w + 1] == e);
        }
    }
    assert(b2[0] == b[0]);
    assert(b2[ws2.len() as int] == e);
    assert(partition_at(ws2, rows, e, b2));
}

proof fn lemma_account_push(
    ws: Seq<WorkRecord>,
    w: WorkRecord,
    rows: Seq<CatalogRow>,
    k: int,
    e: int,
)
    requires
        works_account(ws, rows, k),
        0 <= k < e <= rows.len(),
        forall|j: int| k <= j < e ==> (#[trigger] rows[j]).source_work_id@ == rows[k].source_work_id@,
        made_from(w, rows[k]),
        strictly_sorted(strs(w.source_rel_paths@)),
        strs(w.source_rel_paths@).to_set() == rel_paths_of(rows, k, e),
        w.passage_count == e - k,
        w.cjk_char_count == cjk_total(rows.subrange(k, e)),
    ensures
        works_account(ws.push(w), rows, e),
{
    reveal(works_account);
    let ws2 = ws.push(w);
    assert(ws2.drop_last() =~= ws);
    lemma_cjk_split(rows, k, e);
    assert forall|j: int| 0 <= j < e implies #[trigger] row_recorded(ws2, rows[j]) by {
        if j < k {
            assert(row_recorded(ws, rows[j]));
            let v = choose|v: int| 0 <= v < ws.len() && record_holds(#[trigger] ws[v], rows[j]);
            assert(ws2[v] == ws[v]);
        } else {
            let n = ws.len() as int;
            assert(ws2[n] == w);
            if rows[j].source_rel_path@.len() > 0 {
                assert(rel_paths_of(rows, k, e).contains(rows[j].source_rel_path@));
                assert(strs(w.source_rel_paths@).to_set().contains(rows[j].source_rel_path@));
            }
            assert(record_holds(ws2[n], rows[j]));
        }
    }
    assert forall|v: int| 0 <= v < ws2.len() implies #[trigger] record_ok(ws2[v], rows) by {
        if v < ws.len() {
            assert(ws2[v] == ws[v]);
        } else {
            assert(ws2[v] == w);
            assert forall|x: Seq<char>| #[trigger] strs(w.source_rel_paths@).contains(x) implies x.len() > 0
                && exists|j: int| 0 <= j < rows.len() && (#[trigger] rows[j]).source_work_id@ == w.work_id@
                && rows[j].source_rel_path@ == x by {
                assert(strs(w.source_rel_paths@).to_set().contains(x));
                assert(rel_paths_of(rows, k, e).contains(x));
                let j = choose|j: int| k <= j < e && (#[trigger] rows[j]).source_rel_path@ == x;
                assert(rows[j].source_work_id@ == w.work_id@);
            }
            assert(made_from(w, rows[k]));
        }
    }
}

proof fn lemma_account_start(rows: Seq<CatalogRow>)
    ensures
        works_account(Seq::<WorkRecord>::empty(), rows, 0),
{
    reveal(works_account);
    assert(rows.take(0) =~= Seq::<CatalogRow>::empty());
}

// ---------------------------------------------------------------------------
// Roots
// ---------------------------------------------------------------------------

proof fn lemma_push_root(a: Seq<OutlineNode>, n: OutlineNode, b: Seq<OutlineNode>)
    requires
        tree_ok(a),
        ranges_ok(a),
        a.len() < u32::MAX,
        n.node_id == a.len(),
        n.parent_id is None,
        n.node_kind == OutlineNodeKind::Corpus,
        n.children@.len() == 0,
        b == a.push(n),
    ensures
        tree_ok(b),
        ranges_ok(b),
        grows(a, b),
{
    reveal(tree_ok);
    reveal(ranges_ok);
    reveal(grows);
    assert forall|i: int| 0 <= i < b.len() implies #[trigger] node_ok(b, i) by {
        if i < a.len() {
            assert(node_ok(a, i));
            assert(b[i] == a[i]);
            if let Some(q) = a[i].parent_id {
                assert(b[q as int] == a[q as int]);
            }
            assert forall|k: int| 0 <= k < b[i].children@.len() implies i < #[trigger] b[i].children@[k]
                < b.len() && b[b[i].children@[k] as int].parent_id == Some(i as u32) by {
                let c = a[i].children@[k] as int;
                assert(b[c] == a[c]);
            }
        } else {
            assert(b[i] == n);
        }
    }
    assert forall|i: int| 0 <= i < b.len() && #[trigger] b[i].node_kind == OutlineNodeKind::PassageRange implies b[i].parent_id
        is Some && b[i].parent_id.unwrap() < b.len() && b[b[i].parent_id.unwrap() as int].div_path@
        == normal_div_path(b[i].div_path@) by {
        assert(i < a.len());
        assert(b[i] == a[i]);
        assert(a[i].node_kind == OutlineNodeKind::PassageRange);
        let q = a[i].parent_id.unwrap() as int;
        assert(b[q] == a[q]);
    }
}

// ---------------------------------------------------------------------------
// Works, canons and corpora
// ---------------------------------------------------------------------------

/// Builds, under the canon node `canon_node`, the work of the run of rows
/// that starts at `k` (rows sharing row `k`'s work id, up to `canon_end`):
/// a work node labelled with the main title (or the id), a division subtree
/// for each source file, the work's totals on its node, and its record.
/// Returns the end of the run. The ghost `oc` names the corpus above the
/// canon, whose totals are still open.
#[verifier::rlimit(50)]
fn build_work_group(
    catalog: &mut CorpusCatalogIndex,
    rows: &[CatalogRow],
    k: usize,
    canon_end: usize,
    canon_node: u32,
    Ghost(oc): Ghost<int>,
) -> (e: usize)
    requires
        k < canon_end <= rows@.len(),
        catalog_inv(*old(catalog), rows@, k as int),
        works_account(old(catalog).works@, rows@, k as int),
        canon_node < old(catalog).nodes@.len(),
        old(catalog).nodes@[canon_node as int].node_kind == OutlineNodeKind::Canon,
        old(catalog).nodes@.len() <= node_budget(rows@.take(k as int)) + 2,
        node_budget(rows@) <= u32::MAX,
        rows@.len() <= u32::MAX,
        cjk_total(rows@) <= u32::MAX,
        lineage_inv(*old(catalog), rows@, k as int),
        rows_in_corpus(rows@, k as int, canon_end as int, rows@[k as int].source_corpus@),
        old(catalog).nodes@[canon_node as int].source_corpus@ == rows@[k as int].source_corpus@,
        roots_hold_totals(old(catalog).nodes@, old(catalog).works@),
        old(catalog).nodes@[canon_node as int].parent_id == Some(oc as u32),
        0 <= oc < old(catalog).nodes@.len(),
        old(catalog).nodes@[oc].node_kind == OutlineNodeKind::Corpus,
        groups_hold_totals(old(catalog).nodes@, rows@, oc, canon_node as int),
        works_partition(old(catalog).works@, rows@, k as int),
        docs_in_ranges(old(catalog).nodes@, old(catalog).doc_parent@, rows@, k as int),
        k > 0 ==> !same_work(rows@[k - 1], rows@[k as int]),
        forall|t: int| k <= t < canon_end ==> (#[trigger] rows@[t]).canon@ == rows@[k as int].canon@,
        canon_end < rows@.len() ==> rows@[canon_end as int].source_corpus@ != rows@[k as int].source_corpus@
            || rows@[canon_end as int].canon@ != rows@[k as int].canon@,
    ensures
        works_partition(final(catalog).works@, rows@, e as int),
        docs_in_ranges(final(catalog).nodes@, final(catalog).doc_parent@, rows@, e as int),
        ranges_still(old(catalog).nodes@, final(catalog).nodes@),
        corpora_kept(old(catalog).nodes@, final(catalog).nodes@, oc),
        groups_hold_totals(final(catalog).nodes@, rows@, oc, canon_node as int),
        roots_hold_totals(final(catalog).nodes@, final(catalog).works@),
        lineage_inv(*final(catalog), rows@, e as int),
        is_run_end(rows@, k as int, canon_end as int, RowKey::Work, e as int),
        catalog_inv(*final(catalog), rows@, e as int),
        works_account(final(catalog).works@, rows@, e as int),
        keeps(old(catalog).nodes@, final(catalog).nodes@),
        final(catalog).nodes@.len() <= node_budget(rows@.take(e as int)),
        final(catalog).schema == old(catalog).schema,
        final(catalog).source_fingerprint == old(catalog).source_fingerprint,
        final(catalog).doc_table_fingerprint == old(catalog).doc_table_fingerprint,
{
    let ghost c0 = *catalog;
    let work_end = count_run(rows, k, canon_end, RowKey::Work);
    proof {
        lemma_inv_parts(c0, rows@, k as int);
        lemma_budget_step(rows@, k as int);
        lemma_budget_grows(rows@, k as int + 1, rows@.len() as int);
        lemma_budget_grows(rows@, k as int, k as int + 1);
        lemma_cjk_whole(rows@);
        lemma_cjk_total_grows(rows@, 0, k as int);
        lemma_cjk_total_grows(rows@, k as int, work_end as int);
        lemma_cjk_total_grows(rows@, work_end as int, rows@.len() as int);
        lemma_cjk_split(rows@, k as int, work_end as int);
        lemma_cjk_total_nonneg(rows@.subrange(k as int, work_end as int));
        assert(rows@.take(0) =~= Seq::<CatalogRow>::empty());
    }
    let work_id = rows[k].source_work_id.clone();
    let work_label = if rows[k].main_title.as_str().is_empty() {
        work_id.clone()
    } else {
        rows[k].main_title.clone()
    };
    let work_node = catalog.push_node(
        OutlineNode::leaf(
            OutlineNodeKind::Work,
            Some(canon_node),
            rows[k].source_corpus.clone(),
            work_id.clone(),
            String::new(),
            work_label,
        ),
    );
    catalog.add_child(canon_node, work_node);
    let ghost c1 = *catalog;
    proof {
        let n = c1.nodes@[work_node as int];
        assert(attached(c0.nodes@, n, canon_node as int, c1.nodes@));
        lemma_attach(c0.nodes@, n, canon_node as int, c1.nodes@);
        lemma_attached_grows(c0.nodes@, n, canon_node as int, c1.nodes@);
        lemma_ranges_attach(c0.nodes@, n, canon_node as int, c1.nodes@);
        lemma_counts_grow(c0.nodes@, c1.nodes@, k as int, cjk_total(rows@.take(k as int)));
        lemma_grows_keeps(c0.nodes@, c1.nodes@);
        lemma_doc_parent_keep(c0.nodes@, c1.nodes@, c1.doc_parent@);
        lemma_works_keep(c0.nodes@, c1.nodes@, c1.works@);
        lemma_inv_from_parts(c1, rows@, k as int);
        lemma_keeps_refl(c1.nodes@);
        lemma_lineage_attach(c0.nodes@, n, canon_node as int, c1.nodes@);
        lemma_docs_keep(c0.nodes@, c1.nodes@, c0.doc_parent@, rows@, k as int);
        lemma_roots_grow(c0.nodes@, c1.nodes@, c1.works@);
        reveal(roots_hold_totals);
        assert(roots_before(c1.works@, work_node as int));
        lemma_groups_grow(c0.nodes@, c1.nodes@, rows@, oc, canon_node as int);
        lemma_grows_still(c0.nodes@, c1.nodes@);
        lemma_kept_grow(c0.nodes@, c1.nodes@, oc);
        lemma_kept_refl(c1.nodes@, oc);
        lemma_inv_parts(c0, rows@, k as int);
        lemma_docs_in_ranges_keep(c0.nodes@, c1.nodes@, c0.doc_parent@, rows@, k as int, k as int);
    }
    let traditions = clone_strings(&rows[k].traditions);
    let rel_paths = collect_rel_paths(rows, k, work_end);
    let mut l = k;
    while l < work_end
        invariant
            k <= l <= work_end <= canon_end <= rows@.len(),
            node_budget(rows@) <= u32::MAX,
            rows@.len() <= u32::MAX,
            cjk_total(rows@) <= u32::MAX,
            catalog_inv(*catalog, rows@, l as int),
            keeps(c1.nodes@, catalog.nodes@),
            work_node < catalog.nodes@.len(),
            catalog.nodes@[work_node as int].node_kind == OutlineNodeKind::Work,
            catalog.nodes@[work_node as int].source_corpus@ == rows@[k as int].source_corpus@,
            catalog.nodes@[work_node as int].work_id@ == rows@[k as int].source_work_id@,
            lineage_inv(*catalog, rows@, l as int),
            rows_in_corpus(rows@, k as int, canon_end as int, rows@[k as int].source_corpus@),
            is_run_end(rows@, k as int, canon_end as int, RowKey::Work, work_end as int),
            catalog.nodes@.len() <= node_budget(rows@.take(l as int)) + 3,
            l > k ==> catalog.nodes@.len() <= node_budget(rows@.take(l as int)),
            catalog.works == c0.works,
            catalog.schema == c0.schema,
            catalog.source_fingerprint == c0.source_fingerprint,
            catalog.doc_table_fingerprint == c0.doc_table_fingerprint,
            roots_hold_totals(catalog.nodes@, catalog.works@),
            roots_before(catalog.works@, work_node as int),
            catalog.nodes@[work_node as int].parent_id == Some(canon_node),
            canon_node < catalog.nodes@.len(),
            catalog.nodes@[canon_node as int].parent_id == Some(oc as u32),
            0 <= oc < catalog.nodes@.len(),
            catalog.nodes@[oc].node_kind == OutlineNodeKind::Corpus,
            groups_hold_totals(catalog.nodes@, rows@, oc, canon_node as int),
            docs_in_ranges(catalog.nodes@, catalog.doc_parent@, rows@, l as int),
            ranges_still(c1.nodes@, catalog.nodes@),
            corpora_kept(c1.nodes@, catalog.nodes@, oc),
        decreases work_end - l,
    {
        let rel_end = count_run(rows, l, work_end, RowKey::RelPath);
        let ghost before = catalog.nodes@;
        proof {
            assert forall|t: int| l <= t < rel_end implies fields_of(#[trigger] rows@[t]) == fields_of(rows@[l as int]) by {
                assert(key_of(rows@[t], RowKey::Work) == key_of(rows@[k as int], RowKey::Work));
                assert(key_of(rows@[l as int], RowKey::Work) == key_of(rows@[k as int], RowKey::Work));
                assert(key_of(rows@[t], RowKey::RelPath) == key_of(rows@[l as int], RowKey::RelPath));
                assert(rows@[t].source_corpus@ == rows@[k as int].source_corpus@);
                assert(rows@[l as int].source_corpus@ == rows@[k as int].source_corpus@);
            }
            assert(rows@[l as int].source_corpus@ == rows@[k as int].source_corpus@);
            assert(key_of(rows@[l as int], RowKey::Work) == key_of(rows@[k as int], RowKey::Work));
        }
        build_div_subtree(catalog, work_node, rows, l, rel_end, Ghost(oc), Ghost(canon_node as int));
        proof {
            lemma_ranges_still_trans(c1.nodes@, before, catalog.nodes@);
            lemma_kept_trans(c1.nodes@, before, catalog.nodes@, oc);
            lemma_keeps_trans(c1.nodes@, before, catalog.nodes@);
            lemma_keeps_facts(before, catalog.nodes@, work_node as int);
            lemma_keeps_facts(before, catalog.nodes@, canon_node as int);
            lemma_keeps_facts(before, catalog.nodes@, oc);
        }
        l = rel_end;
    }
    let (first, last, p_count, c_count) = aggregate_work(rows, k, work_end);
    let ghost c2 = *catalog;
    catalog.set_totals(work_node, first, last, p_count, c_count);
    let ghost c3 = *catalog;
    proof {
        lemma_inv_parts(c2, rows@, work_end as int);
        lemma_shape_counts(c2.nodes@, c3.nodes@);
        lemma_doc_parent_keep(c2.nodes@, c3.nodes@, c3.doc_parent@);
        lemma_works_keep(c2.nodes@, c3.nodes@, c3.works@);
        lemma_counts_set(c2.nodes@, c3.nodes@, work_node as int, work_end as int, cjk_total(rows@.take(work_end as int)));
        lemma_inv_from_parts(c3, rows@, work_end as int);
        lemma_keeps_trans(c1.nodes@, c2.nodes@, c3.nodes@);
        lemma_keeps_trans(c0.nodes@, c1.nodes@, c3.nodes@);
        lemma_keeps_facts(c1.nodes@, c3.nodes@, work_node as int);
        lemma_lineage_keep(c2.nodes@, c3.nodes@);
        lemma_docs_keep(c2.nodes@, c3.nodes@, c2.doc_parent@, rows@, work_end as int);
        lemma_roots_untouched(c2.nodes@, c3.nodes@, c3.works@);
        lemma_groups_untouched(c2.nodes@, c3.nodes@, rows@, oc, canon_node as int);
        lemma_set_still(c2.nodes@, c3.nodes@, work_node as int);
        lemma_docs_in_ranges_keep(c2.nodes@, c3.nodes@, c2.doc_parent@, rows@, work_end as int, work_end as int);
        lemma_ranges_still_trans(c1.nodes@, c2.nodes@, c3.nodes@);
        lemma_grows_still(c0.nodes@, c1.nodes@);
        lemma_ranges_still_trans(c0.nodes@, c1.nodes@, c3.nodes@);
        lemma_kept_set(c2.nodes@, c3.nodes@, work_node as int, oc);
        lemma_kept_trans(c1.nodes@, c2.nodes@, c3.nodes@, oc);
        lemma_kept_trans(c0.nodes@, c1.nodes@, c3.nodes@, oc);
    }
    let record = WorkRecord {
        work_id: work_id,
        source_corpus: rows[k].source_corpus.clone(),
        canon: rows[k].canon.clone(),
        canon_name: rows[k].canon_name.clone(),
        main_title: rows[k].main_title.clone(),
        author: rows[k].author.clone(),
        period: rows[k].period.clone(),
        period_rank: rows[k].period_rank,
        origin: rows[k].origin.clone(),
        traditions,
        source_rel_paths: rel_paths,
        root_node: work_node,
        passage_count: p_count,
        cjk_char_count: c_count,
    };
    proof {
        lemma_account_push(c3.works@, record, rows@, k as int, work_end as int);
        lemma_works_push(c3.nodes@, c3.works@, record);
        lemma_inv_parts(c3, rows@, work_end as int);
        lemma_roots_push(c3.nodes@, c3.works@, record);
        assert forall|t: int| k <= t < work_end implies same_work(#[trigger] rows@[t], rows@[k as int]) by {
            assert(key_of(rows@[t], RowKey::Work) == key_of(rows@[k as int], RowKey::Work));
        }
        if work_end < rows@.len() {
            if work_end < canon_end {
                assert(key_of(rows@[work_end as int], RowKey::Work) != key_of(rows@[k as int], RowKey::Work));
            }
        }
        assert(work_run(rows@, k as int, work_end as int));
        lemma_partition_push(c3.works@, rows@, k as int, record, work_end as int);
    }
    catalog.works.push(record);
    proof {
        lemma_inv_from_parts(*catalog, rows@, work_end as int);
    }
    work_end
}

proof fn lemma_counts_set(a: Seq<OutlineNode>, b: Seq<OutlineNode>, id: int, n: int, c: int)
    requires
        counts_within(a, n, c),
        0 <= id < a.len(),
        b.len() == a.len(),
        b[id].passage_count <= n,
        b[id].cjk_char_count <= c,
        forall|j: int| 0 <= j < a.len() && j != id ==> #[trigger] b[j] == a[j],
    ensures
        counts_within(b, n, c),
{
    reveal(counts_within);
    assert forall|i: int| 0 <= i < b.len() implies (#[trigger] b[i]).passage_count <= n && b[i].cjk_char_count <= c by {
        if i != id {
            assert(b[i] == a[i]);
        }
    }
}

proof fn lemma_works_push(ns: Seq<OutlineNode>, ws: Seq<WorkRecord>, w: WorkRecord)
    requires
        works_ok(ns, ws),
        w.root_node < ns.len(),
        ns[w.root_node as int].node_kind == OutlineNodeKind::Work,
        ns[w.root_node as int].work_id@ == w.work_id@,
        ns[w.root_node as int].label@ == work_label(w),
    ensures
        works_ok(ns, ws.push(w)),
{
    reveal(works_ok);
    assert forall|i: int| 0 <= i < ws.push(w).len() implies (#[trigger] ws.push(w)[i]).root_node < ns.len()
        && ns[ws.push(w)[i].root_node as int].node_kind == OutlineNodeKind::Work && ns[ws.push(w)[i].root_node as int].work_id@
        == ws.push(w)[i].work_id@ && ns[ws.push(w)[i].root_node as int].label@ == work_label(ws.push(w)[i]) by {
        if i < ws.len() {
            assert(ws.push(w)[i] == ws[i]);
        }
    }
}

/// Builds, under the corpus node `corpus_node`, the canon of the run of
/// rows that starts at `j` (rows sharing row `j`'s canon, up to
/// `corpus_end`): a canon node labelled with the canon's name (or its code,
/// or "(no canon)"), its works, and the canon's totals on its node.
/// Returns the end of the run.
#[verifier::rlimit(50)]
fn build_canon_group(
    catalog: &mut CorpusCatalogIndex,
    rows: &[CatalogRow],
    j: usize,
    corpus_end: usize,
    corpus_node: u32,
) -> (e: usize)
    requires
        j < corpus_end <= rows@.len(),
        catalog_inv(*old(catalog), rows@, j as int),
        works_account(old(catalog).works@, rows@, j as int),
        corpus_node < old(catalog).nodes@.len(),
        old(catalog).nodes@[corpus_node as int].node_kind == OutlineNodeKind::Corpus,
        old(catalog).nodes@.len() <= node_budget(rows@.take(j as int)) + 1,
        node_budget(rows@) <= u32::MAX,
        rows@.len() <= u32::MAX,
        cjk_total(rows@) <= u32::MAX,
        lineage_inv(*old(catalog), rows@, j as int),
        rows_in_corpus(rows@, j as int, corpus_end as int, rows@[j as int].source_corpus@),
        old(catalog).nodes@[corpus_node as int].source_corpus@ == rows@[j as int].source_corpus@,
        roots_hold_totals(old(catalog).nodes@, old(catalog).works@),
        groups_hold_totals(old(catalog).nodes@, rows@, corpus_node as int, -1),
        j > 0 ==> rows@[j - 1].source_corpus@ != rows@[j as int].source_corpus@ || rows@[j - 1].canon@
            != rows@[j as int].canon@,
        corpus_end < rows@.len() ==> rows@[corpus_end as int].source_corpus@ != rows@[j as int].source_corpus@,
        works_partition(old(catalog).works@, rows@, j as int),
        docs_in_ranges(old(catalog).nodes@, old(catalog).doc_parent@, rows@, j as int),
    ensures
        works_partition(final(catalog).works@, rows@, e as int),
        docs_in_ranges(final(catalog).nodes@, final(catalog).doc_parent@, rows@, e as int),
        ranges_still(old(catalog).nodes@, final(catalog).nodes@),
        corpora_kept(old(catalog).nodes@, final(catalog).nodes@, corpus_node as int),
        groups_hold_totals(final(catalog).nodes@, rows@, corpus_node as int, -1),
        roots_hold_totals(final(catalog).nodes@, final(catalog).works@),
        lineage_inv(*final(catalog), rows@, e as int),
        is_run_end(rows@, j as int, corpus_end as int, RowKey::Canon, e as int),
        catalog_inv(*final(catalog), rows@, e as int),
        works_account(final(catalog).works@, rows@, e as int),
        keeps(old(catalog).nodes@, final(catalog).nodes@),
        final(catalog).nodes@.len() <= node_budget(rows@.take(e as int)),
        final(catalog).schema == old(catalog).schema,
        final(catalog).source_fingerprint == old(catalog).source_fingerprint,
        final(catalog).doc_table_fingerprint == old(catalog).doc_table_fingerprint,
{
    let ghost c0 = *catalog;
    let canon_end = count_run(rows, j, corpus_end, RowKey::Canon);
    proof {
        lemma_inv_parts(c0, rows@, j as int);
        lemma_budget_step(rows@, j as int);
        lemma_budget_grows(rows@, j as int + 1, rows@.len() as int);
        lemma_budget_grows(rows@, j as int, j as int + 1);
        lemma_cjk_whole(rows@);
        lemma_cjk_total_grows(rows@, 0, j as int);
        lemma_cjk_total_grows(rows@, j as int, canon_end as int);
        lemma_cjk_total_grows(rows@, canon_end as int, rows@.len() as int);
        lemma_cjk_split(rows@, j as int, canon_end as int);
        lemma_cjk_total_nonneg(rows@.subrange(j as int, canon_end as int));
        assert(rows@.take(0) =~= Seq::<CatalogRow>::empty());
    }
    let canon_label = if rows[j].canon_name.as_str().is_empty() {
        if rows[j].canon.as_str().is_empty() {
            String::from_str("(no canon)")
        } else {
            rows[j].canon.clone()
        }
    } else {
        rows[j].canon_name.clone()
    };
    let canon_node = catalog.push_node(
        OutlineNode::leaf(
            OutlineNodeKind::Canon,
            Some(corpus_node),
            rows[j].source_corpus.clone(),
            String::new(),
            String::new(),
            canon_label,
        ),
    );
    catalog.add_child(corpus_node, canon_node);
    let ghost c1 = *catalog;
    proof {
        let n = c1.nodes@[canon_node as int];
        assert(attached(c0.nodes@, n, corpus_node as int, c1.nodes@));
        lemma_attach(c0.nodes@, n, corpus_node as int, c1.nodes@);
        lemma_attached_grows(c0.nodes@, n, corpus_node as int, c1.nodes@);
        lemma_ranges_attach(c0.nodes@, n, corpus_node as int, c1.nodes@);
        lemma_counts_grow(c0.nodes@, c1.nodes@, j as int, cjk_total(rows@.take(j as int)));
        lemma_grows_keeps(c0.nodes@, c1.nodes@);
        lemma_doc_parent_keep(c0.nodes@, c1.nodes@, c1.doc_parent@);
        lemma_works_keep(c0.nodes@, c1.nodes@, c1.works@);
        lemma_inv_from_parts(c1, rows@, j as int);
        lemma_keeps_refl(c1.nodes@);
        lemma_lineage_attach(c0.nodes@, n, corpus_node as int, c1.nodes@);
        lemma_docs_keep(c0.nodes@, c1.nodes@, c0.doc_parent@, rows@, j as int);
        lemma_roots_grow(c0.nodes@, c1.nodes@, c1.works@);
        lemma_groups_reopen(c0.nodes@, rows@, corpus_node as int, -1, corpus_node as int, canon_node as int);
        lemma_groups_grow(c0.nodes@, c1.nodes@, rows@, corpus_node as int, canon_node as int);
        lemma_grows_still(c0.nodes@, c1.nodes@);
        lemma_kept_grow(c0.nodes@, c1.nodes@, corpus_node as int);
        lemma_kept_refl(c1.nodes@, corpus_node as int);
        lemma_inv_parts(c0, rows@, j as int);
        lemma_docs_in_ranges_keep(c0.nodes@, c1.nodes@, c0.doc_parent@, rows@, j as int, j as int);
    }
    let mut k = j;
    while k < canon_end
        invariant
            j <= k <= canon_end <= corpus_end <= rows@.len(),
            node_budget(rows@) <= u32::MAX,
            rows@.len() <= u32::MAX,
            cjk_total(rows@) <= u32::MAX,
            catalog_inv(*catalog, rows@, k as int),
            works_account(catalog.works@, rows@, k as int),
            keeps(c1.nodes@, catalog.nodes@),
            canon_node < catalog.nodes@.len(),
            catalog.nodes@[canon_node as int].node_kind == OutlineNodeKind::Canon,
            catalog.nodes@[canon_node as int].source_corpus@ == rows@[j as int].source_corpus@,
            lineage_inv(*catalog, rows@, k as int),
            rows_in_corpus(rows@, j as int, corpus_end as int, rows@[j as int].source_corpus@),
            catalog.nodes@.len() <= node_budget(rows@.take(k as int)) + 2,
            k > j ==> catalog.nodes@.len() <= node_budget(rows@.take(k as int)),
            catalog.schema == c0.schema,
            catalog.source_fingerprint == c0.source_fingerprint,
            catalog.doc_table_fingerprint == c0.doc_table_fingerprint,
            roots_hold_totals(catalog.nodes@, catalog.works@),
            catalog.nodes@[canon_node as int].parent_id == Some(corpus_node),
            corpus_node < catalog.nodes@.len(),
            catalog.nodes@[corpus_node as int].node_kind == OutlineNodeKind::Corpus,
            groups_hold_totals(catalog.nodes@, rows@, corpus_node as int, canon_node as int),
            works_partition(catalog.works@, rows@, k as int),
            docs_in_ranges(catalog.nodes@, catalog.doc_parent@, rows@, k as int),
            ranges_still(c1.nodes@, catalog.nodes@),
            corpora_kept(c1.nodes@, catalog.nodes@, corpus_node as int),
            j > 0 ==> rows@[j - 1].source_corpus@ != rows@[j as int].source_corpus@ || rows@[j - 1].canon@
                != rows@[j as int].canon@,
            k > j && k < canon_end ==> !same_work(rows@[k - 1], rows@[k as int]),
            corpus_end < rows@.len() ==> rows@[corpus_end as int].source_corpus@ != rows@[j as int].source_corpus@,
            is_run_end(rows@, j as int, corpus_end as int, RowKey::Canon, canon_end as int),
        decreases canon_end - k,
    {
        let ghost before = catalog.nodes@;
        proof {
            assert(rows@[k as int].source_corpus@ == rows@[j as int].source_corpus@);
            assert(key_of(rows@[k as int], RowKey::Canon) == key_of(rows@[j as int], RowKey::Canon));
            assert forall|t: int| k <= t < canon_end implies (#[trigger] rows@[t]).canon@ == rows@[k as int].canon@ by {
                assert(key_of(rows@[t], RowKey::Canon) == key_of(rows@[j as int], RowKey::Canon));
            }
            if canon_end < rows@.len() && canon_end < corpus_end {
                assert(key_of(rows@[canon_end as int], RowKey::Canon) != key_of(rows@[j as int], RowKey::Canon));
            }
        }
        let work_end = build_work_group(catalog, rows, k, canon_end, canon_node, Ghost(corpus_node as int));
        proof {
            lemma_ranges_still_trans(c1.nodes@, before, catalog.nodes@);
            lemma_kept_trans(c1.nodes@, before, catalog.nodes@, corpus_node as int);
            if work_end < canon_end {
                assert(key_of(rows@[work_end as int], RowKey::Work) != key_of(rows@[k as int], RowKey::Work));
                assert(key_of(rows@[work_end - 1], RowKey::Work) == key_of(rows@[k as int], RowKey::Work));
                assert(key_of(rows@[work_end - 1], RowKey::Canon) == key_of(rows@[j as int], RowKey::Canon));
            }
        }
        proof {
            lemma_keeps_trans(c1.nodes@, before, catalog.nodes@);
            lemma_keeps_facts(before, catalog.nodes@, canon_node as int);
            lemma_keeps_facts(before, catalog.nodes@, corpus_node as int);
        }
        k = work_end;
    }
    let (first, last, p_count, c_count) = aggregate_work(rows, j, canon_end);
    let ghost c2 = *catalog;
    catalog.set_totals(canon_node, first, last, p_count, c_count);
    proof {
        let c3 = *catalog;
        lemma_inv_parts(c2, rows@, canon_end as int);
        lemma_shape_counts(c2.nodes@, c3.nodes@);
        lemma_doc_parent_keep(c2.nodes@, c3.nodes@, c3.doc_parent@);
        lemma_works_keep(c2.nodes@, c3.nodes@, c3.works@);
        lemma_counts_set(c2.nodes@, c3.nodes@, canon_node as int, canon_end as int, cjk_total(rows@.take(canon_end as int)));
        lemma_inv_from_parts(c3, rows@, canon_end as int);
        lemma_keeps_trans(c1.nodes@, c2.nodes@, c3.nodes@);
        lemma_keeps_trans(c0.nodes@, c1.nodes@, c3.nodes@);
        lemma_lineage_keep(c2.nodes@, c3.nodes@);
        lemma_docs_keep(c2.nodes@, c3.nodes@, c2.doc_parent@, rows@, canon_end as int);
        lemma_roots_set(c2.nodes@, c3.nodes@, c2.works@, canon_node as int);
        lemma_groups_untouched(c2.nodes@, c3.nodes@, rows@, corpus_node as int, canon_node as int);
        lemma_set_still(c2.nodes@, c3.nodes@, canon_node as int);
        lemma_docs_in_ranges_keep(c2.nodes@, c3.nodes@, c2.doc_parent@, rows@, canon_end as int, canon_end as int);
        lemma_ranges_still_trans(c1.nodes@, c2.nodes@, c3.nodes@);
        lemma_grows_still(c0.nodes@, c1.nodes@);
        lemma_ranges_still_trans(c0.nodes@, c1.nodes@, c3.nodes@);
        lemma_kept_set(c2.nodes@, c3.nodes@, canon_node as int, corpus_node as int);
        lemma_kept_trans(c1.nodes@, c2.nodes@, c3.nodes@, corpus_node as int);
        lemma_kept_trans(c0.nodes@, c1.nodes@, c3.nodes@, corpus_node as int);
        assert forall|t: int| j <= t < canon_end implies (#[trigger] rows@[t]).canon@ == rows@[j as int].canon@ by {
            assert(key_of(rows@[t], RowKey::Canon) == key_of(rows@[j as int], RowKey::Canon));
        }
        assert(canon_end < rows@.len() ==> rows@[canon_end as int].source_corpus@ != rows@[j as int].source_corpus@
            || rows@[canon_end as int].canon@ != rows@[j as int].canon@) by {
            if canon_end < corpus_end {
                assert(key_of(rows@[canon_end as int], RowKey::Canon) != key_of(rows@[j as int], RowKey::Canon));
            }
        }
        assert(canon_run(rows@, j as int, canon_end as int, c3.nodes@[canon_node as int].source_corpus@)
            && holds_rows(c3.nodes@[canon_node as int], rows@, j as int, canon_end as int));
        lemma_groups_reopen(c3.nodes@, rows@, corpus_node as int, canon_node as int, corpus_node as int, -1);
    }
    canon_end
}

proof fn lemma_inv_empty(c: CorpusCatalogIndex, rows: Seq<CatalogRow>)
    requires
        c.nodes@.len() == 0,
        c.works@.len() == 0,
        c.doc_parent@ == Map::<u32, u32>::empty(),
    ensures
        catalog_inv(c, rows, 0),
{
    reveal(catalog_inv);
    reveal(tree_ok);
    reveal(ranges_ok);
    reveal(doc_parent_ok);
    reveal(works_ok);
    reveal(counts_within);
}

proof fn lemma_lineage_empty(c: CorpusCatalogIndex, rows: Seq<CatalogRow>)
    requires
        c.nodes@.len() == 0,
        c.doc_parent@ == Map::<u32, u32>::empty(),
    ensures
        lineage_inv(c, rows, 0),
{
    reveal(lineage_ok);
    reveal(docs_match);
}

proof fn lemma_budget_len(rows: Seq<CatalogRow>)
    ensures
        node_budget(rows) >= 5 * rows.len(),
    decreases rows.len(),
{
    if rows.len() > 0 {
        lemma_budget_len(rows.drop_last());
    }
}

/// Builds the catalog of `rows`, which are sorted by corpus, canon, work,
/// source file and document. Each run of rows sharing a corpus becomes a
/// corpus node; within it each run sharing a canon a canon node; within
/// that each run sharing a work a work node with its record; within that
/// each run sharing a source file a division subtree (see
/// `build_div_subtree`). Corpus, canon and work nodes carry the totals of
/// their rows, and the passage counts of the corpus nodes add up to the
/// number of rows.
#[verifier::rlimit(50)]
pub fn build_catalog_from_passages(rows: &[CatalogRow], dt_fp: String) -> (c: CorpusCatalogIndex)
    requires
        node_budget(rows@) <= u32::MAX,
        cjk_total(rows@) <= u32::MAX,
    ensures
        c.schema@ == "readzen-corpus-catalog-v2"@,
        c.source_fingerprint is None,
        c.doc_table_fingerprint == Some(dt_fp),
        catalog_inv(c, rows@, rows@.len() as int),
        lineage_inv(c, rows@, rows@.len() as int),
        works_account(c.works@, rows@, rows@.len() as int),
        roots_hold_totals(c.nodes@, c.works@),
        groups_hold_totals(c.nodes@, rows@, -1, -1),
        works_partition(c.works@, rows@, rows@.len() as int),
        docs_in_ranges(c.nodes@, c.doc_parent@, rows@, rows@.len() as int),
        corpora_passages(c.nodes@) == rows@.len(),
{
    proof {
        lemma_budget_len(rows@);
        lemma_cjk_whole(rows@);
    }
    let mut catalog = CorpusCatalogIndex::new();
    catalog.doc_table_fingerprint = Some(dt_fp);
    proof {
        lemma_inv_empty(catalog, rows@);
        lemma_lineage_empty(catalog, rows@);
        lemma_account_start(rows@);
        assert(catalog.works@ =~= Seq::<WorkRecord>::empty());
        lemma_budget_grows(rows@, 0, 0);
        reveal(roots_hold_totals);
        reveal(groups_hold_totals);
        lemma_partition_start(rows@);
        reveal(docs_in_ranges);
    }
    let mut idx: usize = 0;
    while idx < rows.len()
        invariant
            idx <= rows@.len(),
            node_budget(rows@) <= u32::MAX,
            rows@.len() <= u32::MAX,
            cjk_total(rows@) <= u32::MAX,
            catalog_inv(catalog, rows@, idx as int),
            lineage_inv(catalog, rows@, idx as int),
            works_account(catalog.works@, rows@, idx as int),
            catalog.nodes@.len() <= node_budget(rows@.take(idx as int)),
            catalog.schema@ == "readzen-corpus-catalog-v2"@,
            catalog.source_fingerprint is None,
            catalog.doc_table_fingerprint == Some(dt_fp),
            roots_hold_totals(catalog.nodes@, catalog.works@),
            groups_hold_totals(catalog.nodes@, rows@, -1, -1),
            works_partition(catalog.works@, rows@, idx as int),
            docs_in_ranges(catalog.nodes@, catalog.doc_parent@, rows@, idx as int),
            corpus_passages(catalog.nodes@, -1) == idx,
            0 < idx < rows@.len() ==> rows@[idx - 1].source_corpus@ != rows@[idx as int].source_corpus@,
        decreases rows@.len() - idx,
    {
        let ghost c0 = catalog;
        let corpus_end = count_run(rows, idx, rows.len(), RowKey::Corpus);
        proof {
            lemma_cjk_whole(rows@);
            lemma_inv_parts(c0, rows@, idx as int);
            lemma_budget_step(rows@, idx as int);
            lemma_budget_grows(rows@, idx as int + 1, rows@.len() as int);
            lemma_budget_grows(rows@, idx as int, idx as int + 1);
            lemma_cjk_total_grows(rows@, 0, idx as int);
            lemma_cjk_total_grows(rows@, idx as int, corpus_end as int);
            lemma_cjk_total_grows(rows@, corpus_end as int, rows@.len() as int);
            lemma_cjk_split(rows@, idx as int, corpus_end as int);
            lemma_cjk_total_nonneg(rows@.subrange(idx as int, corpus_end as int));
            assert(rows@.take(0) =~= Seq::<CatalogRow>::empty());
        }
        let corpus_node = catalog.push_node(
            OutlineNode::leaf(
                OutlineNodeKind::Corpus,
                None,
                rows[idx].source_corpus.clone(),
                rows[idx].source_corpus.clone(),
                String::new(),
                String::new(),
            ),
        );
        let ghost c1 = catalog;
        proof {
            let n = c1.nodes@[corpus_node as int];
            assert(c1.nodes@ == c0.nodes@.push(n));
            lemma_push_root(c0.nodes@, n, c1.nodes@);
            lemma_counts_grow(c0.nodes@, c1.nodes@, idx as int, cjk_total(rows@.take(idx as int)));
            lemma_grows_keeps(c0.nodes@, c1.nodes@);
            lemma_doc_parent_keep(c0.nodes@, c1.nodes@, c1.doc_parent@);
            lemma_works_keep(c0.nodes@, c1.nodes@, c1.works@);
            lemma_inv_from_parts(c1, rows@, idx as int);
            lemma_keeps_refl(c1.nodes@);
            lemma_lineage_root(c0.nodes@, n, c1.nodes@);
            lemma_docs_keep(c0.nodes@, c1.nodes@, c0.doc_parent@, rows@, idx as int);
            lemma_roots_grow(c0.nodes@, c1.nodes@, c1.works@);
            lemma_groups_reopen(c0.nodes@, rows@, -1, -1, corpus_node as int, -1);
            lemma_groups_grow(c0.nodes@, c1.nodes@, rows@, corpus_node as int, -1);
            lemma_grows_still(c0.nodes@, c1.nodes@);
            lemma_docs_in_ranges_keep(c0.nodes@, c1.nodes@, c0.doc_parent@, rows@, idx as int, idx as int);
            assert(c1.nodes@.drop_last() =~= c0.nodes@);
            lemma_skip_outside(c0.nodes@, corpus_node as int);
        }
        let mut j = idx;
        while j < corpus_end
            invariant
                idx <= j <= corpus_end <= rows@.len(),
                node_budget(rows@) <= u32::MAX,
                rows@.len() <= u32::MAX,
                cjk_total(rows@) <= u32::MAX,
                catalog_inv(catalog, rows@, j as int),
                works_account(catalog.works@, rows@, j as int),
                keeps(c1.nodes@, catalog.nodes@),
                corpus_node < catalog.nodes@.len(),
                catalog.nodes@[corpus_node as int].node_kind == OutlineNodeKind::Corpus,
                catalog.nodes@[corpus_node as int].source_corpus@ == rows@[idx as int].source_corpus@,
                lineage_inv(catalog, rows@, j as int),
                is_run_end(rows@, idx as int, rows@.len() as int, RowKey::Corpus, corpus_end as int),
                catalog.nodes@.len() <= node_budget(rows@.take(j as int)) + 1,
                j > idx ==> catalog.nodes@.len() <= node_budget(rows@.take(j as int)),
                catalog.schema@ == "readzen-corpus-catalog-v2"@,
                catalog.source_fingerprint is None,
                catalog.doc_table_fingerprint == Some(dt_fp),
                roots_hold_totals(catalog.nodes@, catalog.works@),
                groups_hold_totals(catalog.nodes@, rows@, corpus_node as int, -1),
                works_partition(catalog.works@, rows@, j as int),
                docs_in_ranges(catalog.nodes@, catalog.doc_parent@, rows@, j as int),
                corpus_passages(catalog.nodes@, corpus_node as int) == idx,
                0 < idx < rows@.len() ==> rows@[idx - 1].source_corpus@ != rows@[idx as int].source_corpus@,
                0 < j < corpus_end ==> rows@[j - 1].source_corpus@ != rows@[j as int].source_corpus@
                    || rows@[j - 1].canon@ != rows@[j as int].canon@,
            decreases corpus_end - j,
        {
            let ghost before = catalog.nodes@;
            proof {
                assert forall|t: int| j <= t < corpus_end implies (#[trigger] rows@[t]).source_corpus@
                    == rows@[j as int].source_corpus@ by {
                    assert(key_of(rows@[t], RowKey::Corpus) == key_of(rows@[idx as int], RowKey::Corpus));
                    assert(key_of(rows@[j as int], RowKey::Corpus) == key_of(rows@[idx as int], RowKey::Corpus));
                }
                assert(key_of(rows@[j as int], RowKey::Corpus) == key_of(rows@[idx as int], RowKey::Corpus));
            }
            proof {
                assert(key_of(rows@[idx as int], RowKey::Corpus) == key_of(rows@[j as int], RowKey::Corpus));
            }
            let canon_end = build_canon_group(&mut catalog, rows, j, corpus_end, corpus_node);
            proof {
                lemma_kept_sum(before, catalog.nodes@, corpus_node as int);
                lemma_keeps_trans(c1.nodes@, before, catalog.nodes@);
                lemma_keeps_facts(before, catalog.nodes@, corpus_node as int);
                if canon_end < corpus_end {
                    assert(key_of(rows@[canon_end - 1], RowKey::Canon) == key_of(rows@[j as int], RowKey::Canon));
                    assert(key_of(rows@[canon_end as int], RowKey::Canon) != key_of(rows@[j as int], RowKey::Canon));
                }
            }
            j = canon_end;
        }
        let (first, last, p_count, c_count) = aggregate_work(rows, idx, corpus_end);
        let ghost c2 = catalog;
        catalog.set_totals(corpus_node, first, last, p_count, c_count);
        proof {
            let c3 = catalog;
            lemma_inv_parts(c2, rows@, corpus_end as int);
            lemma_shape_counts(c2.nodes@, c3.nodes@);
            lemma_doc_parent_keep(c2.nodes@, c3.nodes@, c3.doc_parent@);
            lemma_works_keep(c2.nodes@, c3.nodes@, c3.works@);
            lemma_counts_set(c2.nodes@, c3.nodes@, corpus_node as int, corpus_end as int, cjk_total(rows@.take(corpus_end as int)));
            lemma_inv_from_parts(c3, rows@, corpus_end as int);
            lemma_shape_keeps(c2.nodes@, c3.nodes@);
            lemma_lineage_keep(c2.nodes@, c3.nodes@);
            lemma_docs_keep(c2.nodes@, c3.nodes@, c2.doc_parent@, rows@, corpus_end as int);
            lemma_roots_set(c2.nodes@, c3.nodes@, c2.works@, corpus_node as int);
            lemma_groups_untouched(c2.nodes@, c3.nodes@, rows@, corpus_node as int, -1);
            lemma_set_still(c2.nodes@, c3.nodes@, corpus_node as int);
            lemma_docs_in_ranges_keep(c2.nodes@, c3.nodes@, c2.doc_parent@, rows@, corpus_end as int, corpus_end as int);
            lemma_sum_set(c2.nodes@, c3.nodes@, corpus_node as int);
            assert(rows@.subrange(idx as int, corpus_end as int).len() == corpus_end - idx);
            assert forall|t: int| idx <= t < corpus_end implies (#[trigger] rows@[t]).source_corpus@
                == rows@[idx as int].source_corpus@ by {
                assert(key_of(rows@[t], RowKey::Corpus) == key_of(rows@[idx as int], RowKey::Corpus));
            }
            assert(corpus_end < rows@.len() ==> rows@[corpus_end as int].source_corpus@ != rows@[idx as int].source_corpus@) by {
                if corpus_end < rows@.len() {
                    assert(key_of(rows@[corpus_end as int], RowKey::Corpus) != key_of(rows@[idx as int], RowKey::Corpus));
                }
            }
            assert(corpus_run(rows@, idx as int, corpus_end as int, c3.nodes@[corpus_node as int].source_corpus@)
                && holds_rows(c3.nodes@[corpus_node as int], rows@, idx as int, corpus_end as int));
            lemma_groups_reopen(c3.nodes@, rows@, corpus_node as int, -1, -1, -1);
            assert(key_of(rows@[corpus_end - 1], RowKey::Corpus) == key_of(rows@[idx as int], RowKey::Corpus));
        }
        idx = corpus_end;
    }
    catalog
}

// ---------------------------------------------------------------------------
// Reading a passage row
// ---------------------------------------------------------------------------

/// The ideographs the catalog counts: CJK unified ideographs with
/// extensions A and B, and compatibility ideographs.
pub open spec fn is_catalog_cjk(ch: char) -> bool {
    ('\u{3400}' <= ch && ch <= '\u{4dbf}') || ('\u{4e00}' <= ch && ch <= '\u{9fff}') || ('\u{f900}'
        <= ch && ch <= '\u{faff}') || ('\u{20000}' <= ch && ch <= '\u{2a6df}')
}

/// How many characters of `s` the catalog counts as ideographs.
pub open spec fn catalog_cjk_count(s: Seq<char>) -> nat
    decreases s.len(),
{
    if s.len() == 0 {
        0
    } else {
        catalog_cjk_count(s.drop_last()) + if is_catalog_cjk(s.last()) {
            1nat
        } else {
            0nat
        }
    }
}

proof fn lemma_catalog_cjk_count_bound(s: Seq<char>)
    ensures
        catalog_cjk_count(s) <= s.len(),
    decreases s.len(),
{
    if s.len() > 0 {
        lemma_catalog_cjk_count_bound(s.drop_last());
    }
}

/// The number of ideographs in `text`.
pub fn count_cjk(text: &str) -> (n: u32)
    requires
        text@.len() <= u32::MAX,
    ensures
        n == catalog_cjk_count(text@),
{
    let cs = chars_of(text);
    let mut n: u32 = 0;
    let mut i: usize = 0;
    while i < cs.len()
        invariant
            i <= cs@.len(),
            cs@ == text@,
            cs@.len() <= u32::MAX,
            n == catalog_cjk_count(cs@.take(i as int)),
        decreases cs.len() - i,
    {
        proof {
            assert(cs@.take(i + 1).drop_last() =~= cs@.take(i as int));
            lemma_catalog_cjk_count_bound(cs@.take(i + 1));
        }
        let ch = cs[i];
        if ('\u{3400}' <= ch && ch <= '\u{4dbf}') || ('\u{4e00}' <= ch && ch <= '\u{9fff}') || ('\u{f900}'
            <= ch && ch <= '\u{faff}') || ('\u{20000}' <= ch && ch <= '\u{2a6df}') {
            n = n + 1;
        }
        i += 1;
    }
    proof {
        assert(cs@.take(i as int) =~= cs@);
    }
    n
}

/// The pieces of `ps` that are not blank, trimmed.
pub open spec fn solid_trimmed(ps: Seq<Seq<char>>) -> Seq<Seq<char>>
    decreases ps.len(),
{
    if ps.len() == 0 {
        Seq::empty()
    } else if trim(ps.last()).len() == 0 {
        solid_trimmed(ps.drop_last())
    } else {
        solid_trimmed(ps.drop_last()).push(trim(ps.last()))
    }
}

/// The traditions of a comma-separated list: each item trimmed, blank
/// items left out.
pub fn parse_traditions(s: &str) -> (out: Vec<String>)
    ensures
        strs(out@) == solid_trimmed(split_by(s@, seq![','])),
{
    let cs = chars_of(s);
    let seps = vec![','];
    let parts = split_chars(cs.as_slice(), seps.as_slice());
    proof {
        assert(seps@ =~= seq![',']);
    }
    let ghost ps = views(parts@);
    let mut out: Vec<String> = Vec::new();
    let mut k: usize = 0;
    while k < parts.len()
        invariant
            k <= parts@.len(),
            ps == views(parts@),
            strs(out@) == solid_trimmed(ps.take(k as int)),
        decreases parts.len() - k,
    {
        proof {
            assert(ps.take(k + 1).drop_last() =~= ps.take(k as int));
            assert(ps[k as int] == parts@[k as int]@);
        }
        let t = trimmed(parts[k].as_slice());
        if t.len() > 0 {
            let ghost before = out@;
            out.push(string_from(t.as_slice()));
            proof {
                assert(strs(out@) =~= strs(before).push(t@));
            }
        }
        k += 1;
    }
    proof {
        assert(ps.take(k as int) =~= ps);
    }
    out
}

/// The catalog row of one passage record, from its column values: a
/// missing period rank counts as 0 and a missing line marker as blank; the
/// ideographs are counted in the normalized Chinese text and the
/// traditions parsed from their comma-separated list.
pub fn catalog_row(
    doc_id: u32,
    zh_text: &str,
    source_corpus: &str,
    canon: &str,
    canon_name: &str,
    source_work_id: &str,
    source_rel_path: &str,
    div_path: &str,
    heading: &str,
    main_title: &str,
    author: &str,
    period: &str,
    period_rank: Option<i32>,
    origin: &str,
    traditions: &str,
    from_lb: Option<&str>,
    to_lb: Option<&str>,
) -> (r: CatalogRow)
    requires
        zh_text@.len() <= u32::MAX,
    ensures
        r.doc_id == doc_id,
        r.source_corpus@ == source_corpus@,
        r.canon@ == canon@,
        r.canon_name@ == canon_name@,
        r.source_work_id@ == source_work_id@,
        r.source_rel_path@ == source_rel_path@,
        r.div_path@ == div_path@,
        r.heading@ == heading@,
        r.main_title@ == main_title@,
        r.author@ == author@,
        r.period@ == period@,
        r.period_rank == match period_rank {
            Some(p) => p,
            None => 0i32,
        },
        r.origin@ == origin@,
        strs(r.traditions@) == solid_trimmed(split_by(traditions@, seq![','])),
        r.cjk_char_count == catalog_cjk_count(zh_text@),
        r.from_lb@ == match from_lb {
            Some(l) => l@,
            None => Seq::<char>::empty(),
        },
        r.to_lb@ == match to_lb {
            Some(l) => l@,
            None => Seq::<char>::empty(),
        },
{
    CatalogRow {
        doc_id,
        source_corpus: source_corpus.to_owned(),
        canon: canon.to_owned(),
        canon_name: canon_name.to_owned(),
        source_work_id: source_work_id.to_owned(),
        source_rel_path: source_rel_path.to_owned(),
        div_path: div_path.to_owned(),
        heading: heading.to_owned(),
        main_title: main_title.to_owned(),
        author: author.to_owned(),
        period: period.to_owned(),
        period_rank: match period_rank {
            Some(p) => p,
            None => 0,
        },
        origin: origin.to_owned(),
        traditions: parse_traditions(traditions),
        cjk_char_count: count_cjk(zh_text),
        from_lb: match from_lb {
            Some(l) => l.to_owned(),
            None => String::new(),
        },
        to_lb: match to_lb {
            Some(l) => l.to_owned(),
            None => String::new(),
        },
    }
}

// ---------------------------------------------------------------------------
// What the catalog promises
// ---------------------------------------------------------------------------

/// In a catalog built from `rows`, every passage's document points at a
/// passage-range node, and that node hangs under the division node whose
/// path is the range's division path normalized.
pub proof fn every_passage_has_a_range(c: CorpusCatalogIndex, rows: Seq<CatalogRow>, j: int)
    requires
        catalog_inv(c, rows, rows.len() as int),
        0 <= j < rows.len(),
    ensures
        c.doc_parent@.contains_key(rows[j].doc_id),
        c.doc_parent@[rows[j].doc_id] < c.nodes@.len(),
        c.nodes@[c.doc_parent@[rows[j].doc_id] as int].node_kind == OutlineNodeKind::PassageRange,
        ({
            let r = c.nodes@[c.doc_parent@[rows[j].doc_id] as int];
            &&& r.parent_id is Some
            &&& r.parent_id.unwrap() < c.nodes@.len()
            &&& c.nodes@[r.parent_id.unwrap() as int].div_path@ == normal_div_path(r.div_path@)
        }),
{
    lemma_inv_parts(c, rows, rows.len() as int);
    reveal(doc_parent_ok);
    reveal(ranges_ok);
    let r = c.doc_parent@[rows[j].doc_id] as int;
    assert(c.nodes@[r].node_kind == OutlineNodeKind::PassageRange);
}

/// In a catalog built from `rows` whose document ids are all different,
/// each passage's document points at a passage range of the passage's own
/// corpus, work, source file and division path.
pub proof fn each_passage_points_at_its_range(c: CorpusCatalogIndex, rows: Seq<CatalogRow>, j: int)
    requires
        catalog_inv(c, rows, rows.len() as int),
        lineage_inv(c, rows, rows.len() as int),
        forall|a: int, b: int| 0 <= a < b < rows.len() ==> rows[a].doc_id != rows[b].doc_id,
        0 <= j < rows.len(),
    ensures
        c.doc_parent@.contains_key(rows[j].doc_id),
        c.doc_parent@[rows[j].doc_id] < c.nodes@.len(),
        c.nodes@[c.doc_parent@[rows[j].doc_id] as int].node_kind == OutlineNodeKind::PassageRange,
        range_matches(c.nodes@[c.doc_parent@[rows[j].doc_id] as int], rows[j]),
{
    lemma_inv_parts(c, rows, rows.len() as int);
    reveal(doc_parent_ok);
    reveal(docs_match);
    let d = rows[j].doc_id;
    assert(c.doc_parent@.contains_key(d));
    let k = choose|k: int| 0 <= k < rows.len() && rows[k].doc_id == d && range_matches(
        c.nodes@[c.doc_parent@[d] as int],
        #[trigger] rows[k],
    );
    if k != j {
        if k < j {
            assert(rows[k].doc_id != rows[j].doc_id);
        } else {
            assert(rows[j].doc_id != rows[k].doc_id);
        }
    }
}

/// In a catalog built from `rows`, every node carries its parent's corpus,
/// every division and passage range its parent's work, and every node
/// under a division its parent's source file.
pub proof fn nodes_inherit_from_their_parents(c: CorpusCatalogIndex, rows: Seq<CatalogRow>, i: int)
    requires
        lineage_inv(c, rows, rows.len() as int),
        0 <= i < c.nodes@.len(),
        c.nodes@[i].parent_id is Some,
    ensures
        inherits(c.nodes@, i),
{
    reveal(lineage_ok);
}

/// In a catalog built from `rows`, every node other than a corpus root
/// hangs under an earlier node of the kind above it, which lists it among
/// its children: canons under corpora, works under canons, divisions under
/// works or divisions, passage ranges under divisions.
pub proof fn catalog_is_a_tree(c: CorpusCatalogIndex, rows: Seq<CatalogRow>, i: int)
    requires
        catalog_inv(c, rows, rows.len() as int),
        0 <= i < c.nodes@.len(),
    ensures
        c.nodes@[i].node_id == i,
        c.nodes@[i].parent_id is None ==> c.nodes@[i].node_kind == OutlineNodeKind::Corpus,
        c.nodes@[i].parent_id matches Some(p) ==> p < i && fits_under(
            c.nodes@[i].node_kind,
            c.nodes@[p as int].node_kind,
        ) && c.nodes@[p as int].children@.contains(i as u32),
{
    lemma_inv_parts(c, rows, rows.len() as int);
    reveal(tree_ok);
    assert(node_ok(c.nodes@, i));
}

/// In a catalog built from `rows`, the work records' passages and
/// ideographs add up to those of all the rows, every row's work has a
/// record that lists the row's source file, and each record's source files
/// are sorted without repeats.
pub proof fn works_account_for_every_passage(c: CorpusCatalogIndex, rows: Seq<CatalogRow>, j: int)
    requires
        works_account(c.works@, rows, rows.len() as int),
        0 <= j < rows.len(),
    ensures
        works_passages(c.works@) == rows.len(),
        works_cjk(c.works@) == cjk_total(rows),
        exists|w: int|
            0 <= w < c.works@.len() && (#[trigger] c.works@[w]).work_id@ == rows[j].source_work_id@ && (
            rows[j].source_rel_path@.len() > 0 ==> strs(c.works@[w].source_rel_paths@).contains(
                rows[j].source_rel_path@,
            )),
        forall|w: int| 0 <= w < c.works@.len() ==> strictly_sorted(strs((#[trigger] c.works@[w]).source_rel_paths@)),
{
    reveal(works_account);
    assert(rows.take(rows.len() as int) =~= rows);
    assert(row_recorded(c.works@, rows[j]));
    assert forall|w: int| 0 <= w < c.works@.len() implies strictly_sorted(strs((#[trigger] c.works@[w]).source_rel_paths@)) by {
        assert(record_ok(c.works@[w], rows));
    }
}

/// In a catalog built from `rows`, each work record's root is a work node
/// of the record's work that carries the record's passage and ideograph
/// counts.
pub proof fn work_roots_hold_their_totals(c: CorpusCatalogIndex, rows: Seq<CatalogRow>, w: int)
    requires
        catalog_inv(c, rows, rows.len() as int),
        roots_hold_totals(c.nodes@, c.works@),
        0 <= w < c.works@.len(),
    ensures
        c.works@[w].root_node < c.nodes@.len(),
        c.nodes@[c.works@[w].root_node as int].node_kind == OutlineNodeKind::Work,
        c.nodes@[c.works@[w].root_node as int].work_id@ == c.works@[w].work_id@,
        c.nodes@[c.works@[w].root_node as int].passage_count == c.works@[w].passage_count,
        c.nodes@[c.works@[w].root_node as int].cjk_char_count == c.works@[w].cjk_char_count,
{
    lemma_inv_parts(c, rows, rows.len() as int);
    reveal(works_ok);
    reveal(roots_hold_totals);
}

/// In a catalog built from `rows`, each corpus node carries the document
/// range and counts of a whole run of rows of its corpus, and each canon
/// node those of a whole run of rows of its corpus and one canon.
pub proof fn corpora_and_canons_hold_their_runs(c: CorpusCatalogIndex, rows: Seq<CatalogRow>, i: int)
    requires
        groups_hold_totals(c.nodes@, rows, -1, -1),
        0 <= i < c.nodes@.len(),
    ensures
        c.nodes@[i].node_kind == OutlineNodeKind::Corpus ==> exists|lo: int, hi: int|
            #[trigger] corpus_run(rows, lo, hi, c.nodes@[i].source_corpus@) && holds_rows(c.nodes@[i], rows, lo, hi),
        c.nodes@[i].node_kind == OutlineNodeKind::Canon ==> exists|lo: int, hi: int|
            #[trigger] canon_run(rows, lo, hi, c.nodes@[i].source_corpus@) && holds_rows(c.nodes@[i], rows, lo, hi),
{
    reveal(groups_hold_totals);
    assert(group_holds(c.nodes@[i], rows));
}

/// Within each source file the rows' document ids ascend.
pub open spec fn docs_ascend_in_files(rows: Seq<CatalogRow>) -> bool {
    forall|a: int, b: int|
        0 <= a < b < rows.len() && fields_of(#[trigger] rows[a]) == fields_of(#[trigger] rows[b]) ==> rows[a].doc_id
            <= rows[b].doc_id
}

/// In a catalog built from `rows`, every passage's document points at a
/// passage range whose documents run from the first to the last row of a
/// run of rows of one file and division path holding a row of that
/// document; so, where document ids ascend within each file, the range's
/// first and last document ids enclose the passage's.
proof fn lemma_span_encloses(rows: Seq<CatalogRow>, lo: int, k: int, hi: int)
    requires
        range_run(rows, lo, hi),
        docs_ascend_in_files(rows),
        lo <= k < hi,
    ensures
        rows[lo].doc_id <= rows[k].doc_id <= rows[hi - 1].doc_id,
{
    assert(fields_of(rows[k]) == fields_of(rows[lo]));
    assert(fields_of(rows[hi - 1]) == fields_of(rows[lo]));
    if lo < k {
        assert(rows[lo].doc_id <= rows[k].doc_id);
    }
    if k < hi - 1 {
        assert(rows[k].doc_id <= rows[hi - 1].doc_id);
    }
}

proof fn lemma_doc_in_range(ns: Seq<OutlineNode>, m: Map<u32, u32>, rows: Seq<CatalogRow>, d: u32)
    requires
        docs_in_ranges(ns, m, rows, rows.len() as int),
        docs_ascend_in_files(rows),
        m.contains_key(d),
    ensures
        ns[m[d] as int].first_doc_id matches Some(f) && f <= d,
        ns[m[d] as int].last_doc_id matches Some(l) && d <= l,
{
    reveal(docs_in_ranges);
    let (lo, k, hi) = choose|lo: int, k: int, hi: int|
        #![trigger rows[lo], rows[k], rows[hi - 1]]
        lo <= k < hi && 0 <= k < rows.len() && rows[k].doc_id == d && range_run(rows, lo, hi) && spans_rows(
            ns[m[d] as int],
            rows,
            lo,
            hi,
        );
    lemma_span_encloses(rows, lo, k, hi);
}

/// In a catalog built from `rows`, every passage's document points at a
/// passage range whose documents run from the first to the last row of a
/// run of rows of one file and division path holding a row of that
/// document; so, where document ids ascend within each file, the range's
/// first and last document ids enclose the passage's.
pub proof fn each_passage_lies_in_its_range(c: CorpusCatalogIndex, rows: Seq<CatalogRow>, j: int)
    requires
        catalog_inv(c, rows, rows.len() as int),
        docs_in_ranges(c.nodes@, c.doc_parent@, rows, rows.len() as int),
        docs_ascend_in_files(rows),
        0 <= j < rows.len(),
    ensures
        c.doc_parent@.contains_key(rows[j].doc_id),
        c.doc_parent@[rows[j].doc_id] < c.nodes@.len(),
        c.nodes@[c.doc_parent@[rows[j].doc_id] as int].node_kind == OutlineNodeKind::PassageRange,
        c.nodes@[c.doc_parent@[rows[j].doc_id] as int].first_doc_id matches Some(f) && f <= rows[j].doc_id,
        c.nodes@[c.doc_parent@[rows[j].doc_id] as int].last_doc_id matches Some(l) && rows[j].doc_id <= l,
{
    every_passage_has_a_range(c, rows, j);
    lemma_doc_in_range(c.nodes@, c.doc_parent@, rows, rows[j].doc_id);
}

/// A work's rows are together and of one corpus and canon: rows that share
/// a work id are of one work, and every row between two of them shares it.
pub open spec fn works_together(rows: Seq<CatalogRow>) -> bool {
    &&& forall|a: int, b: int|
        0 <= a < rows.len() && 0 <= b < rows.len() && (#[trigger] rows[a]).source_work_id@
            == (#[trigger] rows[b]).source_work_id@ ==> same_work(rows[a], rows[b])
    &&& forall|a: int, m: int, b: int|
        0 <= a < m < b < rows.len() && (#[trigger] rows[a]).source_work_id@ == (#[trigger] rows[b]).source_work_id@
            ==> (#[trigger] rows[m]).source_work_id@ == rows[a].source_work_id@
}

/// How many of `rows` are of work `id`.
pub open spec fn rows_of_work(rows: Seq<CatalogRow>, id: Seq<char>) -> int
    decreases rows.len(),
{
    if rows.len() == 0 {
        0
    } else {
        rows_of_work(rows.drop_last(), id) + if rows.last().source_work_id@ == id {
            1int
        } else {
            0int
        }
    }
}

/// The work ids of the records `ws`.
pub open spec fn record_ids(ws: Seq<WorkRecord>) -> Seq<Seq<char>> {
    ws.map_values(|w: WorkRecord| w.work_id@)
}

/// The work ids of `rows`.
pub open spec fn row_ids(rows: Seq<CatalogRow>) -> Set<Seq<char>> {
    Set::new(|x: Seq<char>| exists|t: int| 0 <= t < rows.len() && (#[trigger] rows[t]).source_work_id@ == x)
}

proof fn lemma_bounds_grow(ws: Seq<WorkRecord>, rows: Seq<CatalogRow>, done: int, b: Seq<int>, v: int, w: int)
    requires
        partition_at(ws, rows, done, b),
        0 <= v <= w <= ws.len(),
    ensures
        b[v] <= b[w],
        v < w ==> b[v] < b[w],
    decreases w - v,
{
    if v < w {
        assert(entry_ok(ws, rows, b, v));
        lemma_bounds_grow(ws, rows, done, b, v + 1, w);
    }
}

proof fn lemma_run_of_row(ws: Seq<WorkRecord>, rows: Seq<CatalogRow>, done: int, b: Seq<int>, w: int, t: int) -> (k: int)
    requires
        partition_at(ws, rows, done, b),
        0 <= w < ws.len(),
        b[w] <= t < done,
    ensures
        w <= k < ws.len(),
        b[k] <= t < b[k + 1],
    decreases ws.len() - w,
{
    if t < b[w + 1] {
        w
    } else {
        if w + 1 == ws.len() {
            assert(false);
        }
        lemma_run_of_row(ws, rows, done, b, w + 1, t)
    }
}

/// When exactly rows `lo..hi` are of work `id`, `rows.take(n)` has
/// `min(n, hi) - lo` of them (none before `lo`).
proof fn lemma_rows_of_work_prefix(rows: Seq<CatalogRow>, id: Seq<char>, lo: int, hi: int, n: int)
    requires
        0 <= lo <= hi <= rows.len(),
        0 <= n <= rows.len(),
        forall|t: int| 0 <= t < rows.len() ==> ((#[trigger] rows[t]).source_work_id@ == id <==> lo <= t < hi),
    ensures
        rows_of_work(rows.take(n), id) == if n <= lo {
            0
        } else if n <= hi {
            n - lo
        } else {
            hi - lo
        },
    decreases n,
{
    if n > 0 {
        assert(rows.take(n).drop_last() =~= rows.take(n - 1));
        assert(rows.take(n).last() == rows[n - 1]);
        lemma_rows_of_work_prefix(rows, id, lo, hi, n - 1);
    }
}

/// In a catalog built from `rows`, the work records are, one for each and
/// in order, those of the whole runs of rows of one work (one corpus,
/// canon and work id) that make up the rows: each carries its run's work
/// id, the number of its rows and their ideographs.
pub proof fn records_follow_the_runs(c: CorpusCatalogIndex, rows: Seq<CatalogRow>)
    requires
        works_partition(c.works@, rows, rows.len() as int),
    ensures
        exists|b: Seq<int>| #[trigger] partition_at(c.works@, rows, rows.len() as int, b),
{
    reveal(works_partition);
}

/// In a catalog built from `rows` in which each work's rows are together
/// and of one corpus and canon, each work has one record, whose passage
/// count is the number of the work's rows.
pub proof fn one_record_per_work(c: CorpusCatalogIndex, rows: Seq<CatalogRow>)
    requires
        works_partition(c.works@, rows, rows.len() as int),
        works_together(rows),
    ensures
        record_ids(c.works@).no_duplicates(),
        record_ids(c.works@).to_set() == row_ids(rows),
        c.works@.len() == row_ids(rows).len(),
        forall|w: int| 0 <= w < c.works@.len() ==> (#[trigger] c.works@[w]).passage_count == rows_of_work(rows, c.works@[w].work_id@),
{
    reveal(works_partition);
    let ws = c.works@;
    let n = rows.len() as int;
    let b = choose|b: Seq<int>| #[trigger] partition_at(ws, rows, n, b);
    let ids = record_ids(ws);
    // The rows of a record's work are exactly those of its run.
    assert forall|w: int, t: int| 0 <= w < ws.len() && 0 <= t < n implies ((#[trigger] rows[t]).source_work_id@
        == (#[trigger] ws[w]).work_id@ <==> b[w] <= t < b[w + 1]) by {
        assert(entry_ok(ws, rows, b, w));
        let lo = b[w];
        let hi = b[w + 1];
        if b[w] <= t < b[w + 1] {
            assert(same_work(rows[t], rows[lo]));
        } else if rows[t].source_work_id@ == ws[w].work_id@ {
            if t >= hi {
                if t > hi {
                    assert(rows[hi].source_work_id@ == rows[lo].source_work_id@);
                }
                assert(same_work(rows[hi], rows[lo]));
            } else {
                if t < lo - 1 {
                    assert(rows[lo - 1].source_work_id@ == rows[t].source_work_id@);
                }
                assert(same_work(rows[lo - 1], rows[lo]));
            }
        }
    }
    assert forall|w: int| 0 <= w < ws.len() implies (#[trigger] ws[w]).passage_count == rows_of_work(
        rows,
        ws[w].work_id@,
    ) by {
        assert(entry_ok(ws, rows, b, w));
        lemma_bounds_grow(ws, rows, n, b, w + 1, ws.len() as int);
        assert forall|t: int| 0 <= t < rows.len() implies ((#[trigger] rows[t]).source_work_id@ == ws[w].work_id@
            <==> b[w] <= t < b[w + 1]) by {
            assert(rows[t].source_work_id@ == ws[w].work_id@ <==> b[w] <= t < b[w + 1]);
        }
        lemma_rows_of_work_prefix(rows, ws[w].work_id@, b[w], b[w + 1], n);
        assert(rows.take(n) =~= rows);
    }
    assert forall|v: int, w: int| 0 <= v < w < ids.len() implies ids[v] != ids[w] by {
        assert(entry_ok(ws, rows, b, w));
        lemma_bounds_grow(ws, rows, n, b, v + 1, w);
        lemma_bounds_grow(ws, rows, n, b, w + 1, ws.len() as int);
        let t = b[w];
        assert(rows[t].source_work_id@ == ws[w].work_id@);
        assert(!(b[v] <= t < b[v + 1]));
        assert(rows[t].source_work_id@ != ws[v].work_id@);
    }
    assert(ids.no_duplicates());
    assert forall|x: Seq<char>| ids.to_set().contains(x) <==> row_ids(rows).contains(x) by {
        if ids.to_set().contains(x) {
            let w = choose|w: int| 0 <= w < ids.len() && ids[w] == x;
            assert(entry_ok(ws, rows, b, w));
            lemma_bounds_grow(ws, rows, n, b, w + 1, ws.len() as int);
            assert(rows[b[w]].source_work_id@ == x);
        }
        if row_ids(rows).contains(x) {
            let t = choose|t: int| 0 <= t < rows.len() && (#[trigger] rows[t]).source_work_id@ == x;
            let w = lemma_run_of_row(ws, rows, n, b, 0, t);
            assert(entry_ok(ws, rows, b, w));
            assert(ids[w] == x);
        }
    }
    assert(ids.to_set() =~= row_ids(rows));
    ids.unique_seq_to_set();
}

// ---------------------------------------------------------------------------
// Listing works
// ---------------------------------------------------------------------------

/// Does work `w` pass the filters: one of its traditions is `tradition`,
/// its period is `period`, its canon `canon` and its author `author`, each
/// where given?
pub open spec fn work_kept(
    w: WorkRecord,
    tradition: Option<Seq<char>>,
    period: Option<Seq<char>>,
    canon: Option<Seq<char>>,
    author: Option<Seq<char>>,
) -> bool {
    &&& (tradition matches Some(t) ==> strs(w.traditions@).contains(t))
    &&& (period matches Some(p) ==> w.period@ == p)
    &&& (canon matches Some(c) ==> w.canon@ == c)
    &&& (author matches Some(a) ==> w.author@ == a)
}

/// The works of `ws` that pass the filters, in order.
pub open spec fn kept_works(
    ws: Seq<WorkRecord>,
    tradition: Option<Seq<char>>,
    period: Option<Seq<char>>,
    canon: Option<Seq<char>>,
    author: Option<Seq<char>>,
) -> Seq<WorkRecord>
    decreases ws.len(),
{
    if ws.len() == 0 {
        Seq::empty()
    } else {
        let rest = kept_works(ws.drop_last(), tradition, period, canon, author);
        if work_kept(ws.last(), tradition, period, canon, author) {
            rest.push(ws.last())
        } else {
            rest
        }
    }
}

/// The first `n` of `s` (all of it when it is shorter).
pub open spec fn at_most(s: Seq<WorkRecord>, n: int) -> Seq<WorkRecord> {
    if s.len() <= n {
        s
    } else {
        s.take(n)
    }
}

/// Is `t` one of the names `v`?
fn has_name(v: &Vec<String>, t: &str) -> (r: bool)
    ensures
        r == strs(v@).contains(t@),
{
    let mut i: usize = 0;
    while i < v.len()
        invariant
            i <= v@.len(),
            forall|j: int| 0 <= j < i ==> v@[j]@ != t@,
        decreases v@.len() - i,
    {
        if crate::text::str_eq(v[i].as_str(), t) {
            proof {
                assert(strs(v@)[i as int] == t@);
            }
            return true;
        }
        i += 1;
    }
    proof {
        if strs(v@).contains(t@) {
            let j = choose|j: int| 0 <= j < strs(v@).len() && strs(v@)[j] == t@;
            assert(v@[j]@ == t@);
        }
    }
    false
}

impl CorpusCatalogIndex {
    /// The first `limit` works, in catalog order, that have the tradition,
    /// period, canon and author asked for (each filter only where given).
    pub fn filter_works(
        &self,
        tradition: Option<&str>,
        period: Option<&str>,
        canon: Option<&str>,
        author: Option<&str>,
        limit: usize,
    ) -> (r: Vec<&WorkRecord>)
        ensures
            r@.map_values(|w: &WorkRecord| *w) == at_most(
                kept_works(
                    self.works@,
                    match tradition { Some(t) => Some(t@), None => None },
                    match period { Some(p) => Some(p@), None => None },
                    match canon { Some(c) => Some(c@), None => None },
                    match author { Some(a) => Some(a@), None => None },
                ),
                limit as int,
            ),
    {
        let ghost ft = match tradition { Some(t) => Some(t@), None => None };
        let ghost fp = match period { Some(p) => Some(p@), None => None };
        let ghost fc = match canon { Some(c) => Some(c@), None => None };
        let ghost fa = match author { Some(a) => Some(a@), None => None };
        let mut out: Vec<&WorkRecord> = Vec::new();
        let mut i: usize = 0;
        while i < self.works.len()
            invariant
                i <= self.works@.len(),
                ft == match tradition { Some(t) => Some(t@), None => None::<Seq<char>> },
                fp == match period { Some(p) => Some(p@), None => None::<Seq<char>> },
                fc == match canon { Some(c) => Some(c@), None => None::<Seq<char>> },
                fa == match author { Some(a) => Some(a@), None => None::<Seq<char>> },
                out@.map_values(|w: &WorkRecord| *w) == at_most(
                    kept_works(self.works@.take(i as int), ft, fp, fc, fa),
                    limit as int,
                ),
            decreases self.works@.len() - i,
        {
            let w = &self.works[i];
            let keep_t = match tradition {
                Some(t) => has_name(&w.traditions, t),
                None => true,
            };
            let keep_p = match period {
                Some(p) => crate::text::str_eq(w.period.as_str(), p),
                None => true,
            };
            let keep_c = match canon {
                Some(c) => crate::text::str_eq(w.canon.as_str(), c),
                None => true,
            };
            let keep_a = match author {
                Some(a) => crate::text::str_eq(w.author.as_str(), a),
                None => true,
            };
            let ghost before = kept_works(self.works@.take(i as int), ft, fp, fc, fa);
            proof {
                assert(self.works@.take(i + 1).drop_last() =~= self.works@.take(i as int));
                assert(self.works@.take(i + 1).last() == self.works@[i as int]);
            }
            if keep_t && keep_p && keep_c && keep_a && out.len() < limit {
                let ghost prev = out@;
                proof {
                    assert(prev.map_values(|w: &WorkRecord| *w).len() == prev.len());
                    assert(before.len() <= limit);
                    assert(prev.map_values(|w: &WorkRecord| *w) == before);
                }
                out.push(w);
                proof {
                    assert(out@ == prev.push(w));
                    assert(out@.map_values(|w: &WorkRecord| *w) =~= prev.map_values(|w: &WorkRecord| *w).push(*w));
                    assert(at_most(before.push(self.works@[i as int]), limit as int) == before.push(self.works@[i as int]));
                }
            } else {
                proof {
                    if keep_t && keep_p && keep_c && keep_a {
                        assert(at_most(before.push(self.works@[i as int]), limit as int) =~= at_most(before, limit as int));
                    }
                }
            }
            i += 1;
        }
        proof {
            assert(self.works@.take(i as int) =~= self.works@);
        }
        out
    }
}

// ---------------------------------------------------------------------------
// Sections
// ---------------------------------------------------------------------------

/// The nodes below node `id`, in preorder, down to depth `max` (node `id`
/// itself is at `depth`, and is listed only when `depth > 0`); nothing for
/// a node that does not exist.
pub open spec fn sections_from(ns: Seq<OutlineNode>, id: u32, max: nat, depth: nat) -> Seq<u32>
    decreases max - depth, 0int,
{
    if id >= ns.len() {
        Seq::empty()
    } else {
        let own = if depth > 0 {
            seq![id]
        } else {
            Seq::empty()
        };
        if depth < max {
            own + sections_list(ns, ns[id as int].children@, max, depth + 1)
        } else {
            own
        }
    }
}

/// The sections of each node of `cs` at `depth`, one after the other.
pub open spec fn sections_list(ns: Seq<OutlineNode>, cs: Seq<u32>, max: nat, depth: nat) -> Seq<u32>
    decreases max - depth, cs.len() + 1,
{
    if cs.len() == 0 {
        Seq::empty()
    } else {
        sections_list(ns, cs.drop_last(), max, depth) + sections_from(ns, cs.last(), max, depth)
    }
}

/// The sections of the works of `ws`, one work after the other.
pub open spec fn works_sections(ns: Seq<OutlineNode>, ws: Seq<WorkRecord>, max: nat) -> Seq<u32>
    decreases ws.len(),
{
    if ws.len() == 0 {
        Seq::empty()
    } else {
        works_sections(ns, ws.drop_last(), max) + sections_from(ns, ws.last().root_node, max, 0)
    }
}

impl CorpusCatalogIndex {
    fn collect_sections(&self, node_id: u32, max_depth: usize, depth: usize, out: &mut Vec<u32>)
        requires
            depth <= max_depth,
        ensures
            final(out)@ == old(out)@ + sections_from(self.nodes@, node_id, max_depth as nat, depth as nat),
        decreases max_depth - depth,
    {
        let node = match self.get_node(node_id) {
            Some(n) => n,
            None => {
                proof {
                    assert(old(out)@ + Seq::<u32>::empty() =~= old(out)@);
                }
                return ;
            },
        };
        let ghost start = out@;
        if depth > 0 {
            out.push(node_id);
        }
        let ghost own: Seq<u32> = if depth > 0 {
            seq![node_id]
        } else {
            Seq::empty()
        };
        proof {
            assert(out@ =~= start + own);
        }
        if depth < max_depth {
            let mut k: usize = 0;
            proof {
                assert(node.children@.take(0) =~= Seq::<u32>::empty());
                assert(out@ =~= start + own + sections_list(
                    self.nodes@,
                    node.children@.take(0),
                    max_depth as nat,
                    (depth + 1) as nat,
                ));
            }
            while k < node.children.len()
                invariant
                    depth < max_depth,
                    *node == self.nodes@[node_id as int],
                    k <= node.children@.len(),
                    out@ == start + own + sections_list(
                        self.nodes@,
                        node.children@.take(k as int),
                        max_depth as nat,
                        (depth + 1) as nat,
                    ),
                decreases node.children@.len() - k,
            {
                let ghost before = out@;
                self.collect_sections(node.children[k], max_depth, depth + 1, out);
                proof {
                    let t = node.children@.take(k + 1);
                    assert(t.drop_last() =~= node.children@.take(k as int));
                    assert(t.last() == node.children@[k as int]);
                    assert(out@ =~= start + own + sections_list(self.nodes@, t, max_depth as nat, (depth + 1) as nat));
                }
                k += 1;
            }
            proof {
                assert(node.children@.take(k as int) =~= node.children@);
            }
        }
    }

    /// The section nodes of the work `work` (of every work, one after the
    /// other, when `work` is `None`): the nodes below its root, in
    /// preorder, down to `max_depth` levels. `None` when there is no such
    /// work.
    pub fn section_nodes(&self, work: Option<&str>, max_depth: usize) -> (r: Option<Vec<u32>>)
        ensures
            match work {
                Some(id) => match r {
                    Some(v) => last_work_with(self.works@, id@) >= 0 && v@ == sections_from(
                        self.nodes@,
                        self.works@[last_work_with(self.works@, id@)].root_node,
                        max_depth as nat,
                        0,
                    ),
                    None => last_work_with(self.works@, id@) < 0,
                },
                None => r matches Some(v) && v@ == works_sections(self.nodes@, self.works@, max_depth as nat),
            },
    {
        let mut out: Vec<u32> = Vec::new();
        match work {
            Some(id) => {
                let w = match self.get_work(id) {
                    Some(w) => w,
                    None => return None,
                };
                self.collect_sections(w.root_node, max_depth, 0, &mut out);
                proof {
                    assert(Seq::<u32>::empty() + sections_from(self.nodes@, w.root_node, max_depth as nat, 0)
                        =~= sections_from(self.nodes@, w.root_node, max_depth as nat, 0));
                }
                Some(out)
            },
            None => {
                let mut i: usize = 0;
                proof {
                    assert(self.works@.take(0) =~= Seq::<WorkRecord>::empty());
                }
                while i < self.works.len()
                    invariant
                        i <= self.works@.len(),
                        out@ == works_sections(self.nodes@, self.works@.take(i as int), max_depth as nat),
                    decreases self.works@.len() - i,
                {
                    self.collect_sections(self.works[i].root_node, max_depth, 0, &mut out);
                    proof {
                        let t = self.works@.take(i + 1);
                        assert(t.drop_last() =~= self.works@.take(i as int));
                        assert(t.last() == self.works@[i as int]);
                    }
                    i += 1;
                }
                proof {
                    assert(self.works@.take(i as int) =~= self.works@);
                }
                Some(out)
            },
        }
    }
}

} // verus!
