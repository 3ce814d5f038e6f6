//! Resolving the scope of a search or comparison in the catalog: a node id
//! or a work id becomes the node to start from and the range of documents
//! it covers.

use vstd::prelude::*;
use crate::catalog_index::{last_work_with, CorpusCatalogIndex, OutlineNode, OutlineNodeKind};
use crate::text::{decimal_chars, decimal_of, push_all, string_from, chars_of};

verus! {

/// Why a scope could not be resolved.
#[derive(Debug, Clone, PartialEq, Eq)]
pub enum ScopeError {
    /// No node has this id.
    UnknownNode(u32),
    /// No work has this id.
    UnknownWork(String),
    /// The work's root node is not in the catalog.
    MissingWorkRoot,
    /// The node covers no documents.
    NodeWithoutRange(u32),
    /// The work's root node covers no documents.
    WorkWithoutRange(String),
}

pub open spec fn scope_message(e: ScopeError) -> Seq<char> {
    match e {
        ScopeError::UnknownNode(n) => "unknown node_id: "@ + decimal_chars(n as nat),
        ScopeError::UnknownWork(w) => "unknown work_id: "@ + w@,
        ScopeError::MissingWorkRoot => "work root node missing"@,
        ScopeError::NodeWithoutRange(n) => "node "@ + decimal_chars(n as nat) + " has no doc range"@,
        ScopeError::WorkWithoutRange(w) => "work "@ + w@ + " has no doc range"@,
    }
}

impl ScopeError {
    /// The message shown for the error.
    pub fn message(&self) -> (r: String)
        ensures
            r@ == scope_message(*self),
    {
        let mut out: Vec<char> = Vec::new();
        match self {
            ScopeError::UnknownNode(n) => {
                push_all(&mut out, chars_of("unknown node_id: ").as_slice());
                push_all(&mut out, decimal_of(*n as u64).as_slice());
            },
            ScopeError::UnknownWork(w) => {
                push_all(&mut out, chars_of("unknown work_id: ").as_slice());
                push_all(&mut out, chars_of(w.as_str()).as_slice());
            },
            ScopeError::MissingWorkRoot => {
                push_all(&mut out, chars_of("work root node missing").as_slice());
            },
            ScopeError::NodeWithoutRange(n) => {
                push_all(&mut out, chars_of("node ").as_slice());
                push_all(&mut out, decimal_of(*n as u64).as_slice());
                push_all(&mut out, chars_of(" has no doc range").as_slice());
            },
            ScopeError::WorkWithoutRange(w) => {
                push_all(&mut out, chars_of("work ").as_slice());
                push_all(&mut out, chars_of(w.as_str()).as_slice());
                push_all(&mut out, chars_of(" has no doc range").as_slice());
            },
        }
        proof {
            assert(out@ =~= scope_message(*self));
        }
        string_from(out.as_slice())
    }
}

/// The documents a node covers, when it knows both ends.
pub open spec fn node_range(n: OutlineNode) -> Option<(u32, u32)> {
    match (n.first_doc_id, n.last_doc_id) {
        (Some(l), Some(h)) => Some((l, h)),
        _ => None,
    }
}

/// The range of documents to compare: that of node `node_id` if given
/// (an error when there is no such node); else that of the root of work
/// `work_id` if given (an error when there is no such work or its root is
/// missing); else no range, the whole corpus.
pub fn resolve_doc_range(
    catalog: &CorpusCatalogIndex,
    node_id: Option<u32>,
    work_id: Option<&str>,
) -> (r: Result<Option<(u32, u32)>, ScopeError>)
    ensures
        match node_id {
            Some(nid) => if nid < catalog.nodes@.len() {
                r == Ok::<Option<(u32, u32)>, ScopeError>(node_range(catalog.nodes@[nid as int]))
            } else {
                r == Err::<Option<(u32, u32)>, ScopeError>(ScopeError::UnknownNode(nid))
            },
            None => match work_id {
                Some(wid) => {
                    let w = last_work_with(catalog.works@, wid@);
                    if w < 0 {
                        r matches Err(ScopeError::UnknownWork(s)) && s@ == wid@
                    } else if catalog.works@[w].root_node >= catalog.nodes@.len() {
                        r == Err::<Option<(u32, u32)>, ScopeError>(ScopeError::MissingWorkRoot)
                    } else {
                        r == Ok::<Option<(u32, u32)>, ScopeError>(
                            node_range(catalog.nodes@[catalog.works@[w].root_node as int]),
                        )
                    }
                },
                None => r == Ok::<Option<(u32, u32)>, ScopeError>(None),
            },
        },
{
    if let Some(nid) = node_id {
        let node = match catalog.get_node(nid) {
            Some(n) => n,
            None => return Err(ScopeError::UnknownNode(nid)),
        };
        return Ok(
            match (node.first_doc_id, node.last_doc_id) {
                (Some(l), Some(h)) => Some((l, h)),
                _ => None,
            },
        );
    }
    if let Some(wid) = work_id {
        let work = match catalog.get_work(wid) {
            Some(w) => w,
            None => return Err(ScopeError::UnknownWork(wid.to_owned())),
        };
        let root = match catalog.get_node(work.root_node) {
            Some(n) => n,
            None => return Err(ScopeError::MissingWorkRoot),
        };
        return Ok(
            match (root.first_doc_id, root.last_doc_id) {
                (Some(l), Some(h)) => Some((l, h)),
                _ => None,
            },
        );
    }
    Ok(None)
}

/// Where an outline search starts: node `node_id` if given, which must
/// exist and cover documents; else the root of work `work_id` if given,
/// which must exist and cover documents; else node 0, labelled "corpus",
/// with no range. Gives the start node, its label and its range.
pub fn resolve_search_scope(
    catalog: &CorpusCatalogIndex,
    node_id: Option<u32>,
    work_id: Option<&str>,
) -> (r: Result<(u32, String, Option<(u32, u32)>), ScopeError>)
    ensures
        match node_id {
            Some(nid) => if nid >= catalog.nodes@.len() {
                r == Err::<(u32, String, Option<(u32, u32)>), ScopeError>(ScopeError::UnknownNode(nid))
            } else if node_range(catalog.nodes@[nid as int]) is None {
                r == Err::<(u32, String, Option<(u32, u32)>), ScopeError>(ScopeError::NodeWithoutRange(nid))
            } else {
                r matches Ok((s, label, range)) && s == nid && label@ == catalog.nodes@[nid as int].label@
                    && range == node_range(catalog.nodes@[nid as int])
            },
            None => match work_id {
                Some(wid) => {
                    let w = last_work_with(catalog.works@, wid@);
                    if w < 0 {
                        r matches Err(ScopeError::UnknownWork(s)) && s@ == wid@
                    } else if catalog.works@[w].root_node >= catalog.nodes@.len() {
                        r == Err::<(u32, String, Option<(u32, u32)>), ScopeError>(ScopeError::MissingWorkRoot)
                    } else if node_range(catalog.nodes@[catalog.works@[w].root_node as int]) is None {
                        r matches Err(ScopeError::WorkWithoutRange(s)) && s@ == wid@
                    } else {
                        let root = catalog.works@[w].root_node;
                        r matches Ok((s, label, range)) && s == root && label@ == catalog.nodes@[root as int].label@
                            && range == node_range(catalog.nodes@[root as int])
                    }
                },
                None => r matches Ok((s, label, range)) && s == 0 && label@ == "corpus"@ && range is None,
            },
        },
{
    if let Some(nid) = node_id {
        let node = match catalog.get_node(nid) {
            Some(n) => n,
            None => return Err(ScopeError::UnknownNode(nid)),
        };
        let range = match (node.first_doc_id, node.last_doc_id) {
            (Some(l), Some(h)) => Some((l, h)),
            _ => return Err(ScopeError::NodeWithoutRange(nid)),
        };
        return Ok((nid, node.label.clone(), range));
    }
    if let Some(wid) = work_id {
        let work = match catalog.get_work(wid) {
            Some(w) => w,
            None => return Err(ScopeError::UnknownWork(wid.to_owned())),
        };
        let root = match catalog.get_node(work.root_node) {
            Some(n) => n,
            None => return Err(ScopeError::MissingWorkRoot),
        };
        let range = match (root.first_doc_id, root.last_doc_id) {
            (Some(l), Some(h)) => Some((l, h)),
            _ => return Err(ScopeError::WorkWithoutRange(wid.to_owned())),
        };
        return Ok((work.root_node, root.label.clone(), range));
    }
    Ok((0, String::from_str("corpus"), None))
}

// ---------------------------------------------------------------------------
// Adaptive context
// ---------------------------------------------------------------------------

/// Why no context node could be picked.
#[derive(Debug, Clone, PartialEq, Eq)]
pub enum ContextError {
    /// The document points at no node of the catalog.
    NoCatalogNode(u32),
    /// A node on the way up is missing.
    BadNodeId,
    /// A parent on the way up is missing.
    BadParentId,
    /// The node picked covers no documents.
    NoDocRange,
}

pub open spec fn context_message(e: ContextError) -> Seq<char> {
    match e {
        ContextError::NoCatalogNode(d) => "doc_id "@ + decimal_chars(d as nat) + " has no catalog node (rebuild catalog?)"@,
        ContextError::BadNodeId => "bad node_id"@,
        ContextError::BadParentId => "bad parent_id"@,
        ContextError::NoDocRange => "node has no doc range"@,
    }
}

impl ContextError {
    /// The message shown for the error.
    pub fn message(&self) -> (r: String)
        ensures
            r@ == context_message(*self),
    {
        let mut out: Vec<char> = Vec::new();
        match self {
            ContextError::NoCatalogNode(d) => {
                push_all(&mut out, chars_of("doc_id ").as_slice());
                push_all(&mut out, decimal_of(*d as u64).as_slice());
                push_all(&mut out, chars_of(" has no catalog node (rebuild catalog?)").as_slice());
            },
            ContextError::BadNodeId => {
                push_all(&mut out, chars_of("bad node_id").as_slice());
            },
            ContextError::BadParentId => {
                push_all(&mut out, chars_of("bad parent_id").as_slice());
            },
            ContextError::NoDocRange => {
                push_all(&mut out, chars_of("node has no doc range").as_slice());
            },
        }
        proof {
            assert(out@ =~= context_message(*self));
        }
        string_from(out.as_slice())
    }
}

/// Every node's parent comes before it, so climbing from any node ends.
pub open spec fn parents_first(ns: Seq<OutlineNode>) -> bool {
    forall|i: int|
        0 <= i < ns.len() ==> ((#[trigger] ns[i]).parent_id matches Some(p) ==> (p as int) < i)
}

impl CorpusCatalogIndex {
    /// Does every node's parent come before it?
    pub fn parents_come_first(&self) -> (r: bool)
        ensures
            r == parents_first(self.nodes@),
    {
        let mut i: usize = 0;
        while i < self.nodes.len()
            invariant
                i <= self.nodes@.len(),
                forall|j: int|
                    0 <= j < i ==> ((#[trigger] self.nodes@[j]).parent_id matches Some(p) ==> (p as int) < j),
            decreases self.nodes@.len() - i,
        {
            match self.nodes[i].parent_id {
                Some(p) => {
                    if (p as usize) >= i {
                        return false;
                    }
                },
                None => {},
            }
            i += 1;
        }
        true
    }
}

/// Climbing from node `id` towards the work: stop at a node whose
/// ideographs fit in `max_chars`, at a work, or at a root; on reaching a
/// canon or corpus, stop at that node's first child (the node itself when
/// it has none). Gives the node stopped at and the levels climbed.
pub open spec fn climb(ns: Seq<OutlineNode>, id: u32, max_chars: int) -> Result<(u32, nat), ContextError>
    decreases id,
{
    if id >= ns.len() {
        Err(ContextError::BadNodeId)
    } else {
        let n = ns[id as int];
        if n.cjk_char_count <= max_chars || n.node_kind == OutlineNodeKind::Work {
            Ok((id, 0))
        } else {
            match n.parent_id {
                None => Ok((id, 0)),
                Some(p) => if p >= ns.len() {
                    Err(ContextError::BadParentId)
                } else if ns[p as int].node_kind == OutlineNodeKind::Canon || ns[p as int].node_kind
                    == OutlineNodeKind::Corpus {
                    let cs = ns[p as int].children@;
                    Ok((if cs.len() > 0 { cs[0] } else { p }, 1))
                } else if p < id {
                    match climb(ns, p, max_chars) {
                        Ok((f, c)) => Ok((f, c + 1)),
                        Err(e) => Err(e),
                    }
                } else {
                    Err(ContextError::BadParentId)
                },
            }
        }
    }
}

/// The node picked to give the context of a passage, with how it was
/// picked.
#[derive(Debug, Clone, PartialEq, Eq)]
pub struct ContextPick {
    pub node_id: u32,
    pub climbed: u32,
    /// The kind of the passage's own node.
    pub leaf_kind: Option<OutlineNodeKind>,
    pub first_doc_id: u32,
    pub last_doc_id: u32,
}

/// Picks the smallest node holding document `doc_id` whose ideographs fit
/// in `max_chars`: from the document's passage range it climbs (see
/// `climb`) but never above a work, and gives the node with the range of
/// documents it covers.
pub fn pick_context_node(catalog: &CorpusCatalogIndex, doc_id: u32, max_chars: usize) -> (r: Result<
    ContextPick,
    ContextError,
>)
    requires
        parents_first(catalog.nodes@),
    ensures
        !catalog.doc_parent@.contains_key(doc_id) ==> r == Err::<ContextPick, ContextError>(
            ContextError::NoCatalogNode(doc_id),
        ),
        catalog.doc_parent@.contains_key(doc_id) ==> {
            let leaf = catalog.doc_parent@[doc_id];
            match climb(catalog.nodes@, leaf, max_chars as int) {
                Err(e) => r == Err::<ContextPick, ContextError>(e),
                Ok((sel, c)) => if sel >= catalog.nodes@.len() || node_range(catalog.nodes@[sel as int])
                    is None {
                    r == Err::<ContextPick, ContextError>(
                        if sel >= catalog.nodes@.len() {
                            ContextError::BadNodeId
                        } else {
                            ContextError::NoDocRange
                        },
                    )
                } else {
                    r matches Ok(pick) && pick.node_id == sel && pick.climbed == c && pick.leaf_kind == (
                    if leaf < catalog.nodes@.len() {
                        Some(catalog.nodes@[leaf as int].node_kind)
                    } else {
                        None
                    }) && (pick.first_doc_id, pick.last_doc_id) == node_range(
                        catalog.nodes@[sel as int],
                    ).unwrap()
                },
            }
        },
{
    let leaf = match catalog.doc_parent.get(&doc_id) {
        Some(n) => *n,
        None => return Err(ContextError::NoCatalogNode(doc_id)),
    };
    let leaf_kind = match catalog.get_node(leaf) {
        Some(n) => Some(n.node_kind),
        None => None,
    };
    let ghost ns = catalog.nodes@;
    let ghost max = max_chars as int;
    let mut node_id = leaf;
    let mut climbed: u32 = 0;
    loop
        invariant_except_break
            ns == catalog.nodes@,
            catalog.doc_parent@.contains_key(doc_id),
            catalog.doc_parent@[doc_id] == leaf,
            parents_first(ns),
            max == max_chars as int,
            climbed as int + node_id as int <= leaf as int,
            match climb(ns, leaf, max) {
                Err(e) => climb(ns, node_id, max) == Err::<(u32, nat), ContextError>(e),
                Ok((f, c)) => climb(ns, node_id, max) matches Ok((f2, c2)) && f2 == f && c2 + climbed == c,
            },
        ensures
            ns == catalog.nodes@,
            catalog.doc_parent@.contains_key(doc_id),
            catalog.doc_parent@[doc_id] == leaf,
            max == max_chars as int,
            match climb(ns, leaf, max) {
                Err(e) => false,
                Ok((f, c)) => f == node_id && c == climbed,
            },
        decreases node_id,
    {
        let node = match catalog.get_node(node_id) {
            Some(n) => n,
            None => return Err(ContextError::BadNodeId),
        };
        let fits = (node.cjk_char_count as usize) <= max_chars;
        let at_work = node.node_kind == OutlineNodeKind::Work;
        if fits || at_work {
            break;
        }
        match node.parent_id {
            Some(parent) => {
                proof {
                    assert(ns[node_id as int].parent_id == Some(parent));
                    assert(parent < node_id);
                }
                let parent_node = match catalog.get_node(parent) {
                    Some(n) => n,
                    None => return Err(ContextError::BadParentId),
                };
                climbed = climbed + 1;
                if parent_node.node_kind == OutlineNodeKind::Canon || parent_node.node_kind
                    == OutlineNodeKind::Corpus {
                    node_id = if parent_node.children.len() > 0 {
                        parent_node.children[0]
                    } else {
                        parent
                    };
                    break;
                }
                node_id = parent;
            },
            None => {
                break;
            },
        }
    }
    let selected = match catalog.get_node(node_id) {
        Some(n) => n,
        None => return Err(ContextError::BadNodeId),
    };
    let first = match selected.first_doc_id {
        Some(f) => f,
        None => return Err(ContextError::NoDocRange),
    };
    let last = match selected.last_doc_id {
        Some(l) => l,
        None => return Err(ContextError::NoDocRange),
    };
    Ok(ContextPick { node_id, climbed, leaf_kind, first_doc_id: first, last_doc_id: last })
}

} // verus!
