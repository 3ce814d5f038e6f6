//! Filling blank author, period and title metadata of passages from the
//! work catalog. Only empty values (and the placeholder period
//! `Unknown Period`) are ever replaced.

use vstd::prelude::*;
use crate::text::{opt_view, str_eq, strs, clone_opt};
use crate::catalog::{CatalogFields, WorkCatalog};
use crate::translator::{parse_catalog_translator, translator_parts};

verus! {

/// What the catalog offers for one work.
pub struct PatchEntry {
    pub title: String,
    pub author: Option<String>,
    pub period: Option<String>,
    pub period_rank: i32,
}

/// Title, author, period and period rank.
pub type PatchView = (Seq<char>, Option<Seq<char>>, Option<Seq<char>>, i32);

impl View for PatchEntry {
    type V = PatchView;

    open spec fn view(&self) -> PatchView {
        (self.title@, opt_view(self.author), opt_view(self.period), self.period_rank)
    }
}

/// The patch for a work with the catalog fields `f`: its title, and the
/// author, period and rank that its translator field gives.
pub open spec fn patch_of(f: CatalogFields) -> PatchView {
    let t = translator_parts(f.2);
    (f.0, t.0, t.1, t.2)
}

/// Work id -> patch.
pub struct PatchMap {
    ids: Vec<String>,
    patches: Vec<PatchEntry>,
}

pub open spec fn keyed(ids: Seq<String>, ps: Seq<PatchEntry>) -> Map<Seq<char>, PatchView>
    decreases ids.len(),
{
    if ids.len() == 0 || ps.len() == 0 {
        Map::empty()
    } else {
        keyed(ids.drop_last(), ps.drop_last()).insert(ids.last()@, ps.last()@)
    }
}

pub open spec fn distinct(ids: Seq<String>) -> bool {
    forall|i: int, j: int| 0 <= i < j < ids.len() ==> (#[trigger] ids[i])@ != (#[trigger] ids[j])@
}

proof fn lemma_keyed(ids: Seq<String>, ps: Seq<PatchEntry>, k: Seq<char>)
    requires
        distinct(ids),
        ids.len() == ps.len(),
    ensures
        keyed(ids, ps).contains_key(k) <==> exists|i: int| 0 <= i < ids.len() && (#[trigger] ids[i])@ == k,
        forall|i: int| 0 <= i < ids.len() && (#[trigger] ids[i])@ == k ==> keyed(ids, ps)[k] == ps[i]@,
    decreases ids.len(),
{
    if ids.len() > 0 {
        let a = ids.drop_last();
        let b = ps.drop_last();
        assert forall|i: int, j: int| 0 <= i < j < a.len() implies (#[trigger] a[i])@ != (#[trigger] a[j])@ by {
            assert(a[i] == ids[i] && a[j] == ids[j]);
        }
        lemma_keyed(a, b, k);
        if keyed(ids, ps).contains_key(k) && ids.last()@ != k {
            let i = choose|i: int| 0 <= i < a.len() && (#[trigger] a[i])@ == k;
            assert(ids[i] == a[i]);
        }
        if exists|i: int| 0 <= i < ids.len() && (#[trigger] ids[i])@ == k {
            let i = choose|i: int| 0 <= i < ids.len() && (#[trigger] ids[i])@ == k;
            if i < ids.len() - 1 {
                assert(a[i] == ids[i]);
            }
        }
        assert forall|i: int| 0 <= i < ids.len() && (#[trigger] ids[i])@ == k implies keyed(ids, ps)[k] == ps[i]@ by {
            if i < ids.len() - 1 {
                assert(a[i] == ids[i] && b[i] == ps[i]);
            }
        }
    }
}

impl PatchMap {
    #[verifier::type_invariant]
    spec fn wf(self) -> bool {
        distinct(self.ids@) && self.ids@.len() == self.patches@.len()
    }
}

impl View for PatchMap {
    type V = Map<Seq<char>, PatchView>;

    closed spec fn view(&self) -> Map<Seq<char>, PatchView> {
        keyed(self.ids@, self.patches@)
    }
}

/// The patches of every work of the catalog.
pub fn build_patch_map(catalog: &WorkCatalog) -> (r: PatchMap)
    ensures
        r@.dom() == catalog@.dom(),
        forall|k: Seq<char>| #[trigger] catalog@.contains_key(k) ==> r@[k] == patch_of(catalog@[k]),
{
    let ids = catalog.work_ids();
    let mut out_ids: Vec<String> = Vec::new();
    let mut patches: Vec<PatchEntry> = Vec::new();
    let mut i: usize = 0;
    while i < ids.len()
        invariant
            i <= ids@.len(),
            out_ids@.len() == i,
            patches@.len() == i,
            forall|j: int| 0 <= j < ids@.len() ==> catalog@.contains_key(#[trigger] ids@[j]@),
            forall|k: Seq<char>| #[trigger] catalog@.contains_key(k) ==> exists|j: int|
                0 <= j < ids@.len() && ids@[j]@ == k,
            forall|a: int, b: int| 0 <= a < b < ids@.len() ==> (#[trigger] ids@[a])@ != (#[trigger] ids@[b])@,
            forall|j: int| 0 <= j < i ==> (#[trigger] out_ids@[j])@ == ids@[j]@,
            forall|j: int| 0 <= j < i ==> (#[trigger] patches@[j])@ == patch_of(catalog@[ids@[j]@]),
        decreases ids.len() - i,
    {
        match catalog.get(ids[i].as_str()) {
            Some(entry) => {
                let (author, period, rank) = parse_catalog_translator(entry.translator_field.as_str());
                out_ids.push(ids[i].clone());
                patches.push(PatchEntry { title: entry.title.clone(), author, period, period_rank: rank });
            },
            None => {
                assert(false);
            },
        }
        i += 1;
    }
    proof {
        assert(distinct(out_ids@)) by {
            assert forall|a: int, b: int| 0 <= a < b < out_ids@.len() implies (#[trigger] out_ids@[a])@ != (
            #[trigger] out_ids@[b])@ by {
                assert(out_ids@[a]@ == ids@[a]@ && out_ids@[b]@ == ids@[b]@);
            }
        }
        assert forall|k: Seq<char>| #[trigger] keyed(out_ids@, patches@).contains_key(k) == catalog@.contains_key(k) by {
            lemma_keyed(out_ids@, patches@, k);
            if catalog@.contains_key(k) {
                let j = choose|j: int| 0 <= j < ids@.len() && ids@[j]@ == k;
                assert(out_ids@[j]@ == k);
            }
            if keyed(out_ids@, patches@).contains_key(k) {
                let j = choose|j: int| 0 <= j < out_ids@.len() && (#[trigger] out_ids@[j])@ == k;
                assert(ids@[j]@ == k);
            }
        }
        assert(keyed(out_ids@, patches@).dom() =~= catalog@.dom());
        assert forall|k: Seq<char>| #[trigger] catalog@.contains_key(k) implies keyed(out_ids@, patches@)[k]
            == patch_of(catalog@[k]) by {
            lemma_keyed(out_ids@, patches@, k);
            let j = choose|j: int| 0 <= j < ids@.len() && ids@[j]@ == k;
            assert(out_ids@[j]@ == k);
        }
    }
    PatchMap { ids: out_ids, patches }
}

impl PatchMap {
    /// The patch for `work_id`, if the catalog knows the work.
    pub fn get(&self, work_id: &str) -> (r: Option<&PatchEntry>)
        ensures
            r is Some <==> self@.contains_key(work_id@),
            r matches Some(p) ==> p@ == self@[work_id@],
    {
        proof {
            use_type_invariant(self);
            lemma_keyed(self.ids@, self.patches@, work_id@);
        }
        let mut i: usize = 0;
        while i < self.ids.len()
            invariant
                i <= self.ids.len(),
                self.ids@.len() == self.patches@.len(),
                forall|j: int| 0 <= j < i ==> (#[trigger] self.ids@[j])@ != work_id@,
            decreases self.ids.len() - i,
        {
            if str_eq(self.ids[i].as_str(), work_id) {
                proof {
                    use_type_invariant(self);
                    lemma_keyed(self.ids@, self.patches@, work_id@);
                }
                return Some(&self.patches[i]);
            }
            i += 1;
        }
        None
    }
}

/// The metadata columns of one passage row that patching may fill.
pub struct MetaRow {
    pub author: String,
    pub period: String,
    pub period_rank: i32,
    pub main_title: String,
}

/// Author, period, period rank and main title.
pub type RowView = (Seq<char>, Seq<char>, i32, Seq<char>);

impl View for MetaRow {
    type V = RowView;

    open spec fn view(&self) -> RowView {
        (self.author@, self.period@, self.period_rank, self.main_title@)
    }
}

/// The period written when none is known.
pub open spec fn unknown_period() -> Seq<char> {
    "Unknown Period"@
}

pub open spec fn needs_author(r: RowView) -> bool {
    r.0.len() == 0
}

pub open spec fn needs_period(r: RowView) -> bool {
    r.1.len() == 0 || r.1 == unknown_period()
}

pub open spec fn needs_title(r: RowView) -> bool {
    r.3.len() == 0
}

/// The row after patching it with `p`, and whether anything was written.
pub open spec fn patched_row(r: RowView, p: Option<PatchView>) -> (RowView, bool) {
    match p {
        None => (r, false),
        Some(pv) => {
            let set_author = needs_author(r) && pv.1 is Some;
            let set_period = needs_period(r) && pv.2 is Some;
            let set_title = needs_title(r) && pv.0.len() > 0;
            (
                (
                    if set_author { pv.1.unwrap() } else { r.0 },
                    if set_period { pv.2.unwrap() } else { r.1 },
                    if set_period { pv.3 } else { r.2 },
                    if set_title { pv.0 } else { r.3 },
                ),
                set_author || set_period || set_title,
            )
        },
    }
}

pub open spec fn patch_view(p: Option<&PatchEntry>) -> Option<PatchView> {
    match p {
        None => None,
        Some(e) => Some(e@),
    }
}
/// Fills the blank fields of `row` from `patch`: the author when empty,
/// the period (with its rank) when empty or `Unknown Period`, the main
/// title when empty. Returns whether any field was written.
pub fn patch_row(row: &mut MetaRow, patch: Option<&PatchEntry>) -> (changed: bool)
    ensures
        (final(row)@, changed) == patched_row(old(row)@, patch_view(patch)),
{
    let p = match patch {
        None => {
            return false;
        },
        Some(p) => p,
    };
    let needs_author = row.author.as_str().is_empty();
    let needs_period = row.period.as_str().is_empty() || str_eq(row.period.as_str(), "Unknown Period");
    let needs_title = row.main_title.as_str().is_empty();
    let mut changed = false;
    if needs_author {
        if let Some(a) = clone_opt(&p.author) {
            row.author = a;
            changed = true;
        }
    }
    if needs_period {
        if let Some(v) = clone_opt(&p.period) {
            row.period = v;
            row.period_rank = p.period_rank;
            changed = true;
        }
    }
    if needs_title {
        if !p.title.as_str().is_empty() {
            row.main_title = p.title.clone();
            changed = true;
        }
    }
    changed
}

/// Patching fills blanks only: an author, a period other than
/// `Unknown Period`, or a main title that is already there stays as it
/// was, and the period rank changes only together with the period.
pub proof fn patch_never_overwrites(r: RowView, p: Option<PatchView>)
    ensures
        !needs_author(r) ==> patched_row(r, p).0.0 == r.0,
        !needs_period(r) ==> patched_row(r, p).0.1 == r.1 && patched_row(r, p).0.2 == r.2,
        !needs_title(r) ==> patched_row(r, p).0.3 == r.3,
        !patched_row(r, p).1 ==> patched_row(r, p).0 == r,
{
}

/// Patching a row a second time with the same patch changes nothing.
pub proof fn patch_idempotent(r: RowView, p: Option<PatchView>)
    ensures
        patched_row(patched_row(r, p).0, p).0 == patched_row(r, p).0,
{
}

/// The patch the map holds for `k`, if any.
pub open spec fn lookup(m: Map<Seq<char>, PatchView>, k: Seq<char>) -> Option<PatchView> {
    if m.contains_key(k) {
        Some(m[k])
    } else {
        None
    }
}

pub open spec fn row_views(rows: Seq<MetaRow>) -> Seq<RowView> {
    rows.map_values(|r: MetaRow| r@)
}

/// The work ids of the rows that patching changed, one per changed row, in
/// row order.
pub open spec fn works_patched(ids: Seq<Seq<char>>, rows: Seq<RowView>, m: Map<Seq<char>, PatchView>) -> Seq<
    Seq<char>,
>
    decreases ids.len(),
{
    if ids.len() == 0 || rows.len() == 0 {
        Seq::empty()
    } else {
        let prev = works_patched(ids.drop_last(), rows.drop_last(), m);
        if patched_row(rows.last(), lookup(m, ids.last())).1 {
            prev.push(ids.last())
        } else {
            prev
        }
    }
}

/// Patches every row of a batch from the map, row `i` belonging to the
/// work `work_ids[i]`. Returns the number of rows changed and their work
/// ids in row order.
pub fn patch_rows(map: &PatchMap, work_ids: &Vec<String>, rows: &mut Vec<MetaRow>) -> (r: (usize, Vec<String>))
    requires
        work_ids@.len() == old(rows)@.len(),
    ensures
        final(rows)@.len() == old(rows)@.len(),
        forall|i: int| 0 <= i < old(rows)@.len() ==> (#[trigger] final(rows)@[i])@ == patched_row(
            old(rows)@[i]@, lookup(map@, work_ids@[i]@)).0,
        strs(r.1@) == works_patched(strs(work_ids@), row_views(old(rows)@), map@),
        r.0 == r.1@.len(),
{
    let ghost before = rows@;
    let mut count: usize = 0;
    let mut works: Vec<String> = Vec::new();
    let n = rows.len();
    let mut i: usize = 0;
    while i < n
        invariant
            n == rows@.len(),
            n == before.len(),
            n == work_ids@.len(),
            i <= n,
            count == works@.len(),
            count <= i,
            forall|j: int| 0 <= j < i ==> (#[trigger] rows@[j])@ == patched_row(before[j]@, lookup(map@, work_ids@[j]@)).0,
            forall|j: int| i <= j < n ==> #[trigger] rows@[j] == before[j],
            strs(works@) == works_patched(strs(work_ids@).take(i as int), row_views(before).take(i as int), map@),
        decreases n - i,
    {
        let p = map.get(work_ids[i].as_str());
        let changed = patch_row(&mut rows[i], p);
        proof {
            let a = strs(work_ids@).take(i + 1);
            let b = row_views(before).take(i + 1);
            assert(a.drop_last() =~= strs(work_ids@).take(i as int));
            assert(b.drop_last() =~= row_views(before).take(i as int));
            assert(a.last() == work_ids@[i as int]@);
            assert(b.last() == before[i as int]@);
            assert(patch_view(p) == lookup(map@, work_ids@[i as int]@));
        }
        if changed {
            works.push(work_ids[i].clone());
            count += 1;
            proof {
                assert(strs(works@) =~= strs(works@.drop_last()).push(work_ids@[i as int]@));
            }
        }
        i += 1;
    }
    proof {
        assert(strs(work_ids@).take(n as int) =~= strs(work_ids@));
        assert(row_views(before).take(n as int) =~= row_views(before));
    }
    (count, works)
}

} // verus!
