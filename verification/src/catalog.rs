//! The CBETA work catalog (`sutra_sch.lst`), the cross-canon parallels list
//! (`cmp.lst`), and the parsing of catalog translator fields.

use vstd::prelude::*;
use crate::text::{lines, lines_of, views, str_eq, chars_of, string_from, trim, trimmed, find_char, index_of, last_index_of, lemma_index_of, lemma_last_index_of, rfind_char, slice_of, is_ascii_digit};

verus! {

// ---------------------------------------------------------------------------
// Work ids
// ---------------------------------------------------------------------------

/// `stem` without a trailing `_NNN` fascicle number: the part before the last
/// `_` when everything after it is a non-empty run of ASCII digits.
pub open spec fn fascicle_stem(stem: Seq<char>) -> Seq<char> {
    let i = last_index_of(stem, '_');
    if i >= 0 && i + 1 < stem.len() && (forall|j: int|
        i < j < stem.len() ==> is_ascii_digit(#[trigger] stem[j])) {
        stem.take(i)
    } else {
        stem
    }
}

/// `T01n0001_005` -> `T01n0001`; anything else unchanged.
pub fn strip_fascicle_suffix(stem: &[char]) -> (out: Vec<char>)
    ensures
        out@ == fascicle_stem(stem@),
{
    proof {
        lemma_last_index_of(stem@, '_');
    }
    if let Some(idx) = rfind_char(stem, '_') {
        assert(idx < stem.len());
        if idx + 1 < stem.len() {
            let mut k = idx + 1;
            while k < stem.len()
                invariant
                    idx < k <= stem.len(),
                    idx as int == last_index_of(stem@, '_'),
                    forall|j: int| idx < j < k ==> is_ascii_digit(#[trigger] stem@[j]),
                decreases stem.len() - k,
            {
                if !('0' <= stem[k] && stem[k] <= '9') {
                    proof {
                        assert(!is_ascii_digit(stem@[k as int]));
                        assert(stem@.subrange(0, stem@.len() as int) =~= stem@);
                    }
                    return slice_of(stem, 0, stem.len());
                }
                k += 1;
            }
            return slice_of(stem, 0, idx);
        }
    }
    proof {
        assert(stem@.subrange(0, stem@.len() as int) =~= stem@);
    }
    slice_of(stem, 0, stem.len())
}

/// The base work id of a catalog reference: the part before any `#` anchor,
/// without a fascicle suffix.
pub open spec fn ref_id(raw: Seq<char>) -> Seq<char> {
    fascicle_stem(raw.take(index_of(raw, '#')))
}

pub fn normalize_ref_id(raw: &[char]) -> (out: Vec<char>)
    ensures
        out@ == ref_id(raw@),
{
    proof {
        lemma_index_of(raw@, '#');
    }
    let end = match find_char(raw, '#') {
        Some(i) => i,
        None => raw.len(),
    };
    let head = slice_of(raw, 0, end);
    strip_fascicle_suffix(head.as_slice())
}

// ---------------------------------------------------------------------------
// Numbers
// ---------------------------------------------------------------------------

/// The number written by the decimal digits `d`.
pub open spec fn decimal(d: Seq<char>) -> nat
    decreases d.len(),
{
    if d.len() == 0 {
        0
    } else {
        decimal(d.drop_last()) * 10 + ((d.last() as nat) - ('0' as nat)) as nat
    }
}

pub open spec fn all_digits(d: Seq<char>) -> bool {
    forall|j: int| 0 <= j < d.len() ==> is_ascii_digit(#[trigger] d[j])
}

/// What `str::parse::<u32>` gives: an optional `+`, then at least one ASCII
/// digit and nothing else, for a value that fits in a `u32`.
pub open spec fn parse_u32_spec(s: Seq<char>) -> Option<u32> {
    let d = if s.len() > 0 && s[0] == '+' {
        s.drop_first()
    } else {
        s
    };
    if d.len() > 0 && all_digits(d) && decimal(d) <= u32::MAX {
        Some(decimal(d) as u32)
    } else {
        None
    }
}

proof fn lemma_decimal_monotone(d: Seq<char>, k: int)
    requires
        0 <= k <= d.len(),
        all_digits(d),
    ensures
        decimal(d.take(k)) <= decimal(d),
    decreases d.len() - k,
{
    if k < d.len() {
        lemma_decimal_monotone(d, k + 1);
        assert(d.take(k + 1).drop_last() =~= d.take(k));
    } else {
        assert(d.take(k) =~= d);
    }
}

/// `str::parse::<u32>` on the characters of `s`.
pub fn parse_u32(s: &[char]) -> (r: Option<u32>)
    ensures
        r == parse_u32_spec(s@),
{
    let start: usize = if s.len() > 0 && s[0] == '+' {
        1
    } else {
        0
    };
    let ghost d = s@.skip(start as int);
    proof {
        if s@.len() > 0 && s@[0] == '+' {
            assert(d =~= s@.drop_first());
        } else {
            assert(d =~= s@);
        }
    }
    if start >= s.len() {
        return None;
    }
    let mut v: u64 = 0;
    let mut i = start;
    while i < s.len()
        invariant
            start <= i <= s.len(),
            d == s@.skip(start as int),
            d == (if s@.len() > 0 && s@[0] == '+' {
                s@.drop_first()
            } else {
                s@
            }),
            all_digits(d.take(i - start)),
            v == decimal(d.take(i - start)),
            v <= u32::MAX,
        decreases s.len() - i,
    {
        let c = s[i];
        if !('0' <= c && c <= '9') {
            proof {
                assert(d[i - start] == c);
                assert(!all_digits(d));
            }
            return None;
        }
        let digit = (c as u32 - '0' as u32) as u64;
        let nv = v * 10 + digit;
        proof {
            assert(d.take(i + 1 - start).drop_last() =~= d.take(i - start));
            assert(d.take(i + 1 - start).last() == c);
            assert(all_digits(d.take(i + 1 - start))) by {
                assert forall|j: int| 0 <= j < i + 1 - start implies is_ascii_digit(
                    #[trigger] d.take(i + 1 - start)[j],
                ) by {
                    if j < i - start {
                        assert(d.take(i + 1 - start)[j] == d.take(i - start)[j]);
                    }
                }
            }
        }
        if nv > 4294967295 {
            proof {
                if all_digits(d) {
                    lemma_decimal_monotone(d, i + 1 - start);
                }
            }
            return None;
        }
        v = nv;
        i += 1;
    }
    proof {
        assert(d.take(i - start) =~= d);
    }
    Some(v as u32)
}


// ---------------------------------------------------------------------------
// Catalog lines
// ---------------------------------------------------------------------------

/// The `【` of a catalog line does not come after its `】` (when both occur).
pub open spec fn brackets_in_order(rest: Seq<char>) -> bool {
    let bs = index_of(rest, '【');
    let be = index_of(rest, '】');
    bs < rest.len() && be < rest.len() ==> bs < be
}

/// Title, juan count and translator field of the part of a catalog line
/// after the work id: `長阿含經 (22卷)【後秦 佛陀耶舍共竺佛念譯】`.
///
/// The title is what stands before the first `(`, trimmed; the juan count is
/// the number between that `(` and the next `卷`; the translator field is
/// what stands between `【` and `】`, trimmed. Without a `(`, or with nothing
/// before it, the title is everything before `【`, trimmed.
pub open spec fn catalog_fields(rest: Seq<char>) -> (Seq<char>, Option<u32>, Seq<char>) {
    let p = index_of(rest, '(');
    let after = rest.skip(p);
    let je = index_of(after, '卷');
    let title0 = if p < rest.len() {
        trim(rest.take(p))
    } else {
        Seq::<char>::empty()
    };
    let juan = if p < rest.len() && je < after.len() {
        parse_u32_spec(trim(rest.subrange(p + 1, p + je)))
    } else {
        None
    };
    let bs = index_of(rest, '【');
    let be = index_of(rest, '】');
    let translator = if bs < rest.len() && be < rest.len() {
        trim(rest.subrange(bs + 1, be))
    } else {
        Seq::<char>::empty()
    };
    let title = if title0.len() == 0 {
        trim(rest.take(bs))
    } else {
        title0
    };
    (title, juan, translator)
}

fn fields_of(rest: &[char]) -> (r: (Vec<char>, Option<u32>, Vec<char>))
    requires
        brackets_in_order(rest@),
    ensures
        (r.0@, r.1, r.2@) == catalog_fields(rest@),
{
    proof {
        lemma_index_of(rest@, '(');
        lemma_index_of(rest@, '【');
        lemma_index_of(rest@, '】');
    }
    let mut title: Vec<char> = Vec::new();
    let mut juan: Option<u32> = None;
    let mut translator: Vec<char> = Vec::new();
    if let Some(p) = find_char(rest, '(') {
        title = trimmed(slice_of(rest, 0, p).as_slice());
        let after = slice_of(rest, p, rest.len());
        proof {
            lemma_index_of(after@, '卷');
            assert(after@[0] == '(');
        }
        if let Some(je) = find_char(after.as_slice(), '卷') {
            let digits = trimmed(slice_of(rest, p + 1, p + je).as_slice());
            juan = parse_u32(digits.as_slice());
        }
    }
    if let Some(bs) = find_char(rest, '【') {
        if let Some(be) = find_char(rest, '】') {
            translator = trimmed(slice_of(rest, bs + 1, be).as_slice());
        }
    }
    if title.len() == 0 {
        let end = match find_char(rest, '【') {
            Some(i) => i,
            None => rest.len(),
        };
        title = trimmed(slice_of(rest, 0, end).as_slice());
    }
    (title, juan, translator)
}

/// Title, juan count and translator field of the rest of a catalog line.
///
/// Example input: `長阿含經 (22卷)【後秦 佛陀耶舍共竺佛念譯】`.
pub fn parse_catalog_fields(rest: &str) -> (r: (String, Option<u32>, String))
    requires
        brackets_in_order(rest@),
    ensures
        (r.0@, r.1, r.2@) == catalog_fields(rest@),
{
    let v = chars_of(rest);
    let (t, j, tr) = fields_of(v.as_slice());
    (string_from(t.as_slice()), j, string_from(tr.as_slice()))
}


// ---------------------------------------------------------------------------
// The work catalog
// ---------------------------------------------------------------------------

/// One work of the catalog.
pub struct CatalogEntry {
    pub work_id: String,
    pub title: String,
    pub juan_count: Option<u32>,
    pub translator_field: String,
}

/// Title, juan count and translator field, as a catalog line gives them.
pub type CatalogFields = (Seq<char>, Option<u32>, Seq<char>);

impl CatalogEntry {
    pub open spec fn fields(&self) -> CatalogFields {
        (self.title@, self.juan_count, self.translator_field@)
    }
}

/// The catalog: one entry per work id.
pub struct WorkCatalog {
    entries: Vec<CatalogEntry>,
}

/// The map from work id to fields that a list of entries stands for.
pub open spec fn entries_map(es: Seq<CatalogEntry>) -> Map<Seq<char>, CatalogFields>
    decreases es.len(),
{
    if es.len() == 0 {
        Map::empty()
    } else {
        entries_map(es.drop_last()).insert(es.last().work_id@, es.last().fields())
    }
}

/// No two entries share a work id.
pub open spec fn ids_unique(es: Seq<CatalogEntry>) -> bool {
    forall|i: int, j: int|
        0 <= i < j < es.len() ==> (#[trigger] es[i]).work_id@ != (#[trigger] es[j]).work_id@
}

proof fn lemma_entries_map(es: Seq<CatalogEntry>, k: Seq<char>)
    requires
        ids_unique(es),
    ensures
        entries_map(es).contains_key(k) <==> exists|i: int|
            0 <= i < es.len() && (#[trigger] es[i]).work_id@ == k,
        forall|i: int|
            0 <= i < es.len() && (#[trigger] es[i]).work_id@ == k ==> entries_map(es)[k]
                == es[i].fields(),
    decreases es.len(),
{
    if es.len() > 0 {
        let init = es.drop_last();
        assert forall|i: int, j: int|
            0 <= i < j < init.len() implies (#[trigger] init[i]).work_id@ != (
            #[trigger] init[j]).work_id@ by {
            assert(init[i] == es[i] && init[j] == es[j]);
        }
        lemma_entries_map(init, k);
        if entries_map(es).contains_key(k) && es.last().work_id@ != k {
            let i = choose|i: int| 0 <= i < init.len() && (#[trigger] init[i]).work_id@ == k;
            assert(es[i] == init[i]);
        }
        if exists|i: int| 0 <= i < es.len() && (#[trigger] es[i]).work_id@ == k {
            let i = choose|i: int| 0 <= i < es.len() && (#[trigger] es[i]).work_id@ == k;
            if i < es.len() - 1 {
                assert(init[i] == es[i]);
            }
        }
        assert forall|i: int|
            0 <= i < es.len() && (#[trigger] es[i]).work_id@ == k implies entries_map(es)[k]
                == es[i].fields() by {
            if i < es.len() - 1 {
                assert(init[i] == es[i]);
                assert(es[i].work_id@ != es[es.len() - 1].work_id@);
            }
        }
    }
}

impl WorkCatalog {
    #[verifier::type_invariant]
    spec fn wf(self) -> bool {
        ids_unique(self.entries@)
    }
}

impl View for WorkCatalog {
    type V = Map<Seq<char>, CatalogFields>;

    closed spec fn view(&self) -> Map<Seq<char>, CatalogFields> {
        entries_map(self.entries@)
    }
}

/// The work id and the rest of a trimmed catalog line, split at its first
/// space; `None` for a blank line or one without a space.
pub open spec fn line_parts(line: Seq<char>) -> Option<(Seq<char>, Seq<char>)> {
    let t = trim(line);
    let sp = index_of(t, ' ');
    if t.len() == 0 || sp >= t.len() {
        None
    } else {
        Some((ref_id(t.take(sp)), t.skip(sp + 1)))
    }
}

/// The catalog that the lines `ls` give: each line adds its work unless the
/// work id is already there (the first line of a work wins).
pub open spec fn catalog_of(ls: Seq<Seq<char>>) -> Map<Seq<char>, CatalogFields>
    decreases ls.len(),
{
    if ls.len() == 0 {
        Map::empty()
    } else {
        let m = catalog_of(ls.drop_last());
        match line_parts(ls.last()) {
            Some((id, rest)) => if m.contains_key(id) {
                m
            } else {
                m.insert(id, catalog_fields(rest))
            },
            None => m,
        }
    }
}

/// Every line that adds a work has its `【` before its `】`.
pub open spec fn catalog_ok(ls: Seq<Seq<char>>) -> bool
    decreases ls.len(),
{
    ls.len() == 0 || (catalog_ok(ls.drop_last()) && match line_parts(ls.last()) {
        Some((id, rest)) => catalog_of(ls.drop_last()).contains_key(id) || brackets_in_order(rest),
        None => true,
    })
}

fn has_id(es: &Vec<CatalogEntry>, id: &str) -> (r: bool)
    requires
        ids_unique(es@),
    ensures
        r == entries_map(es@).contains_key(id@),
{
    proof {
        lemma_entries_map(es@, id@);
    }
    let mut i: usize = 0;
    while i < es.len()
        invariant
            i <= es.len(),
            forall|j: int| 0 <= j < i ==> (#[trigger] es@[j]).work_id@ != id@,
            ids_unique(es@),
        decreases es.len() - i,
    {
        if str_eq(es[i].work_id.as_str(), id) {
            proof {
                lemma_entries_map(es@, id@);
            }
            return true;
        }
        i += 1;
    }
    false
}

/// The catalog from the lines `ls`, or `None` where a line that adds a work
/// has its `】` before its `【`.
fn build_catalog(ls: &Vec<Vec<char>>) -> (r: Option<WorkCatalog>)
    ensures
        r is Some <==> catalog_ok(views(ls@)),
        r matches Some(c) ==> c@ == catalog_of(views(ls@)),
{
    let ghost lv = views(ls@);
    let mut es: Vec<CatalogEntry> = Vec::new();
    let mut i: usize = 0;
    while i < ls.len()
        invariant
            i <= ls.len(),
            lv == views(ls@),
            ids_unique(es@),
            entries_map(es@) == catalog_of(lv.take(i as int)),
            catalog_ok(lv.take(i as int)),
        decreases ls.len() - i,
    {
        proof {
            assert(lv.take(i + 1).drop_last() =~= lv.take(i as int));
            assert(lv.take(i + 1).last() == ls@[i as int]@);
        }
        let line = trimmed(ls[i].as_slice());
        proof {
            lemma_index_of(line@, ' ');
        }
        if line.len() > 0 {
            if let Some(sp) = find_char(line.as_slice(), ' ') {
                let raw_id = slice_of(line.as_slice(), 0, sp);
                let rest = slice_of(line.as_slice(), sp + 1, line.len());
                proof {
                    assert(raw_id@ =~= line@.take(sp as int));
                    assert(rest@ =~= line@.skip(sp + 1));
                }
                let id = normalize_ref_id(raw_id.as_slice());
                let id_str = string_from(id.as_slice());
                if !has_id(&es, id_str.as_str()) {
                    proof {
                        lemma_index_of(rest@, '【');
                        lemma_index_of(rest@, '】');
                    }
                    let bs = find_char(rest.as_slice(), '【');
                    let be = find_char(rest.as_slice(), '】');
                    if let (Some(b0), Some(b1)) = (bs, be) {
                        if b1 < b0 {
                            proof {
                                assert(!catalog_ok(lv.take(i + 1)));
                                assert forall|k: int| i + 1 <= k <= lv.len() implies !catalog_ok(
                                    lv.take(k),
                                ) by {
                                    lemma_catalog_ok_prefix(lv, i + 1, k);
                                }
                                assert(lv.take(lv.len() as int) =~= lv);
                            }
                            return None;
                        }
                    }
                    let (t, j, tr) = fields_of(rest.as_slice());
                    let ghost old_es = es@;
                    es.push(
                        CatalogEntry {
                            work_id: id_str,
                            title: string_from(t.as_slice()),
                            juan_count: j,
                            translator_field: string_from(tr.as_slice()),
                        },
                    );
                    proof {
                        assert(es@.drop_last() =~= old_es);
                        assert forall|a: int, b: int|
                            0 <= a < b < es@.len() implies (#[trigger] es@[a]).work_id@ != (
                            #[trigger] es@[b]).work_id@ by {
                            if b == es@.len() - 1 {
                                lemma_entries_map(old_es, id@);
                                assert(old_es[a] == es@[a]);
                            } else {
                                assert(old_es[a] == es@[a] && old_es[b] == es@[b]);
                            }
                        }
                    }
                }
            }
        }
        i += 1;
    }
    proof {
        assert(lv.take(i as int) =~= lv);
    }
    Some(WorkCatalog { entries: es })
}

proof fn lemma_catalog_ok_prefix(ls: Seq<Seq<char>>, i: int, k: int)
    requires
        0 <= i <= k <= ls.len(),
        !catalog_ok(ls.take(i)),
    ensures
        !catalog_ok(ls.take(k)),
    decreases k - i,
{
    if k > i {
        lemma_catalog_ok_prefix(ls, i, k - 1);
        assert(ls.take(k).drop_last() =~= ls.take(k - 1));
    }
}


proof fn lemma_entries_map_len(es: Seq<CatalogEntry>)
    requires
        ids_unique(es),
    ensures
        entries_map(es).dom().finite(),
        entries_map(es).dom().len() == es.len(),
    decreases es.len(),
{
    if es.len() > 0 {
        let init = es.drop_last();
        assert forall|i: int, j: int|
            0 <= i < j < init.len() implies (#[trigger] init[i]).work_id@ != (
            #[trigger] init[j]).work_id@ by {
            assert(init[i] == es[i] && init[j] == es[j]);
        }
        lemma_entries_map_len(init);
        lemma_entries_map(init, es.last().work_id@);
        if entries_map(init).contains_key(es.last().work_id@) {
            let i = choose|i: int|
                0 <= i < init.len() && (#[trigger] init[i]).work_id@ == es.last().work_id@;
            assert(init[i] == es[i]);
        }
    }
}

/// `String::from_utf8_lossy`: the text of `bytes`, with each ill-formed
/// sequence replaced by U+FFFD. Valid UTF-8 decodes to exactly its characters.
pub uninterp spec fn lossy_text(bytes: Seq<u8>) -> Seq<char>;

/// `String::from_utf8_lossy`, made owned. Claims: the result is the named
/// decoding of the bytes, and for valid UTF-8 it is the plain decoding. What
/// the replacement does on ill-formed input is not stated.
#[verifier::external_body]
pub(crate) fn utf8_lossy(bytes: &[u8]) -> (s: String)
    ensures
        s@ == lossy_text(bytes@),
        vstd::utf8::valid_utf8(bytes@) ==> s@ == vstd::utf8::decode_utf8(bytes@),
{
    String::from_utf8_lossy(bytes).into_owned()
}

/// Parse `sutra_sch.lst` — one work per line.
///
/// Format: `{work_id} {title} ({juan}卷)【{dynasty} {translator}】`
///
/// Lines with fascicle suffixes (`_NNN`) or anchors (`#pNNNNaNNN`) are
/// folded into their parent work_id so the catalog has one entry per work.
pub fn parse_work_catalog(text: &str) -> (r: WorkCatalog)
    requires
        catalog_ok(lines(text@)),
    ensures
        r@ == catalog_of(lines(text@)),
{
    let v = chars_of(text);
    let ls = lines_of(v.as_slice());
    match build_catalog(&ls) {
        Some(c) => c,
        None => {
            assert(false);
            WorkCatalog { entries: Vec::new() }
        },
    }
}

/// The work catalog held in the bytes of `sutra_sch.lst`, or `None` where a
/// line that adds a work has its `】` before its `【`.
pub fn work_catalog(bytes: &[u8]) -> (r: Option<WorkCatalog>)
    ensures
        r is Some <==> catalog_ok(lines(lossy_text(bytes@))),
        r matches Some(c) ==> c@ == catalog_of(lines(lossy_text(bytes@))),
{
    let text = utf8_lossy(bytes);
    let v = chars_of(text.as_str());
    let ls = lines_of(v.as_slice());
    build_catalog(&ls)
}

impl WorkCatalog {
    pub fn len(&self) -> (r: usize)
        ensures
            r == self@.len(),
    {
        proof {
            use_type_invariant(self);
            lemma_entries_map_len(self.entries@);
        }
        self.entries.len()
    }

    pub fn get(&self, work_id: &str) -> (r: Option<&CatalogEntry>)
        ensures
            r is Some <==> self@.contains_key(work_id@),
            r matches Some(e) ==> e.work_id@ == work_id@ && e.fields() == self@[work_id@],
    {
        proof {
            use_type_invariant(self);
            lemma_entries_map(self.entries@, work_id@);
        }
        let mut i: usize = 0;
        while i < self.entries.len()
            invariant
                i <= self.entries.len(),
                forall|j: int| 0 <= j < i ==> (#[trigger] self.entries@[j]).work_id@ != work_id@,
            decreases self.entries.len() - i,
        {
            if str_eq(self.entries[i].work_id.as_str(), work_id) {
                proof {
                    use_type_invariant(self);
                    lemma_entries_map(self.entries@, work_id@);
                }
                return Some(&self.entries[i]);
            }
            i += 1;
        }
        None
    }

    /// The work ids of the catalog, each once.
    pub fn work_ids(&self) -> (r: Vec<String>)
        ensures
            r@.len() == self@.len(),
            forall|i: int| 0 <= i < r@.len() ==> self@.contains_key(#[trigger] r@[i]@),
            forall|k: Seq<char>| #[trigger] self@.contains_key(k) ==> exists|i: int|
                0 <= i < r@.len() && r@[i]@ == k,
            forall|i: int, j: int| 0 <= i < j < r@.len() ==> (#[trigger] r@[i])@ != (#[trigger] r@[j])@,
    {
        proof {
            use_type_invariant(self);
            lemma_entries_map_len(self.entries@);
        }
        let mut out: Vec<String> = Vec::new();
        let mut i: usize = 0;
        while i < self.entries.len()
            invariant
                i <= self.entries.len(),
                out@.len() == i,
                forall|j: int| 0 <= j < i ==> (#[trigger] out@[j])@ == self.entries@[j].work_id@,
            decreases self.entries.len() - i,
        {
            out.push(self.entries[i].work_id.clone());
            i += 1;
        }
        proof {
            assert forall|j: int| 0 <= j < out@.len() implies self@.contains_key(#[trigger] out@[j]@) by {
                lemma_entries_map(self.entries@, out@[j]@);
            }
            assert forall|k: Seq<char>| #[trigger] self@.contains_key(k) implies exists|j: int|
                0 <= j < out@.len() && out@[j]@ == k by {
                lemma_entries_map(self.entries@, k);
                let j = choose|j: int| 0 <= j < self.entries@.len() && (#[trigger] self.entries@[j]).work_id@ == k;
                assert(out@[j]@ == k);
            }
        }
        out
    }
}


/// The first line of a work wins: once the lines `ls` have given work `k`
/// its entry, no further lines change or remove it.
pub proof fn catalog_first_line_wins(ls: Seq<Seq<char>>, extra: Seq<Seq<char>>, k: Seq<char>)
    requires
        catalog_of(ls).contains_key(k),
    ensures
        catalog_of(ls + extra).contains_key(k),
        catalog_of(ls + extra)[k] == catalog_of(ls)[k],
    decreases extra.len(),
{
    if extra.len() == 0 {
        assert(ls + extra =~= ls);
    } else {
        let e2 = extra.drop_last();
        catalog_first_line_wins(ls, e2, k);
        assert((ls + extra).drop_last() =~= ls + e2);
        assert((ls + extra).last() == extra.last());
    }
}

/// Catalog keys carry no `#` anchor.
pub proof fn catalog_keys_have_no_anchor(ls: Seq<Seq<char>>, k: Seq<char>)
    requires
        catalog_of(ls).contains_key(k),
    ensures
        !k.contains('#'),
    decreases ls.len(),
{
    if ls.len() > 0 {
        let m = catalog_of(ls.drop_last());
        if m.contains_key(k) {
            catalog_keys_have_no_anchor(ls.drop_last(), k);
        } else {
            let t = trim(ls.last());
            let sp = index_of(t, ' ');
            let head = t.take(sp);
            let y = head.take(index_of(head, '#'));
            lemma_index_of(head, '#');
            assert(!y.contains('#')) by {
                if y.contains('#') {
                    let j = choose|j: int| 0 <= j < y.len() && y[j] == '#';
                    assert(head[j] == '#');
                }
            }
            lemma_last_index_of(y, '_');
            assert(!fascicle_stem(y).contains('#')) by {
                if fascicle_stem(y).contains('#') {
                    let j = choose|j: int| 0 <= j < fascicle_stem(y).len() && fascicle_stem(y)[j] == '#';
                    assert(y[j] == '#');
                }
            }
        }
    }
}

} // verus!
