//! The per-work classification table of the CBETA corpus (the sidecar),
//! keyed by the corpus-relative path of each work's XML file
//! (`T/T01/T01n0001.xml`).

use vstd::prelude::*;
use crate::catalog::{fascicle_stem, strip_fascicle_suffix};
use crate::text::{chars_eq, chars_of, find_pat, find_str, last_index_of, lemma_last_index_of, push_all, rfind_char, slice_of, split_by, split_chars, str_eq, string_from, views};

verus! {

/// `std::path::PathBuf`, carried through opaque (where the sidecar was read from).
#[verifier::external_type_specification]
#[verifier::external_body]
pub struct ExPathBuf(std::path::PathBuf);

// ---------------------------------------------------------------------------
// Keys
// ---------------------------------------------------------------------------

/// `s` with every backslash turned into a slash.
pub open spec fn slashed(s: Seq<char>) -> Seq<char> {
    s.map_values(|c: char| if c == '\\' { '/' } else { c })
}

/// `s` without its leading slashes.
pub open spec fn trim_slashes(s: Seq<char>) -> Seq<char>
    decreases s.len(),
{
    if s.len() > 0 && s[0] == '/' {
        trim_slashes(s.drop_first())
    } else {
        s
    }
}

pub open spec fn xml_p5() -> Seq<char> {
    seq!['/', 'x', 'm', 'l', '-', 'p', '5', '/']
}

pub open spec fn xml_iso() -> Seq<char> {
    seq!['/', 'x', 'm', 'l', '-', 'i', 's', 'o', '/']
}

pub open spec fn xml_p5t() -> Seq<char> {
    seq!['/', 'x', 'm', 'l', '-', 'p', '5', 't', '/']
}

/// The part of `s` after the first occurrence of `anchor`.
pub open spec fn after_anchor(s: Seq<char>, anchor: Seq<char>) -> Option<Seq<char>> {
    match find_str(s, anchor) {
        Some(i) => Some(s.skip(i + anchor.len())),
        None => None,
    }
}

/// The last three `/`-separated components of `s` (leading slashes
/// dropped), joined by `/`; `s` itself when there are fewer than three.
pub open spec fn last_three(s: Seq<char>) -> Seq<char> {
    let parts = split_by(trim_slashes(s), seq!['/']);
    let n = parts.len();
    if n >= 3 {
        parts[n - 3] + seq!['/'] + parts[n - 2] + seq!['/'] + parts[n - 1]
    } else {
        s
    }
}

/// `/abs/path/.../xml-p5/T/T01/T01n0001.xml` -> `T/T01/T01n0001.xml`: after
/// turning backslashes into slashes, what follows the first `/xml-p5/`,
/// else the first `/xml-iso/`, else the first `/xml-p5t/`; a path with none
/// of them keeps its last three components.
pub open spec fn file_key(file: Seq<char>) -> Seq<char> {
    let s = slashed(file);
    match after_anchor(s, xml_p5()) {
        Some(k) => k,
        None => match after_anchor(s, xml_iso()) {
            Some(k) => k,
            None => match after_anchor(s, xml_p5t()) {
                Some(k) => k,
                None => last_three(s),
            },
        },
    }
}

fn slash_all(v: &[char]) -> (out: Vec<char>)
    ensures
        out@ == slashed(v@),
{
    let mut out: Vec<char> = Vec::new();
    let mut i: usize = 0;
    while i < v.len()
        invariant
            i <= v.len(),
            out@ == slashed(v@.take(i as int)),
        decreases v.len() - i,
    {
        out.push(if v[i] == '\\' { '/' } else { v[i] });
        assert(slashed(v@.take(i + 1)) =~= slashed(v@.take(i as int)).push(out@.last()));
        i += 1;
    }
    assert(v@.take(i as int) =~= v@);
    out
}

proof fn lemma_trim_slashes_skip(s: Seq<char>, i: int)
    requires
        0 <= i <= s.len(),
        forall|j: int| 0 <= j < i ==> #[trigger] s[j] == '/',
        i == s.len() || s[i] != '/',
    ensures
        trim_slashes(s) == s.skip(i),
    decreases i,
{
    if i > 0 {
        assert(s.drop_first().skip(i - 1) =~= s.skip(i));
        lemma_trim_slashes_skip(s.drop_first(), i - 1);
    } else {
        assert(s.skip(0) =~= s);
    }
}

fn after(v: &[char], anchor: &[char]) -> (r: Option<Vec<char>>)
    ensures
        r matches Some(k) ==> after_anchor(v@, anchor@) == Some(k@),
        r is None ==> after_anchor(v@, anchor@) is None,
{
    match find_pat(v, anchor) {
        Some(i) => {
            assert(crate::text::occurs_at(v@, anchor@, i as int));
            assert(i + anchor@.len() <= v@.len());
            let alen = anchor.len();
            assert(alen == anchor@.len());
            let vlen = v.len();
            let k = slice_of(v, i + alen, vlen);
            assert(k@ =~= v@.skip(i + anchor@.len()));
            Some(k)
        },
        None => None,
    }
}

/// `/abs/path/.../xml-p5/T/T01/T01n0001.xml` -> `T/T01/T01n0001.xml`.
/// Also accepts already-relative or windows-style paths.
pub fn normalize_file_key(file: &str) -> (r: String)
    ensures
        r@ == file_key(file@),
{
    let s = slash_all(chars_of(file).as_slice());
    let p5 = vec!['/', 'x', 'm', 'l', '-', 'p', '5', '/'];
    let iso = vec!['/', 'x', 'm', 'l', '-', 'i', 's', 'o', '/'];
    let p5t = vec!['/', 'x', 'm', 'l', '-', 'p', '5', 't', '/'];
    assert(p5@ =~= xml_p5());
    assert(iso@ =~= xml_iso());
    assert(p5t@ =~= xml_p5t());
    if let Some(k) = after(s.as_slice(), p5.as_slice()) {
        return string_from(k.as_slice());
    }
    if let Some(k) = after(s.as_slice(), iso.as_slice()) {
        return string_from(k.as_slice());
    }
    if let Some(k) = after(s.as_slice(), p5t.as_slice()) {
        return string_from(k.as_slice());
    }
    let mut lo: usize = 0;
    while lo < s.len() && s[lo] == '/'
        invariant
            lo <= s.len(),
            forall|j: int| 0 <= j < lo ==> #[trigger] s@[j] == '/',
        decreases s.len() - lo,
    {
        lo += 1;
    }
    proof {
        lemma_trim_slashes_skip(s@, lo as int);
    }
    let t = slice_of(s.as_slice(), lo, s.len());
    let slash = vec!['/'];
    let parts = split_chars(t.as_slice(), slash.as_slice());
    proof {
        assert(slash@ =~= seq!['/']);
        assert(t@ =~= s@.skip(lo as int));
    }
    let n = parts.len();
    if n >= 3 {
        let mut out: Vec<char> = Vec::new();
        push_all(&mut out, parts[n - 3].as_slice());
        out.push('/');
        push_all(&mut out, parts[n - 2].as_slice());
        out.push('/');
        push_all(&mut out, parts[n - 1].as_slice());
        proof {
            let pv = views(parts@);
            assert(pv[n - 3] == parts@[n - 3]@);
            assert(pv[n - 2] == parts@[n - 2]@);
            assert(pv[n - 1] == parts@[n - 1]@);
            assert(out@ =~= pv[n - 3] + seq!['/'] + pv[n - 2] + seq!['/'] + pv[n - 1]);
        }
        return string_from(out.as_slice());
    }
    string_from(s.as_slice())
}


// ---------------------------------------------------------------------------
// The index
// ---------------------------------------------------------------------------

/// The classification of one work.
#[derive(Clone, Debug)]
pub struct SidecarEntry {
    pub traditions: Vec<String>,
    pub period: String,
    pub origin: String,
    pub canon_name: Option<String>,
    pub author: Option<String>,
    pub main_title: Option<String>,
}

/// One record of the sidecar file, as read from it.
pub struct RawEntry {
    pub file: String,
    pub canon_name: Option<String>,
    pub traditions: Vec<String>,
    pub period: String,
    pub origin: String,
    pub author: Option<String>,
    pub main_title: Option<String>,
}

/// The entry that a record of the file gives.
pub open spec fn entry_of(e: RawEntry) -> SidecarEntry {
    SidecarEntry {
        traditions: e.traditions,
        period: e.period,
        origin: e.origin,
        canon_name: e.canon_name,
        author: e.author,
        main_title: e.main_title,
    }
}

/// The index that the records `rs` give: each record is filed under the
/// key of its path, records with an empty key are left out, and a later
/// record replaces an earlier one with the same key.
pub open spec fn index_of_records(rs: Seq<RawEntry>) -> Map<Seq<char>, SidecarEntry>
    decreases rs.len(),
{
    if rs.len() == 0 {
        Map::empty()
    } else {
        let m = index_of_records(rs.drop_last());
        let k = file_key(rs.last().file@);
        if k.len() == 0 {
            m
        } else {
            m.insert(k, entry_of(rs.last()))
        }
    }
}

pub open spec fn sidecar_map(es: Seq<(String, SidecarEntry)>) -> Map<Seq<char>, SidecarEntry>
    decreases es.len(),
{
    if es.len() == 0 {
        Map::empty()
    } else {
        sidecar_map(es.drop_last()).insert(es.last().0@, es.last().1)
    }
}

pub open spec fn sidecar_keys_unique(es: Seq<(String, SidecarEntry)>) -> bool {
    forall|i: int, j: int| 0 <= i < j < es.len() ==> (#[trigger] es[i]).0@ != (#[trigger] es[j]).0@
}

proof fn lemma_sidecar_map(es: Seq<(String, SidecarEntry)>, k: Seq<char>)
    requires
        sidecar_keys_unique(es),
    ensures
        sidecar_map(es).contains_key(k) <==> exists|i: int| 0 <= i < es.len() && (#[trigger] es[i]).0@ == k,
        forall|i: int| 0 <= i < es.len() && (#[trigger] es[i]).0@ == k ==> sidecar_map(es)[k] == es[i].1,
    decreases es.len(),
{
    if es.len() > 0 {
        let init = es.drop_last();
        assert forall|i: int, j: int| 0 <= i < j < init.len() implies (#[trigger] init[i]).0@ != (
        #[trigger] init[j]).0@ by {
            assert(init[i] == es[i] && init[j] == es[j]);
        }
        lemma_sidecar_map(init, k);
        if sidecar_map(es).contains_key(k) && es.last().0@ != k {
            let i = choose|i: int| 0 <= i < init.len() && (#[trigger] init[i]).0@ == k;
            assert(es[i] == init[i]);
        }
        if exists|i: int| 0 <= i < es.len() && (#[trigger] es[i]).0@ == k {
            let i = choose|i: int| 0 <= i < es.len() && (#[trigger] es[i]).0@ == k;
            if i < es.len() - 1 {
                assert(init[i] == es[i]);
            }
        }
        assert forall|i: int| 0 <= i < es.len() && (#[trigger] es[i]).0@ == k implies sidecar_map(es)[k]
            == es[i].1 by {
            if i < es.len() - 1 {
                assert(init[i] == es[i]);
            }
        }
    }
}

proof fn lemma_sidecar_map_len(es: Seq<(String, SidecarEntry)>)
    requires
        sidecar_keys_unique(es),
    ensures
        sidecar_map(es).dom().finite(),
        sidecar_map(es).dom().len() == es.len(),
    decreases es.len(),
{
    if es.len() > 0 {
        let init = es.drop_last();
        assert forall|i: int, j: int| 0 <= i < j < init.len() implies (#[trigger] init[i]).0@ != (
        #[trigger] init[j]).0@ by {
            assert(init[i] == es[i] && init[j] == es[j]);
        }
        lemma_sidecar_map_len(init);
        lemma_sidecar_map(init, es.last().0@);
        if sidecar_map(init).contains_key(es.last().0@) {
            let i = choose|i: int| 0 <= i < init.len() && (#[trigger] init[i]).0@ == es.last().0@;
            assert(init[i] == es[i]);
        }
    }
}

proof fn lemma_sidecar_map_update(es: Seq<(String, SidecarEntry)>, i: int, e: (String, SidecarEntry))
    requires
        sidecar_keys_unique(es),
        0 <= i < es.len(),
        es[i].0@ == e.0@,
    ensures
        sidecar_keys_unique(es.update(i, e)),
        sidecar_map(es.update(i, e)) == sidecar_map(es).insert(e.0@, e.1),
{
    let es2 = es.update(i, e);
    assert forall|a: int, b: int| 0 <= a < b < es2.len() implies (#[trigger] es2[a]).0@ != (
    #[trigger] es2[b]).0@ by {
        assert(es2[a].0@ == es[a].0@ && es2[b].0@ == es[b].0@);
    }
    assert forall|k: Seq<char>| #![auto] sidecar_map(es2).contains_key(k) == sidecar_map(es).insert(
        e.0@,
        e.1,
    ).contains_key(k) by {
        lemma_sidecar_map(es, k);
        lemma_sidecar_map(es2, k);
        if sidecar_map(es2).contains_key(k) {
            let j = choose|j: int| 0 <= j < es2.len() && (#[trigger] es2[j]).0@ == k;
            assert(es[j].0@ == k);
        }
        if sidecar_map(es).contains_key(k) {
            let j = choose|j: int| 0 <= j < es.len() && (#[trigger] es[j]).0@ == k;
            assert(es2[j].0@ == k);
        }
    }
    assert forall|k: Seq<char>| #![auto] sidecar_map(es2).contains_key(k) implies sidecar_map(es2)[k]
        == sidecar_map(es).insert(e.0@, e.1)[k] by {
        lemma_sidecar_map(es, k);
        lemma_sidecar_map(es2, k);
        let j = choose|j: int| 0 <= j < es2.len() && (#[trigger] es2[j]).0@ == k;
        if j != i {
            assert(es2[j] == es[j]);
        }
    }
    assert(sidecar_map(es2) =~= sidecar_map(es).insert(e.0@, e.1));
}

/// Corpus-relative XML path -> classification.
pub struct SidecarIndex {
    map: Vec<(String, SidecarEntry)>,
    pub source_path: Option<std::path::PathBuf>,
}

impl SidecarIndex {
    /// Was the index read from a file on disk?
    pub closed spec fn has_source(&self) -> bool {
        self.source_path is Some
    }

    #[verifier::type_invariant]
    spec fn wf(self) -> bool {
        sidecar_keys_unique(self.map@)
    }
}

impl View for SidecarIndex {
    type V = Map<Seq<char>, SidecarEntry>;

    closed spec fn view(&self) -> Map<Seq<char>, SidecarEntry> {
        sidecar_map(self.map@)
    }
}

fn sidecar_pos(es: &Vec<(String, SidecarEntry)>, key: &str) -> (r: Option<usize>)
    requires
        sidecar_keys_unique(es@),
    ensures
        r is Some <==> sidecar_map(es@).contains_key(key@),
        r matches Some(i) ==> i < es@.len() && es@[i as int].0@ == key@ && sidecar_map(es@)[key@]
            == es@[i as int].1,
{
    let mut i: usize = 0;
    while i < es.len()
        invariant
            i <= es.len(),
            sidecar_keys_unique(es@),
            forall|j: int| 0 <= j < i ==> (#[trigger] es@[j]).0@ != key@,
        decreases es.len() - i,
    {
        if str_eq(es[i].0.as_str(), key) {
            proof {
                lemma_sidecar_map(es@, key@);
            }
            return Some(i);
        }
        i += 1;
    }
    proof {
        lemma_sidecar_map(es@, key@);
    }
    None
}


/// The work-level key of a per-fascicle path: `T/T01/T01n0001_001.xml` ->
/// `T/T01/T01n0001.xml`. `None` when the path has no `/`, its file name has
/// no `.`, or its stem has no fascicle suffix.
pub open spec fn fascicle_key(p: Seq<char>) -> Option<Seq<char>> {
    let s = last_index_of(p, '/');
    let dir = p.take(s);
    let file = p.skip(s + 1);
    let d = last_index_of(file, '.');
    let stem = file.take(d);
    let ext = file.skip(d + 1);
    if s < 0 || d < 0 || fascicle_stem(stem) == stem {
        None
    } else {
        Some(dir + seq!['/'] + fascicle_stem(stem) + seq!['.'] + ext)
    }
}

/// What a lookup of `p` finds in `m`: the entry filed under `p`, else the one
/// filed under its work-level key.
pub open spec fn lookup_in(m: Map<Seq<char>, SidecarEntry>, p: Seq<char>) -> Option<SidecarEntry> {
    if m.contains_key(p) {
        Some(m[p])
    } else {
        match fascicle_key(p) {
            Some(k) => if m.contains_key(k) {
                Some(m[k])
            } else {
                None
            },
            None => None,
        }
    }
}

fn fascicle_key_of(p: &[char]) -> (r: Option<Vec<char>>)
    ensures
        r matches Some(k) ==> fascicle_key(p@) == Some(k@),
        r is None ==> fascicle_key(p@) is None,
{
    proof {
        lemma_last_index_of(p@, '/');
    }
    let s = match rfind_char(p, '/') {
        Some(s) => s,
        None => return None,
    };
    let plen = p.len();
    assert(s < plen);
    let dir = slice_of(p, 0, s);
    let file = slice_of(p, s + 1, plen);
    proof {
        assert(dir@ =~= p@.take(s as int));
        assert(file@ =~= p@.skip(s + 1));
        lemma_last_index_of(file@, '.');
    }
    let d = match rfind_char(file.as_slice(), '.') {
        Some(d) => d,
        None => return None,
    };
    let flen = file.len();
    assert(d < flen);
    let stem = slice_of(file.as_slice(), 0, d);
    let ext = slice_of(file.as_slice(), d + 1, flen);
    proof {
        assert(stem@ =~= file@.take(d as int));
        assert(ext@ =~= file@.skip(d + 1));
    }
    let work_stem = strip_fascicle_suffix(stem.as_slice());
    if chars_eq(work_stem.as_slice(), stem.as_slice()) {
        return None;
    }
    let mut key = dir;
    key.push('/');
    push_all(&mut key, work_stem.as_slice());
    key.push('.');
    push_all(&mut key, ext.as_slice());
    Some(key)
}

impl SidecarIndex {
    /// The index of the records of a sidecar file (in file order).
    pub fn from_records(records: Vec<RawEntry>) -> (r: SidecarIndex)
        ensures
            r@ == index_of_records(records@),
            !r.has_source(),
    {
        let ghost rs = records@;
        let mut es: Vec<(String, SidecarEntry)> = Vec::new();
        for e in it: records
            invariant
                it.seq() == rs,
                sidecar_keys_unique(es@),
                sidecar_map(es@) == index_of_records(rs.take(it.index() as int)),
        {
            let ghost i = it.index();
            proof {
                assert(rs.take(i + 1).drop_last() =~= rs.take(i as int));
                assert(rs.take(i + 1).last() == e);
            }
            let key = normalize_file_key(e.file.as_str());
            if !key.as_str().is_empty() {
                let entry = SidecarEntry {
                    traditions: e.traditions,
                    period: e.period,
                    origin: e.origin,
                    canon_name: e.canon_name,
                    author: e.author,
                    main_title: e.main_title,
                };
                let ghost old_es = es@;
                match sidecar_pos(&es, key.as_str()) {
                    Some(k) => {
                        proof {
                            lemma_sidecar_map_update(old_es, k as int, (key, entry));
                        }
                        es.set(k, (key, entry));
                    },
                    None => {
                        es.push((key, entry));
                        proof {
                            assert(es@.drop_last() =~= old_es);
                            assert forall|a: int, b: int|
                                0 <= a < b < es@.len() implies (#[trigger] es@[a]).0@ != (
                                #[trigger] es@[b]).0@ by {
                                if b == es@.len() - 1 {
                                    lemma_sidecar_map(old_es, es@[b].0@);
                                    assert(old_es[a] == es@[a]);
                                } else {
                                    assert(old_es[a] == es@[a] && old_es[b] == es@[b]);
                                }
                            }
                        }
                    },
                }
            }
        }
        proof {
            assert(rs.take(rs.len() as int) =~= rs);
        }
        SidecarIndex { map: es, source_path: None }
    }

    pub fn len(&self) -> (r: usize)
        ensures
            r == self@.len(),
    {
        proof {
            use_type_invariant(self);
            lemma_sidecar_map_len(self.map@);
        }
        self.map.len()
    }

    pub fn is_empty(&self) -> (r: bool)
        ensures
            r == (self@.len() == 0),
    {
        proof {
            use_type_invariant(self);
            lemma_sidecar_map_len(self.map@);
        }
        self.map.len() == 0
    }

    /// Look up a rel_path like `T/T01/T01n0001.xml`. For ISO per-fascicle
    /// files like `T/T01/T01n0001_001.xml`, also try the work-level key
    /// by stripping the trailing `_NNN` suffix from the file stem.
    pub fn lookup(&self, rel_path: &str) -> (r: Option<&SidecarEntry>)
        ensures
            lookup_in(self@, rel_path@) == match r {
                Some(e) => Some(*e),
                None => None,
            },
    {
        proof {
            use_type_invariant(self);
        }
        if let Some(i) = sidecar_pos(&self.map, rel_path) {
            return Some(&self.map[i].1);
        }
        let p = chars_of(rel_path);
        let key = match fascicle_key_of(p.as_slice()) {
            Some(k) => k,
            None => return None,
        };
        let key_str = string_from(key.as_slice());
        match sidecar_pos(&self.map, key_str.as_str()) {
            Some(i) => Some(&self.map[i].1),
            None => None,
        }
    }
}


// ---------------------------------------------------------------------------
// The fascicle fallback
// ---------------------------------------------------------------------------

proof fn lemma_last_index_after(a: Seq<char>, b: Seq<char>, c: char)
    requires
        !b.contains(c),
    ensures
        last_index_of(a + b, c) == last_index_of(a, c),
    decreases b.len(),
{
    if b.len() > 0 {
        let b2 = b.drop_last();
        assert((a + b).drop_last() =~= a + b2);
        assert((a + b).last() == b.last());
        assert(!b2.contains(c)) by {
            if b2.contains(c) {
                let j = choose|j: int| 0 <= j < b2.len() && b2[j] == c;
                assert(b[j] == c);
            }
        }
        assert(b.last() != c) by {
            assert(b[b.len() - 1] == b.last());
        }
        lemma_last_index_after(a, b2, c);
    } else {
        assert(a + b =~= a);
    }
}

proof fn lemma_last_index_at(a: Seq<char>, b: Seq<char>, c: char)
    requires
        !b.contains(c),
    ensures
        last_index_of(a.push(c) + b, c) == a.len(),
{
    lemma_last_index_after(a.push(c), b, c);
    assert(a.push(c).drop_last() =~= a);
}

/// A per-fascicle file `dir/stem_NNN.ext` (a non-empty run of ASCII digits
/// after the last `_` of the file stem) that the index does not list is
/// looked up under its work-level key `dir/stem.ext`.
pub proof fn lookup_falls_back_to_work(
    m: Map<Seq<char>, SidecarEntry>,
    dir: Seq<char>,
    stem: Seq<char>,
    digits: Seq<char>,
    ext: Seq<char>,
)
    requires
        digits.len() > 0,
        forall|j: int| 0 <= j < digits.len() ==> crate::text::is_ascii_digit(#[trigger] digits[j]),
        !stem.contains('/'),
        !ext.contains('/'),
        !ext.contains('.'),
    ensures
        ({
            let p = dir + seq!['/'] + stem + seq!['_'] + digits + seq!['.'] + ext;
            let w = dir + seq!['/'] + stem + seq!['.'] + ext;
            lookup_in(m, p) == if m.contains_key(p) {
                Some(m[p])
            } else if m.contains_key(w) {
                Some(m[w])
            } else {
                None
            }
        }),
{
    let p = dir + seq!['/'] + stem + seq!['_'] + digits + seq!['.'] + ext;
    let w = dir + seq!['/'] + stem + seq!['.'] + ext;
    let file = stem + seq!['_'] + digits + seq!['.'] + ext;
    let fstem = stem + seq!['_'] + digits;
    assert(!digits.contains('/') && !digits.contains('.') && !digits.contains('_')) by {
        if digits.contains('/') || digits.contains('.') || digits.contains('_') {
            let j = choose|j: int| 0 <= j < digits.len() && (digits[j] == '/' || digits[j] == '.' || digits[j] == '_');
            assert(crate::text::is_ascii_digit(digits[j]));
        }
    }
    // The last `/` of the path ends the directory.
    assert(!file.contains('/')) by {
        if file.contains('/') {
            let j = choose|j: int| 0 <= j < file.len() && file[j] == '/';
            if j < stem.len() {
                assert(stem[j] == file[j]);
            } else if j == stem.len() {
            } else if j < stem.len() + 1 + digits.len() {
                assert(digits[j - stem.len() - 1] == file[j]);
            } else if j == stem.len() + 1 + digits.len() {
            } else {
                assert(ext[j - stem.len() - 2 - digits.len()] == file[j]);
            }
        }
    }
    assert(p =~= dir.push('/') + file);
    lemma_last_index_at(dir, file, '/');
    let s = last_index_of(p, '/');
    assert(s == dir.len());
    assert(p.take(s) =~= dir);
    assert(p.skip(s + 1) =~= file);
    // The last `.` of the file name starts the extension.
    assert(file =~= fstem.push('.') + ext);
    lemma_last_index_at(fstem, ext, '.');
    let d = last_index_of(file, '.');
    assert(d == fstem.len());
    assert(file.take(d) =~= fstem);
    assert(file.skip(d + 1) =~= ext);
    // The last `_` of the stem comes before the digits.
    assert(fstem =~= stem.push('_') + digits);
    lemma_last_index_at(stem, digits, '_');
    let i = last_index_of(fstem, '_');
    assert(i == stem.len());
    assert forall|j: int| i < j < fstem.len() implies crate::text::is_ascii_digit(#[trigger] fstem[j]) by {
        assert(fstem[j] == digits[j - stem.len() - 1]);
    }
    assert(fstem.take(i) =~= stem);
    assert(fascicle_stem(fstem) == stem);
    assert(fstem.len() != stem.len());
    assert(fascicle_key(p) == Some(dir + seq!['/'] + stem + seq!['.'] + ext));
}

} // verus!
