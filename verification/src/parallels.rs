//! Cross-canon parallel works, one line per work in the parallels list:
//! `{work_id} {title} ({juan}卷)【...】 {refs...}`.

use vstd::prelude::*;
use crate::catalog::{ref_id, normalize_ref_id};
use crate::text::{chars_eq, chars_of, find_char, index_of, lemma_index_of, lines, lines_of, slice_of, split_by, split_chars, str_eq, string_from, trim, trimmed, views, strs};

verus! {

/// Where the cross-references of a line's rest start: after the first `】`,
/// else after the first `)`, else at the end.
pub open spec fn refs_start(rest: Seq<char>) -> int {
    let b = index_of(rest, '】');
    let p = index_of(rest, ')');
    if b < rest.len() {
        b + 1
    } else if p < rest.len() {
        p + 1
    } else {
        rest.len() as int
    }
}

pub open spec fn is_upper_ascii(c: char) -> bool {
    'A' <= c && c <= 'Z'
}

pub open spec fn is_digit_ascii(c: char) -> bool {
    '0' <= c && c <= '9'
}

pub open spec fn is_alnum_ascii(c: char) -> bool {
    is_upper_ascii(c) || is_digit_ascii(c) || ('a' <= c && c <= 'z')
}

/// `s` looks like a CBETA work id `{CANON}{TOME}n{SUTRA}`: upper-case
/// canon letters, the tome's digits, `n`, and the sutra's letters and
/// digits (`T01n0001`, `J01nA001`).
pub open spec fn work_id_shape(s: Seq<char>) -> bool {
    exists|a: int, b: int| #[trigger] shape_at(s, a, b)
}

/// `s` is canon letters before `a`, tome digits from `a` to `b`, `n` at
/// `b`, and a non-empty run of letters and digits after it.
pub open spec fn shape_at(s: Seq<char>, a: int, b: int) -> bool {
    &&& 1 <= a < b && b + 1 < s.len()
    &&& forall|k: int| 0 <= k < a ==> is_upper_ascii(#[trigger] s[k])
    &&& forall|k: int| a <= k < b ==> is_digit_ascii(#[trigger] s[k])
    &&& s[b] == 'n'
    &&& forall|k: int| b < k < s.len() ==> is_alnum_ascii(#[trigger] s[k])
}

/// `refs` with the reference written by `token` added, unless it does not
/// look like a work id, is the work itself, or is already there.
pub open spec fn add_ref(refs: Seq<Seq<char>>, token: Seq<char>, work_id: Seq<char>) -> Seq<Seq<char>> {
    let r = ref_id(trim(token));
    if !work_id_shape(r) || r == work_id || refs.contains(r) {
        refs
    } else {
        refs.push(r)
    }
}

/// The references written by `tokens`, in order, each once.
pub open spec fn refs_from(tokens: Seq<Seq<char>>, work_id: Seq<char>) -> Seq<Seq<char>>
    decreases tokens.len(),
{
    if tokens.len() == 0 {
        Seq::empty()
    } else {
        add_ref(refs_from(tokens.drop_last(), work_id), tokens.last(), work_id)
    }
}

/// The separators between cross-references.
pub open spec fn ref_seps() -> Seq<char> {
    seq![',', ' ', '\t']
}

/// The work id of a line and its cross-references; `None` for a blank line,
/// one without a space, or one whose id is empty.
pub open spec fn line_refs(line: Seq<char>) -> Option<(Seq<char>, Seq<Seq<char>>)> {
    let t = trim(line);
    let sp = index_of(t, ' ');
    let work_id = ref_id(t.take(sp));
    let rest = t.skip(sp + 1);
    if t.len() == 0 || sp >= t.len() || work_id.len() == 0 {
        None
    } else {
        Some((work_id, refs_from(split_by(rest.skip(refs_start(rest)), ref_seps()), work_id)))
    }
}

/// The parallels that the lines `ls` give: a line with references sets the
/// entry of its work (a later line replaces an earlier one).
pub open spec fn parallels_of(ls: Seq<Seq<char>>) -> Map<Seq<char>, Seq<Seq<char>>>
    decreases ls.len(),
{
    if ls.len() == 0 {
        Map::empty()
    } else {
        let m = parallels_of(ls.drop_last());
        match line_refs(ls.last()) {
            Some((id, refs)) => if refs.len() > 0 {
                m.insert(id, refs)
            } else {
                m
            },
            None => m,
        }
    }
}

/// Work id -> parallel editions.
pub struct ParallelWorksIndex {
    map: Vec<(String, Vec<String>)>,
}

pub open spec fn pairs_map(es: Seq<(String, Vec<String>)>) -> Map<Seq<char>, Seq<Seq<char>>>
    decreases es.len(),
{
    if es.len() == 0 {
        Map::empty()
    } else {
        pairs_map(es.drop_last()).insert(es.last().0@, strs(es.last().1@))
    }
}

pub open spec fn keys_unique(es: Seq<(String, Vec<String>)>) -> bool {
    forall|i: int, j: int| 0 <= i < j < es.len() ==> (#[trigger] es[i]).0@ != (#[trigger] es[j]).0@
}

proof fn lemma_pairs_map(es: Seq<(String, Vec<String>)>, k: Seq<char>)
    requires
        keys_unique(es),
    ensures
        pairs_map(es).contains_key(k) <==> exists|i: int| 0 <= i < es.len() && (#[trigger] es[i]).0@ == k,
        forall|i: int|
            0 <= i < es.len() && (#[trigger] es[i]).0@ == k ==> pairs_map(es)[k] == strs(es[i].1@),
    decreases es.len(),
{
    if es.len() > 0 {
        let init = es.drop_last();
        assert forall|i: int, j: int| 0 <= i < j < init.len() implies (#[trigger] init[i]).0@ != (
        #[trigger] init[j]).0@ by {
            assert(init[i] == es[i] && init[j] == es[j]);
        }
        lemma_pairs_map(init, k);
        if pairs_map(es).contains_key(k) && es.last().0@ != k {
            let i = choose|i: int| 0 <= i < init.len() && (#[trigger] init[i]).0@ == k;
            assert(es[i] == init[i]);
        }
        if exists|i: int| 0 <= i < es.len() && (#[trigger] es[i]).0@ == k {
            let i = choose|i: int| 0 <= i < es.len() && (#[trigger] es[i]).0@ == k;
            if i < es.len() - 1 {
                assert(init[i] == es[i]);
            }
        }
        assert forall|i: int|
            0 <= i < es.len() && (#[trigger] es[i]).0@ == k implies pairs_map(es)[k] == strs(
            es[i].1@,
        ) by {
            if i < es.len() - 1 {
                assert(init[i] == es[i]);
            }
        }
    }
}

proof fn lemma_pairs_map_len(es: Seq<(String, Vec<String>)>)
    requires
        keys_unique(es),
    ensures
        pairs_map(es).dom().finite(),
        pairs_map(es).dom().len() == es.len(),
    decreases es.len(),
{
    if es.len() > 0 {
        let init = es.drop_last();
        assert forall|i: int, j: int| 0 <= i < j < init.len() implies (#[trigger] init[i]).0@ != (
        #[trigger] init[j]).0@ by {
            assert(init[i] == es[i] && init[j] == es[j]);
        }
        lemma_pairs_map_len(init);
        lemma_pairs_map(init, es.last().0@);
        if pairs_map(init).contains_key(es.last().0@) {
            let i = choose|i: int| 0 <= i < init.len() && (#[trigger] init[i]).0@ == es.last().0@;
            assert(init[i] == es[i]);
        }
    }
}

/// Replacing the value at position `i` replaces the key's value in the map.
proof fn lemma_pairs_map_update(es: Seq<(String, Vec<String>)>, i: int, e: (String, Vec<String>))
    requires
        keys_unique(es),
        0 <= i < es.len(),
        es[i].0@ == e.0@,
    ensures
        keys_unique(es.update(i, e)),
        pairs_map(es.update(i, e)) == pairs_map(es).insert(e.0@, strs(e.1@)),
{
    let es2 = es.update(i, e);
    assert forall|a: int, b: int| 0 <= a < b < es2.len() implies (#[trigger] es2[a]).0@ != (
    #[trigger] es2[b]).0@ by {
        assert(es2[a].0@ == es[a].0@ && es2[b].0@ == es[b].0@);
    }
    assert forall|k: Seq<char>| #![auto] pairs_map(es2).contains_key(k) == pairs_map(es).insert(
        e.0@,
        strs(e.1@),
    ).contains_key(k) by {
        lemma_pairs_map(es, k);
        lemma_pairs_map(es2, k);
        if pairs_map(es2).contains_key(k) {
            let j = choose|j: int| 0 <= j < es2.len() && (#[trigger] es2[j]).0@ == k;
            assert(es[j].0@ == k);
        }
        if pairs_map(es).contains_key(k) {
            let j = choose|j: int| 0 <= j < es.len() && (#[trigger] es[j]).0@ == k;
            assert(es2[j].0@ == k);
        }
    }
    assert forall|k: Seq<char>| #![auto] pairs_map(es2).contains_key(k) implies pairs_map(es2)[k]
        == pairs_map(es).insert(e.0@, strs(e.1@))[k] by {
        lemma_pairs_map(es, k);
        lemma_pairs_map(es2, k);
        let j = choose|j: int| 0 <= j < es2.len() && (#[trigger] es2[j]).0@ == k;
        if j != i {
            assert(es2[j] == es[j]);
        }
    }
    assert(pairs_map(es2) =~= pairs_map(es).insert(e.0@, strs(e.1@)));
}


fn strings_contain(v: &Vec<String>, s: &str) -> (r: bool)
    ensures
        r == strs(v@).contains(s@),
{
    let mut i: usize = 0;
    while i < v.len()
        invariant
            i <= v.len(),
            forall|j: int| 0 <= j < i ==> (#[trigger] v@[j])@ != s@,
        decreases v.len() - i,
    {
        if str_eq(v[i].as_str(), s) {
            assert(strs(v@)[i as int] == s@);
            return true;
        }
        i += 1;
    }
    proof {
        if strs(v@).contains(s@) {
            let j = choose|j: int| 0 <= j < strs(v@).len() && strs(v@)[j] == s@;
            assert(v@[j]@ == s@);
        }
    }
    false
}

/// Does `v` look like a work id (see `work_id_shape`)?
fn looks_like_work_id(v: &[char]) -> (r: bool)
    ensures
        r == work_id_shape(v@),
{
    let n = v.len();
    let mut a: usize = 0;
    while a < n && 'A' <= v[a] && v[a] <= 'Z'
        invariant
            a <= n,
            n == v@.len(),
            forall|k: int| 0 <= k < a ==> is_upper_ascii(#[trigger] v@[k]),
        decreases n - a,
    {
        a += 1;
    }
    let mut b: usize = a;
    while b < n && '0' <= v[b] && v[b] <= '9'
        invariant
            a <= b <= n,
            n == v@.len(),
            forall|k: int| a <= k < b ==> is_digit_ascii(#[trigger] v@[k]),
        decreases n - b,
    {
        b += 1;
    }
    // Any split that fits the shape is this one.
    assert forall|a2: int, b2: int| #[trigger] shape_at(v@, a2, b2) implies a2 == a && b2 == b by {
        if a2 < a {
            assert(is_upper_ascii(v@[a2]) && is_digit_ascii(v@[a2]));
        } else if a2 > a {
            assert(is_upper_ascii(v@[a as int]));
        }
        if b2 < b {
            assert(is_digit_ascii(v@[b2]));
        } else if b2 > b {
            assert(is_digit_ascii(v@[b as int]));
        }
    }
    if a == 0 || b == a || n - b <= 1 || v[b] != 'n' {
        proof {
            if work_id_shape(v@) {
                let (a2, b2) = choose|a2: int, b2: int| shape_at(v@, a2, b2);
                assert(a2 == a && b2 == b);
            }
        }
        return false;
    }
    let mut k: usize = b + 1;
    while k < n
        invariant
            b + 1 <= k <= n,
            n == v@.len(),
            forall|j: int| b < j < k ==> is_alnum_ascii(#[trigger] v@[j]),
        decreases n - k,
    {
        let c = v[k];
        if !(('A' <= c && c <= 'Z') || ('0' <= c && c <= '9') || ('a' <= c && c <= 'z')) {
            proof {
                assert(!is_alnum_ascii(v@[k as int]));
                if work_id_shape(v@) {
                    let (a2, b2) = choose|a2: int, b2: int| shape_at(v@, a2, b2);
                    assert(a2 == a && b2 == b);
                }
            }
            return false;
        }
        k += 1;
    }
    assert(shape_at(v@, a as int, b as int));
    true
}

/// The references written in `part` for the work `work_id`.
fn refs_of(part: &[char], work_id: &[char]) -> (r: Vec<String>)
    ensures
        strs(r@) == refs_from(split_by(part@, ref_seps()), work_id@),
{
    let seps = vec![',', ' ', '\t'];
    assert(seps@ =~= ref_seps());
    let tokens = split_chars(part, seps.as_slice());
    let ghost tv = views(tokens@);
    let mut refs: Vec<String> = Vec::new();
    let mut i: usize = 0;
    while i < tokens.len()
        invariant
            i <= tokens.len(),
            tv == views(tokens@),
            tv == split_by(part@, ref_seps()),
            strs(refs@) == refs_from(tv.take(i as int), work_id@),
        decreases tokens.len() - i,
    {
        proof {
            assert(tv.take(i + 1).drop_last() =~= tv.take(i as int));
            assert(tv.take(i + 1).last() == tokens@[i as int]@);
        }
        let t = trimmed(tokens[i].as_slice());
        let r = normalize_ref_id(t.as_slice());
        if looks_like_work_id(r.as_slice()) && !chars_eq(r.as_slice(), work_id) {
            let rs = string_from(r.as_slice());
            if !strings_contain(&refs, rs.as_str()) {
                let ghost before = refs@;
                refs.push(rs);
                proof {
                    assert(strs(refs@) =~= strs(before).push(r@));
                }
            }
        }
        i += 1;
    }
    proof {
        assert(tv.take(i as int) =~= tv);
    }
    refs
}

/// Position of `key` among the keys of `es`.
fn key_pos(es: &Vec<(String, Vec<String>)>, key: &str) -> (r: Option<usize>)
    requires
        keys_unique(es@),
    ensures
        r is Some <==> pairs_map(es@).contains_key(key@),
        r matches Some(i) ==> i < es@.len() && es@[i as int].0@ == key@,
{
    let mut i: usize = 0;
    while i < es.len()
        invariant
            i <= es.len(),
            keys_unique(es@),
            forall|j: int| 0 <= j < i ==> (#[trigger] es@[j]).0@ != key@,
        decreases es.len() - i,
    {
        if str_eq(es[i].0.as_str(), key) {
            proof {
                lemma_pairs_map(es@, key@);
            }
            return Some(i);
        }
        i += 1;
    }
    proof {
        lemma_pairs_map(es@, key@);
    }
    None
}

impl ParallelWorksIndex {
    #[verifier::type_invariant]
    spec fn wf(self) -> bool {
        keys_unique(self.map@)
    }
}

impl View for ParallelWorksIndex {
    type V = Map<Seq<char>, Seq<Seq<char>>>;

    closed spec fn view(&self) -> Map<Seq<char>, Seq<Seq<char>>> {
        pairs_map(self.map@)
    }
}

fn build_parallels(ls: &Vec<Vec<char>>) -> (r: ParallelWorksIndex)
    ensures
        r@ == parallels_of(views(ls@)),
{
    let ghost lv = views(ls@);
    let mut es: Vec<(String, Vec<String>)> = Vec::new();
    let mut i: usize = 0;
    while i < ls.len()
        invariant
            i <= ls.len(),
            lv == views(ls@),
            keys_unique(es@),
            pairs_map(es@) == parallels_of(lv.take(i as int)),
        decreases ls.len() - i,
    {
        proof {
            assert(lv.take(i + 1).drop_last() =~= lv.take(i as int));
            assert(lv.take(i + 1).last() == ls@[i as int]@);
        }
        let line = trimmed(ls[i].as_slice());
        proof {
            lemma_index_of(line@, ' ');
        }
        if line.len() > 0 {
            if let Some(sp) = find_char(line.as_slice(), ' ') {
                let raw_id = slice_of(line.as_slice(), 0, sp);
                let rest = slice_of(line.as_slice(), sp + 1, line.len());
                proof {
                    assert(raw_id@ =~= line@.take(sp as int));
                    assert(rest@ =~= line@.skip(sp + 1));
                }
                let id = normalize_ref_id(raw_id.as_slice());
                if id.len() > 0 {
                    proof {
                        lemma_index_of(rest@, '】');
                        lemma_index_of(rest@, ')');
                    }
                    let start = match find_char(rest.as_slice(), '】') {
                        Some(b) => b + 1,
                        None => match find_char(rest.as_slice(), ')') {
                            Some(p) => p + 1,
                            None => rest.len(),
                        },
                    };
                    let part = slice_of(rest.as_slice(), start, rest.len());
                    proof {
                        assert(part@ =~= rest@.skip(start as int));
                    }
                    let refs = refs_of(part.as_slice(), id.as_slice());
                    if refs.len() > 0 {
                        let id_str = string_from(id.as_slice());
                        let ghost old_es = es@;
                        match key_pos(&es, id_str.as_str()) {
                            Some(k) => {
                                proof {
                                    lemma_pairs_map_update(old_es, k as int, (id_str, refs));
                                }
                                es.set(k, (id_str, refs));
                            },
                            None => {
                                es.push((id_str, refs));
                                proof {
                                    assert(es@.drop_last() =~= old_es);
                                    assert forall|a: int, b: int|
                                        0 <= a < b < es@.len() implies (#[trigger] es@[a]).0@ != (
                                        #[trigger] es@[b]).0@ by {
                                        if b == es@.len() - 1 {
                                            lemma_pairs_map(old_es, id@);
                                            assert(old_es[a] == es@[a]);
                                        } else {
                                            assert(old_es[a] == es@[a] && old_es[b] == es@[b]);
                                        }
                                    }
                                }
                            },
                        }
                    }
                }
            }
        }
        i += 1;
    }
    proof {
        assert(lv.take(i as int) =~= lv);
    }
    ParallelWorksIndex { map: es }
}

/// Parse the text of the parallels list. Each line starts with
/// `{work_id} {title} ({juan}卷)...`, optionally followed by comma-, tab- or
/// space-separated cross-references after the 【】 block; anchors and
/// fascicle suffixes are stripped from every id.
pub fn parse_parallel_works(text: &str) -> (r: ParallelWorksIndex)
    ensures
        r@ == parallels_of(lines(text@)),
{
    let v = chars_of(text);
    let ls = lines_of(v.as_slice());
    build_parallels(&ls)
}

/// The parallels held in the bytes of the parallels list.
pub fn parallel_works(bytes: &[u8]) -> (r: ParallelWorksIndex)
    ensures
        r@ == parallels_of(lines(crate::catalog::lossy_text(bytes@))),
{
    let text = crate::catalog::utf8_lossy(bytes);
    parse_parallel_works(text.as_str())
}

impl ParallelWorksIndex {
    pub fn len(&self) -> (r: usize)
        ensures
            r == self@.len(),
    {
        proof {
            use_type_invariant(self);
            lemma_pairs_map_len(self.map@);
        }
        self.map.len()
    }

    /// Return the work_ids of parallel editions for `work_id`.
    /// Does NOT include `work_id` itself.
    pub fn parallels(&self, work_id: &str) -> (r: Option<&[String]>)
        ensures
            r is Some <==> self@.contains_key(work_id@),
            r matches Some(v) ==> strs(v@) == self@[work_id@],
    {
        proof {
            use_type_invariant(self);
        }
        match key_pos(&self.map, work_id) {
            Some(k) => {
                proof {
                    lemma_pairs_map(self.map@, work_id@);
                }
                Some(self.map[k].1.as_slice())
            },
            None => None,
        }
    }
}


proof fn lemma_no_anchor(s: Seq<char>)
    requires
        work_id_shape(s),
    ensures
        !s.contains('#'),
{
    let (a, b) = choose|a: int, b: int| shape_at(s, a, b);
    if s.contains('#') {
        let i = choose|i: int| 0 <= i < s.len() && s[i] == '#';
        if i < a {
            assert(is_upper_ascii(s[i]));
        } else if i < b {
            assert(is_digit_ascii(s[i]));
        } else if i > b {
            assert(is_alnum_ascii(s[i]));
        }
    }
}

proof fn lemma_refs_from(tokens: Seq<Seq<char>>, work_id: Seq<char>)
    ensures
        !refs_from(tokens, work_id).contains(work_id),
        forall|i: int| 0 <= i < refs_from(tokens, work_id).len() ==> work_id_shape(#[trigger] refs_from(tokens, work_id)[i]),
        forall|i: int| 0 <= i < refs_from(tokens, work_id).len() ==> (#[trigger] refs_from(tokens, work_id)[i]).len() > 0,
        forall|i: int, j: int|
            0 <= i < j < refs_from(tokens, work_id).len() ==> (#[trigger] refs_from(tokens, work_id)[i])
                != (#[trigger] refs_from(tokens, work_id)[j]),
    decreases tokens.len(),
{
    if tokens.len() > 0 {
        lemma_refs_from(tokens.drop_last(), work_id);
        let prev = refs_from(tokens.drop_last(), work_id);
        let cur = refs_from(tokens, work_id);
        if cur != prev {
            let r = ref_id(trim(tokens.last()));
            assert(cur == prev.push(r));
            assert forall|i: int| 0 <= i < cur.len() implies cur[i] != work_id by {
                if i < prev.len() {
                    assert(cur[i] == prev[i]);
                }
            }
            assert forall|i: int, j: int| 0 <= i < j < cur.len() implies (#[trigger] cur[i]) != (#[trigger] cur[j]) by {
                if j < prev.len() {
                    assert(cur[i] == prev[i] && cur[j] == prev[j]);
                } else {
                    assert(cur[i] == prev[i]);
                    assert(prev.contains(prev[i]));
                }
            }
            assert forall|i: int| 0 <= i < cur.len() implies (#[trigger] cur[i]).len() > 0 && work_id_shape(cur[i]) by {
                if i < prev.len() {
                    assert(cur[i] == prev[i]);
                }
            }
        }
    }
}

/// The parallels of a work never list the work itself, nor a work twice,
/// nor an empty id; each listed id looks like a work id and carries no `#`
/// anchor; a work that has an entry has at least one parallel.
pub proof fn parallels_exclude_self(ls: Seq<Seq<char>>, k: Seq<char>)
    requires
        parallels_of(ls).contains_key(k),
    ensures
        !parallels_of(ls)[k].contains(k),
        forall|i: int| 0 <= i < parallels_of(ls)[k].len() ==> work_id_shape(#[trigger] parallels_of(ls)[k][i])
            && !parallels_of(ls)[k][i].contains('#'),
        parallels_of(ls)[k].len() > 0,
        forall|i: int| 0 <= i < parallels_of(ls)[k].len() ==> (#[trigger] parallels_of(ls)[k][i]).len() > 0,
        forall|i: int, j: int|
            0 <= i < j < parallels_of(ls)[k].len() ==> (#[trigger] parallels_of(ls)[k][i])
                != (#[trigger] parallels_of(ls)[k][j]),
    decreases ls.len(),
{
    let m = parallels_of(ls.drop_last());
    match line_refs(ls.last()) {
        Some((id, refs)) => {
            if refs.len() > 0 && id == k {
                let t = trim(ls.last());
                let sp = index_of(t, ' ');
                let rest = t.skip(sp + 1);
                lemma_refs_from(split_by(rest.skip(refs_start(rest)), ref_seps()), id);
                assert forall|i: int| 0 <= i < refs.len() implies work_id_shape(#[trigger] refs[i]) && !refs[i].contains('#') by {
                    lemma_no_anchor(refs[i]);
                }
            } else {
                parallels_exclude_self(ls.drop_last(), k);
            }
        },
        None => {
            parallels_exclude_self(ls.drop_last(), k);
        },
    }
}

} // verus!
