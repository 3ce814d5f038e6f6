//! Conversion of Kanripo plain-text repositories into TEI: paragraph
//! segmentation, README metadata, XML escaping and the TEI document; and
//! the work ids and running totals of a manifest of repositories.

use vstd::prelude::*;
use crate::text::{find_char, index_of, lemma_index_of, decimal_chars, decimal_of, last_index_of, lemma_last_index_of, rfind_char, chars_of, is_ws, lines, lines_of, matches_at, push_all, slice_of, string_from, trim, trimmed, views, strs, opt_view};

verus! {

// ---------------------------------------------------------------------------
// Characters
// ---------------------------------------------------------------------------

/// CJK unified ideographs (with extension A) and compatibility ideographs.
pub open spec fn is_cjk(ch: char) -> bool {
    ('\u{3400}' <= ch && ch <= '\u{4dbf}') || ('\u{4e00}' <= ch && ch <= '\u{9fff}') || ('\u{f900}'
        <= ch && ch <= '\u{faff}')
}

pub fn is_cjk_char(ch: char) -> (r: bool)
    ensures
        r == is_cjk(ch),
{
    ('\u{3400}' <= ch && ch <= '\u{4dbf}') || ('\u{4e00}' <= ch && ch <= '\u{9fff}') || ('\u{f900}'
        <= ch && ch <= '\u{faff}')
}

pub open spec fn has_cjk(s: Seq<char>) -> bool {
    exists|i: int| 0 <= i < s.len() && is_cjk(#[trigger] s[i])
}

/// Does `v` hold a CJK ideograph?
pub fn contains_cjk(v: &[char]) -> (r: bool)
    ensures
        r == has_cjk(v@),
{
    let mut i: usize = 0;
    while i < v.len()
        invariant
            i <= v.len(),
            forall|j: int| 0 <= j < i ==> !is_cjk(#[trigger] v@[j]),
        decreases v.len() - i,
    {
        if is_cjk_char(v[i]) {
            return true;
        }
        i += 1;
    }
    false
}

pub open spec fn starts_with(s: Seq<char>, p: Seq<char>) -> bool {
    p.len() <= s.len() && s.take(p.len() as int) == p
}

fn begins_with(v: &[char], p: &[char]) -> (r: bool)
    ensures
        r == starts_with(v@, p@),
{
    let r = matches_at(v, p, 0);
    proof {
        if p@.len() <= v@.len() {
            assert(v@.subrange(0, p@.len() as int) =~= v@.take(p@.len() as int));
        }
    }
    r
}

// ---------------------------------------------------------------------------
// Paragraphs
// ---------------------------------------------------------------------------

/// `s` without its leading byte-order marks.
pub open spec fn trim_bom(s: Seq<char>) -> Seq<char>
    decreases s.len(),
{
    if s.len() > 0 && s[0] == '\u{feff}' {
        trim_bom(s.drop_first())
    } else {
        s
    }
}

/// A line as a paragraph candidate: trimmed, byte-order marks dropped, trimmed.
pub open spec fn clean_line(l: Seq<char>) -> Seq<char> {
    trim(trim_bom(trim(l)))
}

/// Does a cleaned line make a paragraph: not empty, not a `#` comment, and
/// holding Chinese text?
pub open spec fn is_paragraph(c: Seq<char>) -> bool {
    c.len() > 0 && c[0] != '#' && has_cjk(c)
}

/// The paragraphs among the first `k` lines.
pub open spec fn paragraphs_upto(ls: Seq<Seq<char>>, k: int) -> Seq<Seq<char>>
    decreases k,
{
    if k <= 0 {
        Seq::empty()
    } else {
        paragraphs_upto(ls, k - 1) + if is_paragraph(clean_line(ls[k - 1])) {
            seq![clean_line(ls[k - 1])]
        } else {
            Seq::empty()
        }
    }
}

/// The paragraphs of a Kanripo text: one per line that holds Chinese text.
pub open spec fn paragraphs(raw: Seq<char>) -> Seq<Seq<char>> {
    paragraphs_upto(lines(raw), lines(raw).len() as int)
}

proof fn lemma_trim_bom_skip(s: Seq<char>, i: int)
    requires
        0 <= i <= s.len(),
        forall|j: int| 0 <= j < i ==> #[trigger] s[j] == '\u{feff}',
        i == s.len() || s[i] != '\u{feff}',
    ensures
        trim_bom(s) == s.skip(i),
    decreases i,
{
    if i > 0 {
        assert(s.drop_first().skip(i - 1) =~= s.skip(i));
        lemma_trim_bom_skip(s.drop_first(), i - 1);
    } else {
        assert(s.skip(0) =~= s);
    }
}

fn clean(l: &[char]) -> (r: Vec<char>)
    ensures
        r@ == clean_line(l@),
{
    let t = trimmed(l);
    let mut lo: usize = 0;
    while lo < t.len() && t[lo] == '\u{feff}'
        invariant
            lo <= t.len(),
            forall|j: int| 0 <= j < lo ==> #[trigger] t@[j] == '\u{feff}',
        decreases t.len() - lo,
    {
        lo += 1;
    }
    proof {
        lemma_trim_bom_skip(t@, lo as int);
    }
    let rest = slice_of(t.as_slice(), lo, t.len());
    assert(rest@ =~= t@.skip(lo as int));
    trimmed(rest.as_slice())
}

/// Split a Kanripo text into paragraphs: each non-empty line that is not a
/// `#` comment and holds Chinese text, trimmed.
pub fn segment_paragraphs(raw: &str) -> (r: Vec<String>)
    ensures
        strs(r@) == paragraphs(raw@),
{
    let cs = chars_of(raw);
    let ls = lines_of(cs.as_slice());
    let ghost lv = views(ls@);
    let mut out: Vec<String> = Vec::new();
    let mut i: usize = 0;
    while i < ls.len()
        invariant
            i <= ls.len(),
            lv == views(ls@),
            lv == lines(raw@),
            strs(out@) == paragraphs_upto(lv, i as int),
        decreases ls.len() - i,
    {
        let c = clean(ls[i].as_slice());
        assert(ls@[i as int]@ == lv[i as int]);
        if c.len() > 0 && c[0] != '#' && contains_cjk(c.as_slice()) {
            let ghost before = strs(out@);
            out.push(string_from(c.as_slice()));
            assert(strs(out@) =~= before.push(c@));
        }
        assert(strs(out@) =~= paragraphs_upto(lv, i + 1));
        i += 1;
    }
    out
}


// ---------------------------------------------------------------------------
// README metadata
// ---------------------------------------------------------------------------

/// The title that a trimmed line gives under the first of `ps` that starts
/// it with something after it.
pub open spec fn title_with(t: Seq<char>, ps: Seq<Seq<char>>) -> Option<Seq<char>>
    decreases ps.len(),
{
    if ps.len() == 0 {
        None
    } else if starts_with(t, ps[0]) && trim(t.skip(ps[0].len() as int)).len() > 0 {
        Some(trim(t.skip(ps[0].len() as int)))
    } else {
        title_with(t, ps.drop_first())
    }
}

pub open spec fn title_prefixes() -> Seq<Seq<char>> {
    seq!["#+TITLE:"@, "#+title:"@, "TITLE:"@, "Title:"@]
}

/// The first title that a line of a README gives.
pub open spec fn title_in(ls: Seq<Seq<char>>) -> Option<Seq<char>>
    decreases ls.len(),
{
    if ls.len() == 0 {
        None
    } else {
        match title_with(trim(ls[0]), title_prefixes()) {
            Some(x) => Some(x),
            None => title_in(ls.drop_first()),
        }
    }
}

fn title_of_line(t: &[char]) -> (r: Option<Vec<char>>)
    ensures
        r matches Some(x) ==> title_with(t@, title_prefixes()) == Some(x@),
        r is None ==> title_with(t@, title_prefixes()) is None,
{
    let ps = [chars_of("#+TITLE:"), chars_of("#+title:"), chars_of("TITLE:"), chars_of("Title:")];
    let ghost pv = seq![ps[0]@, ps[1]@, ps[2]@, ps[3]@];
    assert(pv =~= title_prefixes());
    assert(pv.skip(0) =~= pv);
    let mut k: usize = 0;
    while k < 4
        invariant
            k <= 4,
            pv == title_prefixes(),
            pv == seq![ps[0]@, ps[1]@, ps[2]@, ps[3]@],
            title_with(t@, pv) == title_with(t@, pv.skip(k as int)),
        decreases 4 - k,
    {
        let p = &ps[k];
        proof {
            assert(pv.skip(k as int)[0] == p@);
            assert(pv.skip(k as int).drop_first() =~= pv.skip(k + 1));
        }
        if begins_with(t, p.as_slice()) {
            let rest = slice_of(t, p.len(), t.len());
            assert(rest@ =~= t@.skip(p@.len() as int));
            let v = trimmed(rest.as_slice());
            if v.len() > 0 {
                return Some(v);
            }
        }
        k += 1;
    }
    None
}

/// The title of a Kanripo README: the first line that, trimmed, starts with
/// `#+TITLE:`, `#+title:`, `TITLE:` or `Title:` followed by a non-empty value.
pub fn title_from_readme(readme: Option<&str>) -> (r: Option<String>)
    ensures
        opt_view(r) == match readme {
            Some(s) => title_in(lines(s@)),
            None => None,
        },
{
    let text = match readme {
        Some(s) => s,
        None => return None,
    };
    let cs = chars_of(text);
    let ls = lines_of(cs.as_slice());
    let ghost lv = views(ls@);
    let mut i: usize = 0;
    assert(lv.skip(0) =~= lv);
    while i < ls.len()
        invariant
            i <= ls.len(),
            lv == views(ls@),
            lv == lines(text@),
            readme == Some(text),
            title_in(lv) == title_in(lv.skip(i as int)),
        decreases ls.len() - i,
    {
        proof {
            assert(lv.skip(i as int)[0] == ls@[i as int]@);
            assert(lv.skip(i as int).drop_first() =~= lv.skip(i + 1));
        }
        let t = trimmed(ls[i].as_slice());
        if let Some(x) = title_of_line(t.as_slice()) {
            assert(trim(lv.skip(i as int)[0]) == t@);
            assert(title_in(lv.skip(i as int)) == Some(x@));
            return Some(string_from(x.as_slice()));
        }
        i += 1;
    }
    proof {
        assert(lv.skip(i as int) =~= Seq::<Seq<char>>::empty());
    }
    None
}

/// `s` without its leading colons.
pub open spec fn trim_colons(s: Seq<char>) -> Seq<char>
    decreases s.len(),
{
    if s.len() > 0 && s[0] == ':' {
        trim_colons(s.drop_first())
    } else {
        s
    }
}

/// Position of the first whitespace character of `s`, or its length.
pub open spec fn ws_index(s: Seq<char>) -> int
    decreases s.len(),
{
    if s.len() == 0 {
        0
    } else if is_ws(s[0]) {
        0
    } else {
        1 + ws_index(s.drop_first())
    }
}

pub open spec fn edition_prefixes() -> Seq<Seq<char>> {
    seq!["#+PROPERTY: EDITION"@, "#+PROPERTY: edition"@, "edition:"@, "Edition:"@]
}

/// What follows the first of `ps` that starts `t`.
pub open spec fn after_first_prefix(t: Seq<char>, ps: Seq<Seq<char>>) -> Option<Seq<char>>
    decreases ps.len(),
{
    if ps.len() == 0 {
        None
    } else if starts_with(t, ps[0]) {
        Some(t.skip(ps[0].len() as int))
    } else {
        after_first_prefix(t, ps.drop_first())
    }
}

/// The edition value that a trimmed line gives, if any.
pub open spec fn edition_value(t: Seq<char>) -> Option<Seq<char>> {
    match after_first_prefix(t, edition_prefixes()) {
        Some(rest) => if trim(trim_colons(trim(rest))).len() > 0 {
            Some(trim(trim_colons(trim(rest))))
        } else {
            None
        },
        None => None,
    }
}

/// The first edition value of a README's lines.
pub open spec fn edition_in(ls: Seq<Seq<char>>) -> Option<Seq<char>>
    decreases ls.len(),
{
    if ls.len() == 0 {
        None
    } else {
        match edition_value(trim(ls[0])) {
            Some(v) => Some(v),
            None => edition_in(ls.drop_first()),
        }
    }
}

/// Edition siglum (the first word of the value) and edition label (the
/// whole value); two empty strings when there is none.
pub open spec fn edition_pair(readme: Option<Seq<char>>) -> (Seq<char>, Seq<char>) {
    match readme {
        Some(s) => match edition_in(lines(s)) {
            Some(v) => (v.take(ws_index(v)), v),
            None => (Seq::empty(), Seq::empty()),
        },
        None => (Seq::empty(), Seq::empty()),
    }
}

proof fn lemma_ws_index(s: Seq<char>)
    ensures
        0 <= ws_index(s) <= s.len(),
        ws_index(s) < s.len() ==> is_ws(s[ws_index(s)]),
        forall|j: int| 0 <= j < ws_index(s) ==> !is_ws(#[trigger] s[j]),
    decreases s.len(),
{
    if s.len() > 0 && !is_ws(s[0]) {
        lemma_ws_index(s.drop_first());
        assert forall|j: int| 0 <= j < ws_index(s) implies !is_ws(#[trigger] s[j]) by {
            if j > 0 {
                assert(s[j] == s.drop_first()[j - 1]);
            }
        }
    }
}

proof fn lemma_trim_colons_skip(s: Seq<char>, i: int)
    requires
        0 <= i <= s.len(),
        forall|j: int| 0 <= j < i ==> #[trigger] s[j] == ':',
        i == s.len() || s[i] != ':',
    ensures
        trim_colons(s) == s.skip(i),
    decreases i,
{
    if i > 0 {
        assert(s.drop_first().skip(i - 1) =~= s.skip(i));
        lemma_trim_colons_skip(s.drop_first(), i - 1);
    } else {
        assert(s.skip(0) =~= s);
    }
}

fn edition_tail(rest: &[char]) -> (r: Option<Vec<char>>)
    ensures
        r matches Some(x) ==> trim(trim_colons(trim(rest@))).len() > 0 && x@ == trim(
            trim_colons(trim(rest@)),
        ),
        r is None ==> trim(trim_colons(trim(rest@))).len() == 0,
{
    let a = trimmed(rest);
    let mut lo: usize = 0;
    while lo < a.len() && a[lo] == ':'
        invariant
            lo <= a.len(),
            forall|j: int| 0 <= j < lo ==> #[trigger] a@[j] == ':',
        decreases a.len() - lo,
    {
        lo += 1;
    }
    proof {
        lemma_trim_colons_skip(a@, lo as int);
    }
    let b = slice_of(a.as_slice(), lo, a.len());
    assert(b@ =~= a@.skip(lo as int));
    let v = trimmed(b.as_slice());
    if v.len() > 0 {
        Some(v)
    } else {
        None
    }
}

fn edition_of_line(t: &[char]) -> (r: Option<Vec<char>>)
    ensures
        r matches Some(x) ==> edition_value(t@) == Some(x@),
        r is None ==> edition_value(t@) is None,
{
    let ps = [
        chars_of("#+PROPERTY: EDITION"),
        chars_of("#+PROPERTY: edition"),
        chars_of("edition:"),
        chars_of("Edition:"),
    ];
    let ghost pv = seq![ps[0]@, ps[1]@, ps[2]@, ps[3]@];
    assert(pv =~= edition_prefixes());
    assert(pv.skip(0) =~= pv);
    let mut k: usize = 0;
    while k < 4
        invariant
            k <= 4,
            pv == edition_prefixes(),
            pv == seq![ps[0]@, ps[1]@, ps[2]@, ps[3]@],
            after_first_prefix(t@, pv) == after_first_prefix(t@, pv.skip(k as int)),
        decreases 4 - k,
    {
        let p = &ps[k];
        proof {
            assert(pv.skip(k as int)[0] == p@);
            assert(pv.skip(k as int).drop_first() =~= pv.skip(k + 1));
        }
        if begins_with(t, p.as_slice()) {
            let r = slice_of(t, p.len(), t.len());
            assert(r@ =~= t@.skip(p@.len() as int));
            return edition_tail(r.as_slice());
        }
        k += 1;
    }
    assert(pv.skip(4) =~= Seq::<Seq<char>>::empty());
    None
}

/// Edition siglum and label from a README: the value after the first of
/// `#+PROPERTY: EDITION`, `#+PROPERTY: edition`, `edition:`, `Edition:`
/// (leading colons and whitespace dropped) on the first line that has one.
pub fn edition_from_readme(readme: Option<&str>) -> (r: (String, String))
    ensures
        (r.0@, r.1@) == edition_pair(match readme {
            Some(s) => Some(s@),
            None => None,
        }),
{
    let text = match readme {
        Some(s) => s,
        None => return (String::new(), String::new()),
    };
    let cs = chars_of(text);
    let ls = lines_of(cs.as_slice());
    let ghost lv = views(ls@);
    let mut i: usize = 0;
    assert(lv.skip(0) =~= lv);
    while i < ls.len()
        invariant
            i <= ls.len(),
            lv == views(ls@),
            lv == lines(text@),
            readme == Some(text),
            edition_in(lv) == edition_in(lv.skip(i as int)),
        decreases ls.len() - i,
    {
        proof {
            assert(lv.skip(i as int)[0] == ls@[i as int]@);
            assert(lv.skip(i as int).drop_first() =~= lv.skip(i + 1));
        }
        let t = trimmed(ls[i].as_slice());
        if let Some(v) = edition_of_line(t.as_slice()) {
            proof {
                lemma_ws_index(v@);
            }
            let mut e: usize = 0;
            while e < v.len() && !crate::text::is_whitespace(v[e])
                invariant
                    e <= v.len(),
                    forall|j: int| 0 <= j < e ==> !is_ws(#[trigger] v@[j]),
                    0 <= ws_index(v@) <= v@.len(),
                    ws_index(v@) < v@.len() ==> is_ws(v@[ws_index(v@)]),
                    forall|j: int| 0 <= j < ws_index(v@) ==> !is_ws(#[trigger] v@[j]),
                decreases v.len() - e,
            {
                e += 1;
            }
            assert(e == ws_index(v@));
            let sig = slice_of(v.as_slice(), 0, e);
            assert(sig@ =~= v@.take(e as int));
            assert(trim(lv.skip(i as int)[0]) == t@);
            assert(edition_in(lv.skip(i as int)) == Some(v@));
            return (string_from(sig.as_slice()), string_from(v.as_slice()));
        }
        i += 1;
    }
    proof {
        assert(lv.skip(i as int) =~= Seq::<Seq<char>>::empty());
    }
    (String::new(), String::new())
}


// ---------------------------------------------------------------------------
// XML
// ---------------------------------------------------------------------------

/// A character escaped for XML text: `&`, `<` and `>` become entities.
pub open spec fn esc_text_char(c: char) -> Seq<char> {
    if c == '&' {
        seq!['&', 'a', 'm', 'p', ';']
    } else if c == '<' {
        seq!['&', 'l', 't', ';']
    } else if c == '>' {
        seq!['&', 'g', 't', ';']
    } else {
        seq![c]
    }
}

/// A character escaped for an XML attribute: as for text, and `"` too.
pub open spec fn esc_attr_char(c: char) -> Seq<char> {
    if c == '"' {
        seq!['&', 'q', 'u', 'o', 't', ';']
    } else {
        esc_text_char(c)
    }
}

pub open spec fn esc_text(s: Seq<char>) -> Seq<char>
    decreases s.len(),
{
    if s.len() == 0 {
        Seq::empty()
    } else {
        esc_text(s.drop_last()) + esc_text_char(s.last())
    }
}

pub open spec fn esc_attr(s: Seq<char>) -> Seq<char>
    decreases s.len(),
{
    if s.len() == 0 {
        Seq::empty()
    } else {
        esc_attr(s.drop_last()) + esc_attr_char(s.last())
    }
}

fn escape_chars(v: &[char], attr: bool) -> (r: Vec<char>)
    ensures
        r@ == if attr {
            esc_attr(v@)
        } else {
            esc_text(v@)
        },
{
    let mut out: Vec<char> = Vec::new();
    let mut i: usize = 0;
    while i < v.len()
        invariant
            i <= v.len(),
            out@ == if attr {
                esc_attr(v@.take(i as int))
            } else {
                esc_text(v@.take(i as int))
            },
        decreases v.len() - i,
    {
        let c = v[i];
        let ghost before = out@;
        proof {
            assert(v@.take(i + 1).drop_last() =~= v@.take(i as int));
        }
        if c == '&' {
            out.push('&');
            out.push('a');
            out.push('m');
            out.push('p');
            out.push(';');
        } else if c == '<' {
            out.push('&');
            out.push('l');
            out.push('t');
            out.push(';');
        } else if c == '>' {
            out.push('&');
            out.push('g');
            out.push('t');
            out.push(';');
        } else if attr && c == '"' {
            out.push('&');
            out.push('q');
            out.push('u');
            out.push('o');
            out.push('t');
            out.push(';');
        } else {
            out.push(c);
        }
        assert(out@ =~= before + if attr {
            esc_attr_char(c)
        } else {
            esc_text_char(c)
        });
        i += 1;
    }
    assert(v@.take(i as int) =~= v@);
    out
}

/// Escape `&`, `<` and `>` for XML text.
pub fn escape_xml_text(value: &str) -> (r: String)
    ensures
        r@ == esc_text(value@),
{
    let v = chars_of(value);
    string_from(escape_chars(v.as_slice(), false).as_slice())
}

/// Escape `&`, `<`, `>` and `"` for an XML attribute.
pub fn escape_xml_attr(value: &str) -> (r: String)
    ensures
        r@ == esc_attr(value@),
{
    let v = chars_of(value);
    string_from(escape_chars(v.as_slice(), true).as_slice())
}

pub open spec fn tei_head() -> Seq<char> {
    "<?xml version=\"1.0\" encoding=\"UTF-8\"?>\n<TEI xmlns=\"http://www.tei-c.org/ns/1.0\" xml:id=\""@
}

pub open spec fn tei_title() -> Seq<char> {
    "\">\n  <teiHeader>\n    <fileDesc>\n      <titleStmt>\n        <title>"@
}

pub open spec fn tei_publication() -> Seq<char> {
    "</title>\n      </titleStmt>\n      <publicationStmt>\n        <availability status=\"free\">\n          <licence target=\"https://creativecommons.org/licenses/by-sa/4.0/\">CC BY-SA 4.0</licence>\n        </availability>\n      </publicationStmt>\n      <sourceDesc>\n        <bibl>\n          <idno type=\"kanripo\">"@
}

pub open spec fn tei_url() -> Seq<char> {
    "</idno>\n          <idno type=\"url\">"@
}

pub open spec fn tei_edition() -> Seq<char> {
    "</idno>\n          <edition>"@
}

pub open spec fn tei_note() -> Seq<char> {
    "</edition>\n          <note>"@
}

pub open spec fn tei_snapshot() -> Seq<char> {
    "</note>\n          <note type=\"snapshot\">"@
}

pub open spec fn tei_body() -> Seq<char> {
    "</note>\n        </bibl>\n      </sourceDesc>\n    </fileDesc>\n  </teiHeader>\n  <text>\n    <body>\n"@
}

pub open spec fn tei_tail() -> Seq<char> {
    "    </body>\n  </text>\n</TEI>\n"@
}

/// The TEI document of a Kanripo work: the header with the escaped
/// metadata, then `body` as it is.
pub open spec fn tei(
    work_id: Seq<char>,
    title: Seq<char>,
    edition_siglum: Seq<char>,
    edition_label: Seq<char>,
    source_url: Seq<char>,
    snapshot_id: Seq<char>,
    body: Seq<char>,
) -> Seq<char> {
    tei_head() + esc_attr(work_id) + tei_title() + esc_text(title) + tei_publication() + esc_attr(
        work_id,
    ) + tei_url() + esc_text(source_url) + tei_edition() + esc_text(edition_siglum) + tei_note()
        + esc_text(edition_label) + tei_snapshot() + esc_text(snapshot_id) + tei_body() + body
        + tei_tail()
}

pub fn build_tei(
    work_id: &str,
    title: &str,
    edition_siglum: &str,
    edition_label: &str,
    source_url: &str,
    snapshot_id: &str,
    body: &str,
) -> (r: String)
    ensures
        r@ == tei(work_id@, title@, edition_siglum@, edition_label@, source_url@, snapshot_id@, body@),
{
    let wid = escape_xml_attr(work_id);
    let mut out = String::new();
    out.append("<?xml version=\"1.0\" encoding=\"UTF-8\"?>\n<TEI xmlns=\"http://www.tei-c.org/ns/1.0\" xml:id=\"");
    out.append(wid.as_str());
    out.append("\">\n  <teiHeader>\n    <fileDesc>\n      <titleStmt>\n        <title>");
    out.append(escape_xml_text(title).as_str());
    out.append("</title>\n      </titleStmt>\n      <publicationStmt>\n        <availability status=\"free\">\n          <licence target=\"https://creativecommons.org/licenses/by-sa/4.0/\">CC BY-SA 4.0</licence>\n        </availability>\n      </publicationStmt>\n      <sourceDesc>\n        <bibl>\n          <idno type=\"kanripo\">");
    out.append(wid.as_str());
    out.append("</idno>\n          <idno type=\"url\">");
    out.append(escape_xml_text(source_url).as_str());
    out.append("</idno>\n          <edition>");
    out.append(escape_xml_text(edition_siglum).as_str());
    out.append("</edition>\n          <note>");
    out.append(escape_xml_text(edition_label).as_str());
    out.append("</note>\n          <note type=\"snapshot\">");
    out.append(escape_xml_text(snapshot_id).as_str());
    out.append("</note>\n        </bibl>\n      </sourceDesc>\n    </fileDesc>\n  </teiHeader>\n  <text>\n    <body>\n");
    out.append(body);
    out.append("    </body>\n  </text>\n</TEI>\n");
    out
}


/// `n` in decimal, padded with zeros to at least four digits (`{:04}`).
pub open spec fn pad4(n: nat) -> Seq<char> {
    let d = decimal_chars(n);
    if d.len() < 4 {
        Seq::new((4 - d.len()) as nat, |i: int| '0') + d
    } else {
        d
    }
}

fn pad4_of(n: u64) -> (r: Vec<char>)
    ensures
        r@ == pad4(n as nat),
{
    let d = decimal_of(n);
    let mut out: Vec<char> = Vec::new();
    let mut k: usize = d.len();
    while k < 4
        invariant
            d.len() <= k <= 4 || (d.len() > 4 && k == d.len()),
            out@ == Seq::new((k - d.len()) as nat, |i: int| '0'),
        decreases 4 - k,
    {
        out.push('0');
        assert(out@ =~= Seq::new((k + 1 - d.len()) as nat, |i: int| '0'));
        k += 1;
    }
    push_all(&mut out, d.as_slice());
    proof {
        if d@.len() >= 4 {
            assert(out@ =~= d@);
        }
    }
    out
}

/// The number of a section: what follows the last `_` of its id.
pub open spec fn section_number(section_id: Seq<char>) -> Seq<char> {
    let u = last_index_of(section_id, '_');
    if u >= 0 {
        section_id.skip(u + 1)
    } else {
        Seq::empty()
    }
}

/// The XML of one paragraph, numbered `n` within its section.
pub open spec fn paragraph_xml(section_id: Seq<char>, n: nat, p: Seq<char>) -> Seq<char> {
    "        <p xml:id=\""@ + esc_attr(section_id + "-p"@ + pad4(n)) + "\">"@ + esc_text(p)
        + "</p>\n"@
}

pub open spec fn paragraphs_xml(section_id: Seq<char>, ps: Seq<Seq<char>>) -> Seq<char>
    decreases ps.len(),
{
    if ps.len() == 0 {
        Seq::empty()
    } else {
        paragraphs_xml(section_id, ps.drop_last()) + paragraph_xml(section_id, ps.len(), ps.last())
    }
}

/// The TEI of one section of a work: a `juan` division with a heading and
/// the numbered paragraphs.
pub open spec fn section_xml(title: Seq<char>, section_id: Seq<char>, ps: Seq<Seq<char>>) -> Seq<char> {
    "      <div type=\"juan\" xml:id=\""@ + esc_attr(section_id) + "\" n=\""@ + esc_attr(
        section_number(section_id),
    ) + "\">\n"@ + "        <head>"@ + esc_text(title + " "@ + section_id) + "</head>\n"@
        + paragraphs_xml(section_id, ps) + "      </div>\n"@
}

/// The TEI body text of one section of a Kanripo work.
pub fn section_body(title: &str, section_id: &str, paragraphs: &[String]) -> (r: String)
    requires
        paragraphs@.len() < u64::MAX,
    ensures
        r@ == section_xml(title@, section_id@, strs(paragraphs@)),
{
    let sid = chars_of(section_id);
    proof {
        lemma_last_index_of(sid@, '_');
    }
    let num = match rfind_char(sid.as_slice(), '_') {
        Some(u) => {
            let n = sid.len();
            assert(u < n);
            slice_of(sid.as_slice(), u + 1, n)
        },
        None => Vec::new(),
    };
    assert(num@ =~= section_number(section_id@));
    let mut out = String::new();
    out.append("      <div type=\"juan\" xml:id=\"");
    out.append(escape_xml_attr(section_id).as_str());
    out.append("\" n=\"");
    out.append(escape_xml_attr(string_from(num.as_slice()).as_str()).as_str());
    out.append("\">\n");
    out.append("        <head>");
    let mut head = title.to_owned();
    head.append(" ");
    head.append(section_id);
    out.append(escape_xml_text(head.as_str()).as_str());
    out.append("</head>\n");
    let ghost start = out@;
    let mut i: usize = 0;
    while i < paragraphs.len()
        invariant
            i <= paragraphs@.len() < u64::MAX,
            out@ == start + paragraphs_xml(section_id@, strs(paragraphs@).take(i as int)),
        decreases paragraphs.len() - i,
    {
        proof {
            assert(strs(paragraphs@).take(i + 1).drop_last() =~= strs(paragraphs@).take(i as int));
        }
        let mut id = section_id.to_owned();
        id.append("-p");
        id.append(string_from(pad4_of((i + 1) as u64).as_slice()).as_str());
        out.append("        <p xml:id=\"");
        out.append(escape_xml_attr(id.as_str()).as_str());
        out.append("\">");
        out.append(escape_xml_text(paragraphs[i].as_str()).as_str());
        out.append("</p>\n");
        i += 1;
    }
    assert(strs(paragraphs@).take(i as int) =~= strs(paragraphs@));
    out.append("      </div>\n");
    out
}


/// Reading escaped XML back: the entities `&lt;`, `&gt;`, `&quot;` and
/// `&amp;` stand for `<`, `>`, `"` and `&`, read from left to right.
pub open spec fn unescape_xml(s: Seq<char>) -> Seq<char>
    decreases s.len(),
{
    if s.len() == 0 {
        Seq::empty()
    } else if s.take(4) == seq!['&', 'l', 't', ';'] && s.len() >= 4 {
        seq!['<'] + unescape_xml(s.skip(4))
    } else if s.take(4) == seq!['&', 'g', 't', ';'] && s.len() >= 4 {
        seq!['>'] + unescape_xml(s.skip(4))
    } else if s.take(5) == seq!['&', 'a', 'm', 'p', ';'] && s.len() >= 5 {
        seq!['&'] + unescape_xml(s.skip(5))
    } else if s.take(6) == seq!['&', 'q', 'u', 'o', 't', ';'] && s.len() >= 6 {
        seq!['"'] + unescape_xml(s.skip(6))
    } else {
        seq![s[0]] + unescape_xml(s.skip(1))
    }
}

proof fn lemma_esc_text_concat(a: Seq<char>, b: Seq<char>)
    ensures
        esc_text(a + b) == esc_text(a) + esc_text(b),
    decreases b.len(),
{
    if b.len() == 0 {
        assert(a + b =~= a);
        assert(esc_text(a) + esc_text(b) =~= esc_text(a));
    } else {
        assert((a + b).drop_last() =~= a + b.drop_last());
        lemma_esc_text_concat(a, b.drop_last());
        assert(esc_text(a) + esc_text(b) =~= esc_text(a) + esc_text(b.drop_last()) + esc_text_char(b.last()));
    }
}

proof fn lemma_esc_attr_concat(a: Seq<char>, b: Seq<char>)
    ensures
        esc_attr(a + b) == esc_attr(a) + esc_attr(b),
    decreases b.len(),
{
    if b.len() == 0 {
        assert(a + b =~= a);
        assert(esc_attr(a) + esc_attr(b) =~= esc_attr(a));
    } else {
        assert((a + b).drop_last() =~= a + b.drop_last());
        lemma_esc_attr_concat(a, b.drop_last());
        assert(esc_attr(a) + esc_attr(b) =~= esc_attr(a) + esc_attr(b.drop_last()) + esc_attr_char(b.last()));
    }
}

proof fn lemma_unescape_char(c: char, t: Seq<char>)
    ensures
        unescape_xml(esc_attr_char(c) + t) == seq![c] + unescape_xml(t),
{
    let s = esc_attr_char(c) + t;
    let e = esc_attr_char(c);
    assert(s.skip(e.len() as int) =~= t);
    assert(s.take(e.len() as int) =~= e);
    if c == '&' {
        assert(s[1] == 'a');
        assert(s.take(4)[1] == 'a');
        assert(s.take(5) =~= seq!['&', 'a', 'm', 'p', ';']);
    } else if c == '<' {
        assert(s.take(4) =~= seq!['&', 'l', 't', ';']);
    } else if c == '>' {
        assert(s.take(4) =~= seq!['&', 'g', 't', ';']);
        assert(s.take(4)[1] == 'g');
    } else if c == '"' {
        assert(s.take(4)[1] == 'q');
        assert(s.take(5)[1] == 'q');
        assert(s.take(6) =~= seq!['&', 'q', 'u', 'o', 't', ';']);
    } else {
        assert(s[0] == c);
        assert(s.len() >= 4 ==> s.take(4)[0] == c);
        assert(s.len() >= 5 ==> s.take(5)[0] == c);
        assert(s.len() >= 6 ==> s.take(6)[0] == c);
    }
}

proof fn lemma_unescape_text_char(c: char, t: Seq<char>)
    ensures
        unescape_xml(esc_text_char(c) + t) == seq![c] + unescape_xml(t),
{
    if c == '"' {
        let s = seq![c] + t;
        assert(s[0] == '"');
        assert(s.len() >= 4 ==> s.take(4)[0] == '"');
        assert(s.len() >= 5 ==> s.take(5)[0] == '"');
        assert(s.len() >= 6 ==> s.take(6)[0] == '"');
        assert(s.skip(1) =~= t);
    } else {
        lemma_unescape_char(c, t);
    }
}

/// Unescaping escaped text or attribute values gives them back.
pub proof fn unescaping_gives_back(v: Seq<char>)
    ensures
        unescape_xml(esc_text(v)) == v,
        unescape_xml(esc_attr(v)) == v,
    decreases v.len(),
{
    if v.len() == 0 {
    } else {
        let rest = v.drop_first();
        assert(v =~= seq![v[0]] + rest);
        lemma_esc_text_concat(seq![v[0]], rest);
        lemma_esc_attr_concat(seq![v[0]], rest);
        assert(seq![v[0]].drop_last() =~= Seq::<char>::empty());
        assert(esc_text(Seq::<char>::empty()) == Seq::<char>::empty());
        assert(esc_attr(Seq::<char>::empty()) == Seq::<char>::empty());
        assert(esc_text(seq![v[0]]) =~= esc_text_char(v[0]));
        assert(esc_attr(seq![v[0]]) =~= esc_attr_char(v[0]));
        unescaping_gives_back(rest);
        lemma_unescape_text_char(v[0], esc_text(rest));
        lemma_unescape_char(v[0], esc_attr(rest));
    }
}

/// Escaped text holds no markup: no `<` and no `>`; escaped attribute
/// values hold no `"` either.
pub proof fn escaped_text_has_no_markup(s: Seq<char>)
    ensures
        !esc_text(s).contains('<'),
        !esc_text(s).contains('>'),
        !esc_attr(s).contains('<'),
        !esc_attr(s).contains('>'),
        !esc_attr(s).contains('"'),
    decreases s.len(),
{
    if s.len() > 0 {
        escaped_text_has_no_markup(s.drop_last());
        let a = esc_text(s.drop_last());
        let b = esc_text_char(s.last());
        let c = esc_attr(s.drop_last());
        let d = esc_attr_char(s.last());
        assert forall|i: int| 0 <= i < (a + b).len() implies (a + b)[i] != '<' && (a + b)[i] != '>' by {
            if i >= a.len() {
                assert((a + b)[i] == b[i - a.len()]);
            } else {
                assert((a + b)[i] == a[i]);
            }
        }
        assert forall|i: int| 0 <= i < (c + d).len() implies (c + d)[i] != '<' && (c + d)[i] != '>' && (c
            + d)[i] != '"' by {
            if i >= c.len() {
                assert((c + d)[i] == d[i - c.len()]);
            } else {
                assert((c + d)[i] == c[i]);
            }
        }
    }
}


// ---------------------------------------------------------------------------
// Section manifest
// ---------------------------------------------------------------------------

/// The number of CJK ideographs in `s`.
pub open spec fn cjk_count(s: Seq<char>) -> nat
    decreases s.len(),
{
    if s.len() == 0 {
        0
    } else {
        cjk_count(s.drop_last()) + if is_cjk(s.last()) {
            1nat
        } else {
            0nat
        }
    }
}

/// What the manifest records of one section file.
pub struct SectionStats {
    /// Size of the text in UTF-8 bytes.
    pub raw_bytes: u64,
    pub line_count: usize,
    pub cjk_char_count: usize,
    /// The paragraphs that conversion would make of the section.
    pub paragraphs: Vec<String>,
    /// The first paragraph, if any.
    pub heading_guess: String,
}

/// The manifest entry of a section text: its size, lines, CJK ideographs,
/// paragraphs, and first paragraph as a guess at its heading.
pub fn section_stats(raw: &str) -> (r: SectionStats)
    ensures
        r.raw_bytes == raw.len() as u64,
        r.line_count == lines(raw@).len(),
        r.cjk_char_count == cjk_count(raw@),
        strs(r.paragraphs@) == paragraphs(raw@),
        r.heading_guess@ == (if paragraphs(raw@).len() > 0 {
            paragraphs(raw@)[0]
        } else {
            Seq::<char>::empty()
        }),
{
    let n = raw.len();
    let raw_bytes = n as u64;
    let cs = chars_of(raw);
    let line_count = lines_of(cs.as_slice()).len();
    let mut cjk: usize = 0;
    let mut i: usize = 0;
    while i < cs.len()
        invariant
            i <= cs@.len(),
            cs@ == raw@,
            cjk == cjk_count(cs@.take(i as int)),
            cjk <= i,
        decreases cs.len() - i,
    {
        assert(cs@.take(i + 1).drop_last() =~= cs@.take(i as int));
        if is_cjk_char(cs[i]) {
            cjk += 1;
        }
        i += 1;
    }
    assert(cs@.take(cs@.len() as int) =~= cs@);
    let paragraphs = segment_paragraphs(raw);
    let heading_guess = if paragraphs.len() > 0 {
        paragraphs[0].clone()
    } else {
        String::new()
    };
    SectionStats { raw_bytes, line_count, cjk_char_count: cjk, paragraphs, heading_guess }
}


// ---------------------------------------------------------------------------
// Work ids and manifest totals
// ---------------------------------------------------------------------------

/// Whether `s` begins with "KR", as Kanripo work ids do.
pub open spec fn kr_id(s: Seq<char>) -> bool {
    s.len() >= 2 && s[0] == 'K' && s[1] == 'R'
}

/// The work id a file stem names: what comes before its first `_`, when it
/// has one and that begins with "KR".
pub open spec fn stem_work(stem: Seq<char>) -> Option<Seq<char>> {
    let k = index_of(stem, '_');
    if k < stem.len() && kr_id(stem.take(k)) {
        Some(stem.take(k))
    } else {
        None
    }
}

/// The work id named by the first of `stems` that names one.
pub open spec fn first_stem_work(stems: Seq<Seq<char>>) -> Option<Seq<char>>
    decreases stems.len(),
{
    if stems.len() == 0 {
        None
    } else {
        match stem_work(stems[0]) {
            Some(w) => Some(w),
            None => first_stem_work(stems.drop_first()),
        }
    }
}

/// The work id of a repository: its directory name when that begins with
/// "KR", else the one named by the first of its entries' file stems that
/// names one.
pub open spec fn repo_work_id(name: Seq<char>, stems: Seq<Seq<char>>) -> Option<Seq<char>> {
    if kr_id(name) {
        Some(name)
    } else {
        first_stem_work(stems)
    }
}

fn is_kr(v: &[char]) -> (r: bool)
    ensures
        r == kr_id(v@),
{
    v.len() >= 2 && v[0] == 'K' && v[1] == 'R'
}

/// The work id a file stem names, if any.
pub fn work_of_stem(stem: &str) -> (r: Option<String>)
    ensures
        opt_view(r) == stem_work(stem@),
{
    let cs = chars_of(stem);
    proof {
        lemma_index_of(stem@, '_');
    }
    match find_char(cs.as_slice(), '_') {
        Some(k) => {
            let w = slice_of(cs.as_slice(), 0, k);
            assert(w@ =~= stem@.take(k as int));
            if is_kr(w.as_slice()) {
                Some(string_from(w.as_slice()))
            } else {
                None
            }
        },
        None => None,
    }
}

/// The work id of the repository whose directory is called `name` and
/// whose entries have the file stems `stems`, in the order they are listed.
pub fn work_id_for_repo(name: &str, stems: &[String]) -> (r: Option<String>)
    ensures
        opt_view(r) == repo_work_id(name@, strs(stems@)),
{
    let cs = chars_of(name);
    if is_kr(cs.as_slice()) {
        return Some(string_from(cs.as_slice()));
    }
    let ghost ss = strs(stems@);
    let mut i: usize = 0;
    assert(ss.skip(0) =~= ss);
    while i < stems.len()
        invariant
            i <= stems@.len(),
            ss == strs(stems@),
            !kr_id(name@),
            first_stem_work(ss) == first_stem_work(ss.skip(i as int)),
        decreases stems.len() - i,
    {
        proof {
            assert(ss.skip(i as int)[0] == stems@[i as int]@);
            assert(ss.skip(i as int).drop_first() =~= ss.skip(i + 1));
        }
        match work_of_stem(stems[i].as_str()) {
            Some(w) => {
                return Some(w);
            },
            None => {},
        }
        i += 1;
    }
    assert(ss.skip(i as int).len() == 0);
    None
}

/// Running totals of a manifest: sections, UTF-8 bytes, ideographs and
/// estimated passages.
#[derive(Debug, Clone, Copy, PartialEq, Eq)]
pub struct ManifestTally {
    pub sections: usize,
    pub raw_bytes: u64,
    pub cjk_char_count: usize,
    pub passages: usize,
}

impl ManifestTally {
    /// Nothing counted yet.
    pub fn new() -> (t: ManifestTally)
        ensures
            t.sections == 0,
            t.raw_bytes == 0,
            t.cjk_char_count == 0,
            t.passages == 0,
    {
        ManifestTally { sections: 0, raw_bytes: 0, cjk_char_count: 0, passages: 0 }
    }

    /// Whether `add` can take `other` in without overflow.
    pub fn can_add(&self, other: &ManifestTally) -> (b: bool)
        ensures
            b == (self.sections + other.sections <= usize::MAX && self.raw_bytes + other.raw_bytes <= u64::MAX
                && self.cjk_char_count + other.cjk_char_count <= usize::MAX && self.passages + other.passages
                <= usize::MAX),
    {
        other.sections <= usize::MAX - self.sections && other.raw_bytes <= u64::MAX - self.raw_bytes
            && other.cjk_char_count <= usize::MAX - self.cjk_char_count && other.passages <= usize::MAX
            - self.passages
    }

    /// Counts `other` in, field by field.
    pub fn add(&mut self, other: &ManifestTally)
        requires
            old(self).sections + other.sections <= usize::MAX,
            old(self).raw_bytes + other.raw_bytes <= u64::MAX,
            old(self).cjk_char_count + other.cjk_char_count <= usize::MAX,
            old(self).passages + other.passages <= usize::MAX,
        ensures
            final(self).sections == old(self).sections + other.sections,
            final(self).raw_bytes == old(self).raw_bytes + other.raw_bytes,
            final(self).cjk_char_count == old(self).cjk_char_count + other.cjk_char_count,
            final(self).passages == old(self).passages + other.passages,
    {
        self.sections = self.sections + other.sections;
        self.raw_bytes = self.raw_bytes + other.raw_bytes;
        self.cjk_char_count = self.cjk_char_count + other.cjk_char_count;
        self.passages = self.passages + other.passages;
    }
}

/// One section as a tally: the section itself, its bytes, its ideographs
/// and its paragraphs.
pub fn section_tally(s: &SectionStats) -> (t: ManifestTally)
    ensures
        t.sections == 1,
        t.raw_bytes == s.raw_bytes,
        t.cjk_char_count == s.cjk_char_count,
        t.passages == s.paragraphs@.len(),
{
    ManifestTally { sections: 1, raw_bytes: s.raw_bytes, cjk_char_count: s.cjk_char_count, passages: s.paragraphs.len() }
}


/// Every paragraph is a non-empty line holding Chinese text that is not a
/// `#` comment.
pub proof fn paragraphs_hold_chinese(ls: Seq<Seq<char>>, k: int)
    ensures
        forall|i: int| 0 <= i < paragraphs_upto(ls, k).len() ==> is_paragraph(#[trigger] paragraphs_upto(ls, k)[i]),
    decreases k,
{
    if k > 0 {
        paragraphs_hold_chinese(ls, k - 1);
        let prev = paragraphs_upto(ls, k - 1);
        let cur = paragraphs_upto(ls, k);
        assert forall|i: int| 0 <= i < cur.len() implies is_paragraph(#[trigger] cur[i]) by {
            if i < prev.len() {
                assert(cur[i] == prev[i]);
            }
        }
    }
}

/// The paragraph that line `i` makes comes, among the paragraphs of the
/// first `k` lines, right after those of the lines before it.
proof fn lemma_paragraph_at(ls: Seq<Seq<char>>, i: int, k: int)
    requires
        0 <= i < k <= ls.len(),
        is_paragraph(clean_line(ls[i])),
    ensures
        paragraphs_upto(ls, i).len() < paragraphs_upto(ls, k).len(),
        paragraphs_upto(ls, k)[paragraphs_upto(ls, i).len() as int] == clean_line(ls[i]),
    decreases k,
{
    if k > i + 1 {
        lemma_paragraph_at(ls, i, k - 1);
    }
}

/// Every line that holds Chinese text becomes a paragraph: trimmed and with
/// its byte-order marks removed, a line that is not empty, does not begin
/// with `#` and holds a CJK ideograph is among the paragraphs.
pub proof fn chinese_lines_become_paragraphs(raw: Seq<char>, i: int)
    requires
        0 <= i < lines(raw).len(),
        ({
            let c = trim(trim_bom(trim(lines(raw)[i])));
            c.len() > 0 && c[0] != '#' && exists|x: int| 0 <= x < c.len() && is_cjk(#[trigger] c[x])
        }),
    ensures
        paragraphs(raw).contains(trim(trim_bom(trim(lines(raw)[i])))),
{
    let ls = lines(raw);
    lemma_paragraph_at(ls, i, ls.len() as int);
}

/// Paragraphs keep the order of their lines: of two lines that hold Chinese
/// text, the earlier one's paragraph comes first.
pub proof fn paragraphs_keep_line_order(raw: Seq<char>, i: int, j: int)
    requires
        0 <= i < j < lines(raw).len(),
        ({
            let c = trim(trim_bom(trim(lines(raw)[i])));
            c.len() > 0 && c[0] != '#' && exists|x: int| 0 <= x < c.len() && is_cjk(#[trigger] c[x])
        }),
        ({
            let d = trim(trim_bom(trim(lines(raw)[j])));
            d.len() > 0 && d[0] != '#' && exists|x: int| 0 <= x < d.len() && is_cjk(#[trigger] d[x])
        }),
    ensures
        exists|a: int, b: int|
            0 <= a < b < paragraphs(raw).len() && paragraphs(raw)[a] == trim(trim_bom(trim(lines(raw)[i])))
                && paragraphs(raw)[b] == trim(trim_bom(trim(lines(raw)[j]))),
{
    let ls = lines(raw);
    let n = ls.len() as int;
    lemma_paragraph_at(ls, i, n);
    lemma_paragraph_at(ls, j, n);
    lemma_paragraph_at(ls, i, j);
    let a = paragraphs_upto(ls, i).len() as int;
    let b = paragraphs_upto(ls, j).len() as int;
    assert(paragraphs(raw)[a] == trim(trim_bom(trim(lines(raw)[i]))));
    assert(paragraphs(raw)[b] == trim(trim_bom(trim(lines(raw)[j]))));
}

proof fn lemma_paragraphs_from_lines(ls: Seq<Seq<char>>, k: int)
    requires
        0 <= k <= ls.len(),
    ensures
        forall|a: int|
            0 <= a < paragraphs_upto(ls, k).len() ==> exists|i: int|
                0 <= i < k && clean_line(#[trigger] ls[i]) == #[trigger] paragraphs_upto(ls, k)[a] && is_paragraph(
                    paragraphs_upto(ls, k)[a],
                ),
    decreases k,
{
    if k > 0 {
        lemma_paragraphs_from_lines(ls, k - 1);
        let p0 = paragraphs_upto(ls, k - 1);
        let p1 = paragraphs_upto(ls, k);
        assert forall|a: int| #![trigger p1[a]] 0 <= a < p1.len() implies exists|i: int|
            0 <= i < k && clean_line(#[trigger] ls[i]) == p1[a] && is_paragraph(p1[a]) by {
            if a < p0.len() {
                assert(p1[a] == p0[a]);
            } else {
                assert(p1[a] == clean_line(ls[k - 1]));
            }
        }
    }
}

/// Only lines that hold Chinese text become paragraphs: each paragraph is
/// some line, trimmed and with its byte-order marks removed, and it is not
/// empty, does not begin with `#` and holds a CJK ideograph.
pub proof fn paragraphs_come_from_chinese_lines(raw: Seq<char>, a: int)
    requires
        0 <= a < paragraphs(raw).len(),
    ensures
        exists|i: int|
            0 <= i < lines(raw).len() && trim(trim_bom(trim(#[trigger] lines(raw)[i]))) == paragraphs(raw)[a],
        paragraphs(raw)[a].len() > 0,
        paragraphs(raw)[a][0] != '#',
        exists|x: int| 0 <= x < paragraphs(raw)[a].len() && is_cjk(#[trigger] paragraphs(raw)[a][x]),
{
    let ls = lines(raw);
    lemma_paragraphs_from_lines(ls, ls.len() as int);
}

} // verus!
