//! Person and place authority records out of the TEI authority XML files.
//!
//! An XML reader turns the file into a stream of events; two small state
//! machines walk that stream, collect the fields of each `<person>` /
//! `<place>` entry from the elements inside it, and emit a record at the
//! entry's end tag.

use vstd::prelude::*;
use quick_xml::events::Event;
use crate::catalog::{lossy_text, utf8_lossy};
use crate::kanripo::{contains_cjk, has_cjk};
use crate::markdown::word_prefix;
use crate::text::{chars_of, is_whitespace, string_from, str_eq, trim, trim_start, trimmed, push_str, strs, opt_view, clone_opt, clone_strings};

verus! {

// ---------------------------------------------------------------------------
// The event stream
// ---------------------------------------------------------------------------

/// One event of an XML document, names and attributes as raw bytes.
pub enum XmlEvent {
    /// A start tag, or a self-closing tag when `empty`, with its attributes
    /// (key and raw value) in document order.
    Start { name: Vec<u8>, attrs: Vec<(Vec<u8>, Vec<u8>)>, empty: bool },
    End { name: Vec<u8> },
    /// Character data, as raw bytes, with surrounding whitespace trimmed.
    Text(Vec<u8>),
    Eof,
    /// The reader failed; the message says why.
    Error(String),
    /// Declarations, comments, processing instructions and the like.
    Other,
}

/// What an XML event holds, as values.
pub enum XmlEventV {
    Start { name: Seq<u8>, attrs: Seq<(Seq<u8>, Seq<u8>)>, empty: bool },
    End { name: Seq<u8> },
    Text(Seq<u8>),
    Eof,
    Error(Seq<char>),
    Other,
}

/// The attribute keys and raw values of `a`, as values.
pub open spec fn attrs_v(a: Seq<(Vec<u8>, Vec<u8>)>) -> Seq<(Seq<u8>, Seq<u8>)> {
    a.map_values(|p: (Vec<u8>, Vec<u8>)| (p.0@, p.1@))
}

impl View for XmlEvent {
    type V = XmlEventV;

    open spec fn view(&self) -> XmlEventV {
        match self {
            XmlEvent::Start { name, attrs, empty } => XmlEventV::Start { name: name@, attrs: attrs_v(attrs@), empty: *empty },
            XmlEvent::End { name } => XmlEventV::End { name: name@ },
            XmlEvent::Text(b) => XmlEventV::Text(b@),
            XmlEvent::Eof => XmlEventV::Eof,
            XmlEvent::Error(m) => XmlEventV::Error(m@),
            XmlEvent::Other => XmlEventV::Other,
        }
    }
}

/// The values of the events `evs`.
pub open spec fn evs_v(evs: Seq<XmlEvent>) -> Seq<XmlEventV> {
    evs.map_values(|e: XmlEvent| e@)
}

/// The bytes of an ASCII string.
pub open spec fn ascii_bytes(s: Seq<char>) -> Seq<u8> {
    s.map_values(|c: char| c as u8)
}

/// Does `b` spell the ASCII string `lit`?
fn bytes_are(b: &[u8], lit: &str) -> (r: bool)
    ensures
        r == (b@ == ascii_bytes(lit@)),
{
    let cs = chars_of(lit);
    if b.len() != cs.len() {
        proof {
            assert(ascii_bytes(lit@).len() == cs@.len());
        }
        return false;
    }
    let mut i: usize = 0;
    while i < b.len()
        invariant
            i <= b@.len(),
            b@.len() == cs@.len(),
            cs@ == lit@,
            forall|j: int| 0 <= j < i ==> b@[j] == (#[trigger] cs@[j]) as u8,
        decreases b.len() - i,
    {
        let c = #[verifier::truncate] (cs[i] as u8);
        if b[i] != c {
            proof {
                assert(ascii_bytes(lit@)[i as int] == c);
            }
            return false;
        }
        i += 1;
    }
    assert(b@ =~= ascii_bytes(lit@));
    true
}

/// Position of the last `:` in `q`, or -1.
pub open spec fn last_colon(q: Seq<u8>) -> int
    decreases q.len(),
{
    if q.len() == 0 {
        -1
    } else if q.last() == 58u8 {
        q.len() - 1
    } else {
        last_colon(q.drop_last())
    }
}

/// The local part of a qualified name: what follows its last `:`.
pub open spec fn local_part(q: Seq<u8>) -> Seq<u8> {
    q.skip(last_colon(q) + 1)
}

proof fn lemma_last_colon(q: Seq<u8>)
    ensures
        -1 <= last_colon(q) < q.len(),
        last_colon(q) >= 0 ==> q[last_colon(q)] == 58u8,
        forall|j: int| last_colon(q) < j < q.len() ==> q[j] != 58u8,
    decreases q.len(),
{
    if q.len() > 0 && q.last() != 58u8 {
        let p = q.drop_last();
        lemma_last_colon(p);
        assert forall|j: int| last_colon(q) < j < q.len() implies q[j] != 58u8 by {
            if j < q.len() - 1 {
                assert(q[j] == p[j]);
            }
        }
    }
}

/// The local part of a qualified name (`tei:person` -> `person`).
pub fn local_name(qname: &[u8]) -> (r: &[u8])
    ensures
        r@ == local_part(qname@),
{
    proof {
        lemma_last_colon(qname@);
    }
    let mut k: usize = qname.len();
    while k > 0
        invariant
            k <= qname@.len(),
            forall|j: int| k <= j < qname@.len() ==> qname@[j] != 58u8,
        decreases k,
    {
        if qname[k - 1] == 58u8 {
            proof {
                lemma_last_colon(qname@);
                assert(last_colon(qname@) == k - 1);
            }
            let (_, rest) = qname.split_at(k);
            assert(rest@ =~= qname@.skip(k as int));
            return rest;
        }
        k -= 1;
    }
    assert(last_colon(qname@) == -1);
    assert(qname@.skip(0) =~= qname@);
    qname
}

/// Does the attribute key `k` name `n`, as `n` itself or as `prefix:n`?
pub open spec fn key_matches(k: Seq<u8>, n: Seq<u8>) -> bool {
    k == n || (k.len() > n.len() && k.skip(k.len() - n.len()) == n && k[k.len() - n.len() - 1] == 58u8)
}

/// The raw value of the first attribute named `n`.
pub open spec fn attr_lookup(attrs: Seq<(Seq<u8>, Seq<u8>)>, n: Seq<u8>) -> Option<Seq<u8>>
    decreases attrs.len(),
{
    if attrs.len() == 0 {
        None
    } else if key_matches(attrs[0].0, n) {
        Some(attrs[0].1)
    } else {
        attr_lookup(attrs.drop_first(), n)
    }
}

/// The value of the first attribute named `n`, when it is valid UTF-8.
pub open spec fn attr_text(attrs: Seq<(Seq<u8>, Seq<u8>)>, n: Seq<char>) -> Option<Seq<char>> {
    match attr_lookup(attrs, ascii_bytes(n)) {
        None => None,
        Some(v) => if vstd::utf8::valid_utf8(v) {
            Some(vstd::utf8::decode_utf8(v))
        } else {
            None
        },
    }
}

/// `String::from_utf8`: the decoded text when `bytes` is valid UTF-8,
/// otherwise nothing.
#[verifier::external_body]
fn utf8_string(bytes: &[u8]) -> (r: Option<String>)
    ensures
        r is Some <==> vstd::utf8::valid_utf8(bytes@),
        r matches Some(s) ==> s@ == vstd::utf8::decode_utf8(bytes@),
{
    String::from_utf8(bytes.to_vec()).ok()
}

fn key_is(k: &[u8], n: &[u8]) -> (r: bool)
    ensures
        r == key_matches(k@, n@),
{
    let kl = k.len();
    let nl = n.len();
    let mut same = kl == nl;
    if same {
        let mut i: usize = 0;
        while i < kl
            invariant
                i <= kl,
                kl == k@.len(),
                kl == nl,
                nl == n@.len(),
                same == (forall|j: int| 0 <= j < i ==> k@[j] == n@[j]),
            decreases kl - i,
        {
            same = same && k[i] == n[i];
            i += 1;
        }
        assert(same == (k@ =~= n@));
    } else {
        assert(k@.len() != n@.len());
    }
    if same {
        return true;
    }
    if kl <= nl {
        return false;
    }
    let off = kl - nl;
    let mut tail = true;
    let mut i: usize = 0;
    while i < nl
        invariant
            i <= nl,
            off + nl == kl,
            kl == k@.len(),
            nl == n@.len(),
            tail == (forall|j: int| 0 <= j < i ==> k@[off + j] == n@[j]),
        decreases nl - i,
    {
        tail = tail && k[off + i] == n[i];
        i += 1;
    }
    assert(tail == (k@.skip(off as int) =~= n@));
    tail && k[off - 1] == 58u8
}

/// The value of the first attribute named `name` (or `prefix:name`), when
/// it is valid UTF-8.
pub fn attr_val(attrs: &[(Vec<u8>, Vec<u8>)], name: &str) -> (r: Option<String>)
    ensures
        opt_view(r) == attr_text(attrs_v(attrs@), name@),
{
    let cs = chars_of(name);
    let mut nb: Vec<u8> = Vec::new();
    let mut j: usize = 0;
    while j < cs.len()
        invariant
            j <= cs@.len(),
            cs@ == name@,
            nb@ == ascii_bytes(cs@.take(j as int)),
        decreases cs.len() - j,
    {
        let b = #[verifier::truncate] (cs[j] as u8);
        nb.push(b);
        assert(nb@ =~= ascii_bytes(cs@.take(j + 1)));
        j += 1;
    }
    assert(cs@.take(cs@.len() as int) =~= cs@);
    let ghost av = attrs_v(attrs@);
    assert(av.skip(0) =~= av);
    let mut i: usize = 0;
    while i < attrs.len()
        invariant
            i <= attrs@.len(),
            av == attrs_v(attrs@),
            nb@ == ascii_bytes(name@),
            attr_lookup(av.skip(i as int), nb@) == attr_lookup(av, nb@),
        decreases attrs.len() - i,
    {
        assert(av.skip(i as int).drop_first() =~= av.skip(i + 1));
        assert(av.skip(i as int)[0] == (attrs@[i as int].0@, attrs@[i as int].1@));
        if key_is(attrs[i].0.as_slice(), nb.as_slice()) {
            return utf8_string(attrs[i].1.as_slice());
        }
        i += 1;
    }
    None
}

fn or_else(a: Option<String>, b: Option<String>) -> (r: Option<String>)
    ensures
        opt_view(r) == (if a is Some { opt_view(a) } else { opt_view(b) }),
{
    match a {
        Some(x) => Some(x),
        None => b,
    }
}

pub open spec fn or_spec(a: Option<Seq<char>>, b: Option<Seq<char>>) -> Option<Seq<char>> {
    if a is Some {
        a
    } else {
        b
    }
}

pub open spec fn or_empty(a: Option<Seq<char>>) -> Seq<char> {
    match a {
        Some(x) => x,
        None => Seq::empty(),
    }
}

fn unwrap_or_empty(a: Option<String>) -> (r: String)
    ensures
        r@ == or_empty(opt_view(a)),
{
    match a {
        Some(x) => x,
        None => String::new(),
    }
}

// ---------------------------------------------------------------------------
// Years
// ---------------------------------------------------------------------------

pub open spec fn is_digit(c: char) -> bool {
    '0' <= c && c <= '9'
}

/// The number of leading ASCII digits of `s`.
pub open spec fn lead_digits(s: Seq<char>) -> nat
    decreases s.len(),
{
    if s.len() > 0 && is_digit(s[0]) {
        1 + lead_digits(s.drop_first())
    } else {
        0
    }
}

/// The year of a date string: four leading digits, else the first word,
/// after an optional sign; a `-` sign (BCE) is kept.
pub open spec fn year_of(s: Seq<char>) -> Seq<char> {
    let t = trim(s);
    let bce = t.len() > 0 && t[0] == '-';
    let r = if t.len() > 0 && (t[0] == '-' || t[0] == '+') {
        t.drop_first()
    } else {
        t
    };
    let year = if lead_digits(r) >= 4 {
        r.take(4)
    } else {
        word_prefix(trim_start(r))
    };
    if bce {
        seq!['-'] + year
    } else {
        year
    }
}

/// Extract a 4-digit year from a date string like "+0602-02-01 ~ +0603-02-18".
/// BCE dates are represented as negative years, e.g. "-0563" → "-0563".
pub fn extract_year(s: &str) -> (r: String)
    ensures
        r@ == year_of(s@),
{
    let all = chars_of(s);
    let t = trimmed(all.as_slice());
    let n = t.len();
    let bce = n > 0 && t[0] == '-';
    let start: usize = if n > 0 && (t[0] == '-' || t[0] == '+') {
        1
    } else {
        0
    };
    let ghost r = t@.skip(start as int);
    assert(start == 1 ==> r =~= t@.drop_first());
    assert(start == 0 ==> r =~= t@);
    // Leading digits, at most four.
    assert(r.skip(0) =~= r);
    let mut d: usize = 0;
    while start + d < n && d < 4 && '0' <= t[start + d] && t[start + d] <= '9'
        invariant
            start <= n,
            n == t@.len(),
            r == t@.skip(start as int),
            d <= 4,
            start + d <= n,
            lead_digits(r) >= d,
            lead_digits(r) == d + lead_digits(r.skip(d as int)),
        decreases 4 - d,
    {
        assert(r.skip(d as int).drop_first() =~= r.skip(d + 1));
        d += 1;
    }
    proof {
        if d < 4 {
            assert(lead_digits(r.skip(d as int)) == 0);
        }
    }
    let mut out: Vec<char> = Vec::new();
    if bce {
        out.push('-');
    }
    let ghost pre = out@;
    if d == 4 {
        let mut k: usize = 0;
        while k < 4
            invariant
                k <= 4,
                start + 4 <= n,
                n == t@.len(),
                r == t@.skip(start as int),
                out@ == pre + r.take(k as int),
            decreases 4 - k,
        {
            out.push(t[start + k]);
            assert(pre + r.take(k + 1) =~= (pre + r.take(k as int)).push(r[k as int]));
            k += 1;
        }
    } else {
        // The first whitespace-separated word.
        let mut j: usize = start;
        assert(r.skip(0) =~= r);
        while j < n && is_whitespace(t[j])
            invariant
                start <= j <= n,
                n == t@.len(),
                r == t@.skip(start as int),
                trim_start(r) == trim_start(r.skip(j - start)),
            decreases n - j,
        {
            assert(r.skip(j - start).drop_first() =~= r.skip(j - start + 1));
            j += 1;
        }
        assert(trim_start(r) == r.skip(j - start));
        let j0 = j;
        while j < n && !is_whitespace(t[j])
            invariant
                start <= j0 <= j <= n,
                n == t@.len(),
                r == t@.skip(start as int),
                word_prefix(r.skip(j0 - start)) == t@.subrange(j0 as int, j as int) + word_prefix(r.skip(j - start)),
                out@ == pre + t@.subrange(j0 as int, j as int),
            decreases n - j,
        {
            assert(r.skip(j - start).drop_first() =~= r.skip(j - start + 1));
            assert(t@.subrange(j0 as int, j as int) + seq![t@[j as int]] =~= t@.subrange(j0 as int, j + 1));
            out.push(t[j]);
            assert(pre + t@.subrange(j0 as int, j + 1) =~= (pre + t@.subrange(j0 as int, j as int)).push(t@[j as int]));
            j += 1;
        }
        assert(word_prefix(r.skip(j - start)) =~= Seq::<char>::empty());
        assert(t@.subrange(j0 as int, j as int) + Seq::<char>::empty() =~= t@.subrange(j0 as int, j as int));
    }
    proof {
        if !bce {
            assert(pre =~= Seq::<char>::empty());
            assert(out@ =~= year_of(s@));
        } else {
            assert(out@ =~= year_of(s@));
        }
    }
    string_from(out.as_slice())
}

// ---------------------------------------------------------------------------
// Persons
// ---------------------------------------------------------------------------

/// One person of the person authority file.
pub struct PersonRecord {
    pub person_id: String,
    pub primary_name: String,
    pub primary_name_lang: String,
    /// Alternative names, CJK ones only.
    pub alt_names: Vec<String>,
    pub gender: Option<String>,
    pub dynasty: Option<String>,
    pub birth_raw: Option<String>,
    pub death_raw: Option<String>,
    pub occupation: Option<String>,
    pub place_of_origin: Option<String>,
    pub concise_bio: Option<String>,
    pub teachers: Vec<String>,
    pub students: Vec<String>,
    pub wikidata_id: Option<String>,
    pub cbdb_id: Option<String>,
}

pub struct PersonV {
    pub id: Seq<char>,
    pub name: Seq<char>,
    pub lang: Seq<char>,
    pub alt_names: Seq<Seq<char>>,
    pub gender: Option<Seq<char>>,
    pub dynasty: Option<Seq<char>>,
    pub birth: Option<Seq<char>>,
    pub death: Option<Seq<char>>,
    pub occupation: Option<Seq<char>>,
    pub place_of_origin: Option<Seq<char>>,
    pub bio: Option<Seq<char>>,
    pub teachers: Seq<Seq<char>>,
    pub students: Seq<Seq<char>>,
    pub wikidata: Option<Seq<char>>,
    pub cbdb: Option<Seq<char>>,
}

impl View for PersonRecord {
    type V = PersonV;

    open spec fn view(&self) -> PersonV {
        PersonV {
            id: self.person_id@,
            name: self.primary_name@,
            lang: self.primary_name_lang@,
            alt_names: strs(self.alt_names@),
            gender: opt_view(self.gender),
            dynasty: opt_view(self.dynasty),
            birth: opt_view(self.birth_raw),
            death: opt_view(self.death_raw),
            occupation: opt_view(self.occupation),
            place_of_origin: opt_view(self.place_of_origin),
            bio: opt_view(self.concise_bio),
            teachers: strs(self.teachers@),
            students: strs(self.students@),
            wikidata: opt_view(self.wikidata_id),
            cbdb: opt_view(self.cbdb_id),
        }
    }
}

/// Which field the text that follows belongs to.
pub enum PersonCtx {
    /// Text here belongs to no field.
    Idle,
    PersName { is_alt: bool, lang: String },
    Birth,
    Death,
    Occupation,
    NoteDynasty,
    NoteConcise,
    NotePlaceOfOrigin,
    IdnoWikidata,
    IdnoCbdb,
}

pub enum PersonCtxV {
    Idle,
    PersName(bool, Seq<char>),
    Birth,
    Death,
    Occupation,
    NoteDynasty,
    NoteConcise,
    NotePlaceOfOrigin,
    IdnoWikidata,
    IdnoCbdb,
}

impl View for PersonCtx {
    type V = PersonCtxV;

    open spec fn view(&self) -> PersonCtxV {
        match self {
            PersonCtx::Idle => PersonCtxV::Idle,
            PersonCtx::PersName { is_alt, lang } => PersonCtxV::PersName(*is_alt, lang@),
            PersonCtx::Birth => PersonCtxV::Birth,
            PersonCtx::Death => PersonCtxV::Death,
            PersonCtx::Occupation => PersonCtxV::Occupation,
            PersonCtx::NoteDynasty => PersonCtxV::NoteDynasty,
            PersonCtx::NoteConcise => PersonCtxV::NoteConcise,
            PersonCtx::NotePlaceOfOrigin => PersonCtxV::NotePlaceOfOrigin,
            PersonCtx::IdnoWikidata => PersonCtxV::IdnoWikidata,
            PersonCtx::IdnoCbdb => PersonCtxV::IdnoCbdb,
        }
    }
}

/// Whether a `<person>` is open, its fields so far, and where text goes.
pub struct PersonState {
    pub in_person: bool,
    pub cur: PersonV,
    pub ctx: PersonCtxV,
}

pub open spec fn new_person(id: Seq<char>) -> PersonV {
    PersonV {
        id,
        name: Seq::empty(),
        lang: Seq::empty(),
        alt_names: Seq::empty(),
        gender: None,
        dynasty: None,
        birth: None,
        death: None,
        occupation: None,
        place_of_origin: None,
        bio: None,
        teachers: Seq::empty(),
        students: Seq::empty(),
        wikidata: None,
        cbdb: None,
    }
}

pub open spec fn person_start_state() -> PersonState {
    PersonState { in_person: false, cur: new_person(Seq::empty()), ctx: PersonCtxV::Idle }
}

pub open spec fn is_named(l: Seq<u8>, lit: Seq<char>) -> bool {
    l == ascii_bytes(lit)
}

/// The gender of a `sex` value: `1` male, `2` female, anything else as it is.
pub open spec fn gender_of(v: Seq<char>) -> Seq<char> {
    if v == "1"@ {
        "male"@
    } else if v == "2"@ {
        "female"@
    } else {
        v
    }
}

pub open spec fn note_ctx(t: Option<Seq<char>>) -> PersonCtxV {
    if t == Some("dynasty"@) {
        PersonCtxV::NoteDynasty
    } else if t == Some("concise"@) {
        PersonCtxV::NoteConcise
    } else if t == Some("placeOfOrigin"@) {
        PersonCtxV::NotePlaceOfOrigin
    } else {
        PersonCtxV::Idle
    }
}

pub open spec fn idno_ctx(t: Option<Seq<char>>) -> PersonCtxV {
    if t == Some("Wikidata"@) {
        PersonCtxV::IdnoWikidata
    } else if t == Some("CBDB"@) {
        PersonCtxV::IdnoCbdb
    } else {
        PersonCtxV::Idle
    }
}

pub open spec fn person_start(s: PersonState, name: Seq<u8>, attrs: Seq<(Seq<u8>, Seq<u8>)>) -> PersonState {
    let l = local_part(name);
    if is_named(l, "person"@) {
        PersonState {
            in_person: true,
            cur: new_person(or_empty(or_spec(attr_text(attrs, "xml:id"@), attr_text(attrs, "id"@)))),
            ctx: PersonCtxV::Idle,
        }
    } else if !s.in_person {
        s
    } else if is_named(l, "persName"@) {
        PersonState {
            ctx: PersonCtxV::PersName(
                attr_text(attrs, "type"@) == Some("alternative"@),
                or_empty(or_spec(attr_text(attrs, "lang"@), attr_text(attrs, "xml:lang"@))),
            ),
            ..s
        }
    } else if is_named(l, "sex"@) {
        let g = match attr_text(attrs, "value"@) {
            Some(v) => Some(gender_of(v)),
            None => None,
        };
        PersonState { cur: PersonV { gender: g, ..s.cur }, ..s }
    } else if is_named(l, "birth"@) {
        PersonState { ctx: PersonCtxV::Birth, ..s }
    } else if is_named(l, "death"@) {
        PersonState { ctx: PersonCtxV::Death, ..s }
    } else if is_named(l, "occupation"@) {
        PersonState { ctx: PersonCtxV::Occupation, ..s }
    } else if is_named(l, "note"@) {
        PersonState { ctx: note_ctx(attr_text(attrs, "type"@)), ..s }
    } else if is_named(l, "idno"@) {
        PersonState { ctx: idno_ctx(attr_text(attrs, "type"@)), ..s }
    } else if is_named(l, "relation"@) {
        let rt = or_empty(attr_text(attrs, "type"@));
        let n = or_empty(attr_text(attrs, "n"@));
        if n.len() == 0 {
            s
        } else if rt == "teacher"@ {
            PersonState { cur: PersonV { teachers: s.cur.teachers.push(n), ..s.cur }, ..s }
        } else if rt == "student"@ {
            PersonState { cur: PersonV { students: s.cur.students.push(n), ..s.cur }, ..s }
        } else {
            s
        }
    } else {
        s
    }
}

/// Character data inside a person goes to the field of the element around
/// it, trimmed; empty text is dropped.
pub open spec fn person_text(s: PersonState, bytes: Seq<u8>) -> PersonState {
    let text = trim(lossy_text(bytes));
    if !s.in_person || text.len() == 0 {
        s
    } else {
        let c = s.cur;
        let cur = match s.ctx {
            PersonCtxV::PersName(is_alt, lang) => if is_alt {
                if has_cjk(text) {
                    PersonV { alt_names: c.alt_names.push(text), ..c }
                } else {
                    c
                }
            } else if c.name.len() == 0 {
                PersonV { name: text, lang, ..c }
            } else {
                c
            },
            PersonCtxV::Birth => if c.birth is None {
                PersonV { birth: Some(year_of(text)), ..c }
            } else {
                c
            },
            PersonCtxV::Death => if c.death is None {
                PersonV { death: Some(year_of(text)), ..c }
            } else {
                c
            },
            PersonCtxV::Occupation => PersonV { occupation: Some(text), ..c },
            PersonCtxV::NoteDynasty => PersonV { dynasty: Some(text), ..c },
            PersonCtxV::NoteConcise => PersonV {
                bio: Some(
                    match c.bio {
                        Some(b) => b + text,
                        None => text,
                    },
                ),
                ..c
            },
            PersonCtxV::NotePlaceOfOrigin => if c.place_of_origin is None && has_cjk(text) {
                PersonV { place_of_origin: Some(text), ..c }
            } else {
                c
            },
            PersonCtxV::IdnoWikidata => PersonV { wikidata: Some(text), ..c },
            PersonCtxV::IdnoCbdb => PersonV { cbdb: Some(text), ..c },
            PersonCtxV::Idle => c,
        };
        PersonState { cur, ..s }
    }
}

/// An end tag: `</person>` closes the entry and emits it when it has both a
/// name and an id; the end of a field element ends that field.
pub open spec fn person_end(s: PersonState, name: Seq<u8>) -> (PersonState, Option<PersonV>) {
    let l = local_part(name);
    if is_named(l, "person"@) && s.in_person {
        if s.cur.name.len() == 0 || s.cur.id.len() == 0 {
            (PersonState { in_person: false, ..s }, None)
        } else {
            (PersonState { in_person: false, ctx: PersonCtxV::Idle, ..s }, Some(s.cur))
        }
    } else if is_named(l, "persName"@) || is_named(l, "birth"@) || is_named(l, "death"@) || is_named(
        l,
        "occupation"@,
    ) || is_named(l, "note"@) || is_named(l, "idno"@) {
        (PersonState { ctx: PersonCtxV::Idle, ..s }, None)
    } else {
        (s, None)
    }
}

/// One event: the next state, and the person that it completes, if any.
pub open spec fn person_step(s: PersonState, e: XmlEventV) -> (PersonState, Option<PersonV>) {
    match e {
        XmlEventV::Start { name, attrs, .. } => (person_start(s, name, attrs), None),
        XmlEventV::End { name } => person_end(s, name),
        XmlEventV::Text(b) => (person_text(s, b), None),
        _ => (s, None),
    }
}

/// The message of a failed read: the reader's own, after `XML error: `.
pub open spec fn xml_error(m: Seq<char>) -> Seq<char> {
    "XML error: "@ + m
}

/// `XML error: ` and the reader's message.
fn xml_error_message(m: &String) -> (r: String)
    ensures
        r@ == xml_error(m@),
{
    let mut r = String::from_str("XML error: ");
    push_str(&mut r, m.as_str());
    r
}

pub open spec fn opt_seq<T>(o: Option<T>) -> Seq<T> {
    match o {
        Some(x) => seq![x],
        None => Seq::empty(),
    }
}

/// The persons of an event stream, from state `s` with `acc` emitted so
/// far: up to the end of the document, or the reader's error.
pub open spec fn persons_from(s: PersonState, evs: Seq<XmlEventV>, acc: Seq<PersonV>) -> Result<Seq<PersonV>, Seq<char>>
    decreases evs.len(),
{
    if evs.len() == 0 {
        Ok(acc)
    } else {
        match evs[0] {
            XmlEventV::Eof => Ok(acc),
            XmlEventV::Error(m) => Err(xml_error(m)),
            _ => {
                let r = person_step(s, evs[0]);
                persons_from(r.0, evs.drop_first(), acc + opt_seq(r.1))
            },
        }
    }
}

pub open spec fn persons_of(evs: Seq<XmlEventV>) -> Result<Seq<PersonV>, Seq<char>> {
    persons_from(person_start_state(), evs, Seq::empty())
}

pub open spec fn persons_v(v: Seq<PersonRecord>) -> Seq<PersonV> {
    v.map_values(|p: PersonRecord| p@)
}

pub open spec fn person_outcome(r: Result<Vec<PersonRecord>, String>) -> Result<Seq<PersonV>, Seq<char>> {
    match r {
        Ok(v) => Ok(persons_v(v@)),
        Err(m) => Err(m@),
    }
}fn push_string(v: &mut Vec<String>, s: String)
    ensures
        strs(final(v)@) == strs(old(v)@).push(s@),
{
    v.push(s);
    assert(strs(v@) =~= strs(old(v)@).push(s@));
}

impl PersonRecord {
    fn new_with_id(id: String) -> (r: PersonRecord)
        ensures
            r@ == new_person(id@),
    {
        let r = PersonRecord {
            person_id: id,
            primary_name: String::new(),
            primary_name_lang: String::new(),
            alt_names: Vec::new(),
            gender: None,
            dynasty: None,
            birth_raw: None,
            death_raw: None,
            occupation: None,
            place_of_origin: None,
            concise_bio: None,
            teachers: Vec::new(),
            students: Vec::new(),
            wikidata_id: None,
            cbdb_id: None,
        };
        assert(strs(r.alt_names@) =~= Seq::<Seq<char>>::empty());
        assert(strs(r.teachers@) =~= Seq::<Seq<char>>::empty());
        assert(strs(r.students@) =~= Seq::<Seq<char>>::empty());
        r
    }

    fn duplicate(&self) -> (r: PersonRecord)
        ensures
            r@ == self@,
    {
        PersonRecord {
            person_id: self.person_id.clone(),
            primary_name: self.primary_name.clone(),
            primary_name_lang: self.primary_name_lang.clone(),
            alt_names: clone_strings(&self.alt_names),
            gender: clone_opt(&self.gender),
            dynasty: clone_opt(&self.dynasty),
            birth_raw: clone_opt(&self.birth_raw),
            death_raw: clone_opt(&self.death_raw),
            occupation: clone_opt(&self.occupation),
            place_of_origin: clone_opt(&self.place_of_origin),
            concise_bio: clone_opt(&self.concise_bio),
            teachers: clone_strings(&self.teachers),
            students: clone_strings(&self.students),
            wikidata_id: clone_opt(&self.wikidata_id),
            cbdb_id: clone_opt(&self.cbdb_id),
        }
    }
}

/// The person authority reader's state between events.
pub struct PersonParser {
    in_person: bool,
    cur: PersonRecord,
    ctx: PersonCtx,
}

impl View for PersonParser {
    type V = PersonState;

    closed spec fn view(&self) -> PersonState {
        PersonState { in_person: self.in_person, cur: self.cur@, ctx: self.ctx@ }
    }
}

/// The trimmed text of raw character data.
fn text_of(bytes: &[u8]) -> (r: Vec<char>)
    ensures
        r@ == trim(lossy_text(bytes@)),
{
    let raw = utf8_lossy(bytes);
    let cs = chars_of(raw.as_str());
    trimmed(cs.as_slice())
}

impl PersonParser {
    pub fn new() -> (r: PersonParser)
        ensures
            r@ == person_start_state(),
    {
        PersonParser { in_person: false, cur: PersonRecord::new_with_id(String::new()), ctx: PersonCtx::Idle }
    }

    fn start(&mut self, name: &[u8], attrs: &[(Vec<u8>, Vec<u8>)])
        ensures
            final(self)@ == person_start(old(self)@, name@, attrs_v(attrs@)),
    {
        let l = local_name(name);
        if bytes_are(l, "person") {
            let id = unwrap_or_empty(or_else(attr_val(attrs, "xml:id"), attr_val(attrs, "id")));
            self.in_person = true;
            self.cur = PersonRecord::new_with_id(id);
            self.ctx = PersonCtx::Idle;
            return;
        }
        if !self.in_person {
            return;
        }
        if bytes_are(l, "persName") {
            let t = attr_val(attrs, "type");
            let is_alt = match &t {
                Some(v) => str_eq(v.as_str(), "alternative"),
                None => false,
            };
            let lang = unwrap_or_empty(or_else(attr_val(attrs, "lang"), attr_val(attrs, "xml:lang")));
            self.ctx = PersonCtx::PersName { is_alt, lang };
        } else if bytes_are(l, "sex") {
            self.cur.gender = match attr_val(attrs, "value") {
                Some(v) => Some(
                    if str_eq(v.as_str(), "1") {
                        String::from_str("male")
                    } else if str_eq(v.as_str(), "2") {
                        String::from_str("female")
                    } else {
                        v
                    },
                ),
                None => None,
            };
        } else if bytes_are(l, "birth") {
            self.ctx = PersonCtx::Birth;
        } else if bytes_are(l, "death") {
            self.ctx = PersonCtx::Death;
        } else if bytes_are(l, "occupation") {
            self.ctx = PersonCtx::Occupation;
        } else if bytes_are(l, "note") {
            let t = attr_val(attrs, "type");
            self.ctx = match &t {
                Some(v) => if str_eq(v.as_str(), "dynasty") {
                    PersonCtx::NoteDynasty
                } else if str_eq(v.as_str(), "concise") {
                    PersonCtx::NoteConcise
                } else if str_eq(v.as_str(), "placeOfOrigin") {
                    PersonCtx::NotePlaceOfOrigin
                } else {
                    PersonCtx::Idle
                },
                None => PersonCtx::Idle,
            };
        } else if bytes_are(l, "idno") {
            let t = attr_val(attrs, "type");
            self.ctx = match &t {
                Some(v) => if str_eq(v.as_str(), "Wikidata") {
                    PersonCtx::IdnoWikidata
                } else if str_eq(v.as_str(), "CBDB") {
                    PersonCtx::IdnoCbdb
                } else {
                    PersonCtx::Idle
                },
                None => PersonCtx::Idle,
            };
        } else if bytes_are(l, "relation") {
            let rel_type = unwrap_or_empty(attr_val(attrs, "type"));
            let n = unwrap_or_empty(attr_val(attrs, "n"));
            if !n.as_str().is_empty() {
                if str_eq(rel_type.as_str(), "teacher") {
                    push_string(&mut self.cur.teachers, n);
                } else if str_eq(rel_type.as_str(), "student") {
                    push_string(&mut self.cur.students, n);
                }
            }
        }
    }

    fn text(&mut self, bytes: &[u8])
        ensures
            final(self)@ == person_text(old(self)@, bytes@),
    {
        if !self.in_person {
            return;
        }
        let t = text_of(bytes);
        if t.len() == 0 {
            return;
        }
        let text = string_from(t.as_slice());
        match &self.ctx {
            PersonCtx::PersName { is_alt, lang } => {
                if *is_alt {
                    // Only store CJK alt names for matching
                    if contains_cjk(t.as_slice()) {
                        push_string(&mut self.cur.alt_names, text);
                    }
                } else if self.cur.primary_name.as_str().is_empty() {
                    self.cur.primary_name = text;
                    self.cur.primary_name_lang = lang.clone();
                }
            },
            PersonCtx::Birth => {
                if self.cur.birth_raw.is_none() {
                    self.cur.birth_raw = Some(extract_year(text.as_str()));
                }
            },
            PersonCtx::Death => {
                if self.cur.death_raw.is_none() {
                    self.cur.death_raw = Some(extract_year(text.as_str()));
                }
            },
            PersonCtx::Occupation => {
                self.cur.occupation = Some(text);
            },
            PersonCtx::NoteDynasty => {
                self.cur.dynasty = Some(text);
            },
            PersonCtx::NoteConcise => {
                // May have multiple text nodes; concatenate
                let bio = match &self.cur.concise_bio {
                    Some(b) => {
                        let mut b2 = b.clone();
                        push_str(&mut b2, text.as_str());
                        b2
                    },
                    None => text,
                };
                self.cur.concise_bio = Some(bio);
            },
            PersonCtx::NotePlaceOfOrigin => {
                if self.cur.place_of_origin.is_none() && contains_cjk(t.as_slice()) {
                    self.cur.place_of_origin = Some(text);
                }
            },
            PersonCtx::IdnoWikidata => {
                self.cur.wikidata_id = Some(text);
            },
            PersonCtx::IdnoCbdb => {
                self.cur.cbdb_id = Some(text);
            },
            PersonCtx::Idle => {},
        }
    }

    fn end(&mut self, name: &[u8]) -> (r: Option<PersonRecord>)
        ensures
            (final(self)@, match r {
                Some(p) => Some(p@),
                None => None,
            }) == person_end(old(self)@, name@),
    {
        let l = local_name(name);
        if bytes_are(l, "person") && self.in_person {
            self.in_person = false;
            if self.cur.primary_name.as_str().is_empty() || self.cur.person_id.as_str().is_empty() {
                return None;
            }
            self.ctx = PersonCtx::Idle;
            return Some(self.cur.duplicate());
        }
        if bytes_are(l, "persName") || bytes_are(l, "birth") || bytes_are(l, "death") || bytes_are(
            l,
            "occupation",
        ) || bytes_are(l, "note") || bytes_are(l, "idno") {
            self.ctx = PersonCtx::Idle;
        }
        None
    }

    /// Takes one event; returns the person that it completes, if any.
    pub fn step(&mut self, ev: &XmlEvent) -> (r: Option<PersonRecord>)
        ensures
            (final(self)@, match r {
                Some(p) => Some(p@),
                None => None,
            }) == person_step(old(self)@, ev@),
    {
        match ev {
            XmlEvent::Start { name, attrs, .. } => {
                self.start(name.as_slice(), attrs.as_slice());
                None
            },
            XmlEvent::End { name } => self.end(name.as_slice()),
            XmlEvent::Text(b) => {
                self.text(b.as_slice());
                None
            },
            _ => None,
        }
    }
}

/// The persons of an XML event stream, up to its end; the reader's error,
/// if it stops with one.
pub fn persons_from_events(events: &[XmlEvent]) -> (r: Result<Vec<PersonRecord>, String>)
    ensures
        person_outcome(r) == persons_of(evs_v(events@)),
{
    let mut p = PersonParser::new();
    let mut out: Vec<PersonRecord> = Vec::new();
    let mut k: usize = 0;
    let ghost ev = evs_v(events@);
    assert(ev.skip(0) =~= ev);
    while k < events.len()
        invariant
            k <= events@.len(),
            ev == evs_v(events@),
            persons_from(p@, ev.skip(k as int), persons_v(out@)) == persons_of(ev),
        decreases events.len() - k,
    {
        assert(ev.skip(k as int)[0] == events@[k as int]@);
        assert(ev.skip(k as int).drop_first() =~= ev.skip(k + 1));
        match &events[k] {
            XmlEvent::Eof => {
                return Ok(out);
            },
            XmlEvent::Error(m) => {
                return Err(xml_error_message(m));
            },
            _ => {},
        }
        let ghost before = out@;
        let r = p.step(&events[k]);
        match r {
            Some(rec) => {
                out.push(rec);
                assert(persons_v(out@) =~= persons_v(before) + seq![rec@]);
            },
            None => {
                assert(persons_v(out@) =~= persons_v(before) + Seq::<PersonV>::empty());
            },
        }
        k += 1;
    }
    Ok(out)
}

// ---------------------------------------------------------------------------
// Places
// ---------------------------------------------------------------------------

/// One place of the place authority file. Each `<geo>` text is kept with its
/// `cert` attribute, in document order; the coordinates are the last of them
/// that reads as two numbers, `longitude latitude`.
pub struct PlaceRecord {
    pub place_id: String,
    pub primary_name: String,
    pub primary_name_lang: String,
    /// Alternative names, CJK ones only.
    pub alt_names: Vec<String>,
    pub geo_texts: Vec<(String, Option<String>)>,
    pub district: Option<String>,
    pub category: Option<String>,
    pub description: Option<String>,
    pub parent_place_id: Option<String>,
}

pub struct PlaceV {
    pub id: Seq<char>,
    pub name: Seq<char>,
    pub lang: Seq<char>,
    pub alt_names: Seq<Seq<char>>,
    pub geo: Seq<(Seq<char>, Option<Seq<char>>)>,
    pub district: Option<Seq<char>>,
    pub category: Option<Seq<char>>,
    pub description: Option<Seq<char>>,
    pub parent: Option<Seq<char>>,
}

pub open spec fn geo_v(g: Seq<(String, Option<String>)>) -> Seq<(Seq<char>, Option<Seq<char>>)> {
    g.map_values(|p: (String, Option<String>)| (p.0@, opt_view(p.1)))
}

impl View for PlaceRecord {
    type V = PlaceV;

    open spec fn view(&self) -> PlaceV {
        PlaceV {
            id: self.place_id@,
            name: self.primary_name@,
            lang: self.primary_name_lang@,
            alt_names: strs(self.alt_names@),
            geo: geo_v(self.geo_texts@),
            district: opt_view(self.district),
            category: opt_view(self.category),
            description: opt_view(self.description),
            parent: opt_view(self.parent_place_id),
        }
    }
}

/// Which field the text that follows belongs to.
pub enum PlaceCtx {
    /// Text here belongs to no field.
    Idle,
    PlaceName { is_alt: bool, lang: String },
    Geo { cert: Option<String> },
    District,
    NoteCategory,
    NoteGeneral,
}

pub enum PlaceCtxV {
    Idle,
    PlaceName(bool, Seq<char>),
    Geo(Option<Seq<char>>),
    District,
    NoteCategory,
    NoteGeneral,
}

impl View for PlaceCtx {
    type V = PlaceCtxV;

    open spec fn view(&self) -> PlaceCtxV {
        match self {
            PlaceCtx::Idle => PlaceCtxV::Idle,
            PlaceCtx::PlaceName { is_alt, lang } => PlaceCtxV::PlaceName(*is_alt, lang@),
            PlaceCtx::Geo { cert } => PlaceCtxV::Geo(opt_view(*cert)),
            PlaceCtx::District => PlaceCtxV::District,
            PlaceCtx::NoteCategory => PlaceCtxV::NoteCategory,
            PlaceCtx::NoteGeneral => PlaceCtxV::NoteGeneral,
        }
    }
}

/// Whether an authority `<place>` is open, how many `<place>` elements are
/// open inside it, its fields so far, and where text goes.
pub struct PlaceState {
    pub in_place: bool,
    pub depth: nat,
    pub cur: PlaceV,
    pub ctx: PlaceCtxV,
}

pub open spec fn new_place(id: Seq<char>) -> PlaceV {
    PlaceV {
        id,
        name: Seq::empty(),
        lang: Seq::empty(),
        alt_names: Seq::empty(),
        geo: Seq::empty(),
        district: None,
        category: None,
        description: None,
        parent: None,
    }
}

pub open spec fn place_start_state() -> PlaceState {
    PlaceState { in_place: false, depth: 0, cur: new_place(Seq::empty()), ctx: PlaceCtxV::Idle }
}

/// Authority entries have an id starting with `PL`.
pub open spec fn is_entry_id(id: Seq<char>) -> bool {
    id.len() >= 2 && id[0] == 'P' && id[1] == 'L'
}

pub open spec fn place_start(s: PlaceState, name: Seq<u8>, attrs: Seq<(Seq<u8>, Seq<u8>)>, empty: bool) -> PlaceState {
    let l = local_part(name);
    if is_named(l, "place"@) {
        if s.in_place {
            // A nested place: it names the parent place by its key.
            let parent = if s.cur.parent is None && attr_text(attrs, "key"@) is Some {
                attr_text(attrs, "key"@)
            } else {
                s.cur.parent
            };
            PlaceState {
                depth: if empty {
                    s.depth
                } else {
                    s.depth + 1
                },
                cur: PlaceV { parent, ..s.cur },
                ..s
            }
        } else {
            let id = or_empty(or_spec(attr_text(attrs, "xml:id"@), attr_text(attrs, "id"@)));
            if is_entry_id(id) {
                PlaceState { in_place: true, depth: 0, cur: new_place(id), ctx: PlaceCtxV::Idle }
            } else {
                s
            }
        }
    } else if !s.in_place {
        s
    } else if is_named(l, "placeName"@) {
        PlaceState {
            ctx: PlaceCtxV::PlaceName(
                attr_text(attrs, "type"@) == Some("alternative"@),
                or_empty(or_spec(attr_text(attrs, "lang"@), attr_text(attrs, "xml:lang"@))),
            ),
            ..s
        }
    } else if is_named(l, "geo"@) {
        PlaceState { ctx: PlaceCtxV::Geo(attr_text(attrs, "cert"@)), ..s }
    } else if is_named(l, "district"@) {
        PlaceState { ctx: PlaceCtxV::District, ..s }
    } else if is_named(l, "note"@) {
        let t = attr_text(attrs, "type"@);
        PlaceState {
            ctx: if t == Some("category"@) {
                PlaceCtxV::NoteCategory
            } else if t is None {
                PlaceCtxV::NoteGeneral
            } else {
                PlaceCtxV::Idle
            },
            ..s
        }
    } else {
        s
    }
}

pub open spec fn place_text(s: PlaceState, bytes: Seq<u8>) -> PlaceState {
    let text = trim(lossy_text(bytes));
    if !s.in_place || text.len() == 0 {
        s
    } else {
        let c = s.cur;
        let cur = match s.ctx {
            PlaceCtxV::PlaceName(is_alt, lang) => if is_alt {
                if has_cjk(text) {
                    PlaceV { alt_names: c.alt_names.push(text), ..c }
                } else {
                    c
                }
            } else if c.name.len() == 0 {
                PlaceV { name: text, lang, ..c }
            } else {
                c
            },
            PlaceCtxV::Geo(cert) => PlaceV { geo: c.geo.push((text, cert)), ..c },
            PlaceCtxV::District => PlaceV { district: Some(text), ..c },
            PlaceCtxV::NoteCategory => PlaceV { category: Some(text), ..c },
            PlaceCtxV::NoteGeneral => if c.description is None {
                PlaceV { description: Some(text), ..c }
            } else {
                c
            },
            PlaceCtxV::Idle => c,
        };
        PlaceState { cur, ..s }
    }
}

/// An end tag: the end of a nested `<place>` closes it; the end of the
/// entry's own `<place>` emits the entry when it has a name and an id.
pub open spec fn place_end(s: PlaceState, name: Seq<u8>) -> (PlaceState, Option<PlaceV>) {
    let l = local_part(name);
    if is_named(l, "place"@) && s.in_place {
        if s.depth > 0 {
            (PlaceState { depth: (s.depth - 1) as nat, ..s }, None)
        } else if s.cur.name.len() == 0 || s.cur.id.len() == 0 {
            (PlaceState { in_place: false, ctx: PlaceCtxV::Idle, ..s }, None)
        } else {
            (PlaceState { in_place: false, ctx: PlaceCtxV::Idle, ..s }, Some(s.cur))
        }
    } else if is_named(l, "placeName"@) || is_named(l, "geo"@) || is_named(l, "district"@) || is_named(l, "note"@) {
        (PlaceState { ctx: PlaceCtxV::Idle, ..s }, None)
    } else {
        (s, None)
    }
}

pub open spec fn place_step(s: PlaceState, e: XmlEventV) -> (PlaceState, Option<PlaceV>) {
    match e {
        XmlEventV::Start { name, attrs, empty } => (place_start(s, name, attrs, empty), None),
        XmlEventV::End { name } => place_end(s, name),
        XmlEventV::Text(b) => (place_text(s, b), None),
        _ => (s, None),
    }
}

pub open spec fn places_from(s: PlaceState, evs: Seq<XmlEventV>, acc: Seq<PlaceV>) -> Result<Seq<PlaceV>, Seq<char>>
    decreases evs.len(),
{
    if evs.len() == 0 {
        Ok(acc)
    } else {
        match evs[0] {
            XmlEventV::Eof => Ok(acc),
            XmlEventV::Error(m) => Err(xml_error(m)),
            _ => {
                let r = place_step(s, evs[0]);
                places_from(r.0, evs.drop_first(), acc + opt_seq(r.1))
            },
        }
    }
}

pub open spec fn places_of(evs: Seq<XmlEventV>) -> Result<Seq<PlaceV>, Seq<char>> {
    places_from(place_start_state(), evs, Seq::empty())
}

pub open spec fn places_v(v: Seq<PlaceRecord>) -> Seq<PlaceV> {
    v.map_values(|p: PlaceRecord| p@)
}

pub open spec fn place_outcome(r: Result<Vec<PlaceRecord>, String>) -> Result<Seq<PlaceV>, Seq<char>> {
    match r {
        Ok(v) => Ok(places_v(v@)),
        Err(m) => Err(m@),
    }
}

fn clone_geo(v: &Vec<(String, Option<String>)>) -> (r: Vec<(String, Option<String>)>)
    ensures
        geo_v(r@) == geo_v(v@),
{
    let mut r: Vec<(String, Option<String>)> = Vec::new();
    let mut i: usize = 0;
    while i < v.len()
        invariant
            i <= v@.len(),
            geo_v(r@) == geo_v(v@.take(i as int)),
        decreases v.len() - i,
    {
        let c = (v[i].0.clone(), clone_opt(&v[i].1));
        let ghost before = r@;
        r.push(c);
        assert(geo_v(r@) =~= geo_v(before).push((c.0@, opt_view(c.1))));
        assert(geo_v(v@.take(i + 1)) =~= geo_v(v@.take(i as int)).push((v@[i as int].0@, opt_view(v@[i as int].1))));
        i += 1;
    }
    assert(v@.take(v@.len() as int) =~= v@);
    r
}

impl PlaceRecord {
    fn new_with_id(id: String) -> (r: PlaceRecord)
        ensures
            r@ == new_place(id@),
    {
        let r = PlaceRecord {
            place_id: id,
            primary_name: String::new(),
            primary_name_lang: String::new(),
            alt_names: Vec::new(),
            geo_texts: Vec::new(),
            district: None,
            category: None,
            description: None,
            parent_place_id: None,
        };
        assert(strs(r.alt_names@) =~= Seq::<Seq<char>>::empty());
        assert(geo_v(r.geo_texts@) =~= Seq::<(Seq<char>, Option<Seq<char>>)>::empty());
        r
    }

    fn duplicate(&self) -> (r: PlaceRecord)
        ensures
            r@ == self@,
    {
        PlaceRecord {
            place_id: self.place_id.clone(),
            primary_name: self.primary_name.clone(),
            primary_name_lang: self.primary_name_lang.clone(),
            alt_names: clone_strings(&self.alt_names),
            geo_texts: clone_geo(&self.geo_texts),
            district: clone_opt(&self.district),
            category: clone_opt(&self.category),
            description: clone_opt(&self.description),
            parent_place_id: clone_opt(&self.parent_place_id),
        }
    }
}

/// The place authority reader's state between events.
pub struct PlaceParser {
    in_place: bool,
    depth: u64,
    cur: PlaceRecord,
    ctx: PlaceCtx,
}

impl View for PlaceParser {
    type V = PlaceState;

    closed spec fn view(&self) -> PlaceState {
        PlaceState { in_place: self.in_place, depth: self.depth as nat, cur: self.cur@, ctx: self.ctx@ }
    }
}

fn starts_pl(id: &str) -> (r: bool)
    ensures
        r == is_entry_id(id@),
{
    let cs = chars_of(id);
    cs.len() >= 2 && cs[0] == 'P' && cs[1] == 'L'
}

impl PlaceParser {
    pub fn new() -> (r: PlaceParser)
        ensures
            r@ == place_start_state(),
    {
        PlaceParser { in_place: false, depth: 0, cur: PlaceRecord::new_with_id(String::new()), ctx: PlaceCtx::Idle }
    }

    /// How many `<place>` elements are open inside the current entry.
    pub closed spec fn open_places(&self) -> nat {
        self.depth as nat
    }

    fn start(&mut self, name: &[u8], attrs: &[(Vec<u8>, Vec<u8>)], empty: bool)
        requires
            old(self)@.depth < u64::MAX,
        ensures
            final(self)@ == place_start(old(self)@, name@, attrs_v(attrs@), empty),
    {
        let l = local_name(name);
        if bytes_are(l, "place") {
            if self.in_place {
                // Nested <place> inside an authority entry (e.g. inside <location>)
                // Capture parent place reference from <place key="PLA...">
                if let Some(key) = attr_val(attrs, "key") {
                    if self.cur.parent_place_id.is_none() {
                        self.cur.parent_place_id = Some(key);
                    }
                }
                // Self-closing places have no end tag, so they are not counted.
                if !empty {
                    self.depth += 1;
                }
            } else {
                // Check if this is an authority entry (xml:id starts with "PL")
                let id = unwrap_or_empty(or_else(attr_val(attrs, "xml:id"), attr_val(attrs, "id")));
                if starts_pl(id.as_str()) {
                    self.in_place = true;
                    self.depth = 0;
                    self.cur = PlaceRecord::new_with_id(id);
                    self.ctx = PlaceCtx::Idle;
                }
            }
            return;
        }
        if !self.in_place {
            return;
        }
        if bytes_are(l, "placeName") {
            let t = attr_val(attrs, "type");
            let is_alt = match &t {
                Some(v) => str_eq(v.as_str(), "alternative"),
                None => false,
            };
            let lang = unwrap_or_empty(or_else(attr_val(attrs, "lang"), attr_val(attrs, "xml:lang")));
            self.ctx = PlaceCtx::PlaceName { is_alt, lang };
        } else if bytes_are(l, "geo") {
            let cert = attr_val(attrs, "cert");
            self.ctx = PlaceCtx::Geo { cert };
        } else if bytes_are(l, "district") {
            self.ctx = PlaceCtx::District;
        } else if bytes_are(l, "note") {
            let t = attr_val(attrs, "type");
            self.ctx = match &t {
                Some(v) => if str_eq(v.as_str(), "category") {
                    PlaceCtx::NoteCategory
                } else {
                    PlaceCtx::Idle
                },
                None => PlaceCtx::NoteGeneral,
            };
        }
    }

    fn text(&mut self, bytes: &[u8])
        ensures
            final(self)@ == place_text(old(self)@, bytes@),
    {
        if !self.in_place {
            return;
        }
        let t = text_of(bytes);
        if t.len() == 0 {
            return;
        }
        let text = string_from(t.as_slice());
        match &self.ctx {
            PlaceCtx::PlaceName { is_alt, lang } => {
                if *is_alt {
                    if contains_cjk(t.as_slice()) {
                        push_string(&mut self.cur.alt_names, text);
                    }
                } else if self.cur.primary_name.as_str().is_empty() {
                    self.cur.primary_name = text;
                    self.cur.primary_name_lang = lang.clone();
                }
            },
            PlaceCtx::Geo { cert } => {
                let c = (text, clone_opt(cert));
                let ghost before = self.cur.geo_texts@;
                self.cur.geo_texts.push(c);
                assert(geo_v(self.cur.geo_texts@) =~= geo_v(before).push((c.0@, opt_view(c.1))));
            },
            PlaceCtx::District => {
                self.cur.district = Some(text);
            },
            PlaceCtx::NoteCategory => {
                self.cur.category = Some(text);
            },
            PlaceCtx::NoteGeneral => {
                if self.cur.description.is_none() {
                    self.cur.description = Some(text);
                }
            },
            PlaceCtx::Idle => {},
        }
    }

    fn end(&mut self, name: &[u8]) -> (r: Option<PlaceRecord>)
        ensures
            (final(self)@, match r {
                Some(p) => Some(p@),
                None => None,
            }) == place_end(old(self)@, name@),
    {
        let l = local_name(name);
        if bytes_are(l, "place") && self.in_place {
            if self.depth > 0 {
                self.depth -= 1;
                return None;
            }
            self.in_place = false;
            self.ctx = PlaceCtx::Idle;
            if self.cur.primary_name.as_str().is_empty() || self.cur.place_id.as_str().is_empty() {
                return None;
            }
            return Some(self.cur.duplicate());
        }
        if bytes_are(l, "placeName") || bytes_are(l, "geo") || bytes_are(l, "district") || bytes_are(l, "note") {
            self.ctx = PlaceCtx::Idle;
        }
        None
    }

    /// Takes one event; returns the place that it completes, if any.
    pub fn step(&mut self, ev: &XmlEvent) -> (r: Option<PlaceRecord>)
        requires
            old(self).open_places() < u64::MAX,
        ensures
            (final(self)@, match r {
                Some(p) => Some(p@),
                None => None,
            }) == place_step(old(self)@, ev@),
            final(self).open_places() <= old(self).open_places() + 1,
    {
        match ev {
            XmlEvent::Start { name, attrs, empty } => {
                self.start(name.as_slice(), attrs.as_slice(), *empty);
                None
            },
            XmlEvent::End { name } => self.end(name.as_slice()),
            XmlEvent::Text(b) => {
                self.text(b.as_slice());
                None
            },
            _ => None,
        }
    }
}

/// The places of an XML event stream, up to its end; the reader's error,
/// if it stops with one.
pub fn places_from_events(events: &[XmlEvent]) -> (r: Result<Vec<PlaceRecord>, String>)
    ensures
        place_outcome(r) == places_of(evs_v(events@)),
{
    let mut p = PlaceParser::new();
    let mut out: Vec<PlaceRecord> = Vec::new();
    let mut k: usize = 0;
    let ghost ev = evs_v(events@);
    assert(ev.skip(0) =~= ev);
    while k < events.len()
        invariant
            k <= events@.len(),
            p.open_places() <= k,
            ev == evs_v(events@),
            places_from(p@, ev.skip(k as int), places_v(out@)) == places_of(ev),
        decreases events.len() - k,
    {
        assert(ev.skip(k as int)[0] == events@[k as int]@);
        assert(ev.skip(k as int).drop_first() =~= ev.skip(k + 1));
        match &events[k] {
            XmlEvent::Eof => {
                return Ok(out);
            },
            XmlEvent::Error(m) => {
                return Err(xml_error_message(m));
            },
            _ => {},
        }
        let ghost before = out@;
        let r = p.step(&events[k]);
        match r {
            Some(rec) => {
                out.push(rec);
                assert(places_v(out@) =~= places_v(before) + seq![rec@]);
            },
            None => {
                assert(places_v(out@) =~= places_v(before) + Seq::<PlaceV>::empty());
            },
        }
        k += 1;
    }
    Ok(out)
}

// ---------------------------------------------------------------------------
// Reading the XML
// ---------------------------------------------------------------------------

/// `quick_xml::Reader`, the streaming XML reader, carried through opaque.
#[verifier::external_type_specification]
#[verifier::external_body]
#[verifier::reject_recursive_types(R)]
pub struct ExXmlReader<R>(quick_xml::Reader<R>);

/// The events that quick-xml's reader, trimming text, gives for the
/// document `data`, up to and with the first end of the document or error.
pub uninterp spec fn xml_events(data: Seq<u8>) -> Seq<XmlEventV>;

/// The events that the reader `r` is still to give, up to and with the
/// first end of the document or error.
pub uninterp spec fn unread_events(r: quick_xml::Reader<&[u8]>) -> Seq<XmlEventV>;

/// Does the event end the reading: the end of the document or an error?
pub open spec fn ends_reading(e: XmlEventV) -> bool {
    e is Eof || e is Error
}

/// `quick_xml::Reader::from_reader` over the document's bytes, configured
/// with `trim_text(true)`: character data comes without its surrounding
/// whitespace, and whitespace-only text is not reported. The reader is to
/// give the document's events; they end with the end of the document or
/// an error, and every event before that takes at least one byte of the
/// input, so there is at most one event more than there are bytes.
#[verifier::external_body]
fn xml_reader(data: &[u8]) -> (r: quick_xml::Reader<&[u8]>)
    ensures
        unread_events(r) == xml_events(data@),
        1 <= unread_events(r).len() <= data@.len() + 1,
        ends_reading(unread_events(r).last()),
        forall|i: int| 0 <= i < unread_events(r).len() - 1 ==> !ends_reading(#[trigger] unread_events(r)[i]),
{
    let mut reader = quick_xml::Reader::from_reader(data);
    reader.config_mut().trim_text(true);
    reader
}

/// `Reader::read_event` (of a reader over a byte slice): the reader's next
/// event, converted to an `XmlEvent` (names, attribute keys and raw
/// attribute values copied out; attributes that fail to parse are left
/// out; an error as its message). Unless that event ends the reading, the
/// reader is left with the events after it.
#[verifier::external_body]
fn next_xml_event(reader: &mut quick_xml::Reader<&[u8]>) -> (r: XmlEvent)
    requires
        unread_events(*old(reader)).len() > 0,
    ensures
        r@ == unread_events(*old(reader))[0],
        !ends_reading(r@) ==> unread_events(*final(reader)) == unread_events(*old(reader)).drop_first(),
{
    let ev = reader.read_event();
    let empty = matches!(ev, Ok(Event::Empty(_)));
    match ev {
        Ok(Event::Start(e) | Event::Empty(e)) => XmlEvent::Start {
            name: e.name().0.to_vec(),
            attrs: e.attributes().flatten().map(|a| (a.key.0.to_vec(), a.value.to_vec())).collect(),
            empty,
        },
        Ok(Event::End(e)) => XmlEvent::End { name: e.name().0.to_vec() },
        Ok(Event::Text(e)) => XmlEvent::Text(e.to_vec()),
        Ok(Event::Eof) => XmlEvent::Eof,
        Err(e) => XmlEvent::Error(e.to_string()),
        _ => XmlEvent::Other,
    }
}

/// The events of an XML document, up to and with its end or the reader's
/// first error.
fn read_xml_events(data: &[u8]) -> (evs: Vec<XmlEvent>)
    ensures
        evs_v(evs@) == xml_events(data@),
{
    let mut reader = xml_reader(data);
    let ghost all = xml_events(data@);
    let mut evs: Vec<XmlEvent> = Vec::new();
    loop
        invariant_except_break
            all == xml_events(data@),
            1 <= all.len() <= data@.len() + 1,
            ends_reading(all.last()),
            forall|i: int| 0 <= i < all.len() - 1 ==> !ends_reading(#[trigger] all[i]),
            evs@.len() < all.len(),
            evs_v(evs@) == all.take(evs@.len() as int),
            unread_events(reader) == all.skip(evs@.len() as int),
        ensures
            evs_v(evs@) == all,
        decreases all.len() - evs@.len(),
    {
        let ghost before = evs@;
        let ev = next_xml_event(&mut reader);
        let stop = match &ev {
            XmlEvent::Eof | XmlEvent::Error(_) => true,
            _ => false,
        };
        evs.push(ev);
        proof {
            assert(evs_v(evs@) =~= all.take(evs@.len() as int));
        }
        if stop {
            proof {
                if evs@.len() < all.len() {
                    assert(!ends_reading(all[before.len() as int]));
                }
                assert(all.take(evs@.len() as int) =~= all);
            }
            break;
        }
        proof {
            assert(all.skip(before.len() as int).drop_first() =~= all.skip(evs@.len() as int));
            if evs@.len() >= all.len() {
                assert(all[before.len() as int] == all.last());
            }
        }
    }
    evs
}

/// The persons of a person authority document: those of the events that
/// the XML reader gives for it.
pub fn parse_persons(data: &[u8]) -> (r: Result<Vec<PersonRecord>, String>)
    ensures
        person_outcome(r) == persons_of(xml_events(data@)),
{
    let evs = read_xml_events(data);
    persons_from_events(evs.as_slice())
}

/// The places of a place authority document: those of the events that the
/// XML reader gives for it.
pub fn parse_places(data: &[u8]) -> (r: Result<Vec<PlaceRecord>, String>)
    ensures
        place_outcome(r) == places_of(xml_events(data@)),
{
    let evs = read_xml_events(data);
    places_from_events(evs.as_slice())
}

// ---------------------------------------------------------------------------
// What every emitted record satisfies
// ---------------------------------------------------------------------------

pub open spec fn all_cjk(names: Seq<Seq<char>>) -> bool {
    forall|i: int| 0 <= i < names.len() ==> has_cjk(#[trigger] names[i])
}

/// A person record as emitted: with an id and a name, and CJK alternative
/// names only.
pub open spec fn person_ok(p: PersonV) -> bool {
    p.id.len() > 0 && p.name.len() > 0 && all_cjk(p.alt_names)
}

proof fn lemma_all_cjk_push(names: Seq<Seq<char>>, n: Seq<char>)
    requires
        all_cjk(names),
        has_cjk(n),
    ensures
        all_cjk(names.push(n)),
{
    assert forall|i: int| 0 <= i < names.push(n).len() implies has_cjk(#[trigger] names.push(n)[i]) by {
        if i < names.len() {
            assert(names.push(n)[i] == names[i]);
        }
    }
}

proof fn lemma_person_step(s: PersonState, e: XmlEventV)
    requires
        all_cjk(s.cur.alt_names),
    ensures
        all_cjk(person_step(s, e).0.cur.alt_names),
        person_step(s, e).1 matches Some(p) ==> person_ok(p),
{
    match e {
        XmlEventV::Start { name, attrs, .. } => {
            assert(all_cjk(new_person(Seq::empty()).alt_names));
            assert(all_cjk(Seq::<Seq<char>>::empty()));
        },
        XmlEventV::Text(b) => {
            let text = trim(lossy_text(b));
            if has_cjk(text) {
                lemma_all_cjk_push(s.cur.alt_names, text);
            }
        },
        _ => {},
    }
}

proof fn lemma_persons_from(s: PersonState, evs: Seq<XmlEventV>, acc: Seq<PersonV>)
    requires
        all_cjk(s.cur.alt_names),
        forall|i: int| 0 <= i < acc.len() ==> person_ok(#[trigger] acc[i]),
    ensures
        persons_from(s, evs, acc) matches Ok(v) ==> forall|i: int| 0 <= i < v.len() ==> person_ok(#[trigger] v[i]),
    decreases evs.len(),
{
    if evs.len() > 0 {
        match evs[0] {
            XmlEventV::Eof => {},
            XmlEventV::Error(_) => {},
            _ => {
                let r = person_step(s, evs[0]);
                lemma_person_step(s, evs[0]);
                let acc2 = acc + opt_seq(r.1);
                assert forall|i: int| 0 <= i < acc2.len() implies person_ok(#[trigger] acc2[i]) by {
                    if i < acc.len() {
                        assert(acc2[i] == acc[i]);
                    }
                }
                lemma_persons_from(r.0, evs.drop_first(), acc2);
            },
        }
    }
}

/// Every person read from an authority file has an id and a primary name,
/// and lists only alternative names that hold CJK characters.
pub proof fn persons_are_complete(evs: Seq<XmlEventV>)
    ensures
        persons_of(evs) matches Ok(v) ==> forall|i: int| 0 <= i < v.len() ==> person_ok(#[trigger] v[i]),
{
    assert(all_cjk(Seq::<Seq<char>>::empty()));
    lemma_persons_from(person_start_state(), evs, Seq::empty());
}

/// A place record as emitted: an authority id (`PL...`), a name, and CJK
/// alternative names only.
pub open spec fn place_ok(p: PlaceV) -> bool {
    is_entry_id(p.id) && p.name.len() > 0 && all_cjk(p.alt_names)
}

pub open spec fn place_inv(s: PlaceState) -> bool {
    (s.in_place ==> is_entry_id(s.cur.id)) && all_cjk(s.cur.alt_names)
}

proof fn lemma_place_step(s: PlaceState, e: XmlEventV)
    requires
        place_inv(s),
    ensures
        place_inv(place_step(s, e).0),
        place_step(s, e).1 matches Some(p) ==> place_ok(p),
{
    assert(all_cjk(Seq::<Seq<char>>::empty()));
    match e {
        XmlEventV::Text(b) => {
            let text = trim(lossy_text(b));
            if has_cjk(text) {
                lemma_all_cjk_push(s.cur.alt_names, text);
            }
        },
        _ => {},
    }
}

proof fn lemma_places_from(s: PlaceState, evs: Seq<XmlEventV>, acc: Seq<PlaceV>)
    requires
        place_inv(s),
        forall|i: int| 0 <= i < acc.len() ==> place_ok(#[trigger] acc[i]),
    ensures
        places_from(s, evs, acc) matches Ok(v) ==> forall|i: int| 0 <= i < v.len() ==> place_ok(#[trigger] v[i]),
    decreases evs.len(),
{
    if evs.len() > 0 {
        match evs[0] {
            XmlEventV::Eof => {},
            XmlEventV::Error(_) => {},
            _ => {
                let r = place_step(s, evs[0]);
                lemma_place_step(s, evs[0]);
                let acc2 = acc + opt_seq(r.1);
                assert forall|i: int| 0 <= i < acc2.len() implies place_ok(#[trigger] acc2[i]) by {
                    if i < acc.len() {
                        assert(acc2[i] == acc[i]);
                    }
                }
                lemma_places_from(r.0, evs.drop_first(), acc2);
            },
        }
    }
}

/// Every place read from an authority file is an authority entry (its id
/// starts with `PL`) with a primary name, and lists only alternative names
/// that hold CJK characters.
pub proof fn places_are_complete(evs: Seq<XmlEventV>)
    ensures
        places_of(evs) matches Ok(v) ==> forall|i: int| 0 <= i < v.len() ==> place_ok(#[trigger] v[i]),
{
    assert(all_cjk(Seq::<Seq<char>>::empty()));
    lemma_places_from(place_start_state(), evs, Seq::empty());
}

/// Inside a person, a `relation` element with a non-empty `n` files `n`
/// under the right list: type "student" adds it to the person's students
/// and type "teacher" to its teachers, the other list left as it was; the
/// person stays open and nothing else of it changes.
pub proof fn relations_fill_the_right_list(
    s: PersonState,
    name: Seq<u8>,
    attrs: Seq<(Seq<u8>, Seq<u8>)>,
    empty: bool,
    n: Seq<char>,
)
    requires
        s.in_person,
        local_part(name) == ascii_bytes("relation"@),
        attr_text(attrs, "n"@) == Some(n),
        n.len() > 0,
    ensures
        ({
            let r = person_step(s, XmlEventV::Start { name, attrs, empty });
            &&& r.1 is None
            &&& r.0.in_person
            &&& r.0.ctx == s.ctx
            &&& r.0.cur.id == s.cur.id
            &&& r.0.cur.name == s.cur.name
            &&& attr_text(attrs, "type"@) == Some("student"@) ==> r.0.cur.students == s.cur.students.push(n)
                && r.0.cur.teachers == s.cur.teachers
            &&& attr_text(attrs, "type"@) == Some("teacher"@) ==> r.0.cur.teachers == s.cur.teachers.push(n)
                && r.0.cur.students == s.cur.students
            &&& attr_text(attrs, "type"@) != Some("student"@) && attr_text(attrs, "type"@) != Some("teacher"@)
                ==> r.0 == s
        }),
{
    reveal_strlit("relation");
    reveal_strlit("person");
    reveal_strlit("persName");
    reveal_strlit("sex");
    reveal_strlit("birth");
    reveal_strlit("death");
    reveal_strlit("occupation");
    reveal_strlit("note");
    reveal_strlit("idno");
    reveal_strlit("student");
    reveal_strlit("teacher");
    let l = local_part(name);
    assert(l.len() == 8);
    assert(l[0] == 114u8);
    assert(l != ascii_bytes("person"@));
    assert(ascii_bytes("persName"@)[0] == 112u8);
    assert(l != ascii_bytes("persName"@));
    assert(l != ascii_bytes("sex"@));
    assert(l != ascii_bytes("birth"@));
    assert(l != ascii_bytes("death"@));
    assert(l != ascii_bytes("occupation"@));
    assert(l != ascii_bytes("note"@));
    assert(l != ascii_bytes("idno"@));
    assert(l == ascii_bytes("relation"@));
    assert("student"@[0] != "teacher"@[0]);
    assert("student"@ != "teacher"@);
}

/// A `sex` element inside a person sets its gender from the `value`
/// attribute: `1` is male, `2` female, any other value kept as it is, and
/// no value leaves no gender; nothing else of the person changes.
pub proof fn sex_sets_the_gender(
    s: PersonState,
    name: Seq<u8>,
    attrs: Seq<(Seq<u8>, Seq<u8>)>,
    empty: bool,
)
    requires
        s.in_person,
        local_part(name) == ascii_bytes("sex"@),
    ensures
        ({
            let r = person_step(s, XmlEventV::Start { name, attrs, empty });
            &&& r.1 is None
            &&& r.0.in_person
            &&& r.0.ctx == s.ctx
            &&& r.0.cur.teachers == s.cur.teachers
            &&& r.0.cur.students == s.cur.students
            &&& r.0.cur.name == s.cur.name
            &&& attr_text(attrs, "value"@) == Some("1"@) ==> r.0.cur.gender == Some("male"@)
            &&& attr_text(attrs, "value"@) == Some("2"@) ==> r.0.cur.gender == Some("female"@)
            &&& forall|v: Seq<char>|
                attr_text(attrs, "value"@) == Some(v) && v != "1"@ && v != "2"@ ==> r.0.cur.gender == Some(v)
            &&& attr_text(attrs, "value"@) is None ==> r.0.cur.gender is None
        }),
{
    reveal_strlit("sex");
    reveal_strlit("1");
    reveal_strlit("2");
    reveal_strlit("person");
    reveal_strlit("persName");
    let l = local_part(name);
    assert(l.len() == 3);
    assert(l != ascii_bytes("person"@));
    assert(l != ascii_bytes("persName"@));
    assert(l == ascii_bytes("sex"@));
    let g = match attr_text(attrs, "value"@) {
        Some(v) => Some(gender_of(v)),
        None => None,
    };
    let r = person_step(s, XmlEventV::Start { name, attrs, empty });
    assert(r.0 == PersonState { cur: PersonV { gender: g, ..s.cur }, ..s });
    assert("1"@[0] != "2"@[0]);
    assert("1"@ != "2"@);
}

/// A `person` element opens a new person whose id is its `xml:id`, or its
/// `id` when it has no `xml:id`, or empty; the new person has no names,
/// teachers or students yet, and no record is emitted.
pub proof fn person_opens_with_its_id(
    s: PersonState,
    name: Seq<u8>,
    attrs: Seq<(Seq<u8>, Seq<u8>)>,
    empty: bool,
)
    requires
        local_part(name) == ascii_bytes("person"@),
    ensures
        ({
            let r = person_step(s, XmlEventV::Start { name, attrs, empty });
            &&& r.1 is None
            &&& r.0.in_person
            &&& r.0.cur.id == match attr_text(attrs, "xml:id"@) {
                Some(v) => v,
                None => match attr_text(attrs, "id"@) {
                    Some(v) => v,
                    None => Seq::<char>::empty(),
                },
            }
            &&& r.0.cur.name.len() == 0
            &&& r.0.cur.alt_names.len() == 0
            &&& r.0.cur.teachers.len() == 0
            &&& r.0.cur.students.len() == 0
            &&& r.0.cur.gender is None
        }),
{
}

} // verus!
