//! Ingesting a validated GD-CEF corpus: each record of `passages.jsonl`
//! becomes a passage row, its gaps filled from its work's record and from
//! the corpus defaults of `corpus.toml`.

use vstd::prelude::*;
use crate::cef::CorpusToml;
use crate::text::{chars_of, find_char, index_of, lemma_index_of, push_str, slice_of, str_eq, string_from, strs, opt_view, clone_opt, clone_strings};

verus! {

/// What ingest reads of a record of `works.jsonl`.
pub struct CefWork {
    pub work_id: String,
    pub title_zh: String,
    pub author: Option<String>,
    pub period: Option<String>,
    pub period_rank: Option<i32>,
    pub traditions: Vec<String>,
}

/// What ingest reads of a record of `passages.jsonl`; `quality_flags` is
/// the record's quality flags as JSON text.
pub struct CefPassage {
    pub passage_id: String,
    pub work_id: String,
    pub text: String,
    pub rights_id: Option<String>,
    pub section_id: Option<String>,
    pub section_title: Option<String>,
    pub locator: Option<String>,
    pub source_rel_path: Option<String>,
    pub source_url: Option<String>,
    pub text_normalized: Option<String>,
    pub text_type: Option<String>,
    pub heading_path: Option<String>,
    pub line_start: Option<String>,
    pub line_end: Option<String>,
    pub contains_person: Option<bool>,
    pub contains_term: Option<bool>,
    pub quality_flags: Option<String>,
}

/// One passage row of the ingested corpus. `zh_text_normalized` is the
/// record's own normalized text, when it gives one.
pub struct CefRow {
    pub source_corpus: String,
    pub source_work_id: String,
    pub source_section_id: String,
    pub source_locator: String,
    pub source_url: String,
    pub edition_siglum: String,
    pub edition_label: String,
    pub rights_id: String,
    pub rights_notes: String,
    pub retrieval_method: String,
    pub snapshot_id: String,
    pub quality_flags_json: String,
    pub passage_id: String,
    pub source_rel_path: String,
    pub xml_id: String,
    pub div_path: String,
    pub heading: String,
    pub heading_path: String,
    pub from_lb: Option<String>,
    pub to_lb: Option<String>,
    pub passage_ord_in_file: u32,
    pub zh_text_raw: String,
    pub zh_text_normalized: Option<String>,
    pub text_type: String,
    pub contains_person: bool,
    pub contains_term: bool,
    pub contains_foreign: bool,
    pub canon: String,
    pub canon_name: String,
    pub traditions: Vec<String>,
    pub period: String,
    pub origin: String,
    pub author: String,
    pub main_title: String,
    pub period_rank: i32,
}

pub open spec fn or_str(o: Option<String>, d: Seq<char>) -> Seq<char> {
    match o {
        Some(s) => s@,
        None => d,
    }
}

/// The second `#`-separated piece of a passage id (its xml id), or
/// `unknown` when the id has no `#`.
pub open spec fn xml_id_of(pid: Seq<char>) -> Seq<char> {
    let i = index_of(pid, '#');
    if i >= pid.len() {
        "unknown"@
    } else {
        let rest = pid.skip(i + 1);
        rest.take(index_of(rest, '#'))
    }
}

/// The work of the last record of `works` with the id `id` (a later record
/// replaces an earlier one).
pub open spec fn last_work(works: Seq<CefWork>, id: Seq<char>) -> Option<CefWork>
    decreases works.len(),
{
    if works.len() == 0 {
        None
    } else if works.last().work_id@ == id {
        Some(works.last())
    } else {
        last_work(works.drop_last(), id)
    }
}

/// What a passage row holds, field by field, for passage `p` of work `w`.
pub open spec fn row_ok(r: CefRow, c: CorpusToml, w: Option<CefWork>, p: CefPassage, ord: u32) -> bool {
    &&& r.source_corpus@ == c.corpus_id@
    &&& r.source_work_id@ == p.work_id@
    &&& r.source_section_id@ == or_str(p.section_id, Seq::empty())
    &&& r.source_locator@ == or_str(p.locator, Seq::empty())
    &&& r.source_url@ == or_str(p.source_url, or_str(c.source_url, Seq::empty()))
    &&& r.edition_siglum@ == Seq::<char>::empty()
    &&& r.edition_label@ == Seq::<char>::empty()
    &&& r.rights_id@ == or_str(p.rights_id, c.rights_id@)
    &&& r.rights_notes@ == or_str(c.rights_notes, Seq::empty())
    &&& r.retrieval_method@ == "gd-cef"@
    &&& r.snapshot_id@ == c.snapshot_id@
    &&& r.quality_flags_json@ == or_str(p.quality_flags, Seq::empty())
    &&& r.passage_id@ == p.passage_id@
    &&& r.source_rel_path@ == or_str(p.source_rel_path, c.corpus_id@ + seq!['/'] + p.work_id@)
    &&& r.xml_id@ == xml_id_of(p.passage_id@)
    &&& r.div_path@ == Seq::<char>::empty()
    &&& r.heading@ == or_str(
        p.section_title,
        match w {
            Some(w) => w.title_zh@,
            None => Seq::empty(),
        },
    )
    &&& r.heading_path@ == or_str(p.heading_path, Seq::empty())
    &&& opt_view(r.from_lb) == opt_view(p.line_start)
    &&& opt_view(r.to_lb) == opt_view(p.line_end)
    &&& r.passage_ord_in_file == ord
    &&& r.zh_text_raw@ == p.text@
    &&& opt_view(r.zh_text_normalized) == opt_view(p.text_normalized)
    &&& r.text_type@ == or_str(p.text_type, "prose"@)
    &&& r.contains_person == (p.contains_person == Some(true))
    &&& r.contains_term == (p.contains_term == Some(true))
    &&& !r.contains_foreign
    &&& r.canon@ == Seq::<char>::empty()
    &&& r.canon_name@ == Seq::<char>::empty()
    &&& strs(r.traditions@) == (match w {
        Some(w) => if w.traditions@.len() > 0 {
            strs(w.traditions@)
        } else {
            strs(c.default_traditions@)
        },
        None => strs(c.default_traditions@),
    })
    &&& r.period@ == (match w {
        Some(w) => match w.period {
            Some(pd) => pd@,
            None => or_str(c.default_period, Seq::empty()),
        },
        None => or_str(c.default_period, Seq::empty()),
    })
    &&& r.origin@ == or_str(c.default_origin, Seq::empty())
    &&& r.author@ == (match w {
        Some(w) => or_str(w.author, Seq::empty()),
        None => Seq::empty(),
    })
    &&& r.main_title@ == (match w {
        Some(w) => w.title_zh@,
        None => Seq::empty(),
    })
    &&& r.period_rank == (match w {
        Some(w) => match w.period_rank {
            Some(k) => k,
            None => match c.default_period_rank {
                Some(k) => k,
                None => 99,
            },
        },
        None => match c.default_period_rank {
            Some(k) => k,
            None => 99,
        },
    })
}

fn or_string(o: &Option<String>, d: &str) -> (r: String)
    ensures
        r@ == or_str(*o, d@),
{
    match o {
        Some(s) => s.clone(),
        None => String::from_str(d),
    }
}

fn or_empty(o: &Option<String>) -> (r: String)
    ensures
        r@ == or_str(*o, Seq::empty()),
{
    match o {
        Some(s) => s.clone(),
        None => String::new(),
    }
}/// The xml id of a passage id (see `xml_id_of`).
fn xml_id(pid: &str) -> (r: String)
    ensures
        r@ == xml_id_of(pid@),
{
    let cs = chars_of(pid);
    proof {
        lemma_index_of(cs@, '#');
    }
    match find_char(cs.as_slice(), '#') {
        None => String::from_str("unknown"),
        Some(i) => {
            let rest = slice_of(cs.as_slice(), i + 1, cs.len());
            assert(rest@ =~= cs@.skip(i + 1));
            let end = match find_char(rest.as_slice(), '#') {
                Some(j) => j,
                None => rest.len(),
            };
            proof {
                lemma_index_of(rest@, '#');
            }
            let piece = slice_of(rest.as_slice(), 0, end);
            assert(piece@ =~= rest@.take(index_of(rest@, '#')));
            string_from(piece.as_slice())
        },
    }
}

/// The passage row of passage `p` (the `ord`-th of the file), of work `w`
/// when `works.jsonl` has it.
pub fn passage_row(corpus: &CorpusToml, w: Option<&CefWork>, p: &CefPassage, ord: u32) -> (r: CefRow)
    ensures
        row_ok(
            r,
            *corpus,
            match w {
                Some(x) => Some(*x),
                None => None,
            },
            *p,
            ord,
        ),
{
    let source_url = match &p.source_url {
        Some(u) => u.clone(),
        None => or_empty(&corpus.source_url),
    };
    let source_rel_path = match &p.source_rel_path {
        Some(s) => s.clone(),
        None => {
            let mut s = corpus.corpus_id.clone();
            proof {
                reveal_strlit("/");
            }
            push_str(&mut s, "/");
            push_str(&mut s, p.work_id.as_str());
            assert(s@ =~= corpus.corpus_id@ + seq!['/'] + p.work_id@);
            s
        },
    };
    let heading = match &p.section_title {
        Some(t) => t.clone(),
        None => match w {
            Some(x) => x.title_zh.clone(),
            None => String::new(),
        },
    };
    let traditions = match w {
        Some(x) => if x.traditions.len() > 0 {
            clone_strings(&x.traditions)
        } else {
            clone_strings(&corpus.default_traditions)
        },
        None => clone_strings(&corpus.default_traditions),
    };
    let period = match w {
        Some(x) => match &x.period {
            Some(pd) => pd.clone(),
            None => or_empty(&corpus.default_period),
        },
        None => or_empty(&corpus.default_period),
    };
    let author = match w {
        Some(x) => or_empty(&x.author),
        None => String::new(),
    };
    let main_title = match w {
        Some(x) => x.title_zh.clone(),
        None => String::new(),
    };
    let default_rank: i32 = match corpus.default_period_rank {
        Some(k) => k,
        None => 99,
    };
    let period_rank: i32 = match w {
        Some(x) => match x.period_rank {
            Some(k) => k,
            None => default_rank,
        },
        None => default_rank,
    };
    let contains_person = match p.contains_person {
        Some(b) => b,
        None => false,
    };
    let contains_term = match p.contains_term {
        Some(b) => b,
        None => false,
    };
    CefRow {
        source_corpus: corpus.corpus_id.clone(),
        source_work_id: p.work_id.clone(),
        source_section_id: or_empty(&p.section_id),
        source_locator: or_empty(&p.locator),
        source_url,
        edition_siglum: String::new(),
        edition_label: String::new(),
        rights_id: match &p.rights_id {
            Some(x) => x.clone(),
            None => corpus.rights_id.clone(),
        },
        rights_notes: or_empty(&corpus.rights_notes),
        retrieval_method: String::from_str("gd-cef"),
        snapshot_id: corpus.snapshot_id.clone(),
        quality_flags_json: or_empty(&p.quality_flags),
        passage_id: p.passage_id.clone(),
        source_rel_path,
        xml_id: xml_id(p.passage_id.as_str()),
        div_path: String::new(),
        heading,
        heading_path: or_empty(&p.heading_path),
        from_lb: clone_opt(&p.line_start),
        to_lb: clone_opt(&p.line_end),
        passage_ord_in_file: ord,
        zh_text_raw: p.text.clone(),
        zh_text_normalized: clone_opt(&p.text_normalized),
        text_type: or_string(&p.text_type, "prose"),
        contains_person,
        contains_term,
        contains_foreign: false,
        canon: String::new(),
        canon_name: String::new(),
        traditions,
        period,
        origin: or_empty(&corpus.default_origin),
        author,
        main_title,
        period_rank,
    }
}

/// The record of `works` for work `id`: the last one with that id.
pub fn find_work<'a>(works: &'a [CefWork], id: &str) -> (r: Option<&'a CefWork>)
    ensures
        match r {
            Some(x) => last_work(works@, id@) == Some(*x),
            None => last_work(works@, id@) is None,
        },
{
    let mut k: usize = works.len();
    assert(works@.take(works@.len() as int) =~= works@);
    while k > 0
        invariant
            k <= works@.len(),
            last_work(works@, id@) == last_work(works@.take(k as int), id@),
        decreases k,
    {
        assert(works@.take(k as int).drop_last() =~= works@.take(k - 1));
        assert(works@.take(k as int).last() == works@[k - 1]);
        if str_eq(works[k - 1].work_id.as_str(), id) {
            return Some(&works[k - 1]);
        }
        k -= 1;
    }
    None
}

/// The passage rows of a validated corpus: one per passage record, in file
/// order, each with the last work record of its work id.
pub fn passage_rows(corpus: &CorpusToml, works: &[CefWork], passages: &[CefPassage]) -> (r: Vec<CefRow>)
    requires
        passages@.len() <= u32::MAX,
    ensures
        r@.len() == passages@.len(),
        forall|i: int|
            0 <= i < passages@.len() ==> row_ok(
                #[trigger] r@[i],
                *corpus,
                last_work(works@, passages@[i].work_id@),
                passages@[i],
                i as u32,
            ),
{
    assert(works@.take(works@.len() as int) =~= works@);
    let mut rows: Vec<CefRow> = Vec::new();
    let mut i: usize = 0;
    while i < passages.len()
        invariant
            i <= passages@.len(),
            passages@.len() <= u32::MAX,
            rows@.len() == i,
            forall|j: int|
                0 <= j < i ==> row_ok(
                    #[trigger] rows@[j],
                    *corpus,
                    last_work(works@, passages@[j].work_id@),
                    passages@[j],
                    j as u32,
                ),
        decreases passages.len() - i,
    {
        let p = &passages[i];
        let w = find_work(works, p.work_id.as_str());
        let row = passage_row(corpus, w, p, i as u32);
        rows.push(row);
        i += 1;
    }
    rows
}

} // verus!
