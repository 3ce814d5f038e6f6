//! GraphDiscovery Corpus Exchange Format v1: the corpus description, and the
//! validation of a corpus directory (`corpus.toml`, `works.jsonl`,
//! `passages.jsonl`) into a report of errors, warnings and counts.

use vstd::prelude::*;
use crate::text::{chars_of, decimal_chars, decimal_string, str_eq, trim, trimmed, strs};

verus! {

#[derive(Debug, Clone)]
pub struct CorpusToml {
    pub schema: String,
    pub corpus_id: String,
    pub name: String,
    pub language: String,
    pub snapshot_id: String,
    pub script: Option<String>,
    pub description: Option<String>,
    pub source_url: Option<String>,
    pub source_type: Option<String>,
    pub rights_id: String,
    pub rights_notes: Option<String>,
    pub default_period: Option<String>,
    pub default_period_rank: Option<i32>,
    pub default_origin: Option<String>,
    pub default_traditions: Vec<String>,
    pub conversion: Option<ConversionInfo>,
}

#[derive(Debug, Clone)]
pub struct ConversionInfo {
    pub converter_name: Option<String>,
    pub converter_version: Option<String>,
    pub conversion_date: Option<String>,
    pub notes: Option<String>,
}

#[derive(Debug, Clone)]
pub struct ValidationReport {
    pub schema: String,
    pub valid: bool,
    pub errors: Vec<ValidationError>,
    pub warnings: Vec<ValidationWarning>,
    pub stats: ValidationStats,
}

#[derive(Debug, Clone)]
pub struct ValidationError {
    pub file: String,
    pub line: Option<usize>,
    pub code: String,
    pub message: String,
}

#[derive(Debug, Clone)]
pub struct ValidationWarning {
    pub code: String,
    pub message: String,
}

#[derive(Debug, Clone, Copy)]
pub struct ValidationStats {
    pub works: usize,
    pub passages: usize,
    pub cjk_chars: usize,
}

/// What validation reads of one record of `works.jsonl`.
pub struct WorkCheck {
    pub work_id: String,
    pub title_zh: String,
    pub date_start: Option<i32>,
    pub date_end: Option<i32>,
}

/// What validation reads of one record of `passages.jsonl`.
pub struct PassageCheck {
    pub passage_id: String,
    pub work_id: String,
    pub text: String,
}

/// A JSON-lines file: its lines, and for each line what parsing it as a
/// record gave (the record, or the parser's message).
pub struct CefFile<T> {
    pub lines: Vec<String>,
    pub parsed: Vec<Result<T, String>>,
}

/// File, line, code and message of an error.
pub type ErrV = (Seq<char>, Option<usize>, Seq<char>, Seq<char>);

/// Code and message of a warning.
pub type WarnV = (Seq<char>, Seq<char>);

impl View for ValidationError {
    type V = ErrV;

    open spec fn view(&self) -> ErrV {
        (self.file@, self.line, self.code@, self.message@)
    }
}

impl View for ValidationWarning {
    type V = WarnV;

    open spec fn view(&self) -> WarnV {
        (self.code@, self.message@)
    }
}

pub open spec fn errs(v: Seq<ValidationError>) -> Seq<ErrV> {
    v.map_values(|e: ValidationError| e@)
}

pub open spec fn warns(v: Seq<ValidationWarning>) -> Seq<WarnV> {
    v.map_values(|w: ValidationWarning| w@)
}

// ---------------------------------------------------------------------------
// Building messages
// ---------------------------------------------------------------------------

fn owned(s: &str) -> (r: String)
    ensures
        r@ == s@,
{
    s.to_owned()
}

fn cat2(a: &str, b: &str) -> (r: String)
    ensures
        r@ == a@ + b@,
{
    let mut r = a.to_owned();
    r.append(b);
    r
}

fn cat3(a: &str, b: &str, c: &str) -> (r: String)
    ensures
        r@ == a@ + b@ + c@,
{
    let mut r = a.to_owned();
    r.append(b);
    r.append(c);
    r
}

fn cat5(a: &str, b: &str, c: &str, d: &str, e: &str) -> (r: String)
    ensures
        r@ == a@ + b@ + c@ + d@ + e@,
{
    let mut r = a.to_owned();
    r.append(b);
    r.append(c);
    r.append(d);
    r.append(e);
    r
}

/// An integer as `{}` formats it.
pub open spec fn int_chars(i: int) -> Seq<char> {
    if i < 0 {
        seq!['-'] + decimal_chars((-i) as nat)
    } else {
        decimal_chars(i as nat)
    }
}

fn i32_string(i: i32) -> (r: String)
    ensures
        r@ == int_chars(i as int),
{
    if i < 0 {
        let m: u64 = (-(i as i64)) as u64;
        proof {
            reveal_strlit("-");
        }
        cat2("-", decimal_string(m).as_str())
    } else {
        decimal_string(i as u64)
    }
}

// ---------------------------------------------------------------------------
// corpus.toml
// ---------------------------------------------------------------------------

pub open spec fn err_v(file: Seq<char>, line: Option<usize>, code: Seq<char>, message: Seq<char>) -> ErrV {
    (file, line, code, message)
}

/// The error for an empty required field of `corpus.toml`.
pub open spec fn field_errors(field: Seq<char>, value: Seq<char>) -> Seq<ErrV> {
    if value.len() == 0 {
        seq![err_v("corpus.toml"@, None, "missing_field"@, field + " is required"@)]
    } else {
        Seq::empty()
    }
}

/// The errors of `corpus.toml`: a missing file, a wrong schema, and each
/// empty required field.
pub open spec fn corpus_errors(c: Option<CorpusToml>) -> Seq<ErrV> {
    match c {
        None => seq![err_v("corpus.toml"@, None, "missing_file"@, "corpus.toml is required"@)],
        Some(c) => (if c.schema@ != "gd-cef-v1"@ {
            seq![
                err_v(
                    "corpus.toml"@,
                    None,
                    "invalid_schema"@,
                    "schema must be 'gd-cef-v1', got '"@ + c.schema@ + "'"@,
                ),
            ]
        } else {
            Seq::empty()
        }) + field_errors("corpus_id"@, c.corpus_id@) + field_errors("name"@, c.name@)
            + field_errors("language"@, c.language@) + field_errors("snapshot_id"@, c.snapshot_id@)
            + field_errors("rights_id"@, c.rights_id@),
    }
}

fn new_error(file: &str, line: Option<usize>, code: &str, message: String) -> (e: ValidationError)
    ensures
        e@ == err_v(file@, line, code@, message@),
{
    ValidationError { file: owned(file), line, code: owned(code), message }
}

fn push_field_error(errors: &mut Vec<ValidationError>, field: &str, value: &String)
    ensures
        errs(final(errors)@) == errs(old(errors)@) + field_errors(field@, value@),
{
    if value.as_str().is_empty() {
        let e = new_error("corpus.toml", None, "missing_field", cat2(field, " is required"));
        let ghost before = errs(errors@);
        errors.push(e);
        assert(errs(errors@) =~= before + field_errors(field@, value@));
    } else {
        assert(errs(errors@) =~= errs(errors@) + field_errors(field@, value@));
    }
}

fn check_corpus(errors: &mut Vec<ValidationError>, corpus: Option<&CorpusToml>)
    ensures
        errs(final(errors)@) == errs(old(errors)@) + corpus_errors(match corpus {
            Some(c) => Some(*c),
            None => None,
        }),
{
    let ghost start = errs(errors@);
    match corpus {
        None => {
            let e = new_error("corpus.toml", None, "missing_file", owned("corpus.toml is required"));
            errors.push(e);
            assert(errs(errors@) =~= start + corpus_errors(None));
        },
        Some(c) => {
            if !str_eq(c.schema.as_str(), "gd-cef-v1") {
                let e = new_error(
                    "corpus.toml",
                    None,
                    "invalid_schema",
                    cat3("schema must be 'gd-cef-v1', got '", c.schema.as_str(), "'"),
                );
                errors.push(e);
            }
            let ghost s0 = errs(errors@);
            assert(s0 =~= start + (if c.schema@ != "gd-cef-v1"@ {
                seq![
                    err_v(
                        "corpus.toml"@,
                        None,
                        "invalid_schema"@,
                        "schema must be 'gd-cef-v1', got '"@ + c.schema@ + "'"@,
                    ),
                ]
            } else {
                Seq::empty()
            }));
            push_field_error(errors, "corpus_id", &c.corpus_id);
            push_field_error(errors, "name", &c.name);
            push_field_error(errors, "language", &c.language);
            push_field_error(errors, "snapshot_id", &c.snapshot_id);
            push_field_error(errors, "rights_id", &c.rights_id);
            assert(errs(errors@) =~= start + corpus_errors(Some(*c)));
        },
    }
}


// ---------------------------------------------------------------------------
// works.jsonl
// ---------------------------------------------------------------------------

/// Errors, distinct work ids, record count and records without a start
/// date, after some lines of `works.jsonl`.
pub struct WorksTally {
    pub errors: Seq<ErrV>,
    pub ids: Seq<Seq<char>>,
    pub works: nat,
    pub undated: nat,
}

/// The errors of the work record on line `n`, given the ids seen before.
pub open spec fn work_errors(w: WorkCheck, n: usize, ids: Seq<Seq<char>>) -> Seq<ErrV> {
    let f = "works.jsonl"@;
    (if w.work_id@.len() == 0 {
        seq![err_v(f, Some(n), "missing_field"@, "work_id is required"@)]
    } else if ids.contains(w.work_id@) {
        seq![err_v(f, Some(n), "duplicate_work_id"@, "duplicate work_id: "@ + w.work_id@)]
    } else {
        Seq::empty()
    }) + (if w.title_zh@.len() == 0 {
        seq![err_v(f, Some(n), "missing_field"@, "title_zh is required"@)]
    } else {
        Seq::empty()
    }) + (match (w.date_start, w.date_end) {
        (Some(a), Some(b)) => if a > b {
            seq![
                err_v(
                    f,
                    Some(n),
                    "invalid_date_range"@,
                    "date_start ("@ + int_chars(a as int) + ") > date_end ("@ + int_chars(b as int)
                        + ")"@,
                ),
            ]
        } else {
            Seq::empty()
        },
        _ => Seq::empty(),
    })
}

/// The tally of the first `k` lines of `works.jsonl`; blank lines are
/// skipped, and line numbers count from 1.
pub open spec fn works_tally(
    lines: Seq<String>,
    parsed: Seq<Result<WorkCheck, String>>,
    k: nat,
) -> WorksTally
    decreases k,
{
    if k == 0 {
        WorksTally { errors: Seq::empty(), ids: Seq::empty(), works: 0, undated: 0 }
    } else {
        let t = works_tally(lines, parsed, (k - 1) as nat);
        if trim(lines[k - 1]@).len() == 0 {
            t
        } else {
            match parsed[k - 1] {
                Ok(w) => WorksTally {
                    errors: t.errors + work_errors(w, k as usize, t.ids),
                    ids: if w.work_id@.len() > 0 && !t.ids.contains(w.work_id@) {
                        t.ids.push(w.work_id@)
                    } else {
                        t.ids
                    },
                    works: t.works + 1,
                    undated: t.undated + if w.date_start is None {
                        1nat
                    } else {
                        0nat
                    },
                },
                Err(e) => WorksTally {
                    errors: t.errors.push(
                        err_v(
                            "works.jsonl"@,
                            Some(k as usize),
                            "invalid_json"@,
                            "failed to parse JSON: "@ + e@,
                        ),
                    ),
                    ..t
                },
            }
        }
    }
}

fn contains_str(v: &Vec<String>, s: &str) -> (r: bool)
    ensures
        r == strs(v@).contains(s@),
{
    let mut i: usize = 0;
    while i < v.len()
        invariant
            i <= v.len(),
            forall|j: int| 0 <= j < i ==> (#[trigger] v@[j])@ != s@,
        decreases v.len() - i,
    {
        if str_eq(v[i].as_str(), s) {
            assert(strs(v@)[i as int] == s@);
            return true;
        }
        i += 1;
    }
    proof {
        if strs(v@).contains(s@) {
            let j = choose|j: int| 0 <= j < strs(v@).len() && strs(v@)[j] == s@;
            assert(v@[j]@ == s@);
        }
    }
    false
}

fn is_blank(s: &String) -> (r: bool)
    ensures
        r == (trim(s@).len() == 0),
{
    let v = chars_of(s.as_str());
    trimmed(v.as_slice()).len() == 0
}

fn push_err(errors: &mut Vec<ValidationError>, e: ValidationError)
    ensures
        errs(final(errors)@) == errs(old(errors)@).push(e@),
{
    errors.push(e);
    assert(errs(errors@) =~= errs(old(errors)@).push(e@));
}

fn check_work(errors: &mut Vec<ValidationError>, ids: &mut Vec<String>, w: &WorkCheck, n: usize)
    ensures
        errs(final(errors)@) == errs(old(errors)@) + work_errors(*w, n, strs(old(ids)@)),
        strs(final(ids)@) == if w.work_id@.len() > 0 && !strs(old(ids)@).contains(w.work_id@) {
            strs(old(ids)@).push(w.work_id@)
        } else {
            strs(old(ids)@)
        },
{
    let ghost e0 = errs(errors@);
    let ghost i0 = strs(ids@);
    if w.work_id.as_str().is_empty() {
        push_err(errors, new_error("works.jsonl", Some(n), "missing_field", owned("work_id is required")));
    } else if contains_str(ids, w.work_id.as_str()) {
        push_err(
            errors,
            new_error(
                "works.jsonl",
                Some(n),
                "duplicate_work_id",
                cat2("duplicate work_id: ", w.work_id.as_str()),
            ),
        );
    } else {
        ids.push(w.work_id.clone());
        assert(strs(ids@) =~= i0.push(w.work_id@));
    }
    let ghost e1 = errs(errors@);
    if w.title_zh.as_str().is_empty() {
        push_err(errors, new_error("works.jsonl", Some(n), "missing_field", owned("title_zh is required")));
    }
    let ghost e2 = errs(errors@);
    if let (Some(a), Some(b)) = (w.date_start, w.date_end) {
        if a > b {
            let sa = i32_string(a);
            let sb = i32_string(b);
            let msg = cat5("date_start (", sa.as_str(), ") > date_end (", sb.as_str(), ")");
            push_err(errors, new_error("works.jsonl", Some(n), "invalid_date_range", msg));
        }
    }
    proof {
        assert(errs(errors@) =~= e0 + work_errors(*w, n, i0));
    }
}

/// Errors, distinct work ids, record count and undated count of
/// `works.jsonl`; the errors are appended to `errors`.
fn check_works(errors: &mut Vec<ValidationError>, file: &CefFile<WorkCheck>) -> (r: (Vec<String>, usize, usize))
    requires
        file.lines@.len() == file.parsed@.len(),
    ensures
        errs(final(errors)@) == errs(old(errors)@) + works_tally(file.lines@, file.parsed@, file.lines@.len()).errors,
        strs(r.0@) == works_tally(file.lines@, file.parsed@, file.lines@.len()).ids,
        r.1 == works_tally(file.lines@, file.parsed@, file.lines@.len()).works,
        r.2 == works_tally(file.lines@, file.parsed@, file.lines@.len()).undated,
{
    let ghost e0 = errs(errors@);
    let mut ids: Vec<String> = Vec::new();
    let mut works: usize = 0;
    let mut undated: usize = 0;
    let mut i: usize = 0;
    while i < file.lines.len()
        invariant
            i <= file.lines@.len() == file.parsed@.len(),
            errs(errors@) == e0 + works_tally(file.lines@, file.parsed@, i as nat).errors,
            strs(ids@) == works_tally(file.lines@, file.parsed@, i as nat).ids,
            works == works_tally(file.lines@, file.parsed@, i as nat).works,
            undated == works_tally(file.lines@, file.parsed@, i as nat).undated,
            works <= i,
            undated <= i,
        decreases file.lines@.len() - i,
    {
        let n = i + 1;
        if !is_blank(&file.lines[i]) {
            match &file.parsed[i] {
                Ok(w) => {
                    check_work(errors, &mut ids, w, n);
                    works = works + 1;
                    if w.date_start.is_none() {
                        undated = undated + 1;
                    }
                },
                Err(e) => {
                    push_err(
                        errors,
                        new_error("works.jsonl", Some(n), "invalid_json", cat2("failed to parse JSON: ", e.as_str())),
                    );
                },
            }
        }
        proof {
            assert(errs(errors@) =~= e0 + works_tally(file.lines@, file.parsed@, n as nat).errors);
        }
        i = n;
    }
    (ids, works, undated)
}


// ---------------------------------------------------------------------------
// passages.jsonl
// ---------------------------------------------------------------------------

/// The CJK ideograph ranges that validation counts: the unified ideographs
/// with extensions A to E, and the compatibility ideographs with their
/// supplement.
pub open spec fn is_cjk(c: char) -> bool {
    ||| '\u{4E00}' <= c && c <= '\u{9FFF}'
    ||| '\u{3400}' <= c && c <= '\u{4DBF}'
    ||| '\u{20000}' <= c && c <= '\u{2A6DF}'
    ||| '\u{2A700}' <= c && c <= '\u{2B73F}'
    ||| '\u{2B740}' <= c && c <= '\u{2B81F}'
    ||| '\u{2B820}' <= c && c <= '\u{2CEAF}'
    ||| '\u{F900}' <= c && c <= '\u{FAFF}'
    ||| '\u{2F800}' <= c && c <= '\u{2FA1F}'
}

fn cjk(c: char) -> (r: bool)
    ensures
        r == is_cjk(c),
{
    ('\u{4E00}' <= c && c <= '\u{9FFF}') || ('\u{3400}' <= c && c <= '\u{4DBF}') || ('\u{20000}'
        <= c && c <= '\u{2A6DF}') || ('\u{2A700}' <= c && c <= '\u{2B73F}') || ('\u{2B740}' <= c
        && c <= '\u{2B81F}') || ('\u{2B820}' <= c && c <= '\u{2CEAF}') || ('\u{F900}' <= c && c
        <= '\u{FAFF}') || ('\u{2F800}' <= c && c <= '\u{2FA1F}')
}

/// How many characters of `s` are CJK ideographs.
pub open spec fn cjk_count(s: Seq<char>) -> nat
    decreases s.len(),
{
    if s.len() == 0 {
        0
    } else {
        cjk_count(s.drop_last()) + if is_cjk(s.last()) {
            1nat
        } else {
            0nat
        }
    }
}

fn count_cjk(s: &str) -> (r: usize)
    ensures
        r == cjk_count(s@),
{
    let v = chars_of(s);
    let mut n: usize = 0;
    let mut i: usize = 0;
    while i < v.len()
        invariant
            i <= v.len(),
            n == cjk_count(v@.take(i as int)),
            n <= i,
        decreases v.len() - i,
    {
        proof {
            assert(v@.take(i + 1).drop_last() =~= v@.take(i as int));
        }
        if cjk(v[i]) {
            n = n + 1;
        }
        i += 1;
    }
    assert(v@.take(i as int) =~= v@);
    n
}

/// Errors, warnings, distinct passage ids, record count and CJK count after
/// some lines of `passages.jsonl`.
pub struct PassagesTally {
    pub errors: Seq<ErrV>,
    pub warnings: Seq<WarnV>,
    pub ids: Seq<Seq<char>>,
    pub passages: nat,
    pub cjk: nat,
}

/// The errors of the passage record on line `n`, given the passage ids seen
/// before and the work ids of `works.jsonl`.
pub open spec fn passage_errors(
    p: PassageCheck,
    n: usize,
    ids: Seq<Seq<char>>,
    work_ids: Seq<Seq<char>>,
) -> Seq<ErrV> {
    let f = "passages.jsonl"@;
    (if p.passage_id@.len() == 0 {
        seq![err_v(f, Some(n), "missing_field"@, "passage_id is required"@)]
    } else if ids.contains(p.passage_id@) {
        seq![err_v(f, Some(n), "duplicate_passage_id"@, "duplicate passage_id: "@ + p.passage_id@)]
    } else {
        Seq::empty()
    }) + (if p.work_id@.len() == 0 {
        seq![err_v(f, Some(n), "missing_field"@, "work_id is required"@)]
    } else if !work_ids.contains(p.work_id@) {
        seq![
            err_v(
                f,
                Some(n),
                "invalid_work_id"@,
                "work_id '"@ + p.work_id@ + "' not found in works.jsonl"@,
            ),
        ]
    } else {
        Seq::empty()
    }) + (if p.text@.len() == 0 {
        seq![err_v(f, Some(n), "missing_field"@, "text is required"@)]
    } else {
        Seq::empty()
    })
}

/// The length warnings of a passage: fewer than 8 or more than 3000 CJK
/// characters.
pub open spec fn passage_warnings(p: PassageCheck) -> Seq<WarnV> {
    let c = cjk_count(p.text@);
    if p.text@.len() == 0 {
        Seq::empty()
    } else if c < 8 {
        seq![
            (
                "short_passage"@,
                "passage_id '"@ + p.passage_id@ + "' has only "@ + decimal_chars(c)
                    + " CJK characters (recommended minimum: 8)"@,
            ),
        ]
    } else if c > 3000 {
        seq![
            (
                "long_passage"@,
                "passage_id '"@ + p.passage_id@ + "' has "@ + decimal_chars(c)
                    + " CJK characters (recommended maximum: 3000)"@,
            ),
        ]
    } else {
        Seq::empty()
    }
}

/// The tally of the first `k` lines of `passages.jsonl`.
pub open spec fn passages_tally(
    lines: Seq<String>,
    parsed: Seq<Result<PassageCheck, String>>,
    work_ids: Seq<Seq<char>>,
    k: nat,
) -> PassagesTally
    decreases k,
{
    if k == 0 {
        PassagesTally {
            errors: Seq::empty(),
            warnings: Seq::empty(),
            ids: Seq::empty(),
            passages: 0,
            cjk: 0,
        }
    } else {
        let t = passages_tally(lines, parsed, work_ids, (k - 1) as nat);
        if trim(lines[k - 1]@).len() == 0 {
            t
        } else {
            match parsed[k - 1] {
                Ok(p) => PassagesTally {
                    errors: t.errors + passage_errors(p, k as usize, t.ids, work_ids),
                    warnings: t.warnings + passage_warnings(p),
                    ids: if p.passage_id@.len() > 0 && !t.ids.contains(p.passage_id@) {
                        t.ids.push(p.passage_id@)
                    } else {
                        t.ids
                    },
                    passages: t.passages + 1,
                    cjk: t.cjk + cjk_count(p.text@),
                },
                Err(e) => PassagesTally {
                    errors: t.errors.push(
                        err_v(
                            "passages.jsonl"@,
                            Some(k as usize),
                            "invalid_json"@,
                            "failed to parse JSON: "@ + e@,
                        ),
                    ),
                    ..t
                },
            }
        }
    }
}

proof fn lemma_cjk_monotone(
    lines: Seq<String>,
    parsed: Seq<Result<PassageCheck, String>>,
    work_ids: Seq<Seq<char>>,
    i: nat,
    k: nat,
)
    requires
        i <= k <= lines.len(),
        lines.len() == parsed.len(),
    ensures
        passages_tally(lines, parsed, work_ids, i).cjk <= passages_tally(lines, parsed, work_ids, k).cjk,
    decreases k - i,
{
    if i < k {
        lemma_cjk_monotone(lines, parsed, work_ids, i, (k - 1) as nat);
    }
}

fn push_warn(warnings: &mut Vec<ValidationWarning>, code: &str, message: String)
    ensures
        warns(final(warnings)@) == warns(old(warnings)@).push((code@, message@)),
{
    warnings.push(ValidationWarning { code: owned(code), message });
    assert(warns(warnings@) =~= warns(old(warnings)@).push((code@, message@)));
}

fn check_passage(
    errors: &mut Vec<ValidationError>,
    warnings: &mut Vec<ValidationWarning>,
    ids: &mut Vec<String>,
    work_ids: &Vec<String>,
    p: &PassageCheck,
    n: usize,
) -> (c: usize)
    ensures
        c == cjk_count(p.text@),
        errs(final(errors)@) == errs(old(errors)@) + passage_errors(*p, n, strs(old(ids)@), strs(work_ids@)),
        warns(final(warnings)@) == warns(old(warnings)@) + passage_warnings(*p),
        strs(final(ids)@) == if p.passage_id@.len() > 0 && !strs(old(ids)@).contains(p.passage_id@) {
            strs(old(ids)@).push(p.passage_id@)
        } else {
            strs(old(ids)@)
        },
{
    let ghost e0 = errs(errors@);
    let ghost w0 = warns(warnings@);
    let ghost i0 = strs(ids@);
    let f = "passages.jsonl";
    if p.passage_id.as_str().is_empty() {
        push_err(errors, new_error(f, Some(n), "missing_field", owned("passage_id is required")));
    } else if contains_str(ids, p.passage_id.as_str()) {
        push_err(
            errors,
            new_error(f, Some(n), "duplicate_passage_id", cat2("duplicate passage_id: ", p.passage_id.as_str())),
        );
    } else {
        ids.push(p.passage_id.clone());
        assert(strs(ids@) =~= i0.push(p.passage_id@));
    }
    if p.work_id.as_str().is_empty() {
        push_err(errors, new_error(f, Some(n), "missing_field", owned("work_id is required")));
    } else if !contains_str(work_ids, p.work_id.as_str()) {
        push_err(
            errors,
            new_error(
                f,
                Some(n),
                "invalid_work_id",
                cat3("work_id '", p.work_id.as_str(), "' not found in works.jsonl"),
            ),
        );
    }
    let c = count_cjk(p.text.as_str());
    if p.text.as_str().is_empty() {
        push_err(errors, new_error(f, Some(n), "missing_field", owned("text is required")));
    } else if c < 8 {
        let cs = decimal_string(c as u64);
        let msg = cat5("passage_id '", p.passage_id.as_str(), "' has only ", cs.as_str(), " CJK characters (recommended minimum: 8)");
        push_warn(warnings, "short_passage", msg);
    } else if c > 3000 {
        let cs = decimal_string(c as u64);
        let msg = cat5("passage_id '", p.passage_id.as_str(), "' has ", cs.as_str(), " CJK characters (recommended maximum: 3000)");
        push_warn(warnings, "long_passage", msg);
    }
    proof {
        assert(errs(errors@) =~= e0 + passage_errors(*p, n, i0, strs(work_ids@)));
        assert(warns(warnings@) =~= w0 + passage_warnings(*p));
    }
    c
}

/// Errors, warnings, record count and CJK count of `passages.jsonl`; the
/// errors and warnings are appended.
fn check_passages(
    errors: &mut Vec<ValidationError>,
    warnings: &mut Vec<ValidationWarning>,
    work_ids: &Vec<String>,
    file: &CefFile<PassageCheck>,
) -> (r: (usize, usize))
    requires
        file.lines@.len() == file.parsed@.len(),
        passages_tally(file.lines@, file.parsed@, strs(work_ids@), file.lines@.len()).cjk <= usize::MAX,
    ensures
        errs(final(errors)@) == errs(old(errors)@) + passages_tally(file.lines@, file.parsed@, strs(work_ids@), file.lines@.len()).errors,
        warns(final(warnings)@) == warns(old(warnings)@) + passages_tally(file.lines@, file.parsed@, strs(work_ids@), file.lines@.len()).warnings,
        r.0 == passages_tally(file.lines@, file.parsed@, strs(work_ids@), file.lines@.len()).passages,
        r.1 == passages_tally(file.lines@, file.parsed@, strs(work_ids@), file.lines@.len()).cjk,
{
    let ghost e0 = errs(errors@);
    let ghost w0 = warns(warnings@);
    let ghost wids = strs(work_ids@);
    let ghost total = passages_tally(file.lines@, file.parsed@, wids, file.lines@.len()).cjk;
    let mut ids: Vec<String> = Vec::new();
    let mut passages: usize = 0;
    let mut cjk_chars: usize = 0;
    let mut i: usize = 0;
    while i < file.lines.len()
        invariant
            i <= file.lines@.len() == file.parsed@.len(),
            wids == strs(work_ids@),
            total == passages_tally(file.lines@, file.parsed@, wids, file.lines@.len()).cjk,
            total <= usize::MAX,
            errs(errors@) == e0 + passages_tally(file.lines@, file.parsed@, wids, i as nat).errors,
            warns(warnings@) == w0 + passages_tally(file.lines@, file.parsed@, wids, i as nat).warnings,
            strs(ids@) == passages_tally(file.lines@, file.parsed@, wids, i as nat).ids,
            passages == passages_tally(file.lines@, file.parsed@, wids, i as nat).passages,
            cjk_chars == passages_tally(file.lines@, file.parsed@, wids, i as nat).cjk,
            passages <= i,
        decreases file.lines@.len() - i,
    {
        let n = i + 1;
        proof {
            lemma_cjk_monotone(file.lines@, file.parsed@, wids, n as nat, file.lines@.len());
        }
        if !is_blank(&file.lines[i]) {
            match &file.parsed[i] {
                Ok(p) => {
                    let c = check_passage(errors, warnings, &mut ids, work_ids, p, n);
                    passages = passages + 1;
                    cjk_chars = cjk_chars + c;
                },
                Err(e) => {
                    push_err(
                        errors,
                        new_error("passages.jsonl", Some(n), "invalid_json", cat2("failed to parse JSON: ", e.as_str())),
                    );
                },
            }
        }
        proof {
            assert(errs(errors@) =~= e0 + passages_tally(file.lines@, file.parsed@, wids, n as nat).errors);
            assert(warns(warnings@) =~= w0 + passages_tally(file.lines@, file.parsed@, wids, n as nat).warnings);
        }
        i = n;
    }
    (passages, cjk_chars)
}


// ---------------------------------------------------------------------------
// The report
// ---------------------------------------------------------------------------

pub open spec fn works_of(works: Option<CefFile<WorkCheck>>) -> WorksTally {
    match works {
        Some(f) => works_tally(f.lines@, f.parsed@, f.lines@.len()),
        None => WorksTally { errors: Seq::empty(), ids: Seq::empty(), works: 0, undated: 0 },
    }
}

pub open spec fn passages_of(passages: Option<CefFile<PassageCheck>>, work_ids: Seq<Seq<char>>) -> PassagesTally {
    match passages {
        Some(f) => passages_tally(f.lines@, f.parsed@, work_ids, f.lines@.len()),
        None => PassagesTally {
            errors: Seq::empty(),
            warnings: Seq::empty(),
            ids: Seq::empty(),
            passages: 0,
            cjk: 0,
        },
    }
}

/// The percentage (rounded down) of works without a start date.
pub open spec fn undated_pct(t: WorksTally) -> nat {
    if t.works == 0 {
        0
    } else {
        (t.undated * 100) / t.works
    }
}

/// The errors of a corpus directory, in order: `corpus.toml`, then
/// `works.jsonl`, then `passages.jsonl`; a missing file is one error.
pub open spec fn report_errors(
    corpus: Option<CorpusToml>,
    works: Option<CefFile<WorkCheck>>,
    passages: Option<CefFile<PassageCheck>>,
) -> Seq<ErrV> {
    corpus_errors(corpus) + (if works is None {
        seq![err_v("works.jsonl"@, None, "missing_file"@, "works.jsonl is required"@)]
    } else {
        works_of(works).errors
    }) + (if passages is None {
        seq![err_v("passages.jsonl"@, None, "missing_file"@, "passages.jsonl is required"@)]
    } else {
        passages_of(passages, works_of(works).ids).errors
    })
}

/// The warnings: those of the passages, then one when more than half of the
/// works have no start date.
pub open spec fn report_warnings(
    works: Option<CefFile<WorkCheck>>,
    passages: Option<CefFile<PassageCheck>>,
) -> Seq<WarnV> {
    let wt = works_of(works);
    passages_of(passages, wt.ids).warnings + (if wt.works > 0 && undated_pct(wt) > 50 {
        seq![
            (
                "missing_dates"@,
                decimal_chars(undated_pct(wt))
                    + "% of works have no date_start/date_end; first-attestation reports will use period_rank only."@,
            ),
        ]
    } else {
        Seq::empty()
    })
}

pub open spec fn opt_deref<T>(o: Option<&T>) -> Option<T> {
    match o {
        Some(x) => Some(*x),
        None => None,
    }
}

/// The validation report of a corpus directory, from what was read of it:
/// `corpus.toml` (`None` when the file is missing), and the lines of
/// `works.jsonl` and `passages.jsonl` with what parsing each gave (`None`
/// when the file is missing).
pub fn validate_corpus(
    corpus: Option<&CorpusToml>,
    works: Option<&CefFile<WorkCheck>>,
    passages: Option<&CefFile<PassageCheck>>,
) -> (r: ValidationReport)
    requires
        works matches Some(f) ==> f.lines@.len() == f.parsed@.len(),
        passages matches Some(f) ==> f.lines@.len() == f.parsed@.len(),
        passages_of(opt_deref(passages), works_of(opt_deref(works)).ids).cjk <= usize::MAX,
    ensures
        r.schema@ == "gd-cef-validation-v1"@,
        errs(r.errors@) == report_errors(opt_deref(corpus), opt_deref(works), opt_deref(passages)),
        warns(r.warnings@) == report_warnings(opt_deref(works), opt_deref(passages)),
        r.valid == (r.errors@.len() == 0),
        r.stats.works == works_of(opt_deref(works)).works,
        r.stats.passages == passages_of(opt_deref(passages), works_of(opt_deref(works)).ids).passages,
        r.stats.cjk_chars == passages_of(opt_deref(passages), works_of(opt_deref(works)).ids).cjk,
{
    let mut errors: Vec<ValidationError> = Vec::new();
    let mut warnings: Vec<ValidationWarning> = Vec::new();
    check_corpus(&mut errors, corpus);
    let ghost e1 = errs(errors@);
    let (work_ids, works_n, undated) = match works {
        None => {
            push_err(&mut errors, new_error("works.jsonl", None, "missing_file", owned("works.jsonl is required")));
            (Vec::new(), 0, 0)
        },
        Some(f) => check_works(&mut errors, f),
    };
    proof {
        assert(strs(work_ids@) == works_of(opt_deref(works)).ids) by {
            if works is None {
                assert(strs(work_ids@) =~= Seq::<Seq<char>>::empty());
            }
        }
    }
    let ghost e2 = errs(errors@);
    let (passages_n, cjk_chars) = match passages {
        None => {
            push_err(&mut errors, new_error("passages.jsonl", None, "missing_file", owned("passages.jsonl is required")));
            (0, 0)
        },
        Some(f) => check_passages(&mut errors, &mut warnings, &work_ids, f),
    };
    let ghost w1 = warns(warnings@);
    assert(w1 == passages_of(opt_deref(passages), works_of(opt_deref(works)).ids).warnings) by {
        if passages is None {
            assert(w1 =~= Seq::<WarnV>::empty());
        }
    }
    if works_n > 0 {
        assert(undated <= works_n) by {
            lemma_undated_le(opt_deref(works));
        }
        let q: u128 = (undated as u128) * 100 / (works_n as u128);
        assert(q <= 100) by (nonlinear_arith)
            requires
                undated <= works_n,
                works_n > 0,
                q == (undated as int) * 100 / (works_n as int),
        ;
        let pct = q as u64;
        assert(pct as nat == undated_pct(works_of(opt_deref(works))));
        if pct > 50 {
            let ps = decimal_string(pct);
            let msg = cat2(ps.as_str(), "% of works have no date_start/date_end; first-attestation reports will use period_rank only.");
            push_warn(&mut warnings, "missing_dates", msg);
        }
    }
    proof {
        assert(errs(errors@) =~= report_errors(opt_deref(corpus), opt_deref(works), opt_deref(passages)));
        assert(warns(warnings@) =~= report_warnings(opt_deref(works), opt_deref(passages)));
    }
    let valid = errors.len() == 0;
    ValidationReport {
        schema: owned("gd-cef-validation-v1"),
        valid,
        errors,
        warnings,
        stats: ValidationStats { works: works_n, passages: passages_n, cjk_chars },
    }
}

proof fn lemma_undated_le(works: Option<CefFile<WorkCheck>>)
    ensures
        works_of(works).undated <= works_of(works).works,
{
    if let Some(f) = works {
        lemma_tally_undated(f.lines@, f.parsed@, f.lines@.len());
    }
}

proof fn lemma_tally_undated(lines: Seq<String>, parsed: Seq<Result<WorkCheck, String>>, k: nat)
    ensures
        works_tally(lines, parsed, k).undated <= works_tally(lines, parsed, k).works,
    decreases k,
{
    if k > 0 {
        lemma_tally_undated(lines, parsed, (k - 1) as nat);
    }
}

proof fn lemma_warnings_grow(
    lines: Seq<String>,
    parsed: Seq<Result<PassageCheck, String>>,
    work_ids: Seq<Seq<char>>,
    i: nat,
    k: nat,
)
    requires
        i <= k <= lines.len(),
        lines.len() == parsed.len(),
    ensures
        passages_tally(lines, parsed, work_ids, i).warnings.len() <= passages_tally(lines, parsed, work_ids, k).warnings.len(),
        passages_tally(lines, parsed, work_ids, k).warnings.subrange(
            0,
            passages_tally(lines, parsed, work_ids, i).warnings.len() as int,
        ) == passages_tally(lines, parsed, work_ids, i).warnings,
    decreases k - i,
{
    let a = passages_tally(lines, parsed, work_ids, i).warnings;
    if i < k {
        lemma_warnings_grow(lines, parsed, work_ids, i, (k - 1) as nat);
        let b = passages_tally(lines, parsed, work_ids, (k - 1) as nat).warnings;
        let c = passages_tally(lines, parsed, work_ids, k).warnings;
        assert(c.subrange(0, b.len() as int) =~= b);
        assert(c.subrange(0, a.len() as int) =~= b.subrange(0, a.len() as int));
    } else {
        assert(a.subrange(0, a.len() as int) =~= a);
    }
}

/// The warnings of each passage record stand in the report.
proof fn lemma_passage_warnings_reported(
    works: Option<CefFile<WorkCheck>>,
    f: CefFile<PassageCheck>,
    k: int,
    p: PassageCheck,
)
    requires
        f.lines@.len() == f.parsed@.len(),
        0 <= k < f.lines@.len(),
        trim(f.lines@[k]@).len() > 0,
        f.parsed@[k] == Ok::<PassageCheck, String>(p),
    ensures
        forall|x: WarnV| passage_warnings(p).contains(x) ==> report_warnings(works, Some(f)).contains(x),
{
    let w = works_of(works).ids;
    let l = f.lines@;
    let q = f.parsed@;
    let t0 = passages_tally(l, q, w, k as nat);
    let t1 = passages_tally(l, q, w, (k + 1) as nat);
    assert(t1.warnings == t0.warnings + passage_warnings(p));
    lemma_warnings_grow(l, q, w, (k + 1) as nat, l.len());
    let all = passages_tally(l, q, w, l.len()).warnings;
    assert(passages_of(Some(f), w).warnings == all);
    let rw = report_warnings(works, Some(f));
    assert forall|x: WarnV| passage_warnings(p).contains(x) implies rw.contains(x) by {
        let m = choose|m: int| 0 <= m < passage_warnings(p).len() && passage_warnings(p)[m] == x;
        let idx = t0.warnings.len() + m;
        assert(t1.warnings[idx] == x);
        assert(all.subrange(0, t1.warnings.len() as int)[idx] == all[idx]);
        assert(rw[idx] == all[idx]);
    }
}

/// A passage whose text holds more than 3000 CJK ideographs is warned
/// about: the report's warnings hold a `long_passage` warning that names
/// its id and its count, whatever else the corpus holds.
pub proof fn long_passages_are_warned(
    works: Option<CefFile<WorkCheck>>,
    f: CefFile<PassageCheck>,
    k: int,
    p: PassageCheck,
)
    requires
        f.lines@.len() == f.parsed@.len(),
        0 <= k < f.lines@.len(),
        trim(f.lines@[k]@).len() > 0,
        f.parsed@[k] == Ok::<PassageCheck, String>(p),
        p.text@.len() > 0,
        cjk_count(p.text@) > 3000,
    ensures
        report_warnings(works, Some(f)).contains(
            (
                "long_passage"@,
                "passage_id '"@ + p.passage_id@ + "' has "@ + decimal_chars(cjk_count(p.text@))
                    + " CJK characters (recommended maximum: 3000)"@,
            ),
        ),
{
    let msg = "passage_id '"@ + p.passage_id@ + "' has "@ + decimal_chars(cjk_count(p.text@))
        + " CJK characters (recommended maximum: 3000)"@;
    lemma_passage_warnings_reported(works, f, k, p);
    assert(passage_warnings(p)[0] == ("long_passage"@, msg));
    assert(passage_warnings(p).contains(("long_passage"@, msg)));
}

/// A passage with text but fewer than 8 CJK ideographs is warned about: the
/// report's warnings hold a `short_passage` warning that names its id and
/// its count.
pub proof fn short_passages_are_warned(
    works: Option<CefFile<WorkCheck>>,
    f: CefFile<PassageCheck>,
    k: int,
    p: PassageCheck,
)
    requires
        f.lines@.len() == f.parsed@.len(),
        0 <= k < f.lines@.len(),
        trim(f.lines@[k]@).len() > 0,
        f.parsed@[k] == Ok::<PassageCheck, String>(p),
        p.text@.len() > 0,
        cjk_count(p.text@) < 8,
    ensures
        report_warnings(works, Some(f)).contains(
            (
                "short_passage"@,
                "passage_id '"@ + p.passage_id@ + "' has only "@ + decimal_chars(cjk_count(p.text@))
                    + " CJK characters (recommended minimum: 8)"@,
            ),
        ),
{
    let msg = "passage_id '"@ + p.passage_id@ + "' has only "@ + decimal_chars(cjk_count(p.text@))
        + " CJK characters (recommended minimum: 8)"@;
    lemma_passage_warnings_reported(works, f, k, p);
    assert(passage_warnings(p)[0] == ("short_passage"@, msg));
    assert(passage_warnings(p).contains(("short_passage"@, msg)));
}

proof fn lemma_long_warnings_sound(
    lines: Seq<String>,
    parsed: Seq<Result<PassageCheck, String>>,
    work_ids: Seq<Seq<char>>,
    k: nat,
)
    requires
        k <= lines.len(),
        lines.len() == parsed.len(),
    ensures
        forall|idx: int|
            0 <= idx < passages_tally(lines, parsed, work_ids, k).warnings.len() && (#[trigger] passages_tally(
                lines,
                parsed,
                work_ids,
                k,
            ).warnings[idx]).0 == "long_passage"@ ==> exists|j: int|
                {
                    &&& 0 <= j < k
                    &&& trim(lines[j]@).len() > 0
                    &&& #[trigger] parsed[j] matches Ok(p)
                    &&& p.text@.len() > 0
                    &&& cjk_count(p.text@) > 3000
                    &&& passages_tally(lines, parsed, work_ids, k).warnings[idx].1 == "passage_id '"@ + p.passage_id@
                        + "' has "@ + decimal_chars(cjk_count(p.text@)) + " CJK characters (recommended maximum: 3000)"@
                },
    decreases k,
{
    reveal_strlit("long_passage");
    reveal_strlit("short_passage");
    if k > 0 {
        let k1 = (k - 1) as nat;
        lemma_long_warnings_sound(lines, parsed, work_ids, k1);
        let t0 = passages_tally(lines, parsed, work_ids, k1).warnings;
        let t1 = passages_tally(lines, parsed, work_ids, k).warnings;
        assert("short_passage"@ != "long_passage"@) by {
            assert("short_passage"@[0] != "long_passage"@[0]);
        }
        assert forall|idx: int| 0 <= idx < t1.len() && (#[trigger] t1[idx]).0 == "long_passage"@ implies exists|j: int|
            {
                &&& 0 <= j < k
                &&& trim(lines[j]@).len() > 0
                &&& #[trigger] parsed[j] matches Ok(p)
                &&& p.text@.len() > 0
                &&& cjk_count(p.text@) > 3000
                &&& t1[idx].1 == "passage_id '"@ + p.passage_id@ + "' has "@ + decimal_chars(cjk_count(p.text@))
                    + " CJK characters (recommended maximum: 3000)"@
            } by {
            if idx < t0.len() {
                assert(t1[idx] == t0[idx]);
                assert(t0[idx].0 == "long_passage"@);
            } else {
                assert(trim(lines[k1 as int]@).len() > 0);
                if let Ok(p) = parsed[k1 as int] {
                    assert(t1 == t0 + passage_warnings(p));
                    assert(t1[idx] == passage_warnings(p)[idx - t0.len()]);
                    assert(parsed[k1 as int] matches Ok(q) && q == p);
                } else {
                    assert(t1 == t0);
                }
            }
        }
    }
}

/// A `long_passage` warning is only given for a passage whose text holds
/// more than 3000 CJK ideographs, and names that passage's id and count.
pub proof fn long_warnings_name_long_passages(works: Option<CefFile<WorkCheck>>, f: CefFile<PassageCheck>, idx: int)
    requires
        f.lines@.len() == f.parsed@.len(),
        0 <= idx < report_warnings(works, Some(f)).len(),
        report_warnings(works, Some(f))[idx].0 == "long_passage"@,
    ensures
        exists|k: int|
            {
                &&& 0 <= k < f.lines@.len()
                &&& trim(f.lines@[k]@).len() > 0
                &&& #[trigger] f.parsed@[k] matches Ok(p)
                &&& p.text@.len() > 0
                &&& cjk_count(p.text@) > 3000
                &&& report_warnings(works, Some(f))[idx].1 == "passage_id '"@ + p.passage_id@ + "' has "@
                    + decimal_chars(cjk_count(p.text@)) + " CJK characters (recommended maximum: 3000)"@
            },
{
    reveal_strlit("long_passage");
    reveal_strlit("missing_dates");
    let w = works_of(works).ids;
    let all = passages_tally(f.lines@, f.parsed@, w, f.lines@.len()).warnings;
    assert(passages_of(Some(f), w).warnings == all);
    let rw = report_warnings(works, Some(f));
    lemma_long_warnings_sound(f.lines@, f.parsed@, w, f.lines@.len());
    if idx < all.len() {
        assert(rw[idx] == all[idx]);
    } else {
        assert("missing_dates"@[0] != "long_passage"@[0]);
    }
}

} // verus!
