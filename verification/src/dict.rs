//! Dictionary entries out of the Buddhist dictionary JSON files: each file
//! maps a term to its glosses in one of a few shapes, and each shape gives
//! (term, Sanskrit, gloss, category) entries; entries with a one-character
//! term or an empty gloss are not kept.

use vstd::prelude::*;
use crate::text::{chars_of, push_str, str_eq, opt_view, clone_opt};

verus! {

/// The layout of a dictionary file.
#[derive(Debug, Clone, Copy, PartialEq, Eq)]
pub enum SourceFormat {
    /// An array of `{"t": term, "s": sanskrit, "g": gloss}`.
    Soothill,
    /// Term -> array of `{"usg": category, "def": definition}`.
    DingFubao,
    /// Term -> definition, or an object with a `def` or `content` field.
    SimpleMap,
    /// Term -> object of the term in other languages (`san` is Sanskrit).
    Pentaglot,
}

/// What a term of a dictionary file maps to, as far as the entries read it:
/// an object's fields are its keys, each with its text when the value is a
/// string; an array's elements are the fields of those that are objects.
pub enum DictValue {
    Str(String),
    Obj(Vec<(String, Option<String>)>),
    Arr(Vec<Option<Vec<(String, Option<String>)>>>),
    Other,
}

/// Term, Sanskrit, gloss and category.
pub struct DictEntry {
    pub term: String,
    pub sanskrit: Option<String>,
    pub gloss: String,
    pub category: Option<String>,
}

pub type EntryV = (Seq<char>, Option<Seq<char>>, Seq<char>, Option<Seq<char>>);

impl View for DictEntry {
    type V = EntryV;

    open spec fn view(&self) -> EntryV {
        (self.term@, opt_view(self.sanskrit), self.gloss@, opt_view(self.category))
    }
}

pub open spec fn entries_v(v: Seq<DictEntry>) -> Seq<EntryV> {
    v.map_values(|e: DictEntry| e@)
}

/// The field `key` of an object: whether it is there, and its text.
pub open spec fn field(fields: Seq<(String, Option<String>)>, key: Seq<char>) -> Option<Option<Seq<char>>>
    decreases fields.len(),
{
    if fields.len() == 0 {
        None
    } else if fields[0].0@ == key {
        Some(opt_view(fields[0].1))
    } else {
        field(fields.drop_first(), key)
    }
}

/// The text of field `key`, when it is there and a string.
pub open spec fn field_text(fields: Seq<(String, Option<String>)>, key: Seq<char>) -> Option<Seq<char>> {
    match field(fields, key) {
        Some(v) => v,
        None => None,
    }
}

pub open spec fn text_or_empty(t: Option<Seq<char>>) -> Seq<char> {
    match t {
        Some(s) => s,
        None => Seq::empty(),
    }
}

/// The entries of the elements of a 丁福保 array: one per object element
/// with a non-empty `def`, its `usg` as the category.
pub open spec fn dfb_entries(term: Seq<char>, elems: Seq<Option<Vec<(String, Option<String>)>>>) -> Seq<EntryV>
    decreases elems.len(),
{
    if elems.len() == 0 {
        Seq::empty()
    } else {
        let prev = dfb_entries(term, elems.drop_last());
        match elems.last() {
            Some(fs) => {
                let def = text_or_empty(field_text(fs@, "def"@));
                if def.len() > 0 {
                    prev.push((term, None, def, field_text(fs@, "usg"@)))
                } else {
                    prev
                }
            },
            None => prev,
        }
    }
}

/// `key: value` for each field, joined with `; ` (a value that is not a
/// string counts as empty).
pub open spec fn joined_fields(fields: Seq<(String, Option<String>)>) -> Seq<char>
    decreases fields.len(),
{
    if fields.len() == 0 {
        Seq::empty()
    } else {
        let one = fields.last().0@ + ": "@ + text_or_empty(opt_view(fields.last().1));
        if fields.len() == 1 {
            one
        } else {
            joined_fields(fields.drop_last()) + "; "@ + one
        }
    }
}

/// The entries that one term of a file gives.
pub open spec fn term_entries(format: SourceFormat, term: Seq<char>, v: DictValue) -> Seq<EntryV> {
    match format {
        SourceFormat::DingFubao => match v {
            DictValue::Arr(elems) => dfb_entries(term, elems@),
            _ => Seq::empty(),
        },
        SourceFormat::SimpleMap => {
            let gloss = match v {
                DictValue::Str(s) => Some(s@),
                DictValue::Obj(fs) => Some(
                    text_or_empty(
                        match field(fs@, "def"@) {
                            Some(t) => t,
                            None => field_text(fs@, "content"@),
                        },
                    ),
                ),
                _ => None,
            };
            match gloss {
                Some(g) => if g.len() > 0 {
                    seq![(term, None, g, None)]
                } else {
                    Seq::empty()
                },
                None => Seq::empty(),
            }
        },
        SourceFormat::Pentaglot => match v {
            DictValue::Obj(fs) => {
                let gloss = joined_fields(fs@);
                if gloss.len() > 0 {
                    seq![(term, field_text(fs@, "san"@), gloss, None)]
                } else {
                    Seq::empty()
                }
            },
            _ => Seq::empty(),
        },
        SourceFormat::Soothill => Seq::empty(),
    }
}

/// The entries of a term-keyed file, term by term in file order.
pub open spec fn map_entries(format: SourceFormat, items: Seq<(String, DictValue)>) -> Seq<EntryV>
    decreases items.len(),
{
    if items.len() == 0 {
        Seq::empty()
    } else {
        map_entries(format, items.drop_last()) + term_entries(format, items.last().0@, items.last().1)
    }
}
/// Whether the field `key` is there, and its text (see `field`).
fn get_field(fields: &Vec<(String, Option<String>)>, key: &str) -> (r: Option<Option<String>>)
    ensures
        match r {
            Some(t) => field(fields@, key@) == Some(opt_view(t)),
            None => field(fields@, key@) is None,
        },
{
    let mut i: usize = 0;
    assert(fields@.skip(0) =~= fields@);
    while i < fields.len()
        invariant
            i <= fields@.len(),
            field(fields@.skip(i as int), key@) == field(fields@, key@),
        decreases fields.len() - i,
    {
        assert(fields@.skip(i as int).drop_first() =~= fields@.skip(i + 1));
        assert(fields@.skip(i as int)[0] == fields@[i as int]);
        if str_eq(fields[i].0.as_str(), key) {
            return Some(clone_opt(&fields[i].1));
        }
        i += 1;
    }
    None
}

fn get_text(fields: &Vec<(String, Option<String>)>, key: &str) -> (r: Option<String>)
    ensures
        opt_view(r) == field_text(fields@, key@),
{
    match get_field(fields, key) {
        Some(t) => t,
        None => None,
    }
}

fn push_entry(out: &mut Vec<DictEntry>, e: DictEntry)
    ensures
        entries_v(final(out)@) == entries_v(old(out)@).push(e@),
{
    out.push(e);
    assert(entries_v(out@) =~= entries_v(old(out)@).push(e@));
}

fn join_fields(fields: &Vec<(String, Option<String>)>) -> (r: String)
    ensures
        r@ == joined_fields(fields@),
{
    let mut out = String::new();
    let mut i: usize = 0;
    proof {
        reveal_strlit(": ");
        reveal_strlit("; ");
    }
    assert(fields@.take(0) =~= Seq::<(String, Option<String>)>::empty());
    while i < fields.len()
        invariant
            i <= fields@.len(),
            out@ == joined_fields(fields@.take(i as int)),
            ": "@ == seq![':', ' '],
            "; "@ == seq![';', ' '],
        decreases fields.len() - i,
    {
        assert(fields@.take(i + 1).drop_last() =~= fields@.take(i as int));
        assert(fields@.take(i + 1).last() == fields@[i as int]);
        let ghost before = out@;
        if i > 0 {
            push_str(&mut out, "; ");
        }
        push_str(&mut out, fields[i].0.as_str());
        push_str(&mut out, ": ");
        match &fields[i].1 {
            Some(v) => push_str(&mut out, v.as_str()),
            None => {},
        }
        proof {
            let one = fields@[i as int].0@ + ": "@ + text_or_empty(opt_view(fields@[i as int].1));
            if i == 0 {
                assert(out@ =~= one);
            } else {
                assert(out@ =~= before + "; "@ + one);
            }
        }
        i += 1;
    }
    assert(fields@.take(fields@.len() as int) =~= fields@);
    out
}

/// The entries of one term of a file (see `term_entries`).
fn entries_of_term(format: SourceFormat, term: &String, v: &DictValue, out: &mut Vec<DictEntry>)
    ensures
        entries_v(final(out)@) == entries_v(old(out)@) + term_entries(format, term@, *v),
{
    match format {
        SourceFormat::DingFubao => {
            if let DictValue::Arr(elems) = v {
                let ghost start = entries_v(out@);
                let mut j: usize = 0;
                assert(elems@.take(0) =~= Seq::<Option<Vec<(String, Option<String>)>>>::empty());
                assert(start + Seq::<EntryV>::empty() =~= start);
                while j < elems.len()
                    invariant
                        j <= elems@.len(),
                        entries_v(out@) == start + dfb_entries(term@, elems@.take(j as int)),
                    decreases elems.len() - j,
                {
                    assert(elems@.take(j + 1).drop_last() =~= elems@.take(j as int));
                    assert(elems@.take(j + 1).last() == elems@[j as int]);
                    let ghost mid = entries_v(out@);
                    match &elems[j] {
                        Some(fs) => {
                            let def = match get_text(fs, "def") {
                                Some(d) => d,
                                None => String::new(),
                            };
                            if !def.as_str().is_empty() {
                                let usg = get_text(fs, "usg");
                                push_entry(out, DictEntry { term: term.clone(), sanskrit: None, gloss: def, category: usg });
                            }
                        },
                        None => {},
                    }
                    assert(entries_v(out@) =~= start + dfb_entries(term@, elems@.take(j + 1)));
                    j += 1;
                }
                assert(elems@.take(elems@.len() as int) =~= elems@);
            } else {
                assert(entries_v(out@) + Seq::<EntryV>::empty() =~= entries_v(out@));
            }
        },
        SourceFormat::SimpleMap => {
            let gloss = match v {
                DictValue::Str(s) => Some(s.clone()),
                DictValue::Obj(fs) => {
                    let t = match get_field(fs, "def") {
                        Some(t) => t,
                        None => get_text(fs, "content"),
                    };
                    Some(
                        match t {
                            Some(s) => s,
                            None => String::new(),
                        },
                    )
                },
                _ => None,
            };
            let ghost before = entries_v(out@);
            match gloss {
                Some(g) => {
                    if !g.as_str().is_empty() {
                        push_entry(out, DictEntry { term: term.clone(), sanskrit: None, gloss: g, category: None });
                        assert(entries_v(out@) =~= before + term_entries(format, term@, *v));
                    } else {
                        assert(entries_v(out@) =~= before + term_entries(format, term@, *v));
                    }
                },
                None => {
                    assert(entries_v(out@) =~= before + term_entries(format, term@, *v));
                },
            }
        },
        SourceFormat::Pentaglot => {
            let ghost before = entries_v(out@);
            if let DictValue::Obj(fs) = v {
                let gloss = join_fields(fs);
                if !gloss.as_str().is_empty() {
                    let san = get_text(fs, "san");
                    push_entry(out, DictEntry { term: term.clone(), sanskrit: san, gloss, category: None });
                }
            }
            assert(entries_v(out@) =~= before + term_entries(format, term@, *v));
        },
        SourceFormat::Soothill => {
            assert(entries_v(out@) + Seq::<EntryV>::empty() =~= entries_v(out@));
        },
    }
}

/// The entries of a term-keyed dictionary file (every format but
/// Soothill's), given its terms in file order.
pub fn parse_entries(format: SourceFormat, items: &[(String, DictValue)]) -> (r: Vec<DictEntry>)
    ensures
        entries_v(r@) == map_entries(format, items@),
{
    let mut out: Vec<DictEntry> = Vec::new();
    let mut i: usize = 0;
    assert(items@.take(0) =~= Seq::<(String, DictValue)>::empty());
    assert(entries_v(out@) =~= Seq::<EntryV>::empty());
    while i < items.len()
        invariant
            i <= items@.len(),
            entries_v(out@) == map_entries(format, items@.take(i as int)),
        decreases items.len() - i,
    {
        assert(items@.take(i + 1).drop_last() =~= items@.take(i as int));
        assert(items@.take(i + 1).last() == items@[i as int]);
        entries_of_term(format, &items[i].0, &items[i].1, &mut out);
        i += 1;
    }
    assert(items@.take(items@.len() as int) =~= items@);
    out
}

/// An entry is kept when its term has at least two characters and its
/// gloss is not empty.
pub open spec fn kept(e: EntryV) -> bool {
    e.0.len() >= 2 && e.2.len() > 0
}

pub open spec fn kept_entries_of(es: Seq<EntryV>) -> Seq<EntryV> {
    es.filter(|e: EntryV| kept(e))
}

impl DictEntry {
    fn duplicate(&self) -> (r: DictEntry)
        ensures
            r@ == self@,
    {
        DictEntry {
            term: self.term.clone(),
            sanskrit: clone_opt(&self.sanskrit),
            gloss: self.gloss.clone(),
            category: clone_opt(&self.category),
        }
    }
}

/// The entries that are kept (see `kept`), in order.
pub fn kept_entries(entries: &[DictEntry]) -> (r: Vec<DictEntry>)
    ensures
        entries_v(r@) == kept_entries_of(entries_v(entries@)),
{
    let ghost all = entries_v(entries@);
    let mut out: Vec<DictEntry> = Vec::new();
    assert(all.take(0) =~= Seq::<EntryV>::empty());
    assert(entries_v(out@) =~= kept_entries_of(Seq::<EntryV>::empty()));
    let mut i: usize = 0;
    while i < entries.len()
        invariant
            i <= entries@.len(),
            all == entries_v(entries@),
            entries_v(out@) == kept_entries_of(all.take(i as int)),
        decreases entries.len() - i,
    {
        let e = &entries[i];
        let cs = chars_of(e.term.as_str());
        let keep = cs.len() >= 2 && !e.gloss.as_str().is_empty();
        proof {
            assert(all.take(i + 1) =~= all.take(i as int).push(all[i as int]));
            all.take(i as int).lemma_filter_push(all[i as int], |x: EntryV| kept(x));
        }
        if keep {
            push_entry(&mut out, e.duplicate());
        }
        i += 1;
    }
    assert(all.take(entries@.len() as int) =~= all);
    out
}

// ---------------------------------------------------------------------------
// Compressed dictionary files
// ---------------------------------------------------------------------------

/// The bytes that the gzip data `bytes` decompress to; nothing when they
/// are not valid gzip data.
pub uninterp spec fn gunzipped(bytes: Seq<u8>) -> Option<Seq<u8>>;

/// `flate2::read::GzDecoder` read to its end (`Read::read_to_end`): the
/// decompressed bytes, or nothing when decompression fails.
#[verifier::external_body]
fn gunzip(bytes: &[u8]) -> (r: Option<Vec<u8>>)
    ensures
        r is Some <==> gunzipped(bytes@) is Some,
        r matches Some(v) ==> v@ == gunzipped(bytes@)->0,
{
    let mut out: Vec<u8> = Vec::new();
    match std::io::Read::read_to_end(&mut flate2::read::GzDecoder::new(bytes), &mut out) {
        Ok(_) => Some(out),
        Err(_) => None,
    }
}

/// The bytes of a dictionary file read as `raw`: decompressed when the file
/// is gzip-compressed (`gz`), else as they are; nothing when decompression
/// fails.
pub fn dict_bytes(raw: &[u8], gz: bool) -> (r: Option<Vec<u8>>)
    ensures
        gz ==> (r is Some <==> gunzipped(raw@) is Some) && (r matches Some(v) ==> v@ == gunzipped(raw@)->0),
        !gz ==> (r matches Some(v) && v@ == raw@),
{
    if gz {
        gunzip(raw)
    } else {
        let mut v: Vec<u8> = Vec::new();
        let mut i: usize = 0;
        while i < raw.len()
            invariant
                i <= raw@.len(),
                v@ == raw@.take(i as int),
            decreases raw@.len() - i,
        {
            v.push(raw[i]);
            proof {
                assert(raw@.take(i + 1) =~= raw@.take(i as int).push(raw@[i as int]));
            }
            i += 1;
        }
        proof {
            assert(raw@.take(i as int) =~= raw@);
        }
        Some(v)
    }
}

} // verus!
