//! Translator fields of the work catalog: `後秦 佛陀耶舍共竺佛念譯` into author,
//! English period and period rank.

use vstd::prelude::*;
use crate::text::{find_char, index_of, lemma_index_of, slice_of, trimmed, chars_of, str_eq, string_from, trim, trim_bounds, opt_view};

verus! {

/// Is `d` one of `names`?
pub open spec fn one_of(d: Seq<char>, names: Seq<&str>) -> bool {
    exists|i: int| 0 <= i < names.len() && (#[trigger] names[i])@ == d
}

fn in_list(d: &str, names: &[&str]) -> (r: bool)
    ensures
        r == one_of(d@, names@),
{
    let mut i: usize = 0;
    while i < names.len()
        invariant
            i <= names.len(),
            forall|j: int| 0 <= j < i ==> (#[trigger] names@[j])@ != d@,
        decreases names.len() - i,
    {
        if str_eq(names[i], d) {
            return true;
        }
        i += 1;
    }
    false
}

pub open spec fn han() -> Seq<&'static str> {
    seq!["前漢", "後漢", "東漢", "漢"]
}

pub open spec fn three_kingdoms() -> Seq<&'static str> {
    seq!["吳", "曹魏", "蜀", "魏"]
}

pub open spec fn jin() -> Seq<&'static str> {
    seq!["晉", "晉世", "西晉", "東晉"]
}

pub open spec fn northern_southern() -> Seq<&'static str> {
    seq![
        "劉宋", "南齊", "蕭齊", "梁", "陳", "南北朝", "北涼", "北魏", "元魏", "後魏", "東魏", "西魏",
        "北齊", "高齊", "北周", "宇文周", "後秦", "姚秦", "前秦", "符秦", "乞伏秦", "西秦", "前涼",
        "後趙", "後燕", "前燕", "南涼", "胡",
    ]
}

pub open spec fn sui() -> Seq<&'static str> {
    seq!["隋"]
}

pub open spec fn tang() -> Seq<&'static str> {
    seq!["唐", "南唐"]
}

pub open spec fn five_dynasties() -> Seq<&'static str> {
    seq!["五代", "後唐", "後梁", "後晉", "後周", "南漢", "吳越"]
}

pub open spec fn song() -> Seq<&'static str> {
    seq!["宋", "北宋", "南宋", "唐宋", "遼", "金"]
}

pub open spec fn yuan() -> Seq<&'static str> {
    seq!["元"]
}

pub open spec fn ming() -> Seq<&'static str> {
    seq!["明"]
}

pub open spec fn qing() -> Seq<&'static str> {
    seq!["清"]
}

pub open spec fn modern() -> Seq<&'static str> {
    seq!["民國", "近代", "現代"]
}

/// English period and sort rank of a Chinese dynasty name; unknown names
/// have no period and rank 99.
pub open spec fn dynasty_period(d: Seq<char>) -> (Option<Seq<char>>, i32) {
    if one_of(d, han()) {
        (Some("Han"@), 1)
    } else if one_of(d, three_kingdoms()) {
        (Some("Three Kingdoms"@), 2)
    } else if one_of(d, jin()) {
        (Some("Jin"@), 3)
    } else if one_of(d, northern_southern()) {
        (Some("Northern and Southern"@), 4)
    } else if one_of(d, sui()) {
        (Some("Sui"@), 5)
    } else if one_of(d, tang()) {
        (Some("Tang"@), 6)
    } else if one_of(d, five_dynasties()) {
        (Some("Five Dynasties"@), 7)
    } else if one_of(d, song()) {
        (Some("Song"@), 8)
    } else if one_of(d, yuan()) {
        (Some("Yuan"@), 9)
    } else if one_of(d, ming()) {
        (Some("Ming"@), 10)
    } else if one_of(d, qing()) {
        (Some("Qing"@), 11)
    } else if one_of(d, modern()) {
        (Some("Modern"@), 99)
    } else {
        (None, 99)
    }
}

/// Map a Chinese dynasty name to an English period string + sort rank.
pub fn dynasty_to_english(d: &str) -> (r: (Option<String>, i32))
    ensures
        (match r.0 {
            Some(p) => Some(p@),
            None => None,
        }, r.1) == dynasty_period(d@),
{
    let hn = ["前漢", "後漢", "東漢", "漢"];
    let tk = ["吳", "曹魏", "蜀", "魏"];
    let jn = ["晉", "晉世", "西晉", "東晉"];
    let ns = [
        "劉宋", "南齊", "蕭齊", "梁", "陳", "南北朝", "北涼", "北魏", "元魏", "後魏", "東魏", "西魏",
        "北齊", "高齊", "北周", "宇文周", "後秦", "姚秦", "前秦", "符秦", "乞伏秦", "西秦", "前涼",
        "後趙", "後燕", "前燕", "南涼", "胡",
    ];
    let su = ["隋"];
    let tg = ["唐", "南唐"];
    let fd = ["五代", "後唐", "後梁", "後晉", "後周", "南漢", "吳越"];
    let sg = ["宋", "北宋", "南宋", "唐宋", "遼", "金"];
    let yu = ["元"];
    let mi = ["明"];
    let qi = ["清"];
    let md = ["民國", "近代", "現代"];
    assert(hn@ =~= han());
    assert(tk@ =~= three_kingdoms());
    assert(jn@ =~= jin());
    assert(ns@ =~= northern_southern());
    assert(su@ =~= sui());
    assert(tg@ =~= tang());
    assert(fd@ =~= five_dynasties());
    assert(sg@ =~= song());
    assert(yu@ =~= yuan());
    assert(mi@ =~= ming());
    assert(qi@ =~= qing());
    assert(md@ =~= modern());
    let (p, r): (&str, i32) = if in_list(d, &hn) {
        ("Han", 1)
    } else if in_list(d, &tk) {
        ("Three Kingdoms", 2)
    } else if in_list(d, &jn) {
        ("Jin", 3)
    } else if in_list(d, &ns) {
        ("Northern and Southern", 4)
    } else if in_list(d, &su) {
        ("Sui", 5)
    } else if in_list(d, &tg) {
        ("Tang", 6)
    } else if in_list(d, &fd) {
        ("Five Dynasties", 7)
    } else if in_list(d, &sg) {
        ("Song", 8)
    } else if in_list(d, &yu) {
        ("Yuan", 9)
    } else if in_list(d, &mi) {
        ("Ming", 10)
    } else if in_list(d, &qi) {
        ("Qing", 11)
    } else if in_list(d, &md) {
        ("Modern", 99)
    } else {
        return (None, 99);
    };
    (Some(p.to_owned()), r)
}


/// The characters that end an authorship phrase: translated, compiled,
/// written, edited, recorded, commented, explained, spoken ...
pub open spec fn is_verb(c: char) -> bool {
    c == '譯' || c == '撰' || c == '著' || c == '編' || c == '纂' || c == '記' || c == '錄' || c
        == '疏' || c == '注' || c == '解' || c == '造' || c == '集' || c == '製' || c == '述' || c
        == '說' || c == '釋'
}

fn verb(c: char) -> (r: bool)
    ensures
        r == is_verb(c),
{
    c == '譯' || c == '撰' || c == '著' || c == '編' || c == '纂' || c == '記' || c == '錄' || c
        == '疏' || c == '注' || c == '解' || c == '造' || c == '集' || c == '製' || c == '述' || c
        == '說' || c == '釋'
}

/// `s` without its trailing verb characters.
pub open spec fn trim_verbs(s: Seq<char>) -> Seq<char>
    decreases s.len(),
{
    if s.len() > 0 && is_verb(s.last()) {
        trim_verbs(s.drop_last())
    } else {
        s
    }
}

/// The name in an authorship phrase: trailing verb characters removed, then
/// one trailing `等` ("and others"), then surrounding whitespace.
pub open spec fn strip_verb(s: Seq<char>) -> Seq<char> {
    let a = trim_verbs(s);
    let b = if a.len() > 0 && a.last() == '等' {
        a.drop_last()
    } else {
        a
    };
    trim(b)
}

proof fn lemma_trim_verbs_take(s: Seq<char>, i: int)
    requires
        0 <= i <= s.len(),
        forall|j: int| i <= j < s.len() ==> is_verb(#[trigger] s[j]),
    ensures
        trim_verbs(s) == trim_verbs(s.take(i)),
    decreases s.len() - i,
{
    if i < s.len() {
        assert(s.drop_last().take(i) =~= s.take(i));
        lemma_trim_verbs_take(s.drop_last(), i);
    } else {
        assert(s.take(i) =~= s);
    }
}

/// Bounds of `strip_verb(v)` inside `v`.
fn strip_verb_bounds(v: &[char]) -> (r: (usize, usize))
    ensures
        r.0 <= r.1 <= v.len(),
        v@.subrange(r.0 as int, r.1 as int) == strip_verb(v@),
{
    let mut end: usize = v.len();
    while end > 0 && verb(v[end - 1])
        invariant
            end <= v.len(),
            forall|j: int| end <= j < v.len() ==> is_verb(#[trigger] v@[j]),
        decreases end,
    {
        end -= 1;
    }
    proof {
        lemma_trim_verbs_take(v@, end as int);
        let t = v@.take(end as int);
        if t.len() > 0 {
            assert(t.last() == v@[end - 1]);
        }
        assert(trim_verbs(t) == t);
    }
    if end > 0 && v[end - 1] == '等' {
        end -= 1;
        proof {
            assert(v@.take(end + 1).drop_last() =~= v@.take(end as int));
        }
    }
    let head = crate::text::slice_of(v, 0, end);
    let (lo, hi) = trim_bounds(head.as_slice());
    proof {
        assert(head@.subrange(lo as int, hi as int) =~= v@.subrange(lo as int, hi as int));
    }
    (lo, hi)
}

/// Strip trailing translation/authorship verb characters.
pub fn strip_translation_verb(s: &str) -> (r: &str)
    ensures
        r@ == strip_verb(s@),
{
    let v = chars_of(s);
    let (lo, hi) = strip_verb_bounds(v.as_slice());
    s.substring_char(lo, hi)
}


/// The conventional "translator unknown" entries.
pub open spec fn anonymous() -> Seq<&'static str> {
    seq!["失譯", "佚名", "失名", "不詳"]
}

/// Author, English period and period rank of a catalog translator field.
///
/// An empty field gives nothing (rank 99); an "unknown translator" entry is
/// kept whole as the author. Otherwise a known dynasty before the first space
/// gives the period and rank, and the author is the rest with its authorship
/// verb stripped; without a known dynasty the whole field names the author.
pub open spec fn translator_parts(field: Seq<char>) -> (Option<Seq<char>>, Option<Seq<char>>, i32) {
    let f = trim(field);
    if f.len() == 0 {
        (None, None, 99)
    } else if one_of(f, anonymous()) {
        (Some(f), None, 99)
    } else {
        let sp = index_of(f, ' ');
        let dyn_raw = if sp < f.len() {
            f.take(sp)
        } else {
            Seq::<char>::empty()
        };
        let tr_raw = if sp < f.len() {
            trim(f.skip(sp + 1))
        } else {
            f
        };
        let period = dynasty_period(dyn_raw);
        let a = strip_verb(
            if period.0 is Some {
                tr_raw
            } else {
                f
            },
        );
        (
            if a.len() == 0 {
                None
            } else {
                Some(a)
            },
            period.0,
            period.1,
        )
    }
}

/// Parse `translator_field` from sutra_sch.lst into (author, period, period_rank).
///
/// Format examples:
///   "後秦 佛陀耶舍共竺佛念譯"  →  dynasty="後秦", author="佛陀耶舍共竺佛念"
///   "唐 不空譯"               →  dynasty="唐", author="不空"
///   "失譯"                    →  no dynasty, author="失譯"
///   "黃謹良譯"                →  no dynasty (modern), author="黃謹良"
///   ""                        →  nothing
pub fn parse_catalog_translator(field: &str) -> (r: (Option<String>, Option<String>, i32))
    ensures
        (opt_view(r.0), opt_view(r.1), r.2) == translator_parts(field@),
{
    let raw = chars_of(field);
    let f = trimmed(raw.as_slice());
    if f.len() == 0 {
        return (None, None, 99);
    }
    let fs = string_from(f.as_slice());
    let anon = ["失譯", "佚名", "失名", "不詳"];
    assert(anon@ =~= anonymous());
    if in_list(fs.as_str(), &anon) {
        return (Some(fs), None, 99);
    }
    proof {
        lemma_index_of(f@, ' ');
    }
    let (dyn_raw, tr_raw) = match find_char(f.as_slice(), ' ') {
        Some(sp) => (slice_of(f.as_slice(), 0, sp), trimmed(slice_of(f.as_slice(), sp + 1, f.len()).as_slice())),
        None => (Vec::new(), slice_of(f.as_slice(), 0, f.len())),
    };
    proof {
        assert(f@.subrange(0, f@.len() as int) =~= f@);
        if index_of(f@, ' ') < f@.len() {
            assert(f@.subrange(0, index_of(f@, ' ')) =~= f@.take(index_of(f@, ' ')));
            assert(f@.subrange(index_of(f@, ' ') + 1, f@.len() as int) =~= f@.skip(index_of(f@, ' ') + 1));
        } else {
            assert(dyn_raw@ =~= Seq::<char>::empty());
        }
    }
    let dyn_str = string_from(dyn_raw.as_slice());
    let (period, rank) = dynasty_to_english(dyn_str.as_str());
    let who: &[char] = if period.is_some() {
        tr_raw.as_slice()
    } else {
        f.as_slice()
    };
    let (lo, hi) = strip_verb_bounds(who);
    if lo == hi {
        return (None, period, rank);
    }
    let author = string_from(slice_of(who, lo, hi).as_slice());
    (Some(author), period, rank)
}


/// A translator field gives an author only when it has one to give (never
/// an empty name), and a rank other than the placeholder 99 only together
/// with a known period.
pub proof fn translator_parts_sound(field: Seq<char>)
    ensures
        translator_parts(field).0 matches Some(a) ==> a.len() > 0,
        translator_parts(field).1 is None ==> translator_parts(field).2 == 99,
{
}

} // verus!
