//! Preparing a Markdown report for the bilingual PDF: the Chinese passages
//! come from its fenced code blocks, the English text from the lines around
//! them, stripped of Markdown markers.

use vstd::prelude::*;
use crate::kanripo::{contains_cjk, has_cjk};
use crate::text::{chars_of, lines, lines_of, string_from, trim, trim_start, trimmed, views, strs};

verus! {

/// `s` without its leading `c` characters.
pub open spec fn strip_char(s: Seq<char>, c: char) -> Seq<char>
    decreases s.len(),
{
    if s.len() > 0 && s[0] == c {
        strip_char(s.drop_first(), c)
    } else {
        s
    }
}

/// `s` without its leading repetitions of the two-character marker `p`.
pub open spec fn strip_pair(s: Seq<char>, p: Seq<char>) -> Seq<char>
    decreases s.len(),
{
    if p.len() == 2 && s.len() >= 2 && s[0] == p[0] && s[1] == p[1] {
        strip_pair(s.skip(2), p)
    } else {
        s
    }
}

/// A line without its Markdown markers: leading `#`s, then leading `- `
/// list markers, then leading `> ` quote markers, then surrounding
/// whitespace.
pub open spec fn stripped_line(line: Seq<char>) -> Seq<char> {
    trim(strip_pair(strip_pair(strip_char(line, '#'), seq!['-', ' ']), seq!['>', ' ']))
}

fn strip_markdown_chars(line: &[char]) -> (r: Vec<char>)
    ensures
        r@ == stripped_line(line@),
{
    let n = line.len();
    let mut i: usize = 0;
    assert(line@.skip(0) =~= line@);
    while i < n && line[i] == '#'
        invariant
            i <= n,
            n == line@.len(),
            strip_char(line@, '#') == strip_char(line@.skip(i as int), '#'),
        decreases n - i,
    {
        assert(line@.skip(i as int).drop_first() =~= line@.skip(i + 1));
        i += 1;
    }
    while n - i > 1 && line[i] == '-' && line[i + 1] == ' '
        invariant
            i <= n,
            n == line@.len(),
            strip_pair(strip_char(line@, '#'), seq!['-', ' ']) == strip_pair(line@.skip(i as int), seq!['-', ' ']),
        decreases n - i,
    {
        assert(line@.skip(i as int).skip(2) =~= line@.skip(i + 2));
        i += 2;
    }
    while n - i > 1 && line[i] == '>' && line[i + 1] == ' '
        invariant
            i <= n,
            n == line@.len(),
            strip_pair(strip_pair(strip_char(line@, '#'), seq!['-', ' ']), seq!['>', ' ']) == strip_pair(
                line@.skip(i as int),
                seq!['>', ' '],
            ),
        decreases n - i,
    {
        assert(line@.skip(i as int).skip(2) =~= line@.skip(i + 2));
        i += 2;
    }
    let rest = crate::text::slice_of(line, i, n);
    assert(rest@ =~= line@.skip(i as int));
    trimmed(rest.as_slice())
}

/// A line of Markdown as plain text (see `stripped_line`).
pub fn strip_markdown(line: &str) -> (r: String)
    ensures
        r@ == stripped_line(line@),
{
    let cs = chars_of(line);
    let s = strip_markdown_chars(cs.as_slice());
    string_from(s.as_slice())
}

/// The parts joined with newlines.
pub open spec fn join_lines(parts: Seq<Seq<char>>) -> Seq<char>
    decreases parts.len(),
{
    if parts.len() == 0 {
        Seq::empty()
    } else if parts.len() == 1 {
        parts[0]
    } else {
        join_lines(parts.drop_last()) + seq!['\n'] + parts.last()
    }
}

fn join_with_newlines(parts: &Vec<Vec<char>>) -> (r: String)
    ensures
        r@ == join_lines(views(parts@)),
{
    let mut out: Vec<char> = Vec::new();
    let mut i: usize = 0;
    while i < parts.len()
        invariant
            i <= parts@.len(),
            out@ == join_lines(views(parts@).take(i as int)),
        decreases parts.len() - i,
    {
        let ghost before = out@;
        assert(views(parts@).take(i + 1).drop_last() =~= views(parts@).take(i as int));
        assert(views(parts@).take(i + 1).last() == parts@[i as int]@);
        if i > 0 {
            out.push('\n');
        }
        let p = &parts[i];
        let mut k: usize = 0;
        let ghost mid = out@;
        while k < p.len()
            invariant
                k <= p@.len(),
                out@ == mid + p@.take(k as int),
            decreases p.len() - k,
        {
            out.push(p[k]);
            assert(mid + p@.take(k + 1) =~= (mid + p@.take(k as int)).push(p@[k as int]));
            k += 1;
        }
        assert(p@.take(p@.len() as int) =~= p@);
        proof {
            if i == 0 {
                assert(views(parts@).take(1) =~= seq![parts@[0]@]);
                assert(out@ =~= p@);
            } else {
                assert(out@ =~= before + seq!['\n'] + p@);
            }
        }
        i += 1;
    }
    assert(views(parts@).take(parts@.len() as int) =~= views(parts@));
    string_from(out.as_slice())
}

/// Does the line open or close a fenced code block?
pub open spec fn is_fence(line: Seq<char>) -> bool {
    let t = trim_start(line);
    t.len() >= 3 && t[0] == '`' && t[1] == '`' && t[2] == '`'
}

/// The state of the section split between lines: the sections so far
/// (Chinese and English), whether a code block is open, and the pending
/// Chinese and English lines.
pub struct SplitState {
    pub zh: Seq<Seq<char>>,
    pub en: Seq<Seq<char>>,
    pub in_code: bool,
    pub cur_zh: Seq<Seq<char>>,
    pub cur_en: Seq<Seq<char>>,
}

pub open spec fn split_step(s: SplitState, line: Seq<char>) -> SplitState {
    if is_fence(line) {
        if s.in_code {
            let flush = s.cur_zh.len() > 0;
            SplitState {
                zh: if flush { s.zh.push(join_lines(s.cur_zh)) } else { s.zh },
                en: if flush { s.en.push(join_lines(s.cur_en)) } else { s.en },
                in_code: false,
                cur_zh: Seq::empty(),
                cur_en: Seq::empty(),
            }
        } else {
            SplitState { in_code: true, ..s }
        }
    } else if s.in_code {
        if has_cjk(line) {
            SplitState { cur_zh: s.cur_zh.push(line), ..s }
        } else {
            s
        }
    } else if trim(line).len() > 0 && !(line.len() >= 3 && line[0] == '-' && line[1] == '-' && line[2] == '-') {
        SplitState { cur_en: s.cur_en.push(stripped_line(line)), ..s }
    } else {
        s
    }
}

pub open spec fn split_lines(ls: Seq<Seq<char>>) -> SplitState
    decreases ls.len(),
{
    if ls.len() == 0 {
        SplitState { zh: Seq::empty(), en: Seq::empty(), in_code: false, cur_zh: Seq::empty(), cur_en: Seq::empty() }
    } else {
        split_step(split_lines(ls.drop_last()), ls.last())
    }
}

/// The Chinese and English sections of a Markdown report: each closed code
/// block that holds Chinese lines gives a section, its Chinese lines with the
/// English lines read since the previous one. A report without such a block
/// gives one section: no Chinese, and all its lines as plain text.
pub open spec fn pdf_sections(md: Seq<char>) -> (Seq<Seq<char>>, Seq<Seq<char>>) {
    let ls = lines(md);
    let s = split_lines(ls);
    if s.zh.len() == 0 {
        (seq![Seq::empty()], seq![join_lines(ls.map_values(|l: Seq<char>| stripped_line(l)))])
    } else {
        (s.zh, s.en)
    }
}

fn push_line(v: &mut Vec<Vec<char>>, l: Vec<char>)
    ensures
        views(final(v)@) == views(old(v)@).push(l@),
{
    v.push(l);
    assert(views(v@) =~= views(old(v)@).push(l@));
}

/// Split a Markdown report into the Chinese and English sections of the
/// bilingual PDF (see `pdf_sections`).
pub fn markdown_to_pdf_sections(markdown: &str) -> (r: (Vec<String>, Vec<String>))
    ensures
        (strs(r.0@), strs(r.1@)) == pdf_sections(markdown@),
{
    let cs = chars_of(markdown);
    let ls = lines_of(cs.as_slice());
    let ghost lv = views(ls@);
    let mut zh: Vec<String> = Vec::new();
    let mut en: Vec<String> = Vec::new();
    let mut in_code = false;
    let mut cur_zh: Vec<Vec<char>> = Vec::new();
    let mut cur_en: Vec<Vec<char>> = Vec::new();
    let mut i: usize = 0;
    assert(lv.take(0) =~= Seq::<Seq<char>>::empty());
    assert(views(cur_zh@) =~= Seq::<Seq<char>>::empty());
    assert(strs(zh@) =~= Seq::<Seq<char>>::empty());
    while i < ls.len()
        invariant
            i <= ls@.len(),
            lv == views(ls@),
            lv == lines(markdown@),
            split_lines(lv.take(i as int)) == (SplitState {
                zh: strs(zh@),
                en: strs(en@),
                in_code,
                cur_zh: views(cur_zh@),
                cur_en: views(cur_en@),
            }),
        decreases ls.len() - i,
    {
        assert(lv.take(i + 1).drop_last() =~= lv.take(i as int));
        assert(lv.take(i + 1).last() == ls@[i as int]@);
        let line = &ls[i];
        let t = crate::text::slice_of(line.as_slice(), 0, line.len());
        assert(t@ =~= line@);
        let mut j: usize = 0;
        assert(line@.skip(0) =~= line@);
        while j < line.len() && crate::text::is_whitespace(line[j])
            invariant
                j <= line@.len(),
                trim_start(line@) == trim_start(line@.skip(j as int)),
            decreases line.len() - j,
        {
            assert(line@.skip(j as int).drop_first() =~= line@.skip(j + 1));
            j += 1;
        }
        assert(trim_start(line@) == line@.skip(j as int));
        let fence = line.len() - j > 2 && line[j] == '`' && line[j + 1] == '`' && line[j + 2] == '`';
        if fence {
            if in_code {
                if cur_zh.len() > 0 {
                    let z = join_with_newlines(&cur_zh);
                    let e = join_with_newlines(&cur_en);
                    let ghost zb = zh@;
                    let ghost eb = en@;
                    zh.push(z);
                    en.push(e);
                    assert(strs(zh@) =~= strs(zb).push(z@));
                    assert(strs(en@) =~= strs(eb).push(e@));
                }
                cur_zh = Vec::new();
                cur_en = Vec::new();
                assert(views(cur_zh@) =~= Seq::<Seq<char>>::empty());
                assert(views(cur_en@) =~= Seq::<Seq<char>>::empty());
            }
            in_code = !in_code;
        } else if in_code {
            if contains_cjk(line.as_slice()) {
                push_line(&mut cur_zh, t);
            }
        } else {
            let tr = trimmed(line.as_slice());
            let dashes = line.len() >= 3 && line[0] == '-' && line[1] == '-' && line[2] == '-';
            if tr.len() > 0 && !dashes {
                let s = strip_markdown_chars(line.as_slice());
                push_line(&mut cur_en, s);
            }
        }
        i += 1;
    }
    assert(lv.take(ls@.len() as int) =~= lv);
    if zh.len() == 0 {
        let mut stripped: Vec<Vec<char>> = Vec::new();
        let mut k: usize = 0;
        while k < ls.len()
            invariant
                k <= ls@.len(),
                lv == views(ls@),
                views(stripped@) == lv.take(k as int).map_values(|l: Seq<char>| stripped_line(l)),
            decreases ls.len() - k,
        {
            let s = strip_markdown_chars(ls[k].as_slice());
            push_line(&mut stripped, s);
            assert(lv.take(k + 1).map_values(|l: Seq<char>| stripped_line(l)) =~= lv.take(k as int).map_values(
                |l: Seq<char>| stripped_line(l),
            ).push(stripped_line(lv[k as int])));
            k += 1;
        }
        assert(lv.take(ls@.len() as int) =~= lv);
        let mut zh1: Vec<String> = Vec::new();
        zh1.push(String::new());
        let mut en1: Vec<String> = Vec::new();
        en1.push(join_with_newlines(&stripped));
        assert(strs(zh1@) =~= seq![Seq::<char>::empty()]);
        assert(strs(en1@) =~= seq![join_lines(views(stripped@))]);
        return (zh1, en1);
    }
    (zh, en)
}

} // verus!
