//! Text decisions of the PDF writer that involve no geometry: which font
//! face draws a glyph, the names under which faces are embedded, the tag of
//! a font subset, and the splitting of styled inline spans into the words,
//! CJK glyphs, spaces and breaks that line wrapping works on.

use vstd::prelude::*;
use unicode_script::{Script, UnicodeScript};
use crate::markdown::{InlineStyle, Span, SpanV, StyleV, default_style};
use crate::text::{chars_of, is_whitespace, is_ws, string_from, str_eq, clone_opt};
use crate::text::opt_view;

verus! {

/// Which embedded font face a glyph should be drawn with.
#[derive(Debug, Clone, Copy, PartialEq, Eq)]
pub enum MdFont {
    Chinese,
    English,
    Mono,
}

impl MdFont {
    /// The name of the face in a page's resource dictionary.
    pub fn resource(self) -> (r: &'static str)
        ensures
            r@ == resource_name(self),
    {
        match self {
            MdFont::Chinese => "chinese",
            MdFont::English => "english",
            MdFont::Mono => "mono",
        }
    }
}

pub open spec fn resource_name(f: MdFont) -> Seq<char> {
    match f {
        MdFont::Chinese => "chinese"@,
        MdFont::English => "english"@,
        MdFont::Mono => "mono"@,
    }
}

// ---------------------------------------------------------------------------
// Subset tags
// ---------------------------------------------------------------------------

pub open spec fn fnv_offset() -> u64 {
    0xcbf29ce484222325u64
}

pub open spec fn fnv_prime() -> u64 {
    0x100000001b3u64
}

/// FNV-1a over the code points of `s`, in order.
pub open spec fn fnv(s: Seq<char>) -> u64
    decreases s.len(),
{
    if s.len() == 0 {
        fnv_offset()
    } else {
        (fnv(s.drop_last()) ^ (s.last() as u64)).wrapping_mul(fnv_prime())
    }
}

/// The `i`-th letter of the tag of hash `h`: five bits of `h`, taken
/// modulo 26, as an upper-case letter.
pub open spec fn tag_letter(h: u64, i: int) -> char {
    (65 + (((h >> (5 * i) as u64) & 0x1Fu64) % 26)) as char
}

pub open spec fn tag_of(s: Seq<char>) -> Seq<char> {
    Seq::new(6, |i: int| tag_letter(fnv(s), i))
}

/// Each character of `s` comes before the next.
pub open spec fn ascending(s: Seq<char>) -> bool {
    forall|i: int, j: int| 0 <= i < j < s.len() ==> #[trigger] s[i] < #[trigger] s[j]
}

/// The glyphs of `u` in ascending order, each once.
pub open spec fn glyph_order(u: Seq<char>) -> Seq<char> {
    choose|s: Seq<char>| ascending(s) && s.to_set() == u.to_set()
}

/// Two ascending sequences of the same characters are equal.
proof fn lemma_ascending_unique(a: Seq<char>, b: Seq<char>)
    requires
        ascending(a),
        ascending(b),
        a.to_set() == b.to_set(),
    ensures
        a == b,
    decreases a.len(),
{
    if a.len() == 0 {
        if b.len() > 0 {
            assert(b.to_set().contains(b[0]));
        }
        assert(a =~= b);
    } else {
        assert(a.to_set().contains(a[0]));
        assert(b.contains(a[0]));
        assert(b.len() > 0);
        assert(b.to_set().contains(b[0]));
        assert(a.contains(b[0]));
        let k = choose|k: int| 0 <= k < b.len() && b[k] == a[0];
        let m = choose|m: int| 0 <= m < a.len() && a[m] == b[0];
        if m > 0 {
            assert(a[0] < a[m]);
        }
        if k > 0 {
            assert(b[0] < b[k]);
        }
        let a1 = a.drop_first();
        let b1 = b.drop_first();
        assert forall|x: char| a1.to_set().contains(x) <==> b1.to_set().contains(x) by {
            if a1.contains(x) {
                let i = choose|i: int| 0 <= i < a1.len() && a1[i] == x;
                assert(a[i + 1] == x && a[0] < a[i + 1]);
                assert(a.contains(x));
                assert(a.to_set().contains(x));
                assert(b.to_set().contains(x));
                assert(b.contains(x));
                let j = choose|j: int| 0 <= j < b.len() && b[j] == x;
                if j == 0 {
                    assert(false);
                }
                assert(b1[j - 1] == x);
            }
            if b1.contains(x) {
                let i = choose|i: int| 0 <= i < b1.len() && b1[i] == x;
                assert(b[i + 1] == x && b[0] < b[i + 1]);
                assert(b.contains(x));
                assert(b.to_set().contains(x));
                assert(a.to_set().contains(x));
                assert(a.contains(x));
                let j = choose|j: int| 0 <= j < a.len() && a[j] == x;
                if j == 0 {
                    assert(false);
                }
                assert(a1[j - 1] == x);
            }
        }
        assert(a1.to_set() =~= b1.to_set());
        assert forall|i: int, j: int| 0 <= i < j < a1.len() implies #[trigger] a1[i] < #[trigger] a1[j] by {
            assert(a[i + 1] < a[j + 1]);
        }
        assert forall|i: int, j: int| 0 <= i < j < b1.len() implies #[trigger] b1[i] < #[trigger] b1[j] by {
            assert(b[i + 1] < b[j + 1]);
        }
        lemma_ascending_unique(a1, b1);
        assert(a =~= seq![a[0]] + a1);
        assert(b =~= seq![b[0]] + b1);
    }
}

proof fn lemma_glyph_order(set: Seq<char>, used: Seq<char>)
    requires
        ascending(set),
        set.to_set() == used.to_set(),
    ensures
        set == glyph_order(used),
{
    let g = glyph_order(used);
    lemma_ascending_unique(set, g);
}

/// The glyphs of `used` in ascending order, each once.
fn glyph_set(used: &[char]) -> (r: Vec<char>)
    ensures
        ascending(r@),
        r@.to_set() == used@.to_set(),
{
    let mut r: Vec<char> = Vec::new();
    let mut i: usize = 0;
    while i < used.len()
        invariant
            i <= used@.len(),
            ascending(r@),
            r@.to_set() == used@.take(i as int).to_set(),
        decreases used@.len() - i,
    {
        let c = used[i];
        let ghost r0 = r@;
        let mut p: usize = 0;
        while p < r.len() && r[p] < c
            invariant
                p <= r@.len(),
                r@ == r0,
                forall|k: int| 0 <= k < p ==> #[trigger] r0[k] < c,
            decreases r@.len() - p,
        {
            p += 1;
        }
        if p < r.len() && r[p] == c {
            proof {
                let t0 = used@.take(i as int);
                let t1 = used@.take(i + 1);
                assert(t1 =~= t0.push(c));
                assert forall|x: char| r@.to_set().contains(x) <==> t1.to_set().contains(x) by {
                    if r@.contains(x) {
                        assert(r@.to_set().contains(x));
                        assert(t0.to_set().contains(x));
                        let k = choose|k: int| 0 <= k < t0.len() && t0[k] == x;
                        assert(t1[k] == x);
                    }
                    if t1.contains(x) {
                        let k = choose|k: int| 0 <= k < t1.len() && t1[k] == x;
                        if k < t0.len() {
                            assert(t0[k] == x);
                            assert(t0.to_set().contains(x));
                            assert(r@.to_set().contains(x));
                        } else {
                            assert(x == c);
                            assert(r@[p as int] == c);
                        }
                    }
                }
                assert(r@.to_set() =~= used@.take(i + 1).to_set());
            }
        } else {
            r.insert(p, c);
            proof {
                assert(r@ =~= r0.insert(p as int, c));
                assert forall|a: int, b: int| 0 <= a < b < r@.len() implies #[trigger] r@[a] < #[trigger] r@[b] by {
                    if b < p {
                        assert(r0[a] < r0[b]);
                    } else if b == p {
                        assert(r0[a] < c);
                    } else if a < p {
                        assert(r@[b] == r0[b - 1]);
                        if b - 1 > p {
                            assert(r0[p as int] < r0[b - 1]);
                        }
                        assert(c <= r0[p as int]);
                        assert(r0[a] < c);
                    } else if a == p {
                        assert(r@[b] == r0[b - 1]);
                        if b - 1 > p {
                            assert(r0[p as int] < r0[b - 1]);
                        }
                    } else {
                        assert(r0[a - 1] < r0[b - 1]);
                    }
                }
                let t0 = used@.take(i as int);
                let t1 = used@.take(i + 1);
                assert(t1 =~= t0.push(c));
                assert forall|x: char| r@.to_set().contains(x) <==> t1.to_set().contains(x) by {
                    if r@.contains(x) {
                        let k = choose|k: int| 0 <= k < r@.len() && r@[k] == x;
                        if k == p {
                            assert(t1[i as int] == x);
                        } else {
                            if k < p {
                                assert(r0[k] == x);
                            } else {
                                assert(r0[k - 1] == x);
                            }
                            assert(r0.contains(x));
                            assert(r0.to_set().contains(x));
                            assert(t0.to_set().contains(x));
                            let q = choose|q: int| 0 <= q < t0.len() && t0[q] == x;
                            assert(t1[q] == x);
                        }
                    }
                    if t1.contains(x) {
                        let q = choose|q: int| 0 <= q < t1.len() && t1[q] == x;
                        if q < t0.len() {
                            assert(t0[q] == x);
                            assert(t0.to_set().contains(x));
                            assert(r0.to_set().contains(x));
                            let k = choose|k: int| 0 <= k < r0.len() && r0[k] == x;
                            if k < p {
                                assert(r@[k] == x);
                            } else {
                                assert(r@[k + 1] == x);
                            }
                        } else {
                            assert(r@[p as int] == c);
                        }
                    }
                }
                assert(r@.to_set() =~= used@.take(i + 1).to_set());
            }
        }
        i += 1;
    }
    proof {
        assert(used@.take(i as int) =~= used@);
    }
    r
}

/// Deterministic 6-uppercase-letter PDF subset tag derived from the glyph
/// set `used`: its glyphs in ascending order, each once, whatever order and
/// repeats `used` has.
pub fn subset_tag(used: &[char]) -> (r: String)
    ensures
        r@ == tag_of(glyph_order(used@)),
{
    let set = glyph_set(used);
    proof {
        lemma_glyph_order(set@, used@);
    }
    let mut h: u64 = 0xcbf29ce484222325;
    let mut k: usize = 0;
    while k < set.len()
        invariant
            k <= set@.len(),
            h == fnv(set@.take(k as int)),
        decreases set.len() - k,
    {
        assert(set@.take(k + 1).drop_last() =~= set@.take(k as int));
        let ch = set[k];
        h ^= ch as u64;
        h = h.wrapping_mul(0x100000001b3);
        k += 1;
    }
    assert(set@.take(set@.len() as int) =~= set@);
    let mut letters: Vec<char> = Vec::new();
    let mut i: u64 = 0;
    while i < 6
        invariant
            i <= 6,
            h == fnv(set@),
            set@ == glyph_order(used@),
            letters@ == Seq::new(i as nat, |j: int| tag_letter(h, j)),
        decreases 6 - i,
    {
        let v = ((h >> (i * 5)) & 0x1F) as u8;
        assert(((h >> (i * 5)) & 0x1F) < 32) by (bit_vector);
        let c = (65u8 + (v % 26)) as char;
        letters.push(c);
        assert(letters@ =~= Seq::new((i + 1) as nat, |j: int| tag_letter(h, j)));
        i += 1;
    }
    string_from(letters.as_slice())
}

// ---------------------------------------------------------------------------
// Font names
// ---------------------------------------------------------------------------

pub open spec fn is_ascii_alnum(c: char) -> bool {
    ('0' <= c && c <= '9') || ('a' <= c && c <= 'z') || ('A' <= c && c <= 'Z')
}

/// The characters of `raw` that a PDF font name keeps: ASCII letters and
/// digits, `-` and `_` as they are, whitespace as `-`; the rest dropped.
pub open spec fn name_chars(raw: Seq<char>) -> Seq<char>
    decreases raw.len(),
{
    if raw.len() == 0 {
        Seq::empty()
    } else {
        let c = raw.last();
        name_chars(raw.drop_last()) + if is_ascii_alnum(c) || c == '-' || c == '_' {
            seq![c]
        } else if is_ws(c) {
            seq!['-']
        } else {
            Seq::empty()
        }
    }
}

pub open spec fn sanitized_name(raw: Seq<char>) -> Seq<char> {
    if name_chars(raw).len() == 0 {
        "CJKFont"@
    } else {
        name_chars(raw)
    }
}

/// A font family name made fit for a PDF `BaseFont`: see `name_chars`;
/// `CJKFont` when nothing is left.
pub fn sanitize_pdf_font_name(raw: &str) -> (r: String)
    ensures
        r@ == sanitized_name(raw@),
{
    let cs = chars_of(raw);
    let mut out: Vec<char> = Vec::new();
    let mut k: usize = 0;
    while k < cs.len()
        invariant
            k <= cs@.len(),
            cs@ == raw@,
            out@ == name_chars(cs@.take(k as int)),
        decreases cs.len() - k,
    {
        assert(cs@.take(k + 1).drop_last() =~= cs@.take(k as int));
        let ch = cs[k];
        let ghost before = out@;
        if ('0' <= ch && ch <= '9') || ('a' <= ch && ch <= 'z') || ('A' <= ch && ch <= 'Z') || ch == '-' || ch
            == '_' {
            out.push(ch);
        } else if is_whitespace(ch) {
            out.push('-');
        }
        assert(out@ =~= name_chars(cs@.take(k + 1)));
        k += 1;
    }
    assert(cs@.take(cs@.len() as int) =~= cs@);
    if out.len() == 0 {
        String::from_str("CJKFont")
    } else {
        string_from(out.as_slice())
    }
}

pub open spec fn chinese_font_name(family: Seq<char>) -> Seq<char> {
    if family == "Source Han Serif TC"@ {
        "SourceHanSerifTC-Regular"@
    } else if family == "Noto Serif CJK TC"@ {
        "NotoSerifCJKTC-Regular"@
    } else if family == "Microsoft JhengHei"@ {
        "MicrosoftJhengHei"@
    } else if family == "Microsoft YaHei"@ {
        "MicrosoftYaHei"@
    } else if family == "SimSun"@ {
        "SimSun"@
    } else if family == "SimSun Bold"@ {
        "SimSun-Bold"@
    } else {
        sanitized_name(family)
    }
}

/// The `BaseFont` name of the Chinese face of the given family.
pub fn chinese_pdf_font_name(family: &str) -> (r: String)
    ensures
        r@ == chinese_font_name(family@),
{
    if str_eq(family, "Source Han Serif TC") {
        String::from_str("SourceHanSerifTC-Regular")
    } else if str_eq(family, "Noto Serif CJK TC") {
        String::from_str("NotoSerifCJKTC-Regular")
    } else if str_eq(family, "Microsoft JhengHei") {
        String::from_str("MicrosoftJhengHei")
    } else if str_eq(family, "Microsoft YaHei") {
        String::from_str("MicrosoftYaHei")
    } else if str_eq(family, "SimSun") {
        String::from_str("SimSun")
    } else if str_eq(family, "SimSun Bold") {
        String::from_str("SimSun-Bold")
    } else {
        sanitize_pdf_font_name(family)
    }
}

pub open spec fn english_font_name(family: Seq<char>) -> Seq<char> {
    if family == "EB Garamond"@ {
        "EBGaramond-Regular"@
    } else if family == "Noto Serif"@ {
        "NotoSerif-Regular"@
    } else if family == "Liberation Serif"@ {
        "LiberationSerif-Regular"@
    } else if family == "DejaVu Serif"@ {
        "DejaVuSerif"@
    } else {
        sanitized_name(family)
    }
}

/// The `BaseFont` name of the English face of the given family.
pub fn english_pdf_font_name(family: &str) -> (r: String)
    ensures
        r@ == english_font_name(family@),
{
    if str_eq(family, "EB Garamond") {
        String::from_str("EBGaramond-Regular")
    } else if str_eq(family, "Noto Serif") {
        String::from_str("NotoSerif-Regular")
    } else if str_eq(family, "Liberation Serif") {
        String::from_str("LiberationSerif-Regular")
    } else if str_eq(family, "DejaVu Serif") {
        String::from_str("DejaVuSerif")
    } else {
        sanitize_pdf_font_name(family)
    }
}

/// The `BaseFont` name of the monospace face of the given family; the
/// suffix keeps it apart from the English face when both come from one file.
pub fn mono_pdf_font_name(family: &str) -> (r: String)
    ensures
        r@ == sanitized_name(family@) + "-Mono"@,
{
    let base = sanitize_pdf_font_name(family);
    let mut cs = chars_of(base.as_str());
    cs.push('-');
    cs.push('M');
    cs.push('o');
    cs.push('n');
    cs.push('o');
    proof {
        reveal_strlit("-Mono");
        assert(cs@ =~= sanitized_name(family@) + "-Mono"@);
    }
    string_from(cs.as_slice())
}

// ---------------------------------------------------------------------------
// Which face draws a glyph
// ---------------------------------------------------------------------------

/// The Unicode scripts that are set in the CJK face, and all others.
#[derive(Debug, Clone, Copy, PartialEq, Eq)]
pub enum ScriptGroup {
    Han,
    Hiragana,
    Katakana,
    Bopomofo,
    Other,
}

/// The script group of `c` under the Unicode `Script` property.
pub uninterp spec fn script_group_of(c: char) -> ScriptGroup;

/// `UnicodeScript::script` of `unicode-script`, told apart into the four
/// scripts of `ScriptGroup` and the rest. The result depends on `c` alone
/// (the crate's static tables).
#[verifier::external_body]
fn script_group(c: char) -> (r: ScriptGroup)
    ensures
        r == script_group_of(c),
{
    match c.script() {
        Script::Han => ScriptGroup::Han,
        Script::Hiragana => ScriptGroup::Hiragana,
        Script::Katakana => ScriptGroup::Katakana,
        Script::Bopomofo => ScriptGroup::Bopomofo,
        _ => ScriptGroup::Other,
    }
}

/// Set in the CJK face: Han, Hiragana, Katakana and Bopomofo characters,
/// CJK symbols and punctuation (U+3000 to U+303F), and fullwidth and
/// halfwidth forms (U+FF00 to U+FFEF).
pub open spec fn cjk_glyph(ch: char) -> bool {
    ||| script_group_of(ch) != ScriptGroup::Other
    ||| ('\u{3000}' <= ch && ch <= '\u{303F}')
    ||| ('\u{FF00}' <= ch && ch <= '\u{FFEF}')
}

/// True for characters that should be rendered with the CJK font.
pub fn is_cjk(ch: char) -> (r: bool)
    ensures
        r == cjk_glyph(ch),
{
    let g = script_group(ch);
    let scripted = match g {
        ScriptGroup::Other => false,
        _ => true,
    };
    scripted || ('\u{3000}' <= ch && ch <= '\u{303F}') || ('\u{FF00}' <= ch && ch <= '\u{FFEF}')
}

// ---------------------------------------------------------------------------
// Inline tokens
// ---------------------------------------------------------------------------

/// One unit of line wrapping: a Latin word (a run of one face and style), a
/// single CJK glyph, a space, or a forced break.
pub struct InlineTok {
    pub text: String,
    pub font: MdFont,
    pub style: InlineStyle,
    pub is_space: bool,
    /// A line may break before this token.
    pub breakable_before: bool,
    /// A hard line break: the line ends here.
    pub force_break: bool,
}

/// Text, face, style, space, breakable before, forced break.
pub type TokV = (Seq<char>, MdFont, StyleV, bool, bool, bool);

impl View for InlineTok {
    type V = TokV;

    open spec fn view(&self) -> TokV {
        (self.text@, self.font, self.style@, self.is_space, self.breakable_before, self.force_break)
    }
}

/// Tokens so far, the pending Latin word with its face, style and whether a
/// line may break before it, and whether one may break before what comes next.
pub struct TokState {
    pub toks: Seq<TokV>,
    pub buf: Seq<char>,
    pub font: MdFont,
    pub style: StyleV,
    pub buf_break: bool,
    pub break_next: bool,
}

pub open spec fn start_state() -> TokState {
    TokState {
        toks: Seq::empty(),
        buf: Seq::empty(),
        font: MdFont::English,
        style: default_style(),
        buf_break: true,
        break_next: true,
    }
}

/// The state with the pending word, if any, moved to the tokens.
pub open spec fn flush(s: TokState) -> TokState {
    if s.buf.len() == 0 {
        s
    } else {
        TokState { toks: s.toks.push((s.buf, s.font, s.style, false, s.buf_break, false)), buf: Seq::empty(), ..s }
    }
}

pub open spec fn with_tok(s: TokState, t: TokV, break_next: bool) -> TokState {
    TokState { toks: s.toks.push(t), break_next, ..s }
}

pub open spec fn face_of(ch: char, st: StyleV) -> MdFont {
    if cjk_glyph(ch) {
        MdFont::Chinese
    } else if st.2 {
        MdFont::Mono
    } else {
        MdFont::English
    }
}

/// One character of a text span styled `st`.
pub open spec fn step_char(s: TokState, ch: char, st: StyleV) -> TokState {
    if is_ws(ch) {
        with_tok(flush(s), (seq![' '], MdFont::English, st, true, true, false), true)
    } else if cjk_glyph(ch) {
        with_tok(flush(s), (seq![ch], MdFont::Chinese, st, false, true, false), true)
    } else {
        let font = face_of(ch, st);
        let s1 = if s.buf.len() > 0 && (s.font != font || s.style != st) {
            flush(s)
        } else {
            s
        };
        let s2 = if s1.buf.len() == 0 {
            TokState { font, style: st, buf_break: s1.break_next, ..s1 }
        } else {
            s1
        };
        TokState { buf: s2.buf.push(ch), break_next: false, ..s2 }
    }
}

pub open spec fn step_chars(s: TokState, text: Seq<char>, st: StyleV) -> TokState
    decreases text.len(),
{
    if text.len() == 0 {
        s
    } else {
        step_char(step_chars(s, text.drop_last(), st), text.last(), st)
    }
}

pub open spec fn italic_style() -> StyleV {
    (false, true, false, false, None)
}

/// The text shown for an image inside running text: its alt text in brackets.
pub open spec fn image_text(alt: Seq<char>) -> Seq<char> {
    seq!['['] + alt + seq![']']
}

pub open spec fn step_span(s: TokState, sp: SpanV, force_bold: bool) -> TokState {
    match sp {
        SpanV::LineBreak(hard) => {
            let f = flush(s);
            if hard {
                with_tok(f, (Seq::empty(), MdFont::English, default_style(), false, true, true), true)
            } else {
                with_tok(f, (seq![' '], MdFont::English, default_style(), true, true, false), true)
            }
        },
        SpanV::Image(_, alt) => {
            let f = flush(s);
            with_tok(f, (image_text(alt), MdFont::English, italic_style(), false, f.break_next, false), false)
        },
        SpanV::Text(text, st) => {
            let st2 = if force_bold {
                (true, st.1, st.2, st.3, st.4)
            } else {
                st
            };
            step_chars(s, text, st2)
        },
    }
}

pub open spec fn step_spans(spans: Seq<SpanV>, force_bold: bool) -> TokState
    decreases spans.len(),
{
    if spans.len() == 0 {
        start_state()
    } else {
        step_span(step_spans(spans.drop_last(), force_bold), spans.last(), force_bold)
    }
}

/// The wrapping tokens of a run of inline spans.
pub open spec fn inline_tokens_of(spans: Seq<SpanV>, force_bold: bool) -> Seq<TokV> {
    flush(step_spans(spans, force_bold)).toks
}
fn copy_style(s: &InlineStyle) -> (r: InlineStyle)
    ensures
        r@ == s@,
{
    InlineStyle { bold: s.bold, italic: s.italic, code: s.code, strike: s.strike, link: clone_opt(&s.link) }
}

fn style_eq(a: &InlineStyle, b: &InlineStyle) -> (r: bool)
    ensures
        r == (a@ == b@),
{
    let links = match (&a.link, &b.link) {
        (None, None) => true,
        (Some(x), Some(y)) => str_eq(x.as_str(), y.as_str()),
        _ => false,
    };
    a.bold == b.bold && a.italic == b.italic && a.code == b.code && a.strike == b.strike && links
}

fn font_eq(a: MdFont, b: MdFont) -> (r: bool)
    ensures
        r == (a == b),
{
    match (a, b) {
        (MdFont::Chinese, MdFont::Chinese) => true,
        (MdFont::English, MdFont::English) => true,
        (MdFont::Mono, MdFont::Mono) => true,
        _ => false,
    }
}

pub open spec fn toks_v(t: Seq<InlineTok>) -> Seq<TokV> {
    t.map_values(|x: InlineTok| x@)
}

/// The exec counterpart of `TokState`.
struct Tokenizer {
    toks: Vec<InlineTok>,
    buf: Vec<char>,
    font: MdFont,
    style: InlineStyle,
    buf_break: bool,
    break_next: bool,
}

impl Tokenizer {
    spec fn state(&self) -> TokState {
        TokState {
            toks: toks_v(self.toks@),
            buf: self.buf@,
            font: self.font,
            style: self.style@,
            buf_break: self.buf_break,
            break_next: self.break_next,
        }
    }

    fn flush(&mut self)
        ensures
            final(self).state() == flush(old(self).state()),
    {
        if self.buf.len() > 0 {
            let text = string_from(self.buf.as_slice());
            let tok = InlineTok {
                text,
                font: self.font,
                style: copy_style(&self.style),
                is_space: false,
                breakable_before: self.buf_break,
                force_break: false,
            };
            self.toks.push(tok);
            self.buf = Vec::new();
            assert(toks_v(self.toks@) =~= toks_v(old(self).toks@).push(tok@));
        }
    }

    fn push_tok(&mut self, tok: InlineTok, break_next: bool)
        ensures
            final(self).state() == with_tok(old(self).state(), tok@, break_next),
    {
        self.toks.push(tok);
        self.break_next = break_next;
        assert(toks_v(self.toks@) =~= toks_v(old(self).toks@).push(tok@));
    }

    fn push_char(&mut self, ch: char, style: &InlineStyle)
        ensures
            final(self).state() == step_char(old(self).state(), ch, style@),
    {
        if is_whitespace(ch) {
            self.flush();
            let mut sp: Vec<char> = Vec::new();
            sp.push(' ');
            let tok = InlineTok {
                text: string_from(sp.as_slice()),
                font: MdFont::English,
                style: copy_style(style),
                is_space: true,
                breakable_before: true,
                force_break: false,
            };
            self.push_tok(tok, true);
            return;
        }
        let cjk = is_cjk(ch);
        let font = if cjk {
            MdFont::Chinese
        } else if style.code {
            MdFont::Mono
        } else {
            MdFont::English
        };
        if cjk {
            self.flush();
            let mut g: Vec<char> = Vec::new();
            g.push(ch);
            let tok = InlineTok {
                text: string_from(g.as_slice()),
                font,
                style: copy_style(style),
                is_space: false,
                breakable_before: true,
                force_break: false,
            };
            self.push_tok(tok, true);
        } else {
            // Extend the current Latin word if same face/style.
            if self.buf.len() > 0 && (!font_eq(self.font, font) || !style_eq(&self.style, style)) {
                self.flush();
            }
            if self.buf.len() == 0 {
                self.font = font;
                self.style = copy_style(style);
                self.buf_break = self.break_next;
            }
            self.buf.push(ch);
            self.break_next = false;
        }
    }
}

/// Splits a run of inline spans into wrapping tokens: each whitespace
/// character becomes a breakable space, each CJK glyph a token of its own
/// that a line may break before, and other characters gather into words of
/// one face and style. A hard break forces a new line, a soft break is a
/// space, and an image shows its alt text in brackets, in italics.
/// `force_bold` sets all text in bold (headings).
pub fn inline_tokens(spans: &[Span], force_bold: bool) -> (toks: Vec<InlineTok>)
    ensures
        toks_v(toks@) == inline_tokens_of(crate::markdown::spans_v(spans@), force_bold),
{
    let mut t = Tokenizer {
        toks: Vec::new(),
        buf: Vec::new(),
        font: MdFont::English,
        style: InlineStyle { bold: false, italic: false, code: false, strike: false, link: None },
        buf_break: true,
        break_next: true,
    };
    assert(toks_v(t.toks@) =~= Seq::<TokV>::empty());
    let ghost sv = crate::markdown::spans_v(spans@);
    let mut k: usize = 0;
    while k < spans.len()
        invariant
            k <= spans@.len(),
            sv == crate::markdown::spans_v(spans@),
            t.state() == step_spans(sv.take(k as int), force_bold),
        decreases spans.len() - k,
    {
        assert(sv.take(k + 1).drop_last() =~= sv.take(k as int));
        match &spans[k] {
            Span::LineBreak { hard } => {
                t.flush();
                let text = if *hard {
                    String::new()
                } else {
                    let mut sp: Vec<char> = Vec::new();
                    sp.push(' ');
                    string_from(sp.as_slice())
                };
                let tok = InlineTok {
                    text,
                    font: MdFont::English,
                    style: InlineStyle { bold: false, italic: false, code: false, strike: false, link: None },
                    is_space: !*hard,
                    breakable_before: true,
                    force_break: *hard,
                };
                proof {
                    if !*hard {
                        assert(tok.text@ =~= seq![' ']);
                    }
                }
                t.push_tok(tok, true);
            },
            Span::Image { alt, .. } => {
                // Inline image fallback inside a styled context: show alt text.
                t.flush();
                let mut cs: Vec<char> = Vec::new();
                cs.push('[');
                let a = chars_of(alt.as_str());
                let mut j: usize = 0;
                while j < a.len()
                    invariant
                        j <= a@.len(),
                        cs@ == seq!['['] + a@.take(j as int),
                    decreases a.len() - j,
                {
                    cs.push(a[j]);
                    assert(seq!['['] + a@.take(j + 1) =~= (seq!['['] + a@.take(j as int)).push(a@[j as int]));
                    j += 1;
                }
                cs.push(']');
                assert(a@.take(a@.len() as int) =~= a@);
                assert(cs@ =~= image_text(alt@));
                let tok = InlineTok {
                    text: string_from(cs.as_slice()),
                    font: MdFont::English,
                    style: InlineStyle { bold: false, italic: true, code: false, strike: false, link: None },
                    is_space: false,
                    breakable_before: t.break_next,
                    force_break: false,
                };
                t.push_tok(tok, false);
            },
            Span::Text { text, style } => {
                let mut st = copy_style(style);
                if force_bold {
                    st.bold = true;
                }
                let cs = chars_of(text.as_str());
                let ghost s0 = t.state();
                let mut j: usize = 0;
                while j < cs.len()
                    invariant
                        j <= cs@.len(),
                        t.state() == step_chars(s0, cs@.take(j as int), st@),
                    decreases cs.len() - j,
                {
                    assert(cs@.take(j + 1).drop_last() =~= cs@.take(j as int));
                    t.push_char(cs[j], &st);
                    j += 1;
                }
                assert(cs@.take(cs@.len() as int) =~= cs@);
            },
        }
        k += 1;
    }
    assert(sv.take(spans@.len() as int) =~= sv);
    t.flush();
    t.toks
}


/// A subset tag depends on the set of glyphs alone: neither their order nor
/// repeats change it.
pub proof fn subset_tag_ignores_order_and_repeats(a: Seq<char>, b: Seq<char>)
    requires
        a.to_set() == b.to_set(),
    ensures
        tag_of(glyph_order(a)) == tag_of(glyph_order(b)),
{
}

/// A subset tag is six upper-case ASCII letters, whatever the glyph set.
pub proof fn subset_tag_is_six_capitals(used: Seq<char>)
    ensures
        tag_of(used).len() == 6,
        forall|i: int| 0 <= i < 6 ==> 'A' <= #[trigger] tag_of(used)[i] && tag_of(used)[i] <= 'Z',
{
    assert forall|i: int| 0 <= i < 6 implies 'A' <= #[trigger] tag_of(used)[i] && tag_of(used)[i] <= 'Z' by {
        let h = fnv(used);
        let x = (h >> (5 * i) as u64) & 0x1Fu64;
        assert(x % 26 < 26);
        assert(tag_of(used)[i] == tag_letter(h, i));
    }
}

/// A sanitized font name is never empty and holds only ASCII letters,
/// digits, `-` and `_`.
pub proof fn sanitized_name_is_plain(raw: Seq<char>)
    ensures
        sanitized_name(raw).len() > 0,
        forall|i: int|
            0 <= i < sanitized_name(raw).len() ==> is_ascii_alnum(#[trigger] sanitized_name(raw)[i])
                || sanitized_name(raw)[i] == '-' || sanitized_name(raw)[i] == '_',
{
    lemma_name_chars(raw);
    reveal_strlit("CJKFont");
}

proof fn lemma_name_chars(raw: Seq<char>)
    ensures
        forall|i: int|
            0 <= i < name_chars(raw).len() ==> is_ascii_alnum(#[trigger] name_chars(raw)[i]) || name_chars(raw)[i]
                == '-' || name_chars(raw)[i] == '_',
    decreases raw.len(),
{
    if raw.len() > 0 {
        let p = raw.drop_last();
        lemma_name_chars(p);
        let c = raw.last();
        let tail = if is_ascii_alnum(c) || c == '-' || c == '_' {
            seq![c]
        } else if is_ws(c) {
            seq!['-']
        } else {
            Seq::empty()
        };
        assert(name_chars(raw) == name_chars(p) + tail);
        assert forall|i: int| 0 <= i < name_chars(raw).len() implies is_ascii_alnum(#[trigger] name_chars(raw)[i])
            || name_chars(raw)[i] == '-' || name_chars(raw)[i] == '_' by {
            if i < name_chars(p).len() {
                assert(name_chars(raw)[i] == name_chars(p)[i]);
            } else {
                assert(name_chars(raw)[i] == tail[i - name_chars(p).len()]);
            }
        }
    }
}

} // verus!
