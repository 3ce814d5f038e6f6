//! Text tokens and character-level rules of the typesetting engine:
//! punctuation normalization, tokenization, break and hyphenation points,
//! and the splitting of Chinese text. (Glyph metrics and line widths stay
//! with the layout code, which works in floating point.)

use vstd::prelude::*;
use crate::text::{slice_of, chars_of, is_ws, is_whitespace, push_all, string_from, strs};

verus! {

/// Text justification options
#[derive(Clone, Copy, PartialEq, Eq, Structural, Debug)]
pub enum Justification {
    Left,
    Justify,
}

/// Text tokens for paragraph composition.
#[derive(Debug, Clone, PartialEq)]
pub enum TextToken {
    Word(String),
    Space,
    Punctuation(char),
    DiscretionaryHyphen,
}

/// A token as the characters it stands for.
pub enum TokenView {
    Word(Seq<char>),
    Space,
    Punctuation(char),
    DiscretionaryHyphen,
}

impl View for TextToken {
    type V = TokenView;

    open spec fn view(&self) -> TokenView {
        match self {
            TextToken::Word(w) => TokenView::Word(w@),
            TextToken::Space => TokenView::Space,
            TextToken::Punctuation(c) => TokenView::Punctuation(*c),
            TextToken::DiscretionaryHyphen => TokenView::DiscretionaryHyphen,
        }
    }
}

pub open spec fn token_views(ts: Seq<TextToken>) -> Seq<TokenView> {
    ts.map_values(|t: TextToken| t@)
}

// ---------------------------------------------------------------------------
// Punctuation
// ---------------------------------------------------------------------------

/// Chinese punctuation at which a line may naturally break.
pub open spec fn is_break_char(c: char) -> bool {
    c == '，' || c == '。' || c == '；' || c == '：' || c == '？' || c == '！' || c == '「' || c == '」'
        || c == '『' || c == '』' || c == '（' || c == '）'
}

/// Check if character is a natural breaking point in Chinese.
pub fn is_natural_break_point(c: char) -> (r: bool)
    ensures
        r == is_break_char(c),
{
    c == '，' || c == '。' || c == '；' || c == '：' || c == '？' || c == '！' || c == '「' || c == '」'
        || c == '『' || c == '』' || c == '（' || c == '）'
}

/// Helper to identify Chinese punctuation for tokenization.
pub fn is_chinese_punctuation(c: char) -> (r: bool)
    ensures
        r == is_break_char(c),
{
    is_natural_break_point(c)
}

/// ASCII punctuation, as `char::is_ascii_punctuation` gives it.
pub open spec fn is_ascii_punct(c: char) -> bool {
    ('!' <= c && c <= '/') || (':' <= c && c <= '@') || ('[' <= c && c <= '`') || ('{' <= c && c
        <= '~')
}

fn ascii_punct(c: char) -> (r: bool)
    ensures
        r == is_ascii_punct(c),
{
    ('!' <= c && c <= '/') || (':' <= c && c <= '@') || ('[' <= c && c <= '`') || ('{' <= c && c
        <= '~')
}

/// Smart punctuation from position `i` of `cs` on: straight quotes become
/// opening quotes at the start or after whitespace and closing quotes
/// elsewhere, `...` becomes an ellipsis and `--` an em dash.
pub open spec fn norm_from(cs: Seq<char>, i: int) -> Seq<char>
    decreases cs.len() - i,
{
    if i < 0 || i >= cs.len() {
        Seq::empty()
    } else {
        let ch = cs[i];
        let opening = i == 0 || is_ws(cs[i - 1]);
        if ch == '"' {
            seq![if opening { '\u{201C}' } else { '\u{201D}' }] + norm_from(cs, i + 1)
        } else if ch == '\'' {
            seq![if opening { '\u{2018}' } else { '\u{2019}' }] + norm_from(cs, i + 1)
        } else if ch == '.' && i + 2 < cs.len() && cs[i + 1] == '.' && cs[i + 2] == '.' {
            seq!['…'] + norm_from(cs, i + 3)
        } else if ch == '-' && i + 1 < cs.len() && cs[i + 1] == '-' {
            seq!['—'] + norm_from(cs, i + 2)
        } else {
            seq![ch] + norm_from(cs, i + 1)
        }
    }
}

/// Smart punctuation normalization.
pub fn normalize_punctuation(text: &str) -> (r: String)
    ensures
        r@ == norm_from(text@, 0),
{
    let cs = chars_of(text);
    let mut out: Vec<char> = Vec::new();
    let mut i: usize = 0;
    while i < cs.len()
        invariant
            i <= cs.len(),
            out@ + norm_from(cs@, i as int) == norm_from(cs@, 0),
        decreases cs.len() - i,
    {
        let ch = cs[i];
        let opening = i == 0 || is_whitespace(cs[i - 1]);
        let ghost before = out@;
        if ch == '"' {
            out.push(if opening { '\u{201C}' } else { '\u{201D}' });
            i += 1;
        } else if ch == '\'' {
            out.push(if opening { '\u{2018}' } else { '\u{2019}' });
            i += 1;
        } else if ch == '.' && cs.len() - i > 2 && cs[i + 1] == '.' && cs[i + 2] == '.' {
            out.push('…');
            i += 3;
        } else if ch == '-' && i + 1 < cs.len() && cs[i + 1] == '-' {
            out.push('—');
            i += 2;
        } else {
            out.push(ch);
            i += 1;
        }
    }
    string_from(out.as_slice())
}


// ---------------------------------------------------------------------------
// Tokens
// ---------------------------------------------------------------------------

/// `ts`, then the pending word `w` when there is one.
pub open spec fn flush(ts: Seq<TokenView>, w: Seq<char>) -> Seq<TokenView> {
    if w.len() > 0 {
        ts.push(TokenView::Word(w))
    } else {
        ts
    }
}

/// One character of tokenization. Chinese text makes each character a
/// token of its own. English text gathers characters into words, which end
/// at whitespace (a space token), a soft hyphen (a hyphenation point) and
/// ASCII punctuation other than `'` and `-` (a punctuation token).
pub open spec fn tok_step(st: (Seq<TokenView>, Seq<char>), ch: char, is_chinese: bool) -> (
    Seq<TokenView>,
    Seq<char>,
) {
    let ts = st.0;
    let w = st.1;
    if is_chinese {
        let t2 = flush(ts, w);
        (
            if is_break_char(ch) {
                t2.push(TokenView::Punctuation(ch))
            } else if is_ws(ch) {
                t2.push(TokenView::Space)
            } else {
                t2.push(TokenView::Word(seq![ch]))
            },
            Seq::empty(),
        )
    } else if is_ws(ch) {
        (flush(ts, w).push(TokenView::Space), Seq::empty())
    } else if ch == '\u{AD}' {
        (flush(ts, w).push(TokenView::DiscretionaryHyphen), Seq::empty())
    } else if is_ascii_punct(ch) && ch != '\'' && ch != '-' {
        (flush(ts, w).push(TokenView::Punctuation(ch)), Seq::empty())
    } else {
        (ts, w.push(ch))
    }
}

pub open spec fn tok_fold(cs: Seq<char>, is_chinese: bool) -> (Seq<TokenView>, Seq<char>)
    decreases cs.len(),
{
    if cs.len() == 0 {
        (Seq::empty(), Seq::empty())
    } else {
        tok_step(tok_fold(cs.drop_last(), is_chinese), cs.last(), is_chinese)
    }
}

/// The tokens of `cs`.
pub open spec fn tokens_of(cs: Seq<char>, is_chinese: bool) -> Seq<TokenView> {
    flush(tok_fold(cs, is_chinese).0, tok_fold(cs, is_chinese).1)
}

fn flush_word(tokens: &mut Vec<TextToken>, word: &mut Vec<char>)
    ensures
        token_views(final(tokens)@) == flush(token_views(old(tokens)@), old(word)@),
        final(word)@ == Seq::<char>::empty(),
{
    if word.len() > 0 {
        let w = string_from(word.as_slice());
        tokens.push(TextToken::Word(w));
        assert(token_views(tokens@) =~= token_views(old(tokens)@).push(TokenView::Word(old(word)@)));
        *word = Vec::new();
    }
}

fn push_token(tokens: &mut Vec<TextToken>, t: TextToken)
    ensures
        token_views(final(tokens)@) == token_views(old(tokens)@).push(t@),
{
    tokens.push(t);
    assert(token_views(tokens@) =~= token_views(old(tokens)@).push(t@));
}

/// Tokenize text into words, spaces, punctuation and hyphenation points.
pub fn tokenize_text(text: &str, is_chinese: bool) -> (r: Vec<TextToken>)
    ensures
        token_views(r@) == tokens_of(text@, is_chinese),
{
    let cs = chars_of(text);
    let mut tokens: Vec<TextToken> = Vec::new();
    let mut word: Vec<char> = Vec::new();
    let mut i: usize = 0;
    while i < cs.len()
        invariant
            i <= cs.len(),
            (token_views(tokens@), word@) == tok_fold(cs@.take(i as int), is_chinese),
        decreases cs.len() - i,
    {
        let ch = cs[i];
        proof {
            assert(cs@.take(i + 1).drop_last() =~= cs@.take(i as int));
            assert(cs@.take(i + 1).last() == ch);
        }
        if is_chinese {
            flush_word(&mut tokens, &mut word);
            if is_chinese_punctuation(ch) {
                push_token(&mut tokens, TextToken::Punctuation(ch));
            } else if is_whitespace(ch) {
                push_token(&mut tokens, TextToken::Space);
            } else {
                let mut one: Vec<char> = Vec::new();
                one.push(ch);
                let w = string_from(one.as_slice());
                push_token(&mut tokens, TextToken::Word(w));
                assert(one@ =~= seq![ch]);
            }
        } else if is_whitespace(ch) {
            flush_word(&mut tokens, &mut word);
            push_token(&mut tokens, TextToken::Space);
        } else if ch == '\u{AD}' {
            flush_word(&mut tokens, &mut word);
            push_token(&mut tokens, TextToken::DiscretionaryHyphen);
        } else if ascii_punct(ch) && ch != '\'' && ch != '-' {
            flush_word(&mut tokens, &mut word);
            push_token(&mut tokens, TextToken::Punctuation(ch));
        } else {
            word.push(ch);
        }
        i += 1;
    }
    assert(cs@.take(i as int) =~= cs@);
    flush_word(&mut tokens, &mut word);
    tokens
}

/// The text that tokens stand for: words as written, a space for a space,
/// punctuation as itself and `-` for a hyphenation point.
pub open spec fn tokens_text(ts: Seq<TokenView>) -> Seq<char>
    decreases ts.len(),
{
    if ts.len() == 0 {
        Seq::empty()
    } else {
        tokens_text(ts.drop_last()) + match ts.last() {
            TokenView::Word(w) => w,
            TokenView::Space => seq![' '],
            TokenView::Punctuation(c) => seq![c],
            TokenView::DiscretionaryHyphen => seq!['-'],
        }
    }
}

/// Convert tokens back to string.
pub fn tokens_to_string(tokens: &[TextToken]) -> (r: String)
    ensures
        r@ == tokens_text(token_views(tokens@)),
{
    let mut out: Vec<char> = Vec::new();
    let mut i: usize = 0;
    while i < tokens.len()
        invariant
            i <= tokens.len(),
            out@ == tokens_text(token_views(tokens@).take(i as int)),
        decreases tokens.len() - i,
    {
        proof {
            assert(token_views(tokens@).take(i + 1).drop_last() =~= token_views(tokens@).take(i as int));
        }
        match &tokens[i] {
            TextToken::Word(w) => {
                let v = chars_of(w.as_str());
                push_all(&mut out, v.as_slice());
            },
            TextToken::Space => out.push(' '),
            TextToken::Punctuation(c) => out.push(*c),
            TextToken::DiscretionaryHyphen => out.push('-'),
        }
        i += 1;
    }
    assert(token_views(tokens@).take(i as int) =~= token_views(tokens@));
    string_from(out.as_slice())
}

/// How many word tokens there are.
pub open spec fn word_tokens(ts: Seq<TokenView>) -> nat
    decreases ts.len(),
{
    if ts.len() == 0 {
        0
    } else {
        word_tokens(ts.drop_last()) + if ts.last() is Word {
            1nat
        } else {
            0nat
        }
    }
}

/// Count word tokens on a line.
pub fn word_count(tokens: &[TextToken]) -> (r: usize)
    ensures
        r == word_tokens(token_views(tokens@)),
{
    let mut n: usize = 0;
    let mut i: usize = 0;
    while i < tokens.len()
        invariant
            i <= tokens.len(),
            n == word_tokens(token_views(tokens@).take(i as int)),
            n <= i,
        decreases tokens.len() - i,
    {
        proof {
            assert(token_views(tokens@).take(i + 1).drop_last() =~= token_views(tokens@).take(i as int));
        }
        if let TextToken::Word(_) = &tokens[i] {
            n = n + 1;
        }
        i += 1;
    }
    assert(token_views(tokens@).take(i as int) =~= token_views(tokens@));
    n
}

/// Does the last token that is not a space end the line with a hyphen
/// (a `-` or a hyphenation point)?
pub open spec fn ends_hyphenated(ts: Seq<TokenView>) -> bool
    decreases ts.len(),
{
    if ts.len() == 0 {
        false
    } else if ts.last() is Space {
        ends_hyphenated(ts.drop_last())
    } else {
        ts.last() == TokenView::Punctuation('-') || ts.last() is DiscretionaryHyphen
    }
}

/// Return true if the last visible token is a hyphen.
pub fn ends_with_hyphen(tokens: &[TextToken]) -> (r: bool)
    ensures
        r == ends_hyphenated(token_views(tokens@)),
{
    let mut i: usize = tokens.len();
    assert(token_views(tokens@).take(i as int) =~= token_views(tokens@));
    while i > 0
        invariant
            i <= tokens.len(),
            ends_hyphenated(token_views(tokens@)) == ends_hyphenated(token_views(tokens@).take(i as int)),
        decreases i,
    {
        proof {
            assert(token_views(tokens@).take(i as int).drop_last() =~= token_views(tokens@).take(i - 1));
        }
        match &tokens[i - 1] {
            TextToken::Space => {},
            TextToken::Punctuation(c) => {
                return *c == '-';
            },
            TextToken::DiscretionaryHyphen => {
                return true;
            },
            TextToken::Word(_) => {
                return false;
            },
        }
        i -= 1;
    }
    false
}


// ---------------------------------------------------------------------------
// Break points
// ---------------------------------------------------------------------------

/// `char::is_uppercase`: the Unicode `Uppercase` property of `c`.
pub uninterp spec fn uppercase(c: char) -> bool;

/// `char::is_uppercase`. Claims only that the answer is the named property
/// of the character; the property's table is not written out here.
#[verifier::external_body]
fn is_uppercase(c: char) -> (r: bool)
    ensures
        r == uppercase(c),
{
    c.is_uppercase()
}

pub open spec fn is_vowel(c: char) -> bool {
    c == 'a' || c == 'e' || c == 'i' || c == 'o' || c == 'u' || c == 'y'
}

/// The positions `i` in `[3, k)` with a vowel just before them, ascending.
pub open spec fn vowel_points(w: Seq<char>, k: int) -> Seq<int>
    decreases k,
{
    if k <= 3 {
        Seq::empty()
    } else {
        vowel_points(w, k - 1) + if is_vowel(w[k - 2]) {
            seq![k - 1]
        } else {
            Seq::empty()
        }
    }
}

/// Hyphenation points of a word: none for words shorter than 6 characters
/// or starting with a capital; otherwise the positions after a vowel that
/// leave at least 3 letters on each side.
pub open spec fn hyphenation(w: Seq<char>) -> Option<Seq<int>> {
    if w.len() < 6 || uppercase(w[0]) || vowel_points(w, w.len() - 3).len() == 0 {
        None
    } else {
        Some(vowel_points(w, w.len() - 3))
    }
}

pub open spec fn ints(v: Seq<usize>) -> Seq<int> {
    v.map_values(|x: usize| x as int)
}

/// Simple hyphenation point detection.
pub fn find_hyphenation_points(word: &str) -> (r: Option<Vec<usize>>)
    ensures
        r matches Some(p) ==> hyphenation(word@) == Some(ints(p@)),
        r is None ==> hyphenation(word@) is None,
{
    let cs = chars_of(word);
    if cs.len() < 6 {
        return None;
    }
    if is_uppercase(cs[0]) {
        return None;
    }
    let end = cs.len() - 3;
    let mut points: Vec<usize> = Vec::new();
    let mut i: usize = 3;
    while i < end
        invariant
            3 <= i <= end,
            end == cs@.len() - 3,
            ints(points@) == vowel_points(cs@, i as int),
        decreases end - i,
    {
        let c = cs[i - 1];
        if c == 'a' || c == 'e' || c == 'i' || c == 'o' || c == 'u' || c == 'y' {
            points.push(i);
        }
        assert(ints(points@) =~= vowel_points(cs@, i + 1));
        i += 1;
    }
    if points.len() == 0 {
        None
    } else {
        Some(points)
    }
}

/// The break points that one token at position `i` offers: after a space,
/// a comma, a semicolon or a hyphenation point, and inside an English word
/// at its hyphenation points.
pub open spec fn token_breaks(t: TokenView, i: int, is_chinese: bool) -> Seq<int> {
    match t {
        TokenView::Space => seq![i + 1],
        TokenView::DiscretionaryHyphen => seq![i + 1],
        TokenView::Punctuation(c) => if c == ',' || c == ';' {
            seq![i + 1]
        } else {
            Seq::empty()
        },
        TokenView::Word(w) => if !is_chinese && hyphenation(w) is Some {
            hyphenation(w)->0.map_values(|p: int| i + p)
        } else {
            Seq::empty()
        },
    }
}

pub open spec fn breaks_upto(ts: Seq<TokenView>, is_chinese: bool, k: int) -> Seq<int>
    decreases k,
{
    if k <= 0 {
        Seq::empty()
    } else {
        breaks_upto(ts, is_chinese, k - 1) + token_breaks(ts[k - 1], k - 1, is_chinese)
    }
}

/// All break points of a token line, then its end.
pub open spec fn breakpoints(ts: Seq<TokenView>, is_chinese: bool) -> Seq<int> {
    breaks_upto(ts, is_chinese, ts.len() as int).push(ts.len() as int)
}

/// Positions after which a line may break.
pub fn find_breakpoints(tokens: &[TextToken], is_chinese: bool) -> (r: Vec<usize>)
    requires
        forall|j: int|
            0 <= j < tokens@.len() ==> (#[trigger] tokens@[j] matches TextToken::Word(w) ==> tokens@.len()
                + w@.len() <= usize::MAX),
    ensures
        ints(r@) == breakpoints(token_views(tokens@), is_chinese),
{
    let ghost tv = token_views(tokens@);
    let mut out: Vec<usize> = Vec::new();
    let mut i: usize = 0;
    while i < tokens.len()
        invariant
            i <= tokens.len(),
            tv == token_views(tokens@),
            ints(out@) == breaks_upto(tv, is_chinese, i as int),
            forall|j: int|
                0 <= j < tokens@.len() ==> (#[trigger] tokens@[j] matches TextToken::Word(w)
                    ==> tokens@.len() + w@.len() <= usize::MAX),
        decreases tokens.len() - i,
    {
        let ghost before = ints(out@);
        match &tokens[i] {
            TextToken::Space => {
                out.push(i + 1);
            },
            TextToken::DiscretionaryHyphen => {
                out.push(i + 1);
            },
            TextToken::Punctuation(c) => {
                if *c == ',' || *c == ';' {
                    out.push(i + 1);
                }
            },
            TextToken::Word(w) => {
                if !is_chinese {
                    if let Some(points) = find_hyphenation_points(w.as_str()) {
                        let mut k: usize = 0;
                        while k < points.len()
                            invariant
                                k <= points.len(),
                                ints(points@) == hyphenation(w@)->0,
                                hyphenation(w@) is Some,
                                i < tokens@.len(),
                                tokens@.len() + w@.len() <= usize::MAX,
                                ints(out@) == before + ints(points@).take(k as int).map_values(|p: int| i + p),
                            decreases points.len() - k,
                        {
                            proof {
                                lemma_points_below(w@);
                                assert(ints(points@)[k as int] == points@[k as int]);
                            }
                            let ghost mid = ints(out@);
                            let v = i + points[k];
                            out.push(v);
                            assert(ints(out@) =~= mid.push(v as int));
                            assert(ints(points@).take(k + 1).map_values(|p: int| i + p) =~= ints(points@).take(
                                k as int,
                            ).map_values(|p: int| i + p).push(i + ints(points@)[k as int]));
                            assert(ints(out@) =~= before + ints(points@).take(k + 1).map_values(|p: int| i + p));
                            k += 1;
                        }
                        assert(ints(points@).take(k as int) =~= ints(points@));
                    }
                }
            },
        }
        assert(ints(out@) =~= breaks_upto(tv, is_chinese, i + 1));
        i += 1;
    }
    out.push(tokens.len());
    assert(ints(out@) =~= breakpoints(tv, is_chinese));
    out
}

proof fn lemma_points_below(w: Seq<char>)
    requires
        hyphenation(w) is Some,
    ensures
        forall|j: int| 0 <= j < hyphenation(w)->0.len() ==> 0 <= #[trigger] hyphenation(w)->0[j] < w.len(),
{
    lemma_vowel_points_range(w, w.len() - 3);
}

proof fn lemma_vowel_points_range(w: Seq<char>, k: int)
    ensures
        forall|j: int| 0 <= j < vowel_points(w, k).len() ==> 3 <= #[trigger] vowel_points(w, k)[j] < k,
    decreases k,
{
    if k > 3 {
        lemma_vowel_points_range(w, k - 1);
        let a = vowel_points(w, k - 1);
        assert forall|j: int| 0 <= j < vowel_points(w, k).len() implies 3 <= #[trigger] vowel_points(w, k)[j] < k by {
            if j < a.len() {
                assert(vowel_points(w, k)[j] == a[j]);
            }
        }
    }
}


// ---------------------------------------------------------------------------
// Splitting Chinese text
// ---------------------------------------------------------------------------

/// `cs` in pieces of `m` characters (the last one possibly shorter).
pub open spec fn chunks(cs: Seq<char>, m: nat) -> Seq<Seq<char>>
    recommends
        m > 0,
    decreases cs.len(),
{
    if cs.len() == 0 || m == 0 {
        Seq::empty()
    } else if cs.len() <= m {
        seq![cs]
    } else {
        seq![cs.take(m as int)] + chunks(cs.skip(m as int), m)
    }
}

/// Split Chinese text by character count for readability.
pub fn split_chinese_by_length(text: &str, max_length: usize) -> (r: Vec<String>)
    requires
        max_length > 0,
    ensures
        strs(r@) == chunks(text@, max_length as nat),
{
    let cs = chars_of(text);
    let mut out: Vec<String> = Vec::new();
    let mut i: usize = 0;
    assert(cs@.skip(0) =~= cs@);
    assert(strs(out@) =~= Seq::<Seq<char>>::empty());
    while i < cs.len()
        invariant
            i <= cs.len(),
            max_length > 0,
            strs(out@) + chunks(cs@.skip(i as int), max_length as nat) == chunks(cs@, max_length as nat),
        decreases cs.len() - i,
    {
        let end = if cs.len() - i <= max_length { cs.len() } else { i + max_length };
        let piece = string_from(slice_of(cs.as_slice(), i, end).as_slice());
        let ghost before = strs(out@);
        out.push(piece);
        proof {
            let rest = cs@.skip(i as int);
            assert(strs(out@) =~= before.push(cs@.subrange(i as int, end as int)));
            if cs.len() - i <= max_length {
                assert(rest =~= cs@.subrange(i as int, end as int));
                assert(cs@.skip(end as int) =~= Seq::<char>::empty());
                assert(chunks(rest, max_length as nat) =~= seq![rest]);
            } else {
                assert(rest.take(max_length as int) =~= cs@.subrange(i as int, end as int));
                assert(rest.skip(max_length as int) =~= cs@.skip(end as int));
            }
            assert(strs(out@) + chunks(cs@.skip(end as int), max_length as nat) =~= before + chunks(
                rest,
                max_length as nat,
            ));
        }
        i = end;
    }
    assert(cs@.skip(i as int) =~= Seq::<char>::empty());
    assert(strs(out@) =~= chunks(cs@, max_length as nat));
    out
}

/// Segments of text ending at natural break characters (each segment keeps
/// its break character), as `(segments, pending segment)`.
pub open spec fn seg_fold(cs: Seq<char>) -> (Seq<Seq<char>>, Seq<char>)
    decreases cs.len(),
{
    if cs.len() == 0 {
        (Seq::empty(), Seq::empty())
    } else {
        let st = seg_fold(cs.drop_last());
        let cur = st.1.push(cs.last());
        if is_break_char(cs.last()) {
            (st.0.push(cur), Seq::empty())
        } else {
            (st.0, cur)
        }
    }
}

/// Chinese text split after each natural break; text that this leaves in
/// one piece (or none) is split into pieces of 20 characters instead.
pub open spec fn chinese_segments(cs: Seq<char>) -> Seq<Seq<char>> {
    let st = seg_fold(cs);
    let segs = if st.1.len() > 0 {
        st.0.push(st.1)
    } else {
        st.0
    };
    if segs.len() <= 1 {
        chunks(cs, 20)
    } else {
        segs
    }
}

/// Split Chinese text with natural breaking points.
pub fn split_chinese_text(text: &str) -> (r: Vec<String>)
    ensures
        strs(r@) == chinese_segments(text@),
{
    let cs = chars_of(text);
    let mut segs: Vec<String> = Vec::new();
    let mut cur: Vec<char> = Vec::new();
    let mut i: usize = 0;
    while i < cs.len()
        invariant
            i <= cs.len(),
            (strs(segs@), cur@) == seg_fold(cs@.take(i as int)),
        decreases cs.len() - i,
    {
        let ch = cs[i];
        proof {
            assert(cs@.take(i + 1).drop_last() =~= cs@.take(i as int));
        }
        cur.push(ch);
        if is_natural_break_point(ch) {
            let s = string_from(cur.as_slice());
            let ghost before = strs(segs@);
            segs.push(s);
            assert(strs(segs@) =~= before.push(cur@));
            cur = Vec::new();
        }
        i += 1;
    }
    assert(cs@.take(i as int) =~= cs@);
    if cur.len() > 0 {
        let s = string_from(cur.as_slice());
        let ghost before = strs(segs@);
        segs.push(s);
        assert(strs(segs@) =~= before.push(cur@));
    }
    if segs.len() <= 1 {
        split_chinese_by_length(text, 20)
    } else {
        segs
    }
}


/// After normalization no straight quote is left: every `"` and `'` has
/// become a curly one.
pub proof fn normalized_has_no_straight_quotes(cs: Seq<char>, i: int)
    ensures
        !norm_from(cs, i).contains('"'),
        !norm_from(cs, i).contains('\''),
    decreases cs.len() - i,
{
    if 0 <= i < cs.len() {
        let ch = cs[i];
        let next = if ch == '.' && i + 2 < cs.len() && cs[i + 1] == '.' && cs[i + 2] == '.' {
            i + 3
        } else if ch == '-' && i + 1 < cs.len() && cs[i + 1] == '-' {
            i + 2
        } else {
            i + 1
        };
        normalized_has_no_straight_quotes(cs, next);
        let r = norm_from(cs, i);
        let rest = norm_from(cs, next);
        assert(r.len() == rest.len() + 1);
        assert forall|j: int| 0 <= j < r.len() implies r[j] != '"' && r[j] != '\'' by {
            if j > 0 {
                assert(r[j] == rest[j - 1]);
            }
        }
    }
}

} // verus!
