//! Terebess.hu Zen biography pages (saved with SingleFile): telling real
//! pages from 403/404 placeholders, stripping site chrome, turning the body
//! into plain text, picking the main embedded image, and naming the page.

use vstd::prelude::*;
use crate::catalog::{all_digits, decimal};
use crate::kanripo::starts_with;
use crate::text::{chars_of, find_pat, find_str, index_of, is_whitespace, is_ws, last_index_of, lemma_index_of, lemma_last_index_of, matches_at, occurs_at, push_all, string_from, trim, trimmed, strs, opt_view, clone_opt};

verus! {

// ---------------------------------------------------------------------------
// Replacing a fixed string
// ---------------------------------------------------------------------------

/// `s` with each occurrence of `pat` replaced by `rep`, occurrences found
/// from the left without overlap, as `str::replace` does.
pub open spec fn str_replaced(s: Seq<char>, pat: Seq<char>, rep: Seq<char>) -> Seq<char>
    decreases s.len(),
{
    if s.len() == 0 {
        Seq::empty()
    } else if pat.len() > 0 && pat.len() <= s.len() && s.take(pat.len() as int) == pat {
        rep + str_replaced(s.skip(pat.len() as int), pat, rep)
    } else {
        seq![s[0]] + str_replaced(s.drop_first(), pat, rep)
    }
}

/// `v` with each occurrence of `pat` (which is not empty) replaced by `rep`.
pub fn replace_chars(v: &[char], pat: &[char], rep: &[char]) -> (out: Vec<char>)
    requires
        pat@.len() > 0,
    ensures
        out@ == str_replaced(v@, pat@, rep@),
{
    let mut out: Vec<char> = Vec::new();
    let mut i: usize = 0;
    proof {
        assert(v@.skip(0) =~= v@);
    }
    while i < v.len()
        invariant
            i <= v@.len(),
            pat@.len() > 0,
            out@ + str_replaced(v@.skip(i as int), pat@, rep@) == str_replaced(v@, pat@, rep@),
        decreases v@.len() - i,
    {
        let ghost t = v@.skip(i as int);
        if matches_at(v, pat, i) {
            proof {
                assert(t.take(pat@.len() as int) =~= v@.subrange(i as int, i + pat@.len()));
                assert(t.skip(pat@.len() as int) =~= v@.skip(i + pat@.len()));
            }
            let ghost before = out@;
            push_all(&mut out, rep);
            proof {
                assert(before + (rep@ + str_replaced(v@.skip(i + pat@.len()), pat@, rep@)) =~= out@
                    + str_replaced(v@.skip(i + pat@.len()), pat@, rep@));
            }
            i += pat.len();
        } else {
            proof {
                if pat@.len() <= t.len() && t.take(pat@.len() as int) == pat@ {
                    assert(t.take(pat@.len() as int) =~= v@.subrange(i as int, i + pat@.len()));
                }
                assert(t.drop_first() =~= v@.skip(i + 1));
                assert(t[0] == v@[i as int]);
            }
            let ghost before = out@;
            out.push(v[i]);
            proof {
                assert(before + (seq![v@[i as int]] + str_replaced(v@.skip(i + 1), pat@, rep@)) =~= out@
                    + str_replaced(v@.skip(i + 1), pat@, rep@));
            }
            i += 1;
        }
    }
    proof {
        assert(v@.skip(i as int) =~= Seq::<char>::empty());
        assert(out@ + Seq::<char>::empty() =~= out@);
    }
    out
}

/// `s` with the HTML entities the pages use decoded, one after the other:
/// `&nbsp;`, `&amp;`, `&lt;`, `&gt;`, `&quot;`, `&#39;`, `&apos;`.
pub open spec fn decoded_entities(s: Seq<char>) -> Seq<char> {
    let a = str_replaced(s, "&nbsp;"@, " "@);
    let b = str_replaced(a, "&amp;"@, "&"@);
    let c = str_replaced(b, "&lt;"@, "<"@);
    let d = str_replaced(c, "&gt;"@, ">"@);
    let e = str_replaced(d, "&quot;"@, "\""@);
    let f = str_replaced(e, "&#39;"@, "'"@);
    str_replaced(f, "&apos;"@, "'"@)
}

fn replace_lit(v: Vec<char>, pat: &str, rep: &str) -> (out: Vec<char>)
    requires
        pat@.len() > 0,
    ensures
        out@ == str_replaced(v@, pat@, rep@),
{
    let p = chars_of(pat);
    let r = chars_of(rep);
    replace_chars(v.as_slice(), p.as_slice(), r.as_slice())
}

/// Decodes the HTML entities of `s`.
pub fn decode_entities(s: &str) -> (out: String)
    ensures
        out@ == decoded_entities(s@),
{
    proof {
        reveal_strlit("&nbsp;");
        reveal_strlit("&amp;");
        reveal_strlit("&lt;");
        reveal_strlit("&gt;");
        reveal_strlit("&quot;");
        reveal_strlit("&#39;");
        reveal_strlit("&apos;");
    }
    let v = chars_of(s);
    let v = replace_lit(v, "&nbsp;", " ");
    let v = replace_lit(v, "&amp;", "&");
    let v = replace_lit(v, "&lt;", "<");
    let v = replace_lit(v, "&gt;", ">");
    let v = replace_lit(v, "&quot;", "\"");
    let v = replace_lit(v, "&#39;", "'");
    let v = replace_lit(v, "&apos;", "'");
    string_from(v.as_slice())
}

// ---------------------------------------------------------------------------
// Regular expressions, digests and encodings
// ---------------------------------------------------------------------------

/// What `regex::Regex::new(pat)` and then `replace_all(text, rep)` give:
/// `None` when `pat` does not compile.
pub uninterp spec fn regex_replaced(pat: Seq<char>, text: Seq<char>, rep: Seq<char>) -> Option<Seq<char>>;

/// What `regex::Regex::new(pat)` and then `captures(text)` give, taken as
/// group 1 of the first match: `None` when there is no match or `pat` does
/// not compile, `Some(None)` when the match leaves group 1 out.
pub uninterp spec fn regex_group_one(pat: Seq<char>, text: Seq<char>) -> Option<Option<Seq<char>>>;

/// What `regex::Regex::new(pat)` and then `captures_iter(text)` give, each
/// match taken as its groups 2 and 3 (`None` for a group that took no
/// part); empty when `pat` does not compile.
pub uninterp spec fn regex_group_pairs(pat: Seq<char>, text: Seq<char>) -> Seq<(Option<Seq<char>>, Option<Seq<char>>)>;

/// The text of a capture group, empty when the group took no part.
pub open spec fn group_or_empty(g: Option<Seq<char>>) -> Seq<char> {
    match g {
        Some(t) => t,
        None => Seq::empty(),
    }
}

/// The text of group 1 of the first match of `pat` in `text` (empty when
/// the group took no part); `None` when nothing matches.
pub open spec fn first_group(pat: Seq<char>, text: Seq<char>) -> Option<Seq<char>> {
    match regex_group_one(pat, text) {
        Some(g) => Some(group_or_empty(g)),
        None => None,
    }
}

/// The texts of groups 2 and 3 of each match of `pat` in `text`, in order,
/// a group that took no part read as empty.
pub open spec fn group_pairs(pat: Seq<char>, text: Seq<char>) -> Seq<(Seq<char>, Seq<char>)> {
    regex_group_pairs(pat, text).map_values(
        |p: (Option<Seq<char>>, Option<Seq<char>>)| (group_or_empty(p.0), group_or_empty(p.1)),
    )
}

/// The SHA-256 digest of `bytes`, as `sha2::Sha256::digest` computes it.
pub uninterp spec fn sha256_digest(bytes: Seq<u8>) -> Seq<u8>;

/// What `base64::engine::general_purpose::STANDARD.decode(input)` gives:
/// `None` for input that is not valid padded standard base64.
pub uninterp spec fn base64_decoded(input: Seq<u8>) -> Option<Seq<u8>>;

/// `regex::Regex::replace_all`, on the regex that `regex::Regex::new`
/// compiles from `pat`: claims only that the result is the one named by
/// `regex_replaced`, and `None` when the pattern does not compile.
#[verifier::external_body]
fn regex_replace_all(pat: &str, text: &str, rep: &str) -> (r: Option<String>)
    ensures
        opt_view(r) == regex_replaced(pat@, text@, rep@),
{
    match regex::Regex::new(pat) {
        Ok(re) => Some(re.replace_all(text, rep).into_owned()),
        Err(_) => None,
    }
}

/// `regex::Regex::captures`, on the regex compiled from `pat`, giving
/// group 1 of the first match: claims only that the result is the one
/// named by `regex_group_one`.
#[verifier::external_body]
fn regex_capture_one(pat: &str, text: &str) -> (r: Option<Option<String>>)
    ensures
        match r {
            Some(g) => regex_group_one(pat@, text@) == Some(opt_view(g)),
            None => regex_group_one(pat@, text@) is None,
        },
{
    match regex::Regex::new(pat) {
        Ok(re) => re.captures(text).map(|c| c.get(1).map(|m| m.as_str().to_string())),
        Err(_) => None,
    }
}

/// `regex::Regex::captures_iter`, on the regex compiled from `pat`, giving
/// groups 2 and 3 of each match in order: claims only that the result is
/// the one named by `regex_group_pairs`.
#[verifier::external_body]
fn regex_capture_pairs(pat: &str, text: &str) -> (r: Vec<(Option<String>, Option<String>)>)
    ensures
        r@.map_values(|p: (Option<String>, Option<String>)| (opt_view(p.0), opt_view(p.1)))
            == regex_group_pairs(pat@, text@),
{
    match regex::Regex::new(pat) {
        Ok(re) => re.captures_iter(text).map(|c| (
            c.get(2).map(|m| m.as_str().to_string()),
            c.get(3).map(|m| m.as_str().to_string()),
        )).collect(),
        Err(_) => Vec::new(),
    }
}

/// The text of a capture group, empty when the group took no part.
fn text_or_empty(g: Option<String>) -> (r: String)
    ensures
        r@ == group_or_empty(opt_view(g)),
{
    match g {
        Some(t) => t,
        None => String::new(),
    }
}

/// Group 1 of the first match of `pat` in `text`, empty when the group
/// took no part; `None` when nothing matches.
fn first_capture(pat: &str, text: &str) -> (r: Option<String>)
    ensures
        opt_view(r) == first_group(pat@, text@),
{
    match regex_capture_one(pat, text) {
        Some(g) => Some(text_or_empty(g)),
        None => None,
    }
}

/// `sha2::Sha256::digest`: claims that the result is the digest named by
/// `sha256_digest`, 32 bytes long.
#[verifier::external_body]
fn sha256(bytes: &[u8]) -> (r: Vec<u8>)
    ensures
        r@ == sha256_digest(bytes@),
        r@.len() == 32,
{
    <sha2::Sha256 as sha2::Digest>::digest(bytes).to_vec()
}

/// The lowercase hexadecimal digit for `d < 16`.
pub open spec fn hex_digit(d: int) -> char {
    if d < 10 {
        (('0' as int) + d) as char
    } else {
        (('a' as int) + d - 10) as char
    }
}

/// `bytes` in lowercase hexadecimal, two digits a byte.
pub open spec fn hex_lower(bytes: Seq<u8>) -> Seq<char>
    decreases bytes.len(),
{
    if bytes.len() == 0 {
        Seq::empty()
    } else {
        hex_lower(bytes.drop_last()) + seq![hex_digit((bytes.last() / 16) as int), hex_digit((bytes.last() % 16) as int)]
    }
}

proof fn lemma_hex_len(bytes: Seq<u8>)
    ensures
        hex_lower(bytes).len() == 2 * bytes.len(),
    decreases bytes.len(),
{
    if bytes.len() > 0 {
        lemma_hex_len(bytes.drop_last());
    }
}

/// The lowercase hexadecimal digit of `d`.
fn hex_char(d: u8) -> (c: char)
    requires
        d < 16,
    ensures
        c == hex_digit(d as int),
{
    match d {
        0 => '0',
        1 => '1',
        2 => '2',
        3 => '3',
        4 => '4',
        5 => '5',
        6 => '6',
        7 => '7',
        8 => '8',
        9 => '9',
        10 => 'a',
        11 => 'b',
        12 => 'c',
        13 => 'd',
        14 => 'e',
        _ => 'f',
    }
}

/// Each byte of `bytes` as two lowercase hexadecimal digits.
fn hex_encode(bytes: &[u8]) -> (r: String)
    ensures
        r@ == hex_lower(bytes@),
{
    let mut out: Vec<char> = Vec::new();
    let mut i: usize = 0;
    while i < bytes.len()
        invariant
            i <= bytes@.len(),
            out@ == hex_lower(bytes@.take(i as int)),
        decreases bytes@.len() - i,
    {
        let b = bytes[i];
        out.push(hex_char(b / 16));
        out.push(hex_char(b % 16));
        proof {
            assert(bytes@.take(i + 1).drop_last() =~= bytes@.take(i as int));
            assert(bytes@.take(i + 1).last() == b);
        }
        i += 1;
    }
    proof {
        assert(bytes@.take(i as int) =~= bytes@);
    }
    string_from(out.as_slice())
}

/// `base64::Engine::decode` with the standard engine: claims only that the
/// result is the one named by `base64_decoded`.
#[verifier::external_body]
fn base64_decode(input: &[u8]) -> (r: Option<Vec<u8>>)
    ensures
        match r {
            Some(v) => base64_decoded(input@) == Some(v@),
            None => base64_decoded(input@) is None,
        },
{
    base64::Engine::decode(&base64::engine::general_purpose::STANDARD, input).ok()
}

/// The first 16 hexadecimal digits of the SHA-256 digest of the UTF-8
/// bytes of `s`.
pub open spec fn short_hash_of(s: Seq<char>) -> Seq<char> {
    hex_lower(sha256_digest(vstd::utf8::encode_utf8(s))).take(16)
}

/// A short stable id for `s`: the first 16 hexadecimal digits of its
/// SHA-256 digest.
pub fn short_hash(s: &str) -> (r: String)
    ensures
        r@ == short_hash_of(s@),
{
    let d = sha256(s.as_bytes());
    let h = hex_encode(d.as_slice());
    proof {
        lemma_hex_len(d@);
    }
    let hc = chars_of(h.as_str());
    let mut out: Vec<char> = Vec::new();
    let mut i: usize = 0;
    while i < 16
        invariant
            i <= 16,
            hc@.len() == 64,
            out@ == hc@.take(i as int),
        decreases 16 - i,
    {
        out.push(hc[i]);
        proof {
            assert(hc@.take(i + 1) =~= hc@.take(i as int).push(hc@[i as int]));
        }
        i += 1;
    }
    string_from(out.as_slice())
}

// ---------------------------------------------------------------------------
// The patterns the pages are read with
// ---------------------------------------------------------------------------

pub open spec fn title_pattern() -> Seq<char> {
    r"(?is)<title[^>]*>(.*?)</title>"@
}

pub open spec fn url_pattern() -> Seq<char> {
    r"(?i)url:\s*(https?://[^\s<]+)"@
}

pub open spec fn body_pattern() -> Seq<char> {
    r"(?is)<body[^>]*>(.*?)</body>"@
}

pub open spec fn toolbar_pattern() -> Seq<char> {
    r#"(?is)<div\s+id\s*=\s*["']?toolbar["']?[^>]*>.*?</div>"#@
}

pub open spec fn script_pattern() -> Seq<char> {
    r"(?is)<script[^>]*>.*?</script>"@
}

pub open spec fn style_pattern() -> Seq<char> {
    r"(?is)<style[^>]*>.*?</style>"@
}

pub open spec fn tag_pattern() -> Seq<char> {
    r"<[^>]+>"@
}

pub open spec fn space_run_pattern() -> Seq<char> {
    r"\s+"@
}

pub open spec fn saved_at_pattern() -> Seq<char> {
    r"(?i)\s*\(\d+[_/]\d+[_/]\d+\s+\d+[：:]\d+[：:]\d+(?:\s*[AP]M)?\)\s*$"@
}

pub open spec fn image_pattern() -> Seq<char> {
    r#"(?is)<img[^>]+src\s*=\s*["']?(data:image/([a-z0-9+\-.]+);base64,([A-Za-z0-9+/=\r\n]+))["']?[^>]*>"#@
}

/// The replaced text, or `text` itself where the pattern did not compile.
pub open spec fn or_same(r: Option<Seq<char>>, text: Seq<char>) -> Seq<char> {
    match r {
        Some(t) => t,
        None => text,
    }
}

fn replace_or_keep(pat: &str, text: &str, rep: &str) -> (r: String)
    ensures
        r@ == or_same(regex_replaced(pat@, text@, rep@), text@),
{
    match regex_replace_all(pat, text, rep) {
        Some(t) => t,
        None => text.to_owned(),
    }
}

// ---------------------------------------------------------------------------
// Page text
// ---------------------------------------------------------------------------

/// The page title, trimmed.
pub fn capture_title(html: &str) -> (r: Option<String>)
    ensures
        opt_view(r) == match first_group(title_pattern(), html@) {
            Some(g) => Some(trim(g)),
            None => None,
        },
{
    match first_capture(r"(?is)<title[^>]*>(.*?)</title>", html) {
        Some(g) => {
            let cs = chars_of(g.as_str());
            let t = trimmed(cs.as_slice());
            Some(string_from(t.as_slice()))
        },
        None => None,
    }
}

/// The original URL that SingleFile kept in the page.
pub fn capture_url(html: &str) -> (r: Option<String>)
    ensures
        opt_view(r) == first_group(url_pattern(), html@),
{
    first_capture(r"(?i)url:\s*(https?://[^\s<]+)", html)
}

/// The inside of the page's `<body>`.
pub fn capture_body(html: &str) -> (r: Option<String>)
    ensures
        opt_view(r) == first_group(body_pattern(), html@),
{
    first_capture(r"(?is)<body[^>]*>(.*?)</body>", html)
}

/// `html` without the site's toolbar.
pub fn strip_toolbar(html: &str) -> (r: String)
    ensures
        r@ == or_same(regex_replaced(toolbar_pattern(), html@, ""@), html@),
{
    replace_or_keep(r#"(?is)<div\s+id\s*=\s*["']?toolbar["']?[^>]*>.*?</div>"#, html, "")
}

/// `html` without scripts and then without styles, each replaced by a space.
pub open spec fn without_scripts(html: Seq<char>) -> Seq<char> {
    let s = or_same(regex_replaced(script_pattern(), html, " "@), html);
    or_same(regex_replaced(style_pattern(), s, " "@), s)
}

/// `html` without scripts and styles.
pub fn strip_scripts_and_styles(html: &str) -> (r: String)
    ensures
        r@ == without_scripts(html@),
{
    let s = replace_or_keep(r"(?is)<script[^>]*>.*?</script>", html, " ");
    replace_or_keep(r"(?is)<style[^>]*>.*?</style>", s.as_str(), " ")
}

/// `s` with each run of whitespace made one space, trimmed.
pub open spec fn collapsed(s: Seq<char>) -> Seq<char> {
    trim(or_same(regex_replaced(space_run_pattern(), s, " "@), s))
}

/// Collapses the whitespace of `s`.
pub fn collapse_whitespace(s: &str) -> (r: String)
    ensures
        r@ == collapsed(s@),
{
    let t = replace_or_keep(r"\s+", s, " ");
    let cs = chars_of(t.as_str());
    let u = trimmed(cs.as_slice());
    string_from(u.as_slice())
}

/// The plain text of `html`: tags made spaces, entities decoded, whitespace
/// collapsed.
pub open spec fn tags_text(html: Seq<char>) -> Seq<char> {
    collapsed(decoded_entities(or_same(regex_replaced(tag_pattern(), html, " "@), html)))
}

/// The plain text of `html`.
pub fn tags_to_text(html: &str) -> (r: String)
    ensures
        r@ == tags_text(html@),
{
    let no_tags = replace_or_keep(r"<[^>]+>", html, " ");
    let decoded = decode_entities(no_tags.as_str());
    collapse_whitespace(decoded.as_str())
}

/// `c` in ASCII lower case.
pub open spec fn ascii_lower(c: char) -> char {
    if 'A' <= c && c <= 'Z' {
        ((c as int) + 32) as char
    } else {
        c
    }
}

fn to_ascii_lower(c: char) -> (r: char)
    ensures
        r == ascii_lower(c),
{
    if 'A' <= c && c <= 'Z' {
        let b = (c as u8) + 32;
        b as char
    } else {
        c
    }
}

/// `a` and `b` are equal but for the case of ASCII letters.
pub open spec fn ascii_ci_eq(a: Seq<char>, b: Seq<char>) -> bool {
    a.len() == b.len() && forall|i: int| 0 <= i < a.len() ==> ascii_lower(#[trigger] a[i]) == ascii_lower(b[i])
}

fn eq_ignore_ascii_case(a: &[char], b: &[char]) -> (r: bool)
    ensures
        r == ascii_ci_eq(a@, b@),
{
    if a.len() != b.len() {
        return false;
    }
    let mut i: usize = 0;
    while i < a.len()
        invariant
            i <= a.len() == b.len(),
            forall|j: int| 0 <= j < i ==> ascii_lower(#[trigger] a@[j]) == ascii_lower(b@[j]),
        decreases a.len() - i,
    {
        if to_ascii_lower(a[i]) != to_ascii_lower(b[i]) {
            return false;
        }
        i += 1;
    }
    true
}

/// Is `title` that of a 403 or 404 placeholder page? Its trimmed form starts
/// with "404 " or "403 ", holds "nem található" or "Tilos", or is "Page not
/// found" in any ASCII case.
pub open spec fn placeholder_title(title: Seq<char>) -> bool {
    let t = trim(title);
    ||| starts_with(t, "404 "@)
    ||| starts_with(t, "403 "@)
    ||| find_str(t, "nem található"@) is Some
    ||| find_str(t, "Tilos"@) is Some
    ||| ascii_ci_eq(t, "Page not found"@)
}

fn has_prefix(v: &[char], p: &str) -> (r: bool)
    ensures
        r == starts_with(v@, p@),
{
    let pc = chars_of(p);
    let r = matches_at(v, pc.as_slice(), 0);
    proof {
        if pc@.len() <= v@.len() {
            assert(v@.subrange(0, pc@.len() as int) =~= v@.take(pc@.len() as int));
        }
    }
    r
}

fn has_infix(v: &[char], p: &str) -> (r: bool)
    ensures
        r == (find_str(v@, p@) is Some),
{
    let pc = chars_of(p);
    find_pat(v, pc.as_slice()).is_some()
}

/// Does `title` belong to a 403 or 404 placeholder page?
pub fn is_placeholder_title(title: &str) -> (r: bool)
    ensures
        r == placeholder_title(title@),
{
    let cs = chars_of(title);
    let t = trimmed(cs.as_slice());
    let nf = chars_of("Page not found");
    has_prefix(t.as_slice(), "404 ") || has_prefix(t.as_slice(), "403 ") || has_infix(t.as_slice(), "nem található")
        || has_infix(t.as_slice(), "Tilos") || eq_ignore_ascii_case(t.as_slice(), nf.as_slice())
}

/// `raw` without the trailing time SingleFile saved the page at, trimmed.
pub open spec fn cleaned_title(raw: Seq<char>) -> Seq<char> {
    trim(or_same(regex_replaced(saved_at_pattern(), raw, ""@), raw))
}

/// The title without the time the page was saved at.
pub fn clean_title(raw: &str) -> (r: String)
    ensures
        r@ == cleaned_title(raw@),
{
    let t = replace_or_keep(
        r"(?i)\s*\(\d+[_/]\d+[_/]\d+\s+\d+[：:]\d+[：:]\d+(?:\s*[AP]M)?\)\s*$",
        raw,
        "",
    );
    let cs = chars_of(t.as_str());
    let u = trimmed(cs.as_slice());
    string_from(u.as_slice())
}

// ---------------------------------------------------------------------------
// Names
// ---------------------------------------------------------------------------

/// The work id taken from the page's URL: "terebess-" and the last path
/// segment up to its first dot; `None` for an empty URL or an empty stem.
pub open spec fn url_slug(url: Seq<char>) -> Option<Seq<char>> {
    if url.len() == 0 {
        None
    } else {
        let tail = url.skip(last_index_of(url, '/') + 1);
        let stem = tail.take(index_of(tail, '.'));
        if stem.len() == 0 {
            None
        } else {
            Some("terebess-"@ + stem)
        }
    }
}

/// The work id of the page at `url`, if the URL gives one.
pub fn slug_from_url(url: &str) -> (r: Option<String>)
    ensures
        opt_view(r) == url_slug(url@),
{
    let v = chars_of(url);
    if v.len() == 0 {
        return None;
    }
    proof {
        lemma_last_index_of(v@, '/');
    }
    let start = match crate::text::rfind_char(v.as_slice(), '/') {
        Some(i) => i + 1,
        None => 0,
    };
    let tail = crate::text::slice_of(v.as_slice(), start, v.len());
    proof {
        assert(tail@ =~= v@.skip(last_index_of(v@, '/') + 1));
        lemma_index_of(tail@, '.');
    }
    let end = match crate::text::find_char(tail.as_slice(), '.') {
        Some(j) => j,
        None => tail.len(),
    };
    let stem = crate::text::slice_of(tail.as_slice(), 0, end);
    proof {
        assert(stem@ =~= tail@.take(index_of(tail@, '.')));
    }
    if stem.len() == 0 {
        return None;
    }
    let mut out = chars_of("terebess-");
    push_all(&mut out, stem.as_slice());
    Some(string_from(out.as_slice()))
}

pub open spec fn is_ascii_alnum(c: char) -> bool {
    ('0' <= c && c <= '9') || ('a' <= c && c <= 'z') || ('A' <= c && c <= 'Z')
}

/// A character of a file-name slug: ASCII letters and digits in lower case,
/// anything else a dash.
pub open spec fn slug_char(c: char) -> char {
    if is_ascii_alnum(c) {
        ascii_lower(c)
    } else {
        '-'
    }
}

pub open spec fn slug_chars(s: Seq<char>) -> Seq<char> {
    s.map_values(|c: char| slug_char(c))
}

/// `s` without leading dashes.
pub open spec fn strip_dashes_start(s: Seq<char>) -> Seq<char>
    decreases s.len(),
{
    if s.len() > 0 && s[0] == '-' {
        strip_dashes_start(s.drop_first())
    } else {
        s
    }
}

/// `s` without trailing dashes.
pub open spec fn strip_dashes_end(s: Seq<char>) -> Seq<char>
    decreases s.len(),
{
    if s.len() > 0 && s.last() == '-' {
        strip_dashes_end(s.drop_last())
    } else {
        s
    }
}

/// The work id made from a file's stem: "terebess-" and the stem's cleaned
/// title as a slug without leading or trailing dashes, or "terebess-page"
/// when nothing is left.
pub open spec fn stem_slug(stem: Seq<char>) -> Seq<char> {
    let safe = strip_dashes_end(strip_dashes_start(slug_chars(cleaned_title(stem))));
    if safe.len() == 0 {
        "terebess-page"@
    } else {
        "terebess-"@ + safe
    }
}

/// The work id of a page saved under a file whose stem is `stem`.
pub fn slug_from_filename(stem: &str) -> (r: String)
    ensures
        r@ == stem_slug(stem@),
{
    let t = clean_title(stem);
    let cs = chars_of(t.as_str());
    let mut safe: Vec<char> = Vec::new();
    let mut i: usize = 0;
    while i < cs.len()
        invariant
            i <= cs@.len(),
            cs@ == t@,
            safe@ == slug_chars(cs@.take(i as int)),
        decreases cs.len() - i,
    {
        let c = cs[i];
        let is_alnum = ('0' <= c && c <= '9') || ('a' <= c && c <= 'z') || ('A' <= c && c <= 'Z');
        if is_alnum {
            safe.push(to_ascii_lower(c));
        } else {
            safe.push('-');
        }
        proof {
            assert(slug_chars(cs@.take(i + 1)) =~= slug_chars(cs@.take(i as int)).push(slug_char(c)));
        }
        i += 1;
    }
    proof {
        assert(cs@.take(i as int) =~= cs@);
        assert(safe@.skip(0) =~= safe@);
    }
    let mut lo: usize = 0;
    while lo < safe.len() && safe[lo] == '-'
        invariant
            lo <= safe@.len(),
            strip_dashes_start(safe@) == strip_dashes_start(safe@.skip(lo as int)),
        decreases safe.len() - lo,
    {
        proof {
            assert(safe@.skip(lo as int).drop_first() =~= safe@.skip(lo + 1));
        }
        lo += 1;
    }
    proof {
        let u = safe@.skip(lo as int);
        assert(strip_dashes_start(u) == u);
    }
    let mut hi: usize = safe.len();
    while hi > lo && safe[hi - 1] == '-'
        invariant
            lo <= hi <= safe@.len(),
            strip_dashes_end(safe@.skip(lo as int)) == strip_dashes_end(safe@.subrange(lo as int, hi as int)),
        decreases hi,
    {
        proof {
            assert(safe@.subrange(lo as int, hi as int).drop_last() =~= safe@.subrange(lo as int, hi - 1));
        }
        hi -= 1;
    }
    proof {
        if lo == 0 && hi == safe@.len() {
            assert(safe@.skip(0) =~= safe@);
        }
        assert(safe@.subrange(lo as int, lo as int) =~= Seq::<char>::empty());
        assert(safe@.subrange(lo as int, safe@.len() as int) =~= safe@.skip(lo as int));
        let w = safe@.subrange(lo as int, hi as int);
        if w.len() > 0 {
            assert(w.last() == safe@[hi - 1]);
        }
        assert(strip_dashes_end(w) == w);
    }
    let core = crate::text::slice_of(safe.as_slice(), lo, hi);
    if core.len() == 0 {
        return String::from_str("terebess-page");
    }
    let mut out = chars_of("terebess-");
    push_all(&mut out, core.as_slice());
    string_from(out.as_slice())
}

// ---------------------------------------------------------------------------
// The main image
// ---------------------------------------------------------------------------

/// `s` without whitespace.
pub open spec fn no_space(s: Seq<char>) -> Seq<char>
    decreases s.len(),
{
    if s.len() == 0 {
        Seq::empty()
    } else if is_ws(s.last()) {
        no_space(s.drop_last())
    } else {
        no_space(s.drop_last()).push(s.last())
    }
}

/// The file extension for an image of subtype `mime`.
pub open spec fn image_ext(mime: Seq<char>) -> Seq<char> {
    if mime == "jpeg"@ || mime == "jpg"@ {
        "jpg"@
    } else if mime == "png"@ {
        "png"@
    } else if mime == "webp"@ {
        "webp"@
    } else {
        mime
    }
}

/// The image an embedded data URI with subtype `p.0` and base64 text `p.1`
/// holds: `None` for SVG and GIF (toolbar icons), for base64 that does not
/// decode, and for images under 5 KiB.
pub open spec fn embedded_image(p: (Seq<char>, Seq<char>)) -> Option<(Seq<char>, Seq<u8>)> {
    let mime = p.0.map_values(|c: char| ascii_lower(c));
    if mime == "svg+xml"@ || mime == "gif"@ {
        None
    } else {
        match base64_decoded(vstd::utf8::encode_utf8(no_space(p.1))) {
            None => None,
            Some(b) => if b.len() < 5 * 1024 {
                None
            } else {
                Some((image_ext(mime), b))
            },
        }
    }
}

/// The largest of the images of `ps`, the first of equal ones.
pub open spec fn largest_image(ps: Seq<(Seq<char>, Seq<char>)>) -> Option<(Seq<char>, Seq<u8>)>
    decreases ps.len(),
{
    if ps.len() == 0 {
        None
    } else {
        let prev = largest_image(ps.drop_last());
        match embedded_image(ps.last()) {
            None => prev,
            Some(c) => match prev {
                Some(b) => if c.1.len() > b.1.len() {
                    Some(c)
                } else {
                    prev
                },
                None => Some(c),
            },
        }
    }
}

pub open spec fn image_view(o: Option<(String, Vec<u8>)>) -> Option<(Seq<char>, Seq<u8>)> {
    match o {
        Some(p) => Some((p.0@, p.1@)),
        None => None,
    }
}

fn lower_ascii_string(s: &str) -> (r: Vec<char>)
    ensures
        r@ == s@.map_values(|c: char| ascii_lower(c)),
{
    let cs = chars_of(s);
    let mut out: Vec<char> = Vec::new();
    let mut i: usize = 0;
    while i < cs.len()
        invariant
            i <= cs@.len(),
            cs@ == s@,
            out@ == cs@.take(i as int).map_values(|c: char| ascii_lower(c)),
        decreases cs.len() - i,
    {
        out.push(to_ascii_lower(cs[i]));
        proof {
            assert(cs@.take(i + 1).map_values(|c: char| ascii_lower(c)) =~= cs@.take(i as int).map_values(
                |c: char| ascii_lower(c),
            ).push(ascii_lower(cs@[i as int])));
        }
        i += 1;
    }
    proof {
        assert(cs@.take(i as int) =~= cs@);
    }
    out
}

fn strip_spaces(s: &str) -> (r: String)
    ensures
        r@ == no_space(s@),
{
    let cs = chars_of(s);
    let mut out: Vec<char> = Vec::new();
    let mut i: usize = 0;
    while i < cs.len()
        invariant
            i <= cs@.len(),
            cs@ == s@,
            out@ == no_space(cs@.take(i as int)),
        decreases cs.len() - i,
    {
        proof {
            assert(cs@.take(i + 1).drop_last() =~= cs@.take(i as int));
        }
        if !is_whitespace(cs[i]) {
            out.push(cs[i]);
        }
        i += 1;
    }
    proof {
        assert(cs@.take(i as int) =~= cs@);
    }
    string_from(out.as_slice())
}

fn lit_eq(v: &[char], s: &str) -> (r: bool)
    ensures
        r == (v@ == s@),
{
    let sc = chars_of(s);
    crate::text::chars_eq(v, sc.as_slice())
}

fn one_image(mime_raw: &str, b64: &str) -> (r: Option<(String, Vec<u8>)>)
    ensures
        image_view(r) == embedded_image((mime_raw@, b64@)),
{
    let mime = lower_ascii_string(mime_raw);
    if lit_eq(mime.as_slice(), "svg+xml") || lit_eq(mime.as_slice(), "gif") {
        return None;
    }
    let cleaned = strip_spaces(b64);
    let bytes = match base64_decode(cleaned.as_str().as_bytes()) {
        Some(b) => b,
        None => return None,
    };
    if bytes.len() < 5 * 1024 {
        return None;
    }
    let ext = if lit_eq(mime.as_slice(), "jpeg") || lit_eq(mime.as_slice(), "jpg") {
        String::from_str("jpg")
    } else if lit_eq(mime.as_slice(), "png") {
        String::from_str("png")
    } else if lit_eq(mime.as_slice(), "webp") {
        String::from_str("webp")
    } else {
        string_from(mime.as_slice())
    };
    Some((ext, bytes))
}

/// The page's main image: of the base64 data-URI images in `body_html`, the
/// largest that is not an icon, with its file extension.
pub fn pick_main_image(body_html: &str) -> (r: Option<(String, Vec<u8>)>)
    ensures
        image_view(r) == largest_image(group_pairs(image_pattern(), body_html@)),
{
    let caps = regex_capture_pairs(
        r#"(?is)<img[^>]+src\s*=\s*["']?(data:image/([a-z0-9+\-.]+);base64,([A-Za-z0-9+/=\r\n]+))["']?[^>]*>"#,
        body_html,
    );
    let ghost ps = caps@.map_values(
        |p: (Option<String>, Option<String>)| (group_or_empty(opt_view(p.0)), group_or_empty(opt_view(p.1))),
    );
    assert(ps =~= group_pairs(image_pattern(), body_html@));
    let mut best: Option<(String, Vec<u8>)> = None;
    let mut k: usize = 0;
    while k < caps.len()
        invariant
            k <= caps@.len(),
            ps == caps@.map_values(
                |p: (Option<String>, Option<String>)| (group_or_empty(opt_view(p.0)), group_or_empty(opt_view(p.1))),
            ),
            image_view(best) == largest_image(ps.take(k as int)),
        decreases caps.len() - k,
    {
        proof {
            assert(ps.take(k + 1).drop_last() =~= ps.take(k as int));
            assert(ps.take(k + 1).last() == ps[k as int]);
        }
        let mime = text_or_empty(clone_opt(&caps[k].0));
        let data = text_or_empty(clone_opt(&caps[k].1));
        match one_image(mime.as_str(), data.as_str()) {
            None => {},
            Some(c) => {
                let take = match &best {
                    Some(b) => c.1.len() > b.1.len(),
                    None => true,
                };
                if take {
                    best = Some(c);
                }
            },
        }
        k += 1;
    }
    proof {
        assert(ps.take(k as int) =~= ps);
    }
    best
}

// ---------------------------------------------------------------------------
// A page
// ---------------------------------------------------------------------------

/// The passage a biography page becomes, and its main image if it has one.
#[derive(Debug, Clone)]
pub struct TerebessRecord {
    pub source_corpus: String,
    pub source_work_id: String,
    pub source_url: String,
    pub rights_id: String,
    pub rights_notes: String,
    pub retrieval_method: String,
    pub quality_flags_json: String,
    pub passage_id: String,
    pub source_rel_path: String,
    pub heading: String,
    pub heading_path: String,
    pub zh_text_raw: String,
    pub zh_text_normalized: String,
    pub text_type: String,
    pub contains_person: bool,
    pub contains_term: bool,
    pub contains_foreign: bool,
    pub traditions: Vec<String>,
    pub author: String,
    pub main_title: String,
    pub period_rank: i32,
    pub zh: String,
    pub normalized_zh: String,
    /// Extension and bytes of the main image.
    pub image: Option<(String, Vec<u8>)>,
}

/// The page's title, trimmed; empty when it has none.
pub open spec fn page_title(raw: Seq<char>) -> Seq<char> {
    match first_group(title_pattern(), raw) {
        Some(g) => trim(g),
        None => Seq::empty(),
    }
}

/// The page's original URL; empty when it has none.
pub open spec fn page_url(raw: Seq<char>) -> Seq<char> {
    match first_group(url_pattern(), raw) {
        Some(u) => u,
        None => Seq::empty(),
    }
}

/// The page's body (the whole page when it has no `<body>`) without the
/// toolbar, scripts and styles.
pub open spec fn page_body(raw: Seq<char>) -> Seq<char> {
    let b = match first_group(body_pattern(), raw) {
        Some(x) => x,
        None => raw,
    };
    without_scripts(or_same(regex_replaced(toolbar_pattern(), b, ""@), b))
}

/// The passage id of a page: "terebess/" and the short hash of its
/// original URL, or of its file name when it kept no URL.
pub open spec fn page_passage_id(raw: Seq<char>, file_name: Seq<char>) -> Seq<char> {
    let url = page_url(raw);
    "terebess/"@ + short_hash_of(if url.len() == 0 { file_name } else { url })
}

/// A page is kept when its title is not a placeholder's and its text has
/// at least `min_body_chars` characters.
pub open spec fn page_kept(raw: Seq<char>, min_body_chars: int) -> bool {
    !placeholder_title(page_title(raw)) && tags_text(page_body(raw)).len() >= min_body_chars
}

/// The passage of the page saved as `raw` in the file `file_name` (whose
/// stem is `file_stem`), or `None` for a placeholder page or one with less
/// than `min_body_chars` characters of text. Its id hashes the page's URL,
/// or the file name when there is no URL; its work id comes from the URL,
/// or from the file's stem; its title is the page title without the time
/// it was saved at; its text is the plain text of the body.
pub fn extract_page(raw: &str, file_name: &str, file_stem: &str, min_body_chars: usize) -> (r: Option<
    TerebessRecord,
>)
    ensures
        r is Some <==> page_kept(raw@, min_body_chars as int),
        r matches Some(p) ==> {
            let text = tags_text(page_body(raw@));
            let url = page_url(raw@);
            let title = cleaned_title(page_title(raw@));
            &&& p.source_corpus@ == "terebess"@
            &&& p.source_work_id@ == match url_slug(url) {
                Some(w) => w,
                None => stem_slug(file_stem@),
            }
            &&& p.source_url@ == url
            &&& p.rights_id@ == "terebess.hu"@
            &&& p.rights_notes@ == "scraped via SingleFile; verify usage rights before redistribution"@
            &&& p.retrieval_method@ == "singlefile-html"@
            &&& p.quality_flags_json@ == "{}"@
            &&& p.passage_id@ == page_passage_id(raw@, file_name@)
            &&& p.source_rel_path@ == file_name@
            &&& p.heading@ == title
            &&& p.heading_path@ == title
            &&& p.zh_text_raw@ == text
            &&& p.zh_text_normalized@ == text
            &&& p.text_type@ == "biography"@
            &&& p.contains_person
            &&& !p.contains_term
            &&& p.contains_foreign
            &&& strs(p.traditions@) == seq!["Zen"@]
            &&& p.author@ == title
            &&& p.main_title@ == title
            &&& p.period_rank == 9999
            &&& p.zh@ == text
            &&& p.normalized_zh@ == text
            &&& image_view(p.image) == largest_image(group_pairs(image_pattern(), page_body(raw@)))
        },
{
    let title = match capture_title(raw) {
        Some(t) => t,
        None => String::new(),
    };
    if is_placeholder_title(title.as_str()) {
        return None;
    }
    let url = match capture_url(raw) {
        Some(u) => u,
        None => String::new(),
    };
    let body = match capture_body(raw) {
        Some(b) => b,
        None => raw.to_owned(),
    };
    let body = strip_toolbar(body.as_str());
    let body = strip_scripts_and_styles(body.as_str());
    let body_text = tags_to_text(body.as_str());
    let n = chars_of(body_text.as_str()).len();
    if n < min_body_chars {
        return None;
    }
    let image = pick_main_image(body.as_str());
    let key = if url.as_str().is_empty() {
        file_name.to_owned()
    } else {
        url.clone()
    };
    let mut id = chars_of("terebess/");
    let h = short_hash(key.as_str());
    let hc = chars_of(h.as_str());
    push_all(&mut id, hc.as_slice());
    let passage_id = string_from(id.as_slice());
    let work_id = match slug_from_url(url.as_str()) {
        Some(w) => w,
        None => slug_from_filename(file_stem),
    };
    let clean = clean_title(title.as_str());
    let traditions = vec![String::from_str("Zen")];
    proof {
        assert(strs(traditions@) =~= seq!["Zen"@]);
    }
    Some(TerebessRecord {
        source_corpus: String::from_str("terebess"),
        source_work_id: work_id,
        source_url: url,
        rights_id: String::from_str("terebess.hu"),
        rights_notes: String::from_str("scraped via SingleFile; verify usage rights before redistribution"),
        retrieval_method: String::from_str("singlefile-html"),
        quality_flags_json: String::from_str("{}"),
        passage_id,
        source_rel_path: file_name.to_owned(),
        heading: clean.clone(),
        heading_path: clean.clone(),
        zh_text_raw: body_text.clone(),
        zh_text_normalized: body_text.clone(),
        text_type: String::from_str("biography"),
        contains_person: true,
        contains_term: false,
        contains_foreign: true,
        traditions,
        author: clean.clone(),
        main_title: clean,
        period_rank: 9999,
        zh: body_text.clone(),
        normalized_zh: body_text,
        image,
    })
}

// ---------------------------------------------------------------------------
// Numbering the parquet parts
// ---------------------------------------------------------------------------

/// What `str::parse::<i64>` gives: an optional sign, then at least one
/// ASCII digit and nothing else, for a value that fits in an `i64`.
pub open spec fn parse_i64_spec(s: Seq<char>) -> Option<i64> {
    let neg = s.len() > 0 && s[0] == '-';
    let d = if s.len() > 0 && (s[0] == '+' || s[0] == '-') {
        s.drop_first()
    } else {
        s
    };
    if d.len() > 0 && all_digits(d) {
        if neg {
            if decimal(d) <= 0x8000_0000_0000_0000 {
                Some((-(decimal(d) as int)) as i64)
            } else {
                None
            }
        } else if decimal(d) <= i64::MAX {
            Some(decimal(d) as i64)
        } else {
            None
        }
    } else {
        None
    }
}

/// `str::parse::<i64>` on the characters of `s`.
pub fn parse_i64(s: &[char]) -> (r: Option<i64>)
    ensures
        r == parse_i64_spec(s@),
{
    let neg = s.len() > 0 && s[0] == '-';
    let start: usize = if s.len() > 0 && (s[0] == '+' || s[0] == '-') {
        1
    } else {
        0
    };
    let ghost d = s@.skip(start as int);
    proof {
        if s@.len() > 0 && (s@[0] == '+' || s@[0] == '-') {
            assert(d =~= s@.drop_first());
        } else {
            assert(d =~= s@);
        }
        assert(d.take(0) =~= Seq::<char>::empty());
    }
    if start >= s.len() {
        return None;
    }
    let limit: u64 = if neg {
        0x8000_0000_0000_0000
    } else {
        0x7fff_ffff_ffff_ffff
    };
    let mut v: u64 = 0;
    let mut i = start;
    while i < s.len()
        invariant
            start <= i <= s.len(),
            start < s.len(),
            d == s@.skip(start as int),
            d == (if s@.len() > 0 && (s@[0] == '+' || s@[0] == '-') {
                s@.drop_first()
            } else {
                s@
            }),
            neg == (s@.len() > 0 && s@[0] == '-'),
            all_digits(d.take(i - start)),
            v == decimal(d.take(i - start)),
            v <= limit,
            limit == (if neg { 0x8000_0000_0000_0000u64 } else { 0x7fff_ffff_ffff_ffffu64 }),
        decreases s.len() - i,
    {
        let c = s[i];
        if !('0' <= c && c <= '9') {
            proof {
                assert(d[i - start] == c);
            }
            return None;
        }
        proof {
            assert(d.take(i - start + 1).drop_last() =~= d.take(i - start));
            assert(d.take(i - start + 1).last() == c);
        }
        let digit = (c as u64) - ('0' as u64);
        if v > (limit - digit) / 10 {
            proof {
                if all_digits(d) {
                    lemma_decimal_grows(d, i - start + 1);
                }
                assert(decimal(d.take(i - start + 1)) == v * 10 + digit);
                assert(v * 10 + digit > limit) by (nonlinear_arith)
                    requires
                        v > (limit - digit) / 10,
                        digit <= 9,
                        digit <= limit,
                ;
            }
            return None;
        }
        proof {
            assert(v * 10 + digit <= limit) by (nonlinear_arith)
                requires
                    v <= (limit - digit) / 10,
                    digit <= 9,
                    digit <= limit,
            ;
        }
        v = v * 10 + digit;
        i += 1;
    }
    proof {
        assert(d.take(i - start) =~= d);
    }
    if neg {
        if v == 0x8000_0000_0000_0000 {
            Some(-9_223_372_036_854_775_807i64 - 1)
        } else {
            let w = v as i64;
            Some(-w)
        }
    } else {
        Some(v as i64)
    }
}

proof fn lemma_decimal_grows(d: Seq<char>, k: int)
    requires
        0 <= k <= d.len(),
        all_digits(d),
    ensures
        decimal(d.take(k)) <= decimal(d),
    decreases d.len() - k,
{
    if k < d.len() {
        lemma_decimal_grows(d, k + 1);
        assert(d.take(k + 1).drop_last() =~= d.take(k));
    } else {
        assert(d.take(k) =~= d);
    }
}

/// The number of a parquet part file named "part-<n>.<ext>", if the name
/// has that form.
pub open spec fn part_number_spec(name: Seq<char>) -> Option<i64> {
    if starts_with(name, "part-"@) {
        let rest = name.skip(5);
        parse_i64_spec(rest.take(index_of(rest, '.')))
    } else {
        None
    }
}

/// The number of the part file named `name`.
pub fn part_number(name: &str) -> (r: Option<i64>)
    ensures
        r == part_number_spec(name@),
{
    proof {
        reveal_strlit("part-");
    }
    let v = chars_of(name);
    if !has_prefix(v.as_slice(), "part-") {
        return None;
    }
    let rest = crate::text::slice_of(v.as_slice(), 5, v.len());
    proof {
        assert(rest@ =~= v@.skip(5));
        lemma_index_of(rest@, '.');
    }
    let end = match crate::text::find_char(rest.as_slice(), '.') {
        Some(j) => j,
        None => rest.len(),
    };
    let num = crate::text::slice_of(rest.as_slice(), 0, end);
    proof {
        assert(num@ =~= rest@.take(index_of(rest@, '.')));
    }
    parse_i64(num.as_slice())
}

/// The largest part number among `names`, or -1.
pub open spec fn max_part(names: Seq<Seq<char>>) -> int
    decreases names.len(),
{
    if names.len() == 0 {
        -1
    } else {
        let prev = max_part(names.drop_last());
        match part_number_spec(names.last()) {
            Some(n) => if n > prev {
                n as int
            } else {
                prev
            },
            None => prev,
        }
    }
}

proof fn lemma_max_part_range(names: Seq<Seq<char>>)
    ensures
        -1 <= max_part(names) <= i64::MAX,
    decreases names.len(),
{
    if names.len() > 0 {
        lemma_max_part_range(names.drop_last());
    }
}

/// The number for the next part file, given the names of the files in the
/// corpus directory: one more than the largest part number there, 0 when
/// there is none.
pub fn next_part_index(names: &[String]) -> (r: usize)
    requires
        max_part(strs(names@)) < i64::MAX,
        max_part(strs(names@)) + 1 <= usize::MAX,
    ensures
        r == max_part(strs(names@)) + 1,
{
    let ghost ns = strs(names@);
    let mut max_seen: i64 = -1;
    let mut i: usize = 0;
    while i < names.len()
        invariant
            i <= names@.len(),
            ns == strs(names@),
            max_seen == max_part(ns.take(i as int)),
        decreases names.len() - i,
    {
        proof {
            assert(ns.take(i + 1).drop_last() =~= ns.take(i as int));
            assert(ns.take(i + 1).last() == names@[i as int]@);
        }
        match part_number(names[i].as_str()) {
            Some(n) => {
                if n > max_seen {
                    max_seen = n;
                }
            },
            None => {},
        }
        i += 1;
    }
    proof {
        assert(ns.take(i as int) =~= ns);
        lemma_max_part_range(ns);
    }
    (max_seen + 1) as usize
}

/// Two saved pages that keep the same original URL become passages with
/// the same id, whatever files they were saved in.
pub proof fn passage_id_follows_the_url(raw1: Seq<char>, raw2: Seq<char>, file1: Seq<char>, file2: Seq<char>)
    requires
        page_url(raw1) == page_url(raw2),
        page_url(raw1).len() > 0,
    ensures
        page_passage_id(raw1, file1) == page_passage_id(raw2, file2),
{
}

} // verus!
