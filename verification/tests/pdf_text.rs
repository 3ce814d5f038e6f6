use sinorag::markdown::{InlineStyle, Span};
use sinorag::pdf_text::{
    chinese_pdf_font_name, english_pdf_font_name, inline_tokens, is_cjk, mono_pdf_font_name,
    sanitize_pdf_font_name, subset_tag, MdFont,
};

fn plain() -> InlineStyle {
    InlineStyle { bold: false, italic: false, code: false, strike: false, link: None }
}

#[test]
fn resource_names() {
    assert_eq!(MdFont::Chinese.resource(), "chinese");
    assert_eq!(MdFont::English.resource(), "english");
    assert_eq!(MdFont::Mono.resource(), "mono");
}

#[test]
fn subset_tag_values() {
    assert_eq!(subset_tag(&[]), "FZIECC");
    assert_eq!(subset_tag(&['A', 'B']), "KNBBAA");
    assert_eq!(subset_tag(&['a', 'b']), "KDGLUA");
    assert_eq!(subset_tag(&['中', '文']), "NDRKAF");
}

#[test]
fn subset_tag_is_six_capitals_example() {
    let t = subset_tag(&['x', 'y', 'z', '字']);
    assert_eq!(t.len(), 6);
    assert!(t.chars().all(|c| c.is_ascii_uppercase()));
}

#[test]
fn sanitize_font_names() {
    assert_eq!(sanitize_pdf_font_name("Noto Sans CJK"), "Noto-Sans-CJK");
    assert_eq!(sanitize_pdf_font_name("a.b_c-d"), "ab_c-d");
    assert_eq!(sanitize_pdf_font_name("宋体"), "CJKFont");
    assert_eq!(sanitize_pdf_font_name(""), "CJKFont");
}

#[test]
fn known_font_names() {
    assert_eq!(chinese_pdf_font_name("Source Han Serif TC"), "SourceHanSerifTC-Regular");
    assert_eq!(chinese_pdf_font_name("SimSun Bold"), "SimSun-Bold");
    assert_eq!(chinese_pdf_font_name("My Font"), "My-Font");
    assert_eq!(english_pdf_font_name("EB Garamond"), "EBGaramond-Regular");
    assert_eq!(english_pdf_font_name("DejaVu Serif"), "DejaVuSerif");
    assert_eq!(english_pdf_font_name("Other"), "Other");
    assert_eq!(mono_pdf_font_name("DejaVu Sans Mono"), "DejaVu-Sans-Mono-Mono");
}

#[test]
fn cjk_glyphs() {
    assert!(is_cjk('中'));
    assert!(is_cjk('あ'));
    assert!(is_cjk('カ'));
    assert!(is_cjk('ㄅ'));
    assert!(is_cjk('、'));
    assert!(is_cjk('！'));
    assert!(!is_cjk('a'));
    assert!(!is_cjk('é'));
    assert!(!is_cjk(' '));
}

#[test]
fn tokens_of_mixed_text() {
    let spans = vec![Span::Text { text: "ab 中c".to_string(), style: plain() }];
    let toks = inline_tokens(&spans, false);
    let texts: Vec<&str> = toks.iter().map(|t| t.text.as_str()).collect();
    assert_eq!(texts, vec!["ab", " ", "中", "c"]);
    assert!(toks[0].breakable_before);
    assert!(toks[1].is_space);
    assert_eq!(toks[2].font, MdFont::Chinese);
    assert!(toks[2].breakable_before);
    assert!(toks[3].breakable_before);
    assert_eq!(toks[3].font, MdFont::English);
}

#[test]
fn tokens_split_words_on_style_change() {
    let mut bold = plain();
    bold.bold = true;
    let mut code = plain();
    code.code = true;
    let spans = vec![
        Span::Text { text: "ab".to_string(), style: plain() },
        Span::Text { text: "cd".to_string(), style: bold },
        Span::Text { text: "x".to_string(), style: code },
    ];
    let toks = inline_tokens(&spans, false);
    let texts: Vec<&str> = toks.iter().map(|t| t.text.as_str()).collect();
    assert_eq!(texts, vec!["ab", "cd", "x"]);
    assert!(toks[0].breakable_before);
    assert!(!toks[1].breakable_before);
    assert_eq!(toks[2].font, MdFont::Mono);
}

#[test]
fn tokens_breaks_and_images() {
    let spans = vec![
        Span::Text { text: "a".to_string(), style: plain() },
        Span::LineBreak { hard: true },
        Span::LineBreak { hard: false },
        Span::Image { url: "u.png".to_string(), alt: "pic".to_string() },
    ];
    let toks = inline_tokens(&spans, true);
    assert_eq!(toks.len(), 4);
    assert_eq!(toks[0].text, "a");
    assert!(toks[0].style.bold);
    assert!(toks[1].force_break);
    assert_eq!(toks[1].text, "");
    assert!(toks[2].is_space);
    assert_eq!(toks[3].text, "[pic]");
    assert!(toks[3].style.italic);
    assert!(toks[3].breakable_before);
}

#[test]
fn subset_tag_ignores_order_and_repeats_example() {
    assert_eq!(subset_tag(&['文', '中', '文']), subset_tag(&['中', '文']));
    assert_eq!(subset_tag(&['B', 'A', 'B', 'A']), "KNBBAA");
}
