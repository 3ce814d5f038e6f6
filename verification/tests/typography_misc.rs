use sinorag::hocr::{create_hocr_generator, HocrGenerator};
use sinorag::typography::{
    find_hyphenation_points, is_chinese_punctuation, is_natural_break_point, normalize_punctuation,
    split_chinese_by_length, split_chinese_text, tokenize_text, tokens_to_string, word_count, TextToken,
};
use sinorag::wide::to_wide_str;

#[test]
fn punctuation_is_normalized() {
    assert_eq!(normalize_punctuation("\"a\" 'b' x... y--z"), "\u{201C}a\u{201D} \u{2018}b\u{2019} x… y—z");
    assert_eq!(normalize_punctuation(".."), "..");
    assert_eq!(normalize_punctuation("-"), "-");
}

#[test]
fn break_points() {
    assert!(is_natural_break_point('，'));
    assert!(is_natural_break_point('」'));
    assert!(!is_natural_break_point(','));
    assert!(is_chinese_punctuation('。'));
}

#[test]
fn chinese_tokens() {
    let toks = tokenize_text("天，地 玄", true);
    assert_eq!(
        toks,
        vec![
            TextToken::Word("天".to_string()),
            TextToken::Punctuation('，'),
            TextToken::Word("地".to_string()),
            TextToken::Space,
            TextToken::Word("玄".to_string()),
        ]
    );
    assert_eq!(tokens_to_string(&toks), "天，地 玄");
    assert_eq!(word_count(&toks), 3);
}

#[test]
fn hyphenation() {
    assert_eq!(find_hyphenation_points("short"), None);
    assert_eq!(find_hyphenation_points("Capitalized"), None);
    assert_eq!(find_hyphenation_points("reading"), Some(vec![3]));
    assert_eq!(find_hyphenation_points("bcdfghk"), None);
}

#[test]
fn chinese_splitting() {
    assert_eq!(split_chinese_by_length("一二三四五", 2), vec!["一二", "三四", "五"]);
    assert_eq!(split_chinese_text("天地，玄黃。宇宙"), vec!["天地，", "玄黃。", "宇宙"]);
    assert_eq!(split_chinese_text("天地"), vec!["天地"]);
    let long: String = std::iter::repeat('字').take(25).collect();
    let parts = split_chinese_text(&long);
    assert_eq!(parts.len(), 2);
    assert_eq!(parts[0].chars().count(), 20);
}

#[test]
fn hocr_ids() {
    let mut g: HocrGenerator = create_hocr_generator();
    assert_eq!(g.begin_page(), 1);
    assert_eq!(g.next_paragraph_id(), "para_1");
    assert_eq!(g.next_paragraph_id(), "para_2");
    assert_eq!(g.next_line_id(0, 3), "line_0_3");
    assert_eq!(g.next_word_id(), "word_1");
    assert_ne!(g.next_word_id(), "word_1");
}

#[test]
fn wide_strings() {
    assert_eq!(to_wide_str("ab"), vec![97, 98, 0]);
    assert_eq!(to_wide_str(""), vec![0]);
    assert_eq!(to_wide_str("𝄞"), vec![0xD834, 0xDD1E, 0]);
    assert_eq!(to_wide_str("中"), vec![0x4E2D, 0]);
}
