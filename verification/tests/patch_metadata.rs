use sinorag::translator::{parse_catalog_translator, strip_translation_verb};

#[test]
fn test_parse_translator() {
    let (a, p, r) = parse_catalog_translator("後秦 佛陀耶舍共竺佛念譯");
    assert_eq!(a.as_deref(), Some("佛陀耶舍共竺佛念"));
    assert_eq!(p.as_deref(), Some("Northern and Southern"));
    assert_eq!(r, 4);

    let (a, p, r) = parse_catalog_translator("唐 不空譯");
    assert_eq!(a.as_deref(), Some("不空"));
    assert_eq!(p.as_deref(), Some("Tang"));
    assert_eq!(r, 6);

    let (a, p, r) = parse_catalog_translator("宋 施護等譯");
    assert_eq!(a.as_deref(), Some("施護"));
    assert_eq!(p.as_deref(), Some("Song"));
    assert_eq!(r, 8);

    let (a, p, _) = parse_catalog_translator("失譯");
    assert_eq!(a.as_deref(), Some("失譯"));
    assert!(p.is_none());

    let (a, p, _) = parse_catalog_translator("");
    assert!(a.is_none());
    assert!(p.is_none());

    let (a, p, _) = parse_catalog_translator("黃謹良譯");
    assert_eq!(a.as_deref(), Some("黃謹良"));
    assert!(p.is_none());
}

#[test]
fn test_strip_verb() {
    assert_eq!(strip_translation_verb("不空譯"), "不空");
    assert_eq!(strip_translation_verb("施護等譯"), "施護");
    assert_eq!(strip_translation_verb("吉藏撰"), "吉藏");
    // "失" — '譯' is correctly stripped; parse_catalog_translator handles
    // the "失譯" anonymous-translator convention at a higher level.
    assert_eq!(strip_translation_verb("失譯"), "失");
}
