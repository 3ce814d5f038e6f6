use sinorag::terebess::{
    capture_title, clean_title, collapse_whitespace, decode_entities, extract_page,
    is_placeholder_title, next_part_index, part_number, pick_main_image, short_hash,
    slug_from_filename, slug_from_url, strip_scripts_and_styles, strip_toolbar, tags_to_text,
};

fn png_data_uri(n: usize) -> (Vec<u8>, String) {
    let bytes: Vec<u8> = (0..n).map(|i| (i % 251) as u8).collect();
    let b64 = base64::Engine::encode(&base64::engine::general_purpose::STANDARD, &bytes);
    (bytes, b64)
}

fn sample_page() -> (String, Vec<u8>) {
    let (bytes, b64) = png_data_uri(6000);
    let (_, small) = png_data_uri(100);
    let html = format!(
        "<html><head><title> Dōgen Kigen (5_8_2026 10：51：35 AM) </title></head>\n\
         <!-- url: https://terebess.hu/zen/mesterek/Dogen.html -->\n\
         <body><div id=\"toolbar\"><a>menu</a></div><script>var x = 1;</script>\
         <style>p {{ color: red }}</style>\n\
         <p>Dōgen &amp; Eihei-ji</p>   <p>道元\n禅師</p>\n\
         <img src=\"data:image/gif;base64,R0lGODlhAQABAAAAACw=\">\n\
         <img src=\"data:image/png;base64,{small}\">\n\
         <img alt=\"x\" src=\"data:image/PNG;base64,{b64}\">\n\
         </body></html>"
    );
    (html, bytes)
}

#[test]
fn terebess_page_becomes_a_passage() {
    let (html, bytes) = sample_page();
    let p = extract_page(&html, "Dogen.html", "Dogen", 10).expect("kept");
    assert_eq!(p.source_corpus, "terebess");
    assert_eq!(p.source_url, "https://terebess.hu/zen/mesterek/Dogen.html");
    assert_eq!(p.passage_id, "terebess/7fd7486922a8b746");
    assert_eq!(p.source_work_id, "terebess-Dogen");
    assert_eq!(p.heading, "Dōgen Kigen");
    assert_eq!(p.main_title, "Dōgen Kigen");
    assert_eq!(p.author, "Dōgen Kigen");
    assert_eq!(p.zh_text_raw, "Dōgen & Eihei-ji 道元 禅師");
    assert_eq!(p.normalized_zh, p.zh_text_raw);
    assert_eq!(p.source_rel_path, "Dogen.html");
    assert_eq!(p.traditions, vec!["Zen".to_string()]);
    assert_eq!(p.period_rank, 9999);
    assert_eq!(p.text_type, "biography");
    assert!(p.contains_person && p.contains_foreign && !p.contains_term);
    assert_eq!(p.rights_id, "terebess.hu");
    assert_eq!(p.retrieval_method, "singlefile-html");
    assert_eq!(p.quality_flags_json, "{}");
    let (ext, img) = p.image.expect("image");
    assert_eq!(ext, "png");
    assert_eq!(img, bytes);
}

#[test]
fn terebess_placeholders_and_short_pages_are_skipped() {
    let page = "<title>404 Not Found</title><body>lots of text here</body>";
    assert!(extract_page(page, "a.html", "a", 0).is_none());
    let (html, _) = sample_page();
    assert!(extract_page(&html, "Dogen.html", "Dogen", 1000).is_none());
    assert!(is_placeholder_title("  403 Forbidden"));
    assert!(is_placeholder_title("Az oldal nem található"));
    assert!(is_placeholder_title("Tilos"));
    assert!(is_placeholder_title("page NOT found "));
    assert!(!is_placeholder_title("Page not found here"));
    assert!(!is_placeholder_title("Dōgen"));
}

#[test]
fn terebess_page_without_url_is_named_by_its_file() {
    let page = "<title>Hakuin Ekaku (5_8_2026 10：51：35 AM)</title><body><p>白隠 慧鶴</p></body>";
    let p = extract_page(page, "page.html", "Hakuin Ekaku (5_8_2026 10：51：35 AM)", 1).unwrap();
    assert_eq!(p.passage_id, "terebess/f2df9ef3a841d0be");
    assert_eq!(p.source_work_id, "terebess-hakuin-ekaku");
    assert_eq!(p.source_url, "");
    assert_eq!(p.zh, "白隠 慧鶴");
    assert!(p.image.is_none());
}

#[test]
fn terebess_text_helpers() {
    assert_eq!(decode_entities("a&amp;lt;b &nbsp;&quot;x&#39;&apos;"), "a<b  \"x''");
    assert_eq!(collapse_whitespace("  a \n\t b  "), "a b");
    assert_eq!(tags_to_text("<p>x</p><br/>y &gt; z"), "x y > z");
    assert_eq!(strip_toolbar("a<div id='toolbar'>m</div>b"), "ab");
    assert_eq!(strip_scripts_and_styles("a<script>1</script>b<style>2</style>c"), "a b c");
    assert_eq!(capture_title("<TITLE>\n T \n</TITLE>"), Some("T".to_string()));
    assert_eq!(capture_title("no title"), None);
    assert_eq!(clean_title(" Rinzai (1/2/2026 3:04:05 PM) "), "Rinzai");
    assert_eq!(clean_title("Rinzai"), "Rinzai");
}

#[test]
fn terebess_names() {
    assert_eq!(slug_from_url(""), None);
    assert_eq!(slug_from_url("https://x.hu/a/"), None);
    assert_eq!(slug_from_url("https://x.hu/a/b.c.html"), Some("terebess-b".to_string()));
    assert_eq!(slug_from_url("noslash"), Some("terebess-noslash".to_string()));
    assert_eq!(slug_from_filename("---"), "terebess-page");
    assert_eq!(slug_from_filename("道元"), "terebess-page");
    assert_eq!(slug_from_filename("-Bodhi Dharma-"), "terebess-bodhi-dharma");
    assert_eq!(short_hash(""), "e3b0c44298fc1c14");
    assert_eq!(short_hash("page.html"), "f2df9ef3a841d0be");
}

#[test]
fn terebess_main_image_is_the_largest() {
    let (big, b64_big) = png_data_uri(9000);
    let (_, b64_mid) = png_data_uri(7000);
    let html = format!(
        "<img src=\"data:image/jpeg;base64,{b64_mid}\"><img src='data:image/webp;base64,{b64_big}'>\
         <img src=\"data:image/svg+xml;base64,{b64_big}{b64_big}\">"
    );
    let (ext, bytes) = pick_main_image(&html).unwrap();
    assert_eq!(ext, "webp");
    assert_eq!(bytes, big);
    let (_, b64) = png_data_uri(6000);
    let wrapped: String = b64.chars().enumerate().flat_map(|(i, c)| {
        if i % 76 == 75 { vec![c, '\n'] } else { vec![c] }
    }).collect();
    let html2 = format!("<img src=\"data:image/jpg;base64,{wrapped}\">");
    let (ext2, bytes2) = pick_main_image(&html2).unwrap();
    assert_eq!((ext2.as_str(), bytes2.len()), ("jpg", 6000));
    assert!(pick_main_image("<img src=\"data:image/png;base64,!!!\">").is_none());
}

#[test]
fn terebess_part_numbers() {
    assert_eq!(part_number("part-00012.parquet"), Some(12));
    assert_eq!(part_number("part--3.parquet"), Some(-3));
    assert_eq!(part_number("part-x.parquet"), None);
    assert_eq!(part_number("data.parquet"), None);
    assert_eq!(part_number("part-99999999999999999999.parquet"), None);
    let names = vec!["part-0.parquet".to_string(), "part-7.parquet".to_string(), "x".to_string()];
    assert_eq!(next_part_index(&names), 8);
    assert_eq!(next_part_index(&[]), 0);
}
