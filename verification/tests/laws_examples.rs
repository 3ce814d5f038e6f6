use sinorag::catalog::{parse_work_catalog, work_catalog};
use sinorag::parallels::{parallel_works, parse_parallel_works};
use sinorag::translator::parse_catalog_translator;
use sinorag::wide::to_wide;

#[test]
fn first_catalog_line_of_a_work_wins() {
    let text = "T01n0001 長阿含經 (22卷)【後秦 佛陀耶舍共竺佛念譯】\nT01n0001_002 別本 (1卷)【唐 不空譯】\nT01n0002#p0001a01 七佛經 (1卷)【宋 法天譯】\n";
    let cat = parse_work_catalog(text);
    assert_eq!(cat.len(), 2);
    assert_eq!(cat.get("T01n0001").unwrap().title, "長阿含經");
    assert_eq!(cat.get("T01n0002").unwrap().title, "七佛經");
    assert!(cat.get("T01n0001_002").is_none());
    assert!(cat.work_ids().iter().all(|id| !id.contains('#')));
}

#[test]
fn catalog_from_ill_formed_bytes() {
    let mut bytes = "T01n0001 長阿含經 (22卷)【後秦 佛陀耶舍共竺佛念譯】\n".as_bytes().to_vec();
    bytes.extend_from_slice(&[0xff, b'\n']);
    let cat = work_catalog(&bytes).unwrap();
    assert_eq!(cat.len(), 1);
}

#[test]
fn parallels_never_list_the_work_itself() {
    let pw = parse_parallel_works(
        "T01n0001 長阿含經 (22卷)【後秦】 T01n0001 T02n0099_001 T02n0099, T01n0001#p1\nT01n0002 經 (1卷)【唐】 T01n0002\n",
    );
    let ps = pw.parallels("T01n0001").unwrap();
    assert_eq!(ps, &["T02n0099".to_string()]);
    assert!(pw.parallels("T01n0002").is_none());
}

#[test]
fn parallels_from_ill_formed_bytes() {
    let mut bytes = "T01n0003 經 (1卷)【唐】 T01n0004\n".as_bytes().to_vec();
    bytes.extend_from_slice(&[0xc3]);
    let pw = parallel_works(&bytes);
    assert_eq!(pw.parallels("T01n0003").unwrap(), &["T01n0004".to_string()]);
}

#[test]
fn translator_author_is_never_empty() {
    assert_eq!(parse_catalog_translator(""), (None, None, 99));
    assert_eq!(parse_catalog_translator("唐 譯"), (None, Some("Tang".to_string()), 6));
    let (a, p, r) = parse_catalog_translator("失譯");
    assert_eq!(a.as_deref(), Some("失譯"));
    assert_eq!((p, r), (None, 99));
}

#[test]
fn wide_path() {
    assert_eq!(to_wide(std::path::Path::new("ab/c")), vec![97, 98, 47, 99, 0]);
}

#[test]
fn only_work_id_tokens_are_cross_references() {
    let idx = parallel_works(
        "T01n0005 佛般泥洹經 (2卷)【西晉 白法祖譯】 T01n0006 see T01n0007#p0176a01,T01n0005\nT01n0009 某經 (1卷)【失譯】\n"
            .as_bytes(),
    );
    assert_eq!(idx.len(), 1);
    assert_eq!(idx.parallels("T01n0005"), Some(&["T01n0006".to_string(), "T01n0007".to_string()][..]));
    assert!(idx.parallels("T01n0009").is_none());
}
