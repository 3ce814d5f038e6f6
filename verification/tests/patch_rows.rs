use sinorag::catalog::parse_work_catalog;
use sinorag::patch::{build_patch_map, patch_row, patch_rows, MetaRow};

fn row(author: &str, period: &str, rank: i32, title: &str) -> MetaRow {
    MetaRow {
        author: author.to_string(),
        period: period.to_string(),
        period_rank: rank,
        main_title: title.to_string(),
    }
}

const CATALOG: &str = "T01n0001 長阿含經 (22卷)【後秦 佛陀耶舍共竺佛念譯】\nT01n0006 般泥洹經 (2卷)【失譯】\n";

#[test]
fn blank_fields_are_filled() {
    let cat = parse_work_catalog(CATALOG);
    let map = build_patch_map(&cat);
    let mut r = row("", "Unknown Period", 99, "");
    let changed = patch_row(&mut r, map.get("T01n0001"));
    assert!(changed);
    assert_eq!(r.author, "佛陀耶舍共竺佛念");
    assert_eq!(r.period, "Northern and Southern");
    assert_eq!(r.period_rank, 4);
    assert_eq!(r.main_title, "長阿含經");
}

#[test]
fn filled_fields_are_kept() {
    let cat = parse_work_catalog(CATALOG);
    let map = build_patch_map(&cat);
    let mut r = row("someone", "Tang", 6, "title");
    let changed = patch_row(&mut r, map.get("T01n0001"));
    assert!(!changed);
    assert_eq!(r.author, "someone");
    assert_eq!(r.period, "Tang");
    assert_eq!(r.period_rank, 6);
    assert_eq!(r.main_title, "title");
}

#[test]
fn unknown_work_is_untouched() {
    let cat = parse_work_catalog(CATALOG);
    let map = build_patch_map(&cat);
    assert!(map.get("X99n0001").is_none());
    let mut r = row("", "", 0, "");
    assert!(!patch_row(&mut r, map.get("X99n0001")));
    assert_eq!(r.author, "");
}

#[test]
fn lost_translator_has_no_period() {
    let cat = parse_work_catalog(CATALOG);
    let map = build_patch_map(&cat);
    let mut r = row("", "", 7, "");
    assert!(patch_row(&mut r, map.get("T01n0006")));
    assert_eq!(r.author, "失譯");
    assert_eq!(r.period, "");
    assert_eq!(r.period_rank, 7);
    assert_eq!(r.main_title, "般泥洹經");
}

#[test]
fn batch_is_patched_in_row_order() {
    let cat = parse_work_catalog(CATALOG);
    let map = build_patch_map(&cat);
    let ids = vec!["T01n0001".to_string(), "X".to_string(), "T01n0006".to_string(), "T01n0001".to_string()];
    let mut rows = vec![row("", "", 0, "t"), row("", "", 0, ""), row("a", "", 0, ""), row("a", "Han", 1, "t")];
    let (n, works) = patch_rows(&map, &ids, &mut rows);
    assert_eq!(n, 2);
    assert_eq!(works, vec!["T01n0001".to_string(), "T01n0006".to_string()]);
    assert_eq!(rows[0].period, "Northern and Southern");
    assert_eq!(rows[0].main_title, "t");
    assert_eq!(rows[2].author, "a");
    assert_eq!(rows[2].main_title, "般泥洹經");
    assert_eq!(rows[3].period, "Han");
}

#[test]
fn patching_twice_changes_nothing_more() {
    let cat = parse_work_catalog(CATALOG);
    let map = build_patch_map(&cat);
    let mut r = row("", "", 0, "");
    patch_row(&mut r, map.get("T01n0001"));
    let before = (r.author.clone(), r.period.clone(), r.period_rank, r.main_title.clone());
    assert!(!patch_row(&mut r, map.get("T01n0001")));
    assert_eq!((r.author.clone(), r.period.clone(), r.period_rank, r.main_title.clone()), before);
}
