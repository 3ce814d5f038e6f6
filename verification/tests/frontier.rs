use sinorag::frontier::{bump, facet_summary, FacetRow};

fn s(x: &str) -> String {
    x.to_string()
}

fn row(period: &str, canon: &str, origin: &str, traditions: &[&str]) -> FacetRow {
    FacetRow {
        period: s(period),
        canon: s(canon),
        origin: s(origin),
        traditions: traditions.iter().map(|t| s(t)).collect(),
    }
}

#[test]
fn bump_counts_and_keeps_values_sorted() {
    let mut counts: Vec<(String, usize)> = Vec::new();
    bump(&mut counts, s("唐"));
    bump(&mut counts, s("東晉"));
    bump(&mut counts, s("唐"));
    bump(&mut counts, s(""));
    bump(&mut counts, s("Tang"));
    assert_eq!(counts, vec![(s("Tang"), 1), (s("唐"), 2), (s("東晉"), 1)]);
}

#[test]
fn bump_leaves_counts_alone_for_an_empty_value() {
    let mut counts = vec![(s("a"), 3)];
    bump(&mut counts, String::new());
    assert_eq!(counts, vec![(s("a"), 3)]);
}

#[test]
fn facet_summary_counts_each_facet() {
    let rows = vec![
        row("唐", "T", "India", &["禪", "淨土"]),
        row("唐", "X", "", &["禪"]),
        row("", "T", "China", &["", "華嚴"]),
    ];
    let f = facet_summary(&rows);
    assert_eq!(f.periods, vec![(s("唐"), 2)]);
    assert_eq!(f.canons, vec![(s("T"), 2), (s("X"), 1)]);
    assert_eq!(f.origins, vec![(s("China"), 1), (s("India"), 1)]);
    assert_eq!(f.traditions, vec![(s("淨土"), 1), (s("禪"), 2), (s("華嚴"), 1)]);
}

#[test]
fn facet_summary_of_no_rows_is_empty() {
    let f = facet_summary(&[]);
    assert!(f.periods.is_empty() && f.canons.is_empty() && f.origins.is_empty() && f.traditions.is_empty());
}
