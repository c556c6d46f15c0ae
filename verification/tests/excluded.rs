use coolwords_ui::excluded::{
    build_report, commas as excluded_commas, reason_label, reasons, shown_head, wanted_reason, word_order,
};

#[test]
fn reason_table_in_test_order() {
    let keys: Vec<&str> = reasons().iter().map(|r| r.0).collect();
    assert_eq!(keys, vec![
        "nodict", "nonalpha", "nowikt", "formof", "proper", "offensive", "capitalised", "short", "common"
    ]);
    assert_eq!(reason_label("short"), "under 3 letters");
    assert_eq!(reason_label("zzz"), "left out");
}

#[test]
fn unknown_reason_means_all() {
    assert_eq!(wanted_reason("proper"), "proper");
    assert_eq!(wanted_reason("bogus"), "");
    assert_eq!(wanted_reason(""), "");
}

#[test]
fn report_sorts_buckets_biggest_first() {
    let counts = vec![
        ("".to_string(), 400),
        ("proper".to_string(), 120),
        ("common".to_string(), 900),
        ("short".to_string(), 120),
        ("nowikt".to_string(), 0),
    ];
    let r = build_report(&counts, 1540, 380);
    assert_eq!(r.n_types, 1540);
    assert_eq!(r.n_kept, 400);
    assert_eq!(r.n_candidates, 380);
    let got: Vec<(&str, i64)> = r.reasons.iter().map(|x| (x.key.as_str(), x.count)).collect();
    // ties keep the table order: "proper" is tested before "short"
    assert_eq!(got, vec![("common", 900), ("proper", 120), ("short", 120)]);
    assert_eq!(r.reasons[0].label, "too common");
    // the counts add up to the book's distinct words
    let total: i64 = r.n_kept + r.reasons.iter().map(|x| x.count).sum::<i64>();
    assert_eq!(total, r.n_types);
}

#[test]
fn report_without_kept_row() {
    let r = build_report(&vec![("nodict".to_string(), 5)], 5, 0);
    assert_eq!(r.n_kept, 0);
    assert_eq!(r.reasons.len(), 1);
}

#[test]
fn word_orders() {
    assert!(word_order("count").starts_with("n DESC"));
    assert!(word_order("rare").starts_with("(CASE"));
}

#[test]
fn head_only_when_different() {
    assert_eq!(shown_head("whales", Some("whale".to_string())), Some("whale".to_string()));
    assert_eq!(shown_head("whale", Some("whale".to_string())), None);
    assert_eq!(shown_head("x", None), None);
}

#[test]
fn excluded_commas_group() {
    assert_eq!(excluded_commas(14207), "14,207");
    assert_eq!(excluded_commas(-5), "-5");
}
