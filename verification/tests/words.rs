use coolwords_ui::words::{
    applied_names, era_label, filter_options, filter_sql, has_name, limit_sql, missing_tag_columns,
    option_groups, origin_exclude_sql, parse_filter, pos_label, relation_groups, CandidateFilter, FilterOpt,
    RelTarget,
};

#[test]
fn origin_lists() {
    let common = origin_exclude_sql(false);
    assert!(common.starts_with("'ang','enm','enm-nor'"));
    assert!(common.ends_with("'mul','sco'"));
    assert_eq!(common.matches(',').count(), 34);
    let strict = origin_exclude_sql(true);
    assert!(strict.starts_with(&common));
    assert!(strict.ends_with("'ext','lad'"));
    assert!(!strict.contains("'ro'"));
}

#[test]
fn labels() {
    assert_eq!(era_label("after"), "declining");
    assert_eq!(era_label("rising"), "on the rise");
    assert_eq!(era_label("??"), "");
    assert_eq!(pos_label("intj"), "interjection");
    assert_eq!(pos_label("noun"), "noun");
}

#[test]
fn dropdown_options_in_order() {
    let pos = vec![("verb".to_string(), 4), ("noun".to_string(), 10), ("name".to_string(), 3)];
    let eras = vec!["of".to_string(), "ahead".to_string(), "of".to_string()];
    let cats = vec![("noun.animal".to_string(), 6)];
    let opts = filter_options(&pos, &eras, 2, 0, 5, &cats);
    let got: Vec<(&str, &str, i64, &str)> =
        opts.iter().map(|o| (o.value.as_str(), o.label.as_str(), o.count, o.group.as_str())).collect();
    assert_eq!(got, vec![
        ("pos:noun", "noun", 10, "part of speech"),
        ("pos:verb", "verb", 4, "part of speech"),
        ("era:ahead", "ahead of its time", 1, "era (vs. book's year)"),
        ("era:of", "of its time", 2, "era (vs. book's year)"),
        ("status:obsolete", "obsolete today", 2, "present-day status"),
        ("origin:rare", "rare (non-Romance)", 5, "loanword origin"),
        ("noun.animal", "noun.animal", 6, "category"),
    ]);
}

#[test]
fn filters_parse() {
    assert!(matches!(parse_filter(None), CandidateFilter::All));
    assert!(matches!(parse_filter(Some("")), CandidateFilter::All));
    assert!(matches!(parse_filter(Some("era:of")), CandidateFilter::Era(ref k) if k == "of"));
    assert!(matches!(parse_filter(Some("status:obsolete")), CandidateFilter::Obsolete));
    assert!(matches!(parse_filter(Some("pos:noun")), CandidateFilter::Pos(ref p) if p == "noun"));
    assert!(matches!(parse_filter(Some("origin:rare")), CandidateFilter::Origin(true)));
    assert!(matches!(parse_filter(Some("origin:uncommon")), CandidateFilter::Origin(false)));
    assert!(matches!(parse_filter(Some("noun.animal")), CandidateFilter::Category(ref c) if c == "noun.animal"));
}

#[test]
fn filter_query_fragments() {
    let (sql, bind) = filter_sql(&CandidateFilter::Pos("verb".to_string()));
    assert!(sql.contains("wp.pos = ?3"));
    assert_eq!(bind, Some("verb".to_string()));
    let (sql, bind) = filter_sql(&CandidateFilter::Origin(false));
    assert!(sql.starts_with(" AND w.etymology_lang IS NOT NULL AND w.etymology_lang NOT IN ('ang'"));
    assert!(sql.ends_with("'sco')"));
    assert_eq!(bind, None);
    let (sql, _) = filter_sql(&CandidateFilter::Era("of".to_string()));
    assert_eq!(sql, "");
    assert_eq!(limit_sql(&CandidateFilter::All, 50), " LIMIT 50");
    assert_eq!(limit_sql(&CandidateFilter::All, -4), " LIMIT 0");
    assert_eq!(limit_sql(&CandidateFilter::Obsolete, 50), "");
}

#[test]
fn applied_and_columns() {
    let tags = vec![("a".to_string(), 1), ("b".to_string(), 0), ("c".to_string(), 4)];
    assert_eq!(applied_names(&tags), vec!["a".to_string(), "c".to_string()]);
    let have = vec!["name".to_string(), "scope".to_string(), "kind".to_string()];
    let missing: Vec<&str> = missing_tag_columns(&have).iter().map(|c| c.0).collect();
    assert_eq!(missing, vec!["interest", "section", "scale_max", "scale_labels"]);
    assert!(has_name(&have, "kind"));
    assert!(!has_name(&have, "value"));
}

fn opt(value: &str, group: &str) -> FilterOpt {
    FilterOpt { value: value.to_string(), label: value.to_string(), count: 1, group: group.to_string() }
}

#[test]
fn options_fold_into_consecutive_groups() {
    let opts = vec![opt("a", "era"), opt("b", "era"), opt("c", "pos"), opt("d", "era")];
    let groups = option_groups(opts);
    let shape: Vec<(String, Vec<String>)> =
        groups.iter().map(|(g, os)| (g.clone(), os.iter().map(|o| o.value.clone()).collect())).collect();
    assert_eq!(
        shape,
        vec![
            ("era".to_string(), vec!["a".to_string(), "b".to_string()]),
            ("pos".to_string(), vec!["c".to_string()]),
            ("era".to_string(), vec!["d".to_string()]),
        ]
    );
    assert!(option_groups(Vec::new()).is_empty());
}

fn rel(kind: &str, target: &str) -> RelTarget {
    RelTarget { rel: kind.to_string(), target: target.to_string(), target_word_id: None, in_book: false }
}

#[test]
fn relations_fold_into_consecutive_kinds() {
    let groups = relation_groups(vec![rel("hypernym", "fish"), rel("hypernym", "beast"), rel("antonym", "x")]);
    let shape: Vec<(String, Vec<String>)> =
        groups.iter().map(|(g, rs)| (g.clone(), rs.iter().map(|r| r.target.clone()).collect())).collect();
    assert_eq!(
        shape,
        vec![
            ("hypernym".to_string(), vec!["fish".to_string(), "beast".to_string()]),
            ("antonym".to_string(), vec!["x".to_string()]),
        ]
    );
}
