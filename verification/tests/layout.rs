use coolwords_ui::layout::{
    apply_layout, compute_reorder, drop_layout, resolve_drop, scope_layout, section_layout, section_runs, short,
    sorted_layout, toast_text, DropAt, ToastState,
};
use coolwords_ui::tags::TagDef;

fn def(name: &str, scope: &str, interest: &str, section: &str) -> TagDef {
    TagDef {
        name: name.to_string(),
        comment: None,
        builtin: false,
        scope: scope.to_string(),
        interest: interest.to_string(),
        sort: 0,
        section: section.to_string(),
        kind: "bool".to_string(),
        scale_max: 1,
        scale_labels: None,
    }
}

fn l(items: &[(&str, &str)]) -> Vec<(String, String)> {
    items.iter().map(|(a, b)| (a.to_string(), b.to_string())).collect()
}

#[test]
fn reorder_moves_and_relabels() {
    let base = l(&[("a", ""), ("b", "x"), ("c", "x"), ("d", "y")]);
    assert_eq!(compute_reorder(base.clone(), "a", DropAt::Before("d".to_string())),
        l(&[("b", "x"), ("c", "x"), ("a", "y"), ("d", "y")]));
    assert_eq!(compute_reorder(base.clone(), "d", DropAt::Section("x".to_string())),
        l(&[("a", ""), ("b", "x"), ("c", "x"), ("d", "x")]));
    assert_eq!(compute_reorder(base.clone(), "a", DropAt::Section("new".to_string())),
        l(&[("b", "x"), ("c", "x"), ("d", "y"), ("a", "new")]));
    assert_eq!(compute_reorder(base.clone(), "b", DropAt::End),
        l(&[("a", ""), ("c", "x"), ("d", "y"), ("b", "y")]));
    assert_eq!(compute_reorder(base.clone(), "b", DropAt::Before("zz".to_string())),
        l(&[("a", ""), ("c", "x"), ("d", "y"), ("b", "")]));
    assert_eq!(compute_reorder(base.clone(), "missing", DropAt::End), base);
}

#[test]
fn drops_resolve() {
    assert!(matches!(resolve_drop("a", Some(("x".to_string(), true))), Some(DropAt::Section(ref s)) if s == "x"));
    assert!(matches!(resolve_drop("a", Some(("b".to_string(), false))), Some(DropAt::Before(ref s)) if s == "b"));
    assert!(resolve_drop("a", Some(("a".to_string(), false))).is_none());
    assert!(matches!(resolve_drop("a", None), Some(DropAt::End)));
}

#[test]
fn runs_fold_by_adjacency() {
    let tags = vec![def("a", "book", "neutral", ""), def("b", "book", "neutral", "s"), def("c", "book", "neutral", "s"), def("d", "book", "neutral", "")];
    let runs = section_runs(tags);
    let shape: Vec<(String, Vec<String>)> = runs.iter().map(|(s, v)| (s.clone(), v.iter().map(|d| d.name.clone()).collect())).collect();
    assert_eq!(shape, vec![
        (String::new(), vec!["a".to_string()]),
        ("s".to_string(), vec!["b".to_string(), "c".to_string()]),
        (String::new(), vec!["d".to_string()]),
    ]);
}

#[test]
fn sort_controls_keep_runs() {
    let tags = vec![
        def("zeta", "word", "neutral", ""),
        def("star", "word", "interesting", ""),
        def("alpha", "word", "uninteresting", ""),
        def("beta", "word", "interesting", "s"),
        def("able", "word", "neutral", "s"),
    ];
    let by_name: Vec<(String, String)> = sorted_layout(tags, false);
    assert_eq!(by_name, l(&[("star", ""), ("alpha", ""), ("zeta", ""), ("able", "s"), ("beta", "s")]));
    let tags = vec![
        def("zeta", "word", "neutral", ""),
        def("alpha", "word", "uninteresting", ""),
        def("mid", "word", "interesting", ""),
    ];
    assert_eq!(sorted_layout(tags, true), l(&[("mid", ""), ("zeta", ""), ("alpha", "")]));
}

#[test]
fn filing_into_sections() {
    let base = l(&[("a", "x"), ("b", "y"), ("c", "x")]);
    assert_eq!(section_layout(base.clone(), "a", "   "), l(&[("a", ""), ("b", "y"), ("c", "x")]));
    assert_eq!(section_layout(base.clone(), "b", " x "), l(&[("a", "x"), ("c", "x"), ("b", "x")]));
}

#[test]
fn drops_stay_in_scope() {
    let tags = vec![def("a", "book", "neutral", ""), def("w", "word", "neutral", ""), def("b", "book", "neutral", "")];
    assert_eq!(scope_layout(&tags, false), l(&[("a", ""), ("b", "")]));
    assert_eq!(drop_layout(&tags, false, "b", DropAt::Before("a".to_string())), Some(l(&[("b", ""), ("a", "")])));
    assert_eq!(drop_layout(&tags, false, "w", DropAt::End), None);
    assert_eq!(drop_layout(&tags, false, "nope", DropAt::End), None);
}

#[test]
fn short_and_toast() {
    assert_eq!(short(&None, 3), "");
    assert_eq!(short(&Some("whaling".to_string()), 4), "whal…");
    assert_eq!(short(&Some("sea".to_string()), 3), "sea");
    assert_eq!(toast_text("sea", Some("  ")), "sea");
    assert_eq!(toast_text("sea", Some("salt water")), "sea — salt water");
    assert_eq!(toast_text("sea", None), "sea");
}

#[test]
fn toast_expiry_respects_later_shows() {
    let mut t = ToastState::new();
    assert_eq!(t.show("   ".to_string()), None);
    let g1 = t.show("first".to_string()).unwrap();
    let g2 = t.show("second".to_string()).unwrap();
    t.expire(g1);
    assert_eq!(t.msg, Some("second".to_string()));
    t.expire(g2);
    assert_eq!(t.msg, None);
}

#[test]
fn applied_layout_reads_back_and_leaves_other_scope() {
    let mut tags = vec![
        def("a", "book", "interesting", ""),
        def("w1", "word", "neutral", ""),
        def("b", "book", "neutral", "x"),
        def("c", "book", "neutral", "x"),
    ];
    let list = compute_reorder(scope_layout(&tags, false), "a", DropAt::Section("x".to_string()));
    assert_eq!(list, l(&[("b", "x"), ("c", "x"), ("a", "x")]));
    apply_layout(&mut tags, false, &list);
    assert_eq!(scope_layout(&tags, false), list);
    let names: Vec<&str> = tags.iter().map(|d| d.name.as_str()).collect();
    assert_eq!(names, vec!["b", "w1", "c", "a"]);
    assert_eq!(tags[3].interest, "interesting");
    assert_eq!(scope_layout(&tags, true), l(&[("w1", "")]));
}

#[test]
fn applied_layout_keeps_slots_the_list_does_not_reach() {
    let mut tags = vec![def("a", "book", "neutral", ""), def("b", "book", "neutral", "")];
    apply_layout(&mut tags, false, &l(&[("b", "s")]));
    let got: Vec<(&str, &str)> = tags.iter().map(|d| (d.name.as_str(), d.section.as_str())).collect();
    assert_eq!(got, vec![("b", "s"), ("b", "s")]);
}
