use coolwords_ui::interest::group_tag_rows;
use coolwords_ui::interest::{
    fold_interest, group_has_other, group_interest, group_tag_counts, group_tags, has_other_tags,
    has_tag, implied_on, interest_class, interest_rank, known_interest, set_tag_val, tag_interest,
    tag_value, toggle_tag, word_interest, AppliedTags, Interest, TagStore, Tagger,
};
use coolwords_ui::tags::TagDef;

fn def(name: &str, interest: &str) -> TagDef {
    TagDef {
        name: name.to_string(),
        comment: None,
        builtin: false,
        scope: "book".to_string(),
        interest: interest.to_string(),
        sort: 100,
        section: String::new(),
        kind: "bool".to_string(),
        scale_max: 1,
        scale_labels: None,
    }
}

fn tagger() -> Tagger {
    Tagger {
        store: TagStore::new(),
        tags: vec![
            def("star", "interesting"),
            def("thing", "uninteresting"),
            def("thing.material", "neutral"),
            def("dull", "uninteresting"),
            def("note", "neutral"),
        ],
    }
}

#[test]
fn interest_of_tags() {
    let t = tagger();
    assert_eq!(tag_interest(&t.tags, "pick:noun"), Interest::Neutral);
    assert_eq!(tag_interest(&t.tags, "dull"), Interest::Uninteresting);
    assert_eq!(tag_interest(&t.tags, "unknown"), Interest::Interesting);
    assert_eq!(known_interest(&t.tags, "unknown"), None);
    assert_eq!(known_interest(&t.tags, "pick:noun"), None);
    assert_eq!(known_interest(&t.tags, "note"), Some(Interest::Neutral));
}

#[test]
fn fold_prefers_interesting_then_uninteresting() {
    let mut acc = None;
    fold_interest(&mut acc, Interest::Neutral);
    assert_eq!(acc, Some(Interest::Neutral));
    fold_interest(&mut acc, Interest::Uninteresting);
    assert_eq!(acc, Some(Interest::Uninteresting));
    fold_interest(&mut acc, Interest::Neutral);
    assert_eq!(acc, Some(Interest::Uninteresting));
    fold_interest(&mut acc, Interest::Interesting);
    assert_eq!(acc, Some(Interest::Interesting));
    fold_interest(&mut acc, Interest::Uninteresting);
    assert_eq!(acc, Some(Interest::Interesting));
}

#[test]
fn read_after_write_and_toggle() {
    let mut t = tagger();
    let key = (1, 10);
    assert_eq!(tag_value(&t, key, "star"), None);
    assert!(toggle_tag(&mut t, 1, 10, "star"));
    assert_eq!(tag_value(&t, key, "star"), Some(1));
    assert!(has_tag(&t, key, "star"));
    assert!(!toggle_tag(&mut t, 1, 10, "star"));
    assert_eq!(tag_value(&t, key, "star"), None);
    set_tag_val(&mut t, 1, 10, "note", Some(0));
    assert_eq!(tag_value(&t, key, "note"), Some(0));
    assert!(!has_tag(&t, key, "note"));
    set_tag_val(&mut t, 1, 10, "note", Some(3));
    assert_eq!(tag_value(&t, key, "note"), Some(3));
    assert_eq!(tag_value(&t, (1, 11), "note"), None);
    set_tag_val(&mut t, 1, 10, "note", None);
    assert_eq!(tag_value(&t, key, "note"), None);
}

#[test]
fn word_interest_lends_ancestors() {
    let mut t = tagger();
    // a declined tag never contributes
    set_tag_val(&mut t, 1, 1, "dull", Some(0));
    assert_eq!(word_interest(&t, (1, 1)), None);
    // an applied neutral child lends its existing uninteresting parent
    set_tag_val(&mut t, 1, 1, "thing.material", Some(1));
    assert_eq!(word_interest(&t, (1, 1)), Some(Interest::Uninteresting));
    assert!(implied_on(&t, (1, 1), "thing"));
    assert!(!implied_on(&t, (1, 1), "thin"));
    // a child of a tag that isn't in the collection lends nothing through it
    set_tag_val(&mut t, 1, 2, "ghost.leaf", Some(1));
    assert_eq!(word_interest(&t, (1, 2)), Some(Interest::Interesting));
    set_tag_val(&mut t, 1, 3, "note", Some(1));
    assert_eq!(word_interest(&t, (1, 3)), Some(Interest::Neutral));
    assert_eq!(word_interest(&t, (9, 9)), None);
}

#[test]
fn group_level_and_chips() {
    let mut t = tagger();
    set_tag_val(&mut t, 1, 1, "note", Some(1));
    set_tag_val(&mut t, 1, 2, "dull", Some(1));
    set_tag_val(&mut t, 1, 2, "pick:noun", Some(1));
    set_tag_val(&mut t, 1, 3, "star", Some(1));
    set_tag_val(&mut t, 1, 3, "dull", Some(1));
    assert_eq!(group_interest(&t, 1, &[1, 2]), Some(Interest::Uninteresting));
    assert_eq!(group_interest(&t, 1, &[1]), Some(Interest::Neutral));
    assert_eq!(group_interest(&t, 1, &[2, 3]), Some(Interest::Interesting));
    assert_eq!(group_interest(&t, 1, &[]), None);
    let chips = group_tags(&t, 1, &[1, 2, 3]);
    let names: Vec<(&str, Interest)> = chips.iter().map(|(n, i)| (n.as_str(), *i)).collect();
    assert_eq!(names, vec![
        ("star", Interest::Interesting),
        ("note", Interest::Neutral),
        ("dull", Interest::Uninteresting),
    ]);
    assert_eq!(group_tag_counts(&t, 1, &[1, 2, 3]), (1, 1, 1));
    assert!(has_other_tags(&t, (1, 1)));
    assert!(group_has_other(&t, 1, &[1, 3]));
    let mut s = tagger();
    set_tag_val(&mut s, 1, 5, "star", Some(1));
    assert!(!has_other_tags(&s, (1, 5)));
    assert!(!group_has_other(&s, 1, &[5, 6]));
}

#[test]
fn store_rows_replace_per_book() {
    let mut store = TagStore::new();
    store.put((1, 1), AppliedTags::from_pairs(vec![("a".to_string(), 1), ("a".to_string(), 2)]));
    assert_eq!(store.row((1, 1)).unwrap().tag_value("a"), Some(2));
    store.replace_book(1, vec![(2, vec![("b".to_string(), 1)])]);
    assert!(store.row((1, 1)).is_none());
    assert_eq!(store.row((1, 2)).unwrap().tag_value("b"), Some(1));
}

#[test]
fn interest_words() {
    assert_eq!(interest_class(Interest::Neutral), "neutral");
    assert_eq!(interest_rank("interesting"), 0);
    assert_eq!(interest_rank("neutral"), 1);
    assert_eq!(interest_rank("other"), 2);
}

#[test]
fn tag_rows_group_by_word() {
    let rows = vec![
        (5, "fun".to_string(), 1),
        (3, "obscure".to_string(), 2),
        (5, "known".to_string(), -1),
    ];
    let mut got = group_tag_rows(&rows);
    got.sort_by_key(|g| g.0);
    assert_eq!(
        got,
        vec![
            (3, vec![("obscure".to_string(), 2)]),
            (5, vec![("fun".to_string(), 1), ("known".to_string(), -1)]),
        ]
    );
    assert!(group_tag_rows(&Vec::new()).is_empty());
}
