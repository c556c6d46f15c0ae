use coolwords_ui::collection::{collection_entries, resort_entries, Application, CollectionEntry};

fn app(word: &str, id: i64, tag: &str, interest: &str, global: bool, books: &[(i64, &str)]) -> Application {
    Application {
        word: word.to_string(),
        word_id: id,
        gloss: Some(format!("gloss of {word}")),
        tag: tag.to_string(),
        interest: interest.to_string(),
        global,
        books: books.iter().map(|(i, t)| (*i, t.to_string())).collect(),
    }
}

fn tint() -> Vec<(String, String)> {
    vec![
        ("fav".to_string(), "interesting".to_string()),
        ("meh".to_string(), "uninteresting".to_string()),
        ("sea".to_string(), "interesting".to_string()),
        ("sea.creature".to_string(), "neutral".to_string()),
        ("note".to_string(), "neutral".to_string()),
    ]
}

#[test]
fn collection_groups_words_and_sorts_by_interest() {
    let rows = vec![
        app("whale", 7, "sea.creature", "neutral", false, &[(1, "Moby Dick")]),
        app("gam", 9, "meh", "uninteresting", true, &[(1, "Moby Dick"), (2, "Typee")]),
        app("whale", 7, "note", "neutral", false, &[(1, "Moby Dick"), (3, "Omoo")]),
        app("abaft", 4, "note", "neutral", false, &[(2, "Typee")]),
        app("whale", 7, "note", "neutral", true, &[(3, "Omoo")]),
    ];
    let out = collection_entries(&rows, &tint(), false);
    let words: Vec<&str> = out.iter().map(|e| e.word.as_str()).collect();
    // whale lends "sea" (interesting) through its parent; abaft is neutral; gam negative
    assert_eq!(words, vec!["whale", "abaft", "gam"]);
    let whale = &out[0];
    assert_eq!(whale.interest, "interesting");
    assert_eq!(whale.word_id, 7);
    assert_eq!(whale.gloss, Some("gloss of whale".to_string()));
    assert_eq!(whale.tags, vec![
        ("note".to_string(), "neutral".to_string()),
        ("sea.creature".to_string(), "neutral".to_string()),
    ]);
    assert_eq!(whale.books, vec![(1, "Moby Dick".to_string()), (3, "Omoo".to_string())]);
    assert_eq!(whale.metric, None);
    assert_eq!(out[2].interest, "uninteresting");
    assert_eq!(out[2].books.len(), 2);
}

#[test]
fn top_global_ranks_by_net() {
    let rows = vec![
        app("a", 1, "fav", "interesting", true, &[]),
        app("b", 2, "fav", "interesting", true, &[]),
        app("b", 2, "sea", "interesting", true, &[]),
        app("c", 3, "meh", "uninteresting", true, &[]),
        app("d", 4, "fav", "interesting", false, &[]),
        app("e", 5, "fav", "interesting", true, &[]),
    ];
    let out = collection_entries(&rows, &tint(), true);
    let got: Vec<(&str, Option<i64>)> = out.iter().map(|e| (e.word.as_str(), e.metric)).collect();
    assert_eq!(got, vec![("b", Some(2)), ("a", Some(1)), ("e", Some(1))]);
}

#[test]
fn empty_collection() {
    assert!(collection_entries(&vec![], &tint(), false).is_empty());
}

fn entry(word: &str, interest: &str, ntags: usize, nbooks: usize) -> CollectionEntry {
    CollectionEntry {
        word: word.to_string(),
        word_id: 1,
        gloss: None,
        interest: interest.to_string(),
        tags: (0..ntags).map(|i| (format!("t{i}"), "neutral".to_string())).collect(),
        books: (0..nbooks).map(|i| (i as i64, format!("b{i}"))).collect(),
        metric: None,
    }
}

fn words_of(v: &[CollectionEntry]) -> Vec<&str> {
    v.iter().map(|e| e.word.as_str()).collect()
}

#[test]
fn collection_resorts_by_the_chosen_control() {
    let list = || {
        vec![
            entry("pear", "neutral", 1, 3),
            entry("apple", "uninteresting", 2, 1),
            entry("fig", "interesting", 2, 1),
        ]
    };
    assert_eq!(words_of(&resort_entries(list(), Some("az"))), vec!["apple", "fig", "pear"]);
    assert_eq!(words_of(&resort_entries(list(), Some("tags"))), vec!["apple", "fig", "pear"]);
    assert_eq!(words_of(&resort_entries(list(), Some("books"))), vec!["pear", "apple", "fig"]);
    assert_eq!(words_of(&resort_entries(list(), Some("interest"))), vec!["fig", "pear", "apple"]);
    assert_eq!(words_of(&resort_entries(list(), Some("metric"))), vec!["pear", "apple", "fig"]);
    assert_eq!(words_of(&resort_entries(list(), None)), vec!["pear", "apple", "fig"]);
}
