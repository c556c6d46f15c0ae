use coolwords_ui::tags::{
    ancestor_names, is_ancestor, norm_kind, sanitize_section, sanitize_tag, tag_allowed, valid_interest,
    valid_scope, TagDef,
};

#[test]
fn sanitize_tags() {
    assert_eq!(sanitize_tag("  Thing.Material "), Some("thing.material".to_string()));
    assert_eq!(sanitize_tag("sea   life"), Some("sea life".to_string()));
    assert_eq!(sanitize_tag("a.b.c.d.e"), None);
    assert_eq!(sanitize_tag("123"), None);
    assert_eq!(sanitize_tag("pick.x"), None);
    assert_eq!(sanitize_tag("star.x"), None);
    assert_eq!(sanitize_tag("star"), Some("star".to_string()));
    assert_eq!(sanitize_tag(&"a".repeat(31)), None);
    assert_eq!(sanitize_tag("x..y"), None);
}

#[test]
fn sanitized_tags_are_allowed() {
    for raw in ["  Thing.Material ", "Sea Life", "odd-one", "a.b.c.d"] {
        let clean = sanitize_tag(raw).unwrap();
        assert!(tag_allowed(&clean), "{clean}");
        assert_eq!(sanitize_tag(&clean), Some(clean.clone()));
    }
    assert!(tag_allowed("pick:noun.animal"));
    assert!(!tag_allowed("pick:"));
    assert!(!tag_allowed("pick:a b"));
    assert!(!tag_allowed("Thing"));
}

#[test]
fn hierarchy() {
    assert!(is_ancestor("thing", "thing.material"));
    assert!(!is_ancestor("thin", "thing.material"));
    assert!(!is_ancestor("thing", "thing"));
    assert_eq!(ancestor_names("a.b.c"), vec!["a".to_string(), "a.b".to_string()]);
    assert!(ancestor_names("pick:noun.animal").is_empty());
    assert!(ancestor_names("top").is_empty());
}

#[test]
fn sections_scopes_kinds() {
    assert_eq!(sanitize_section("  Sea   Creatures!! "), "Sea Creatures");
    assert_eq!(sanitize_section(&"x".repeat(50)), "x".repeat(40));
    assert!(valid_scope("book") && valid_scope("word") && !valid_scope("shelf"));
    assert!(valid_interest("neutral") && !valid_interest("meh"));
    assert_eq!(norm_kind("scale", 1), ("scale", 2));
    assert_eq!(norm_kind("scale", 99), ("scale", 10));
    assert_eq!(norm_kind("other", 5), ("bool", 1));
}

#[test]
fn tag_def_scale() {
    let mut d = TagDef {
        name: "depth".to_string(),
        comment: None,
        builtin: false,
        scope: "book".to_string(),
        interest: "neutral".to_string(),
        sort: 0,
        section: String::new(),
        kind: "scale".to_string(),
        scale_max: 15,
        scale_labels: None,
    };
    assert!(d.is_scale());
    assert_eq!(d.max_level(), 10);
    d.scale_max = 1;
    assert!(!d.is_scale());
    assert_eq!(d.max_level(), 1);
}

#[test]
fn section_labels_normalize_once() {
    for raw in ["  Sea   Creatures!! ", "Été — fleurs", "a-b  c", "", "   "] {
        let once = sanitize_section(raw);
        assert_eq!(sanitize_section(&once), once);
    }
    // The 40-character cut can end on a space; a second pass trims it.
    let cut = sanitize_section(&("a".repeat(39) + " b"));
    assert_eq!(cut, "a".repeat(39) + " ");
    assert_eq!(sanitize_section(&cut), "a".repeat(39));
}

#[test]
fn sanitized_tag_names_sanitize_to_themselves() {
    for raw in ["  Sea  Creatures ", "thing.Material.wood", "a!b.c--d", "x.y.z.w"] {
        let once = sanitize_tag(raw).expect("usable tag");
        assert_eq!(sanitize_tag(&once), Some(once.clone()));
    }
}
