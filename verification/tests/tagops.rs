use coolwords_ui::tagops::{
    add_plan, check_set_tag, check_tag_value, clamp_value, create_plan, delete_check, interest_check,
    key_slug, layout_rows, registers, rename_plan, scale_plan, scope_move, Rename, ScopeMove, TagError,
};

#[test]
fn set_tag_checks() {
    assert!(check_set_tag("pick:noun").is_ok());
    assert!(check_set_tag("thing.material").is_ok());
    assert!(matches!(check_set_tag("Thing"), Err(TagError::InvalidTag)));
    assert!(registers("thing", true));
    assert!(!registers("pick:noun", true));
    assert!(!registers("thing", false));
    assert!(matches!(check_tag_value("thing", Some(-1)), Err(TagError::InvalidValue)));
    assert!(matches!(check_tag_value("bad tag!", Some(1)), Err(TagError::InvalidTag)));
    assert!(check_tag_value("thing", None).is_ok());
}

#[test]
fn ratings_clamp_to_ceiling() {
    assert_eq!(clamp_value(Some(0), false, Some(5)), Some(0));
    assert_eq!(clamp_value(Some(7), true, Some(5)), Some(1));
    assert_eq!(clamp_value(Some(7), false, Some(5)), Some(5));
    assert_eq!(clamp_value(Some(3), false, Some(5)), Some(3));
    assert_eq!(clamp_value(Some(3), false, None), Some(1));
    assert_eq!(clamp_value(Some(3), false, Some(0)), Some(1));
    assert_eq!(clamp_value(None, false, Some(5)), None);
}

#[test]
fn application_keys() {
    assert_eq!(key_slug("thing", Some("word".to_string()), "moby".to_string()), "*");
    assert_eq!(key_slug("thing", Some("book".to_string()), "moby".to_string()), "moby");
    assert_eq!(key_slug("thing", None, "moby".to_string()), "moby");
    assert_eq!(key_slug("pick:noun", Some("word".to_string()), "moby".to_string()), "moby");
}

#[test]
fn creating_tags() {
    let (n, c) = add_plan("  Sea Life ", "  ").unwrap();
    assert_eq!(n, "sea life");
    assert_eq!(c, None);
    let t = create_plan("Whale.Parts", " bones ", "word", "neutral", "scale", 42).unwrap();
    assert_eq!(t.name, "whale.parts");
    assert_eq!(t.comment, Some("bones".to_string()));
    assert_eq!((t.kind, t.scale_max), ("scale", 10));
    assert!(matches!(create_plan("!!", "", "word", "neutral", "bool", 1), Err(TagError::InvalidName)));
    assert!(matches!(create_plan("ok", "", "shelf", "neutral", "bool", 1), Err(TagError::InvalidScope)));
    assert!(matches!(create_plan("ok", "", "book", "meh", "bool", 1), Err(TagError::InvalidInterest)));
}

#[test]
fn renames() {
    assert!(matches!(rename_plan("star", "x"), Err(TagError::StarRename)));
    assert!(matches!(rename_plan("Thing", "x"), Err(TagError::InvalidName)));
    assert!(matches!(rename_plan("thing", "??"), Err(TagError::InvalidName)));
    assert!(matches!(rename_plan("thing", " THING "), Ok(Rename::Same(ref s)) if s == "thing"));
    assert!(matches!(rename_plan("thing", "thing.sub"), Err(TagError::UnderItself)));
    assert!(matches!(rename_plan("thing", "stuff"), Ok(Rename::To(ref s)) if s == "stuff"));
}

#[test]
fn locked_star() {
    assert!(matches!(delete_check("star"), Err(TagError::StarDelete)));
    assert!(matches!(delete_check("a%b"), Err(TagError::InvalidName)));
    assert!(delete_check("thing").is_ok());
    assert!(matches!(interest_check("star", "neutral"), Err(TagError::StarInterest)));
    assert!(interest_check("star", "interesting").is_ok());
    assert!(matches!(interest_check("x", "meh"), Err(TagError::InvalidInterest)));
    assert!(matches!(scale_plan("star", "scale", 5), Err(TagError::StarScale)));
    assert_eq!(scale_plan("star", "bool", 5).unwrap(), ("bool", 1));
    assert_eq!(scale_plan("depth", "scale", 1).unwrap(), ("scale", 2));
}

#[test]
fn scope_changes() {
    assert!(matches!(scope_move("word", None), Ok(ScopeMove::CollapseToGlobal)));
    assert!(matches!(scope_move("book", Some("moby".to_string())), Ok(ScopeMove::RehomeTo(ref s)) if s == "moby"));
    assert!(matches!(scope_move("book", None), Ok(ScopeMove::DropGlobal)));
    assert!(matches!(scope_move("shelf", None), Err(TagError::InvalidScope)));
}

#[test]
fn layout_numbering() {
    let items = vec![("a".to_string(), "  Sea   Life! ".to_string()), ("b".to_string(), String::new())];
    let rows = layout_rows("book", &items).unwrap();
    assert_eq!(rows, vec![
        ("a".to_string(), "Sea Life".to_string(), 0),
        ("b".to_string(), String::new(), 1),
    ]);
    assert!(layout_rows("nope", &items).is_err());
}
