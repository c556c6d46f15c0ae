use coolwords_ui::library::{
    bad_json_message, importer_outcome, importer_reply, importer_verdict, ingress_base, nav_class, ocr_cache_label, ocr_engines_by_name, ocr_text_sources, resolve_book,
    OcrEngineStatus,
};
use coolwords_ui::library::{
    check_engine, env_setting, format_ext, import_args, ocr_job, ocr_sidecar, parse_year, reingest_job,
    rescore_job, sanitize_slug, upload_ext, valid_token, ImportError,
};

#[test]
fn slugs_are_canonical() {
    assert_eq!(sanitize_slug("  Moby Dick; or, The Whale  "), "moby-dick-or-the-whale");
    assert_eq!(sanitize_slug("--Hello__World--"), "hello-world");
    assert_eq!(sanitize_slug("!!!"), "");
    assert_eq!(sanitize_slug("Ünïcode Café"), "n-code-caf");
    let long = "a".repeat(59) + " b";
    assert_eq!(sanitize_slug(&long), "a".repeat(59));
    assert_eq!(sanitize_slug(&"x".repeat(70)), "x".repeat(60));
}

#[test]
fn env_file_setting() {
    let txt = "# comment\nOTHER=1\n COOLWORDS_BOOKS_DIR = \"/data/books\" \r\nCOOLWORDS_BOOKS_DIR=/later\n";
    assert_eq!(env_setting(txt, "COOLWORDS_BOOKS_DIR"), Some("/data/books".to_string()));
    assert_eq!(env_setting("COOLWORDS_BOOKS_DIR=''\nCOOLWORDS_BOOKS_DIR=x", "COOLWORDS_BOOKS_DIR"), Some("x".to_string()));
    assert_eq!(env_setting("#COOLWORDS_BOOKS_DIR=/x", "COOLWORDS_BOOKS_DIR"), None);
    assert_eq!(env_setting("", "COOLWORDS_BOOKS_DIR"), None);
}

#[test]
fn tokens_stay_in_staging() {
    assert!(valid_token("up-0123456789abcdef.epub"));
    assert!(!valid_token(""));
    assert!(!valid_token("a/b"));
    assert!(!valid_token("a\\b"));
    assert!(!valid_token("..x"));
}

#[test]
fn import_arguments() {
    let a = import_args("up-1.txt", "/st/up-1.txt", "Moby Dick", "Moby-Dick", "Melville", " 1851 ", "moby.txt").unwrap();
    assert_eq!(a, vec![
        "--commit", "/st/up-1.txt", "--slug", "moby-dick", "--title", "Moby-Dick", "--author", "Melville",
        "--orig-filename", "moby.txt", "--year", "1851",
    ]);
    let b = import_args("up-1.txt", "/st/up-1.txt", "x", "", "", "  ", "f").unwrap();
    assert_eq!(b.len(), 10);
    assert!(matches!(import_args("../x", "", "x", "", "", "", ""), Err(ImportError::BadToken)));
    assert!(matches!(import_args("t", "", "!!", "", "", "", ""), Err(ImportError::NoSlug)));
}

#[test]
fn extensions() {
    assert_eq!(upload_ext(Some("EPUB")), "epub");
    assert_eq!(upload_ext(Some("tar-gz")), "txt");
    assert_eq!(upload_ext(Some("")), "txt");
    assert_eq!(upload_ext(None), "txt");
    assert_eq!(format_ext(Some("pdf")), "pdf");
    assert_eq!(format_ext(Some("epub")), "epub");
    assert_eq!(format_ext(Some("mobi")), "txt");
    assert_eq!(format_ext(None), "txt");
}

#[test]
fn years_in_range() {
    assert_eq!(parse_year(" 1851 "), Some(1851));
    assert_eq!(parse_year("+1851"), Some(1851));
    assert_eq!(parse_year("999"), None);
    assert_eq!(parse_year("2201"), None);
    assert_eq!(parse_year("18 51"), None);
    assert_eq!(parse_year(""), None);
}

#[test]
fn ocr_and_reingest_jobs() {
    assert!(check_engine("tesseract5").is_ok());
    assert!(check_engine("").is_ok());
    assert!(matches!(check_engine("../x"), Err(ImportError::BadEngine)));
    let (eng, args, label) = ocr_job("moby", "");
    assert_eq!(eng, "auto");
    assert_eq!(args, vec!["--ocr-book", "moby"]);
    assert_eq!(label, "OCR (auto)…");
    let (eng, args, _) = ocr_job("moby", "paddle");
    assert_eq!(eng, "paddle");
    assert_eq!(args, vec!["--ocr-book", "moby", "--engine", "paddle"]);
    let (args, label) = reingest_job("moby", "ocr:paddle");
    assert_eq!(args, vec!["--reingest", "moby", "--text-source", "ocr:paddle"]);
    assert_eq!(label, "switching to ocr:paddle…");
    let (slug, args, label) = rescore_job(" Moby Dick ").unwrap();
    assert_eq!(slug, "moby-dick");
    assert_eq!(args, vec!["--rescore", "moby-dick"]);
    assert_eq!(label, "scoring moby-dick…");
    assert!(rescore_job("??").is_err());
    assert_eq!(ocr_sidecar("moby", "pdf", "paddle"), "moby.pdf.ocr.paddle.json");
}

#[test]
fn ingress_base_drops_trailing_slashes() {
    assert_eq!(ingress_base(Some("/api/hassio_ingress/abc/")), "/api/hassio_ingress/abc");
    assert_eq!(ingress_base(Some("/api/x//")), "/api/x");
    assert_eq!(ingress_base(Some("/")), "");
    assert_eq!(ingress_base(None), "");
}

#[test]
fn importer_verdict_follows_ok_member() {
    assert_eq!(importer_verdict(Some(true), Some("ignored".to_string())), Ok(()));
    assert_eq!(importer_verdict(Some(false), Some("no such file".to_string())), Err("no such file".to_string()));
    assert_eq!(importer_verdict(None, None), Err("import failed".to_string()));
}

#[test]
fn nav_class_marks_the_current_route() {
    assert_eq!(nav_class("/api/hassio_ingress/t/books", "/api/hassio_ingress/t", "/books", "navlink"), "navlink active");
    assert_eq!(nav_class("/api/hassio_ingress/t", "/api/hassio_ingress/t", "/", "navlink"), "navlink active");
    assert_eq!(nav_class("/tags", "", "/books", "navlink"), "navlink");
    assert_eq!(nav_class("/import", "/other", "/import", "navimport"), "navimport active");
}

#[test]
fn resolve_book_falls_back_to_a_listed_book() {
    let ids = vec![4, 7];
    assert_eq!(resolve_book(Some(7), Some(4), Some(&ids)), 7);
    assert_eq!(resolve_book(None, Some(4), Some(&ids)), 4);
    assert_eq!(resolve_book(Some(9), None, Some(&ids)), 4);
    assert_eq!(resolve_book(None, None, None), 1);
    assert_eq!(resolve_book(Some(9), None, Some(&Vec::new())), 9);
}

fn eng(complete: bool, cached: i64) -> OcrEngineStatus {
    OcrEngineStatus { available: true, detail: String::new(), cached_pages: cached, complete }
}

#[test]
fn ocr_panel_lists_engines_sources_and_cache() {
    let engines = vec![
        ("tesseract".to_string(), eng(true, 12)),
        ("easyocr".to_string(), eng(false, 3)),
        ("apple".to_string(), eng(true, 12)),
    ];
    let sorted = ocr_engines_by_name(engines);
    let names: Vec<&str> = sorted.iter().map(|(n, _)| n.as_str()).collect();
    assert_eq!(names, vec!["apple", "easyocr", "tesseract"]);
    assert_eq!(ocr_text_sources(&sorted), vec!["embedded", "ocr:apple", "ocr:tesseract"]);
    assert_eq!(ocr_cache_label(&eng(true, 12), 12), "12/12 ✓");
    assert_eq!(ocr_cache_label(&eng(false, 3), 12), "3/12 partial");
    assert_eq!(ocr_cache_label(&eng(false, 0), 12), "not cached");
    assert_eq!(ocr_cache_label(&eng(true, -1), 0), "-1/0 ✓");
}

#[test]
fn slugs_are_stable_under_resanitizing() {
    for raw in ["  Moby Dick; or, The Whale  ", "--Hello__World--", "Ünïcode Café", &("ab-".repeat(30))] {
        let once = sanitize_slug(raw);
        assert_eq!(sanitize_slug(&once), once);
    }
}

#[test]
fn importer_reply_is_judged_from_its_json() {
    assert_eq!(importer_reply(br#"{"ok": true, "slug": "x"}"#), Ok(()));
    assert_eq!(importer_reply(br#"{"ok": false, "error": "no text"}"#), Err("no text".to_string()));
    assert_eq!(importer_reply(br#"{"ok": "yes"}"#), Err("import failed".to_string()));
    assert_eq!(importer_reply(b"{}"), Err("import failed".to_string()));
    let e = importer_reply(b"  Traceback: boom\n").unwrap_err();
    assert!(e.starts_with("bad JSON from importer: "));
    assert!(e.ends_with(" \u{2014} Traceback: boom"));
}

#[test]
fn importer_outcome_reports_a_failed_exit() {
    assert_eq!(
        importer_outcome(false, br#"{"ok": true}"#, b"  ModuleNotFoundError: ingest \n"),
        Err("importer failed: ModuleNotFoundError: ingest".to_string())
    );
    assert_eq!(importer_outcome(true, br#"{"ok": true}"#, b"warning"), Ok(()));
}

#[test]
fn bad_json_message_names_error_and_reply() {
    assert_eq!(
        bad_json_message("expected value at line 1 column 1", "  oops \n"),
        "bad JSON from importer: expected value at line 1 column 1 \u{2014} oops"
    );
}
