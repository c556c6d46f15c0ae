use coolwords_ui::catalog::{
    fresh_books, grab_job, grab_notice, results_line, scores_after, source_line, subject_counts, watch_step, WatchStep,
};
use coolwords_ui::catalog::{
    ago, check_source, commas, digest, grab_label, grab_plan, is_live, search_plan, source_label,
    source_status, sources, split_subjects, sync_label, valid_source_id, CatalogError,
    CatalogSourceStatus, CatalogSummary, MAX_GRAB,
};
use coolwords_ui::jobs::{JobProgress, JobStatus};

#[test]
fn labels_known_and_unknown_sources() {
    assert_eq!(sources(), vec!["standardebooks", "gutenberg"]);
    assert_eq!(source_label("standardebooks"), "Standard Ebooks");
    assert_eq!(source_label("gutenberg"), "Project Gutenberg");
    assert_eq!(source_label("elsewhere"), "elsewhere");
}

#[test]
fn check_source_refuses_unknown() {
    assert!(check_source("gutenberg").is_ok());
    match check_source("all") {
        Err(CatalogError::UnknownSource(s)) => assert_eq!(s, "all"),
        other => panic!("unexpected {:?}", other),
    }
}

#[test]
fn source_ids_are_path_fragments() {
    assert!(valid_source_id("2701"));
    assert!(valid_source_id("herman-melville/moby-dick"));
    assert!(!valid_source_id(""));
    assert!(!valid_source_id("/etc/passwd"));
    assert!(!valid_source_id("a/../b"));
    assert!(!valid_source_id("a b"));
    assert!(!valid_source_id(&"x".repeat(201)));
    assert!(valid_source_id(&"x".repeat(200)));
}

#[test]
fn ago_is_coarse() {
    assert_eq!(ago(-5), "just now");
    assert_eq!(ago(90), "just now");
    assert_eq!(ago(91), "1 minute ago");
    assert_eq!(ago(3600), "60 minutes ago");
    assert_eq!(ago(5400), "1 hour ago");
    assert_eq!(ago(172_799), "47 hours ago");
    assert_eq!(ago(172_800), "2 days ago");
    assert_eq!(ago(5_184_000), "2 months ago");
}

#[test]
fn commas_group_digits() {
    assert_eq!(commas(61369), "61,369");
    assert_eq!(commas(0), "0");
    assert_eq!(commas(-1234567), "-1,234,567");
    assert_eq!(commas(i64::MIN), "-9,223,372,036,854,775,808");
}

#[test]
fn summary_empty_until_synced() {
    let empty = CatalogSummary { sources: vec![source_status("gutenberg", 0, 0, None)] };
    assert!(empty.is_empty());
    let s: CatalogSourceStatus = source_status("standardebooks", 12, 3, Some(7200));
    assert_eq!(s.label, "Standard Ebooks");
    assert_eq!(s.synced, "2 hours ago");
    let full = CatalogSummary { sources: vec![s] };
    assert!(!full.is_empty());
}

#[test]
fn subjects_split_and_trim() {
    assert_eq!(split_subjects("Whaling -- Fiction; Sea stories;  ; Adventure"), vec![
        "Whaling -- Fiction".to_string(),
        "Sea stories".to_string(),
        "Adventure".to_string(),
    ]);
    assert!(split_subjects("").is_empty());
}

#[test]
fn search_plan_builds_where_and_order() {
    let p = search_plan("  Moby DICK ", "gutenberg", "Fiction", "relevance", 500, -3).unwrap();
    assert_eq!(p.query, "moby dick");
    assert_eq!(
        p.where_sql,
        " WHERE c.source = ? AND (lower(c.title) LIKE ? OR lower(c.author) LIKE ?) AND ';' || replace(lower(c.subjects), '; ', ';') || ';' LIKE ?"
    );
    assert_eq!(p.params, vec!["gutenberg", "%moby dick%", "%moby dick%", "%;fiction;%"]);
    assert_eq!(p.order_params, vec!["moby dick", "moby dick%", "%moby dick%"]);
    assert!(p.order_sql.starts_with("CASE WHEN lower(c.title) = ?"));
    assert_eq!(p.limit, 200);
    assert_eq!(p.offset, 0);

    let q = search_plan("", "", "", "year", 0, 10).unwrap();
    assert_eq!(q.where_sql, "");
    assert!(q.params.is_empty());
    assert_eq!(q.order_sql, "c.year IS NULL, c.year ASC, c.title COLLATE NOCASE ASC");
    assert_eq!(q.limit, 1);
    assert_eq!(q.offset, 10);

    let t = search_plan("", "", "", "anything", 48, 0).unwrap();
    assert_eq!(t.order_sql, "c.title COLLATE NOCASE ASC");
    assert!(matches!(search_plan("x", "nope", "", "", 1, 0), Err(CatalogError::UnknownSource(_))));
}

#[test]
fn grab_plan_validates_and_dedups() {
    let items = vec![
        ("standardebooks".to_string(), "b/x".to_string()),
        ("gutenberg".to_string(), "2701".to_string()),
        ("standardebooks".to_string(), "a/y".to_string()),
        ("gutenberg".to_string(), "2701".to_string()),
    ];
    let clean = grab_plan(&items).unwrap();
    assert_eq!(clean, vec![
        ("gutenberg".to_string(), "2701".to_string()),
        ("standardebooks".to_string(), "a/y".to_string()),
        ("standardebooks".to_string(), "b/x".to_string()),
    ]);
    assert!(matches!(grab_plan(&vec![]), Err(CatalogError::NothingSelected)));
    let many: Vec<(String, String)> = (0..=MAX_GRAB).map(|i| ("gutenberg".to_string(), i.to_string())).collect();
    assert!(matches!(grab_plan(&many), Err(CatalogError::TooMany(201))));
    let bad = vec![
        ("gutenberg".to_string(), "1".to_string()),
        ("gutenberg".to_string(), "../x".to_string()),
        ("nowhere".to_string(), "2".to_string()),
    ];
    match grab_plan(&bad) {
        Err(CatalogError::BadId(s)) => assert_eq!(s, "../x"),
        other => panic!("unexpected {:?}", other),
    }
    let bad_src = vec![("nowhere".to_string(), "../x".to_string())];
    assert!(matches!(grab_plan(&bad_src), Err(CatalogError::UnknownSource(_))));
}

#[test]
fn digest_is_fnv1a() {
    assert_eq!(digest(""), 0xcbf2_9ce4_8422_2325);
    assert_eq!(digest("a"), 0xaf63_dc4c_8601_ec8c);
    assert_eq!(digest("foobar"), 0x8594_4171_f739_67e8);
}

#[test]
fn job_labels() {
    assert_eq!(sync_label("all").unwrap(), "syncing all catalogs…");
    assert_eq!(sync_label("gutenberg").unwrap(), "syncing Project Gutenberg…");
    assert!(sync_label("x").is_err());
    assert_eq!(grab_label(1), "downloading 1 book…");
    assert_eq!(grab_label(3), "downloading 3 books…");
}

#[test]
fn live_jobs_are_queued_or_running() {
    let mk = |status| JobProgress {
        id: "job-1".to_string(),
        kind: "grab".to_string(),
        book_id: 0,
        tag: String::new(),
        status,
        percent: 0.0f32,
        message: String::new(),
        updated: 0,
    };
    assert!(is_live(&mk(JobStatus::Queued)));
    assert!(is_live(&mk(JobStatus::Running)));
    assert!(!is_live(&mk(JobStatus::Done)));
    assert!(!is_live(&mk(JobStatus::Cancelled)));
}

#[test]
fn subject_counts_rank_then_list_by_name() {
    let rows = vec![
        "Whaling -- Fiction; Sea stories".to_string(),
        " sea stories ;Whaling -- Fiction;;".to_string(),
        "Adventure; Whaling -- Fiction".to_string(),
        "x".repeat(61),
    ];
    let got = subject_counts(&rows);
    assert_eq!(
        got,
        vec![
            ("Adventure".to_string(), 1),
            ("Sea stories".to_string(), 1),
            ("sea stories".to_string(), 1),
            ("Whaling -- Fiction".to_string(), 3),
        ]
    );
}

#[test]
fn subject_counts_keep_the_top_hundred_and_twenty() {
    let mut rows: Vec<String> = Vec::new();
    for i in 0..130 {
        rows.push(format!("s{i:03}"));
    }
    rows.push("s129".to_string());
    let got = subject_counts(&rows);
    assert_eq!(got.len(), 120);
    assert!(got.iter().any(|(n, c)| n == "s129" && *c == 2));
    assert!(got.iter().all(|(n, _)| n.as_str() < "s120" || n == "s129"));
    assert!(!got.iter().any(|(n, _)| n == "s119"));
}

#[test]
fn watcher_waits_then_reports_the_end() {
    assert_eq!(watch_step(Some(JobStatus::Queued)), WatchStep::Wait);
    assert_eq!(watch_step(Some(JobStatus::Running)), WatchStep::Wait);
    assert_eq!(watch_step(Some(JobStatus::Done)), WatchStep::Ended(JobStatus::Done));
    assert_eq!(watch_step(None), WatchStep::Reaped);
    assert!(scores_after(WatchStep::Ended(JobStatus::Failed)));
    assert!(scores_after(WatchStep::Reaped));
    assert!(!scores_after(WatchStep::Ended(JobStatus::Cancelled)));
}

#[test]
fn fresh_books_are_the_new_ones_by_id() {
    let before = vec![("gutenberg".to_string(), "2701".to_string())];
    let after = vec![
        (("gutenberg".to_string(), "2701".to_string()), (7, "moby-dick".to_string())),
        (("gutenberg".to_string(), "1342".to_string()), (9, "pride".to_string())),
        (("standardebooks".to_string(), "a/b".to_string()), (8, "emma".to_string())),
    ];
    assert_eq!(
        fresh_books(&before, after),
        vec![(8, "emma".to_string()), (9, "pride".to_string())]
    );
}

fn src_status(label: &str, rows: i64, imported: i64, synced: &str) -> CatalogSourceStatus {
    CatalogSourceStatus {
        source: "gutenberg".to_string(),
        label: label.to_string(),
        rows,
        imported,
        synced: synced.to_string(),
    }
}

#[test]
fn catalog_page_lines() {
    assert_eq!(source_line(&src_status("Project Gutenberg", 0, 0, "")), "Project Gutenberg: never synced");
    assert_eq!(
        source_line(&src_status("Project Gutenberg", 61369, 12, "")),
        "Project Gutenberg: 61,369 books · 12 imported"
    );
    assert_eq!(
        source_line(&src_status("Standard Ebooks", 1200, 3, "3 hours ago")),
        "Standard Ebooks: 1,200 books · 3 imported · synced 3 hours ago"
    );
    assert_eq!(results_line(0, 1), "1 result");
    assert_eq!(results_line(0, 48213), "48,213 results");
    assert_eq!(results_line(3, 0), "3 selected · 0 results");
    assert_eq!(
        grab_notice(1),
        "queued 1 book — they'll appear in your library as they land, then each is scored in turn."
    );
    assert!(grab_notice(2).starts_with("queued 2 books — "));
}

#[test]
fn grab_job_lists_tags_and_labels_the_selection() {
    let clean = vec![
        ("gutenberg".to_string(), "2701".to_string()),
        ("standardebooks".to_string(), "herman-melville/moby-dick".to_string()),
    ];
    let job = grab_job(&clean).expect("serializable");
    assert_eq!(
        job.list,
        r#"[{"source":"gutenberg","source_id":"2701"},{"source":"standardebooks","source_id":"herman-melville/moby-dick"}]"#
    );
    assert_eq!(job.tag, "c4f0d823db137cbc");
    assert_eq!(job.label, "downloading 2 books…");
    assert_eq!(digest(&job.list), 0xc4f0d823db137cbc);
}

#[test]
fn grab_list_escapes_strings_and_brackets_empty() {
    let odd = vec![("gutenberg".to_string(), "a\"b\\c\nd\u{1}é/".to_string())];
    assert_eq!(
        grab_job(&odd).expect("serializable").list,
        "[{\"source\":\"gutenberg\",\"source_id\":\"a\\\"b\\\\c\\nd\\u0001é/\"}]"
    );
    assert_eq!(grab_job(&Vec::new()).expect("serializable").list, "[]");
}
