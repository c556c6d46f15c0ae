use coolwords_ui::jobs::{
    begin_run, cancel, cancel_all, cancel_requested, find_live, finish, list, new_registry, note_progress,
    outcome, parse_progress, set_pid, start, status, thousands, FractionOf, JobOutcome, JobStatus, Progress,
};

#[test]
fn duplicate_start_returns_live_job() {
    let mut jobs = new_registry::<f32>();
    let (a, fresh) = start(&mut jobs, "ocr", 7, "tesseract", "OCR (tesseract)…", 0.0, 100);
    assert!(fresh);
    assert_eq!(a, "job-1");
    let (b, fresh2) = start(&mut jobs, "ocr", 7, "tesseract", "OCR again", 0.0, 101);
    assert!(!fresh2);
    assert_eq!(b, a);
    let (c, fresh3) = start(&mut jobs, "ocr", 7, "paddle", "OCR (paddle)…", 0.0, 102);
    assert!(fresh3);
    assert_eq!(c, "job-2");
    assert_eq!(find_live(&jobs, 7, "ocr", "tesseract"), Some("job-1".to_string()));
    assert_eq!(find_live(&jobs, 8, "ocr", "tesseract"), None);
}

#[test]
fn lifecycle_and_cancel() {
    let mut jobs = new_registry::<f32>();
    let (id, _) = start(&mut jobs, "grab", 0, "abc", "downloading 2 books…", 0.0, 10);
    assert!(!cancel_requested(&jobs, &id));
    assert!(begin_run(&mut jobs, &id, 11));
    set_pid(&mut jobs, &id, Some(4242));
    note_progress(&mut jobs, &id, Some(0.5), Some("1/2 Moby Dick".to_string()), 12);
    let p = status(&mut jobs, &id, 12).unwrap();
    assert_eq!(p.status, JobStatus::Running);
    assert_eq!(p.message, "1/2 Moby Dick");
    assert_eq!(p.percent, 0.5);
    assert_eq!(cancel(&mut jobs, &id, 13), Some(4242));
    assert!(cancel_requested(&jobs, &id));
    assert_eq!(status(&mut jobs, &id, 13).unwrap().status, JobStatus::Cancelled);
    // a finished job can't be cancelled again, nor its pid killed twice
    assert_eq!(cancel(&mut jobs, &id, 14), None);
    // unknown ids read as cancelled so a runner stops
    assert!(cancel_requested(&jobs, "job-99"));
}

#[test]
fn finished_jobs_are_reaped_after_ten_minutes() {
    let mut jobs = new_registry::<f32>();
    let (id, _) = start(&mut jobs, "trajectory", 0, "", "refreshing usage charts…", 0.0, 1000);
    assert!(begin_run(&mut jobs, &id, 1000));
    finish(&mut jobs, &id, JobOutcome::Done, 1.0, 1000);
    assert_eq!(status(&mut jobs, &id, 1600).unwrap().status, JobStatus::Done);
    assert!(status(&mut jobs, &id, 1601).is_none());
}

#[test]
fn list_orders_running_queued_finished() {
    let mut jobs = new_registry::<f32>();
    let (a, _) = start(&mut jobs, "rescore", 1, "", "scoring a…", 0.0, 10);
    let (b, _) = start(&mut jobs, "rescore", 2, "", "scoring b…", 0.0, 20);
    let (c, _) = start(&mut jobs, "rescore", 3, "", "scoring c…", 0.0, 30);
    assert!(begin_run(&mut jobs, &a, 40));
    finish(&mut jobs, &a, JobOutcome::Failed("boom".to_string()), 1.0, 41);
    assert!(begin_run(&mut jobs, &c, 42));
    let ids: Vec<String> = list(&mut jobs, 50).into_iter().map(|p| p.id).collect();
    assert_eq!(ids, vec![c.clone(), b.clone(), a.clone()]);
    let pids = cancel_all(&mut jobs, "rescore", 60);
    assert!(pids.is_empty());
    assert!(list(&mut jobs, 61).iter().all(|p| p.status != JobStatus::Running && p.status != JobStatus::Queued));
}

#[test]
fn outcome_reads_last_json_line() {
    assert!(matches!(outcome(true, true, "{\"ok\": true}"), JobOutcome::Cancelled));
    assert!(matches!(outcome(false, true, "progress\n{\"ok\": true}\n"), JobOutcome::Done));
    assert!(matches!(outcome(false, true, "noise\n{\"ok\": false, \"error\": \"no text\"}"), JobOutcome::Failed(ref m) if m == "no text"));
    assert!(matches!(outcome(false, false, "not json"), JobOutcome::Failed(ref m) if m == "failed"));
    assert!(matches!(outcome(false, true, "not json"), JobOutcome::Done));
}

#[test]
fn progress_lines_by_kind() {
    match parse_progress("ocr", "ocr[tesseract] page 12 (12/277)") {
        Some(Progress::Fraction { done, total, of: FractionOf::OcrPage }) => {
            assert_eq!(done, "12");
            assert_eq!(total, "277");
        },
        _ => panic!("ocr line"),
    }
    match parse_progress("reingest", "reingest: score") {
        Some(Progress::Step { percent, message }) => {
            assert_eq!(percent, 60);
            assert_eq!(message, "re-ingesting: score");
        },
        _ => panic!("reingest line"),
    }
    assert!(parse_progress("reingest", "something else").is_none());
    assert_eq!(thousands(42000), "42,000");
}
