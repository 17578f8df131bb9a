use rhytm::progress::{ProgressSink, StatusReport};
use rhytm::store::{DedupLedger, InsertOutcome};

fn report(status: &str, real: bool, uid: &str) -> StatusReport {
    StatusReport {
        status: status.to_string(),
        downloaded_bytes: 512,
        total_bytes: Some(2048),
        total_bytes_estimate: None,
        eta_seconds: Some(3),
        real_download: real,
        title: "Title".to_string(),
        uploader: "Uploader".to_string(),
        creator: None,
        artist: Some("Artist".to_string()),
        display_id: uid.to_string(),
        webpage_url: format!("https://example.invalid/watch?v={}", uid),
        description: "About".to_string(),
        duration: 212,
        thumbnails: Vec::new(),
    }
}

#[test]
fn finished_real_download_records_exactly_one_completion() {
    let mut sink = ProgressSink::new();
    let mut store = DedupLedger::from_completed(Vec::new());
    let r = report("finished", true, "abc123");
    let outcome = sink.on_status(7, &r, &mut store);
    assert_eq!(outcome, Some(InsertOutcome::Inserted));
    let matching: Vec<_> = store.appended.iter().filter(|v| v.uid == "abc123").collect();
    assert_eq!(matching.len(), 1);
    let rec = matching[0];
    assert_eq!(rec.title.as_deref(), Some("Title"));
    assert_eq!(rec.author.as_deref(), Some("Artist"));
    assert_eq!(rec.duration, Some(212));
    assert_eq!(rec.description.as_deref(), Some("About"));
    assert_eq!(rec.link.as_deref(), Some("https://example.invalid/watch?v=abc123"));
}

#[test]
fn repeating_the_same_completion_is_harmless() {
    let mut sink = ProgressSink::new();
    let mut store = DedupLedger::from_completed(Vec::new());
    let r = report("finished", true, "abc123");
    assert_eq!(sink.on_status(7, &r, &mut store), Some(InsertOutcome::Inserted));
    assert_eq!(sink.on_status(7, &r, &mut store), Some(InsertOutcome::AlreadyRecorded));
    assert_eq!(store.appended.len(), 1);
}

#[test]
fn simulated_or_unfinished_reports_write_nothing() {
    let mut sink = ProgressSink::new();
    let mut store = DedupLedger::from_completed(Vec::new());
    assert_eq!(sink.on_status(1, &report("downloading", true, "a"), &mut store), None);
    assert_eq!(sink.on_status(1, &report("finished", false, "a"), &mut store), None);
    assert_eq!(sink.on_status(1, &report("error", true, "a"), &mut store), None);
    assert!(store.appended.is_empty());
}

#[test]
fn a_uid_already_in_the_store_reports_already_recorded() {
    let mut sink = ProgressSink::new();
    let mut store = DedupLedger::from_completed(vec!["abc123".to_string()]);
    let r = report("finished", true, "abc123");
    assert_eq!(sink.on_status(2, &r, &mut store), Some(InsertOutcome::AlreadyRecorded));
    assert!(store.appended.is_empty());
}

#[test]
fn status_updates_label_and_counters() {
    let mut sink = ProgressSink::new();
    let mut store = DedupLedger::from_completed(Vec::new());
    sink.on_status(4, &report("downloading", true, "xyz"), &mut store);
    let snap = sink.snapshot(4).expect("entry exists");
    assert_eq!(snap.label, "Uploader - Title [xyz]");
    assert_eq!(snap.downloaded, 512);
    assert_eq!(snap.total, 2048);
}

#[test]
fn creator_takes_precedence_over_uploader_in_the_label() {
    let mut sink = ProgressSink::new();
    let mut store = DedupLedger::from_completed(Vec::new());
    let mut r = report("downloading", true, "xyz");
    r.creator = Some("Creator".to_string());
    sink.on_status(4, &r, &mut store);
    assert_eq!(sink.snapshot(4).unwrap().label, "Creator - Title [xyz]");
}

#[test]
fn estimate_stands_in_when_the_exact_total_is_unknown() {
    let mut sink = ProgressSink::new();
    let mut store = DedupLedger::from_completed(Vec::new());
    let mut r = report("downloading", true, "xyz");
    r.total_bytes = None;
    r.total_bytes_estimate = Some(999);
    sink.on_status(4, &r, &mut store);
    assert_eq!(sink.snapshot(4).unwrap().total, 999);
    r.total_bytes_estimate = None;
    sink.on_status(4, &r, &mut store);
    assert_eq!(sink.snapshot(4).unwrap().total, 0);
}

#[test]
fn download_start_switches_the_display_to_determinate() {
    let mut sink = ProgressSink::new();
    sink.register(5);
    assert!(!sink.snapshot(5).unwrap().determinate);
    sink.on_download_start(5);
    assert!(sink.snapshot(5).unwrap().determinate);
}

#[test]
fn completion_switches_the_display_back_to_indeterminate() {
    let mut sink = ProgressSink::new();
    let mut store = DedupLedger::from_completed(Vec::new());
    sink.on_download_start(6);
    sink.on_status(6, &report("downloading", true, "k"), &mut store);
    assert!(sink.snapshot(6).unwrap().determinate);
    sink.on_status(6, &report("finished", true, "k"), &mut store);
    assert!(!sink.snapshot(6).unwrap().determinate);
}

#[test]
fn progress_state_is_partitioned_per_worker() {
    let mut sink = ProgressSink::new();
    let mut store = DedupLedger::from_completed(Vec::new());
    sink.on_status(1, &report("downloading", true, "a"), &mut store);
    sink.on_status(2, &report("downloading", true, "b"), &mut store);
    assert_eq!(sink.snapshot(1).unwrap().label, "Uploader - Title [a]");
    assert_eq!(sink.snapshot(2).unwrap().label, "Uploader - Title [b]");
    assert!(sink.snapshot(3).is_none());
}

#[test]
fn register_keeps_an_existing_entry() {
    let mut sink = ProgressSink::new();
    let mut store = DedupLedger::from_completed(Vec::new());
    sink.on_status(1, &report("downloading", true, "a"), &mut store);
    sink.register(1);
    assert_eq!(sink.snapshot(1).unwrap().label, "Uploader - Title [a]");
    sink.register(9);
    let fresh = sink.snapshot(9).unwrap();
    assert_eq!(fresh.label, "");
    assert_eq!(fresh.downloaded, 0);
    assert_eq!(fresh.total, 10000);
}
