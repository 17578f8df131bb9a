use rhytm::store::{completed_uids, DedupLedger, InsertOutcome, NewVideo, Video};

fn record(uid: &str) -> NewVideo {
    NewVideo {
        uid: uid.to_string(),
        link: Some(format!("https://example.invalid/{}", uid)),
        title: Some("T".to_string()),
        author: None,
        duration: Some(1),
        description: Some("D".to_string()),
    }
}

#[test]
fn completed_uids_projects_the_rows_in_order() {
    let rows = vec![
        Video {
            id: 1,
            uid: "a".to_string(),
            link: None,
            title: None,
            author: None,
            duration: None,
            description: None,
        },
        Video {
            id: 2,
            uid: "b".to_string(),
            link: Some("l".to_string()),
            title: Some("t".to_string()),
            author: Some("au".to_string()),
            duration: Some(9),
            description: Some("d".to_string()),
        },
    ];
    assert_eq!(completed_uids(&rows), vec!["a".to_string(), "b".to_string()]);
}

#[test]
fn first_insert_is_fresh_second_is_already_recorded() {
    let mut l = DedupLedger::from_completed(Vec::new());
    assert_eq!(l.record_completion(record("u1")), InsertOutcome::Inserted);
    assert_eq!(l.record_completion(record("u1")), InsertOutcome::AlreadyRecorded);
    assert_eq!(l.record_completion(record("u1")), InsertOutcome::AlreadyRecorded);
    assert_eq!(l.appended.len(), 1);
    assert_eq!(l.appended[0].uid, "u1");
}

#[test]
fn uids_loaded_at_startup_count_as_recorded() {
    let mut l = DedupLedger::from_completed(vec!["u1".to_string()]);
    assert!(l.contains_uid(&"u1".to_string()));
    assert!(!l.contains_uid(&"u2".to_string()));
    assert_eq!(l.record_completion(record("u1")), InsertOutcome::AlreadyRecorded);
    assert!(l.appended.is_empty());
}

#[test]
fn distinct_uids_are_all_appended() {
    let mut l = DedupLedger::from_completed(Vec::new());
    assert_eq!(l.record_completion(record("u1")), InsertOutcome::Inserted);
    assert_eq!(l.record_completion(record("u2")), InsertOutcome::Inserted);
    assert_eq!(l.appended.len(), 2);
    assert!(l.contains_uid(&"u1".to_string()));
    assert!(l.contains_uid(&"u2".to_string()));
}
