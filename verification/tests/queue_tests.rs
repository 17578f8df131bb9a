use rhytm::queue::{filter_new_jobs, BatchQueue};

fn jobs(names: &[&str]) -> Vec<String> {
    names.iter().map(|n| n.to_string()).collect()
}

#[test]
fn twelve_jobs_at_batch_size_five_give_three_batches_then_exhaustion() {
    let names: Vec<String> = (1..=12).map(|i| format!("v{}", i)).collect();
    let mut q = BatchQueue::new(names.clone(), 5);
    let b1 = q.draw_next().expect("first batch");
    let b2 = q.draw_next().expect("second batch");
    let b3 = q.draw_next().expect("third batch");
    assert_eq!(b1, names[0..5].to_vec());
    assert_eq!(b2, names[5..10].to_vec());
    assert_eq!(b3, names[10..12].to_vec());
    assert_eq!(q.draw_next(), None);
    assert_eq!(q.draw_next(), None);
}

#[test]
fn evenly_divisible_list_has_full_last_batch() {
    let mut q = BatchQueue::new(jobs(&["a", "b", "c", "d"]), 2);
    assert_eq!(q.draw_next(), Some(jobs(&["a", "b"])));
    assert_eq!(q.draw_next(), Some(jobs(&["c", "d"])));
    assert_eq!(q.draw_next(), None);
}

#[test]
fn batch_larger_than_list_returns_everything_at_once() {
    let mut q = BatchQueue::new(jobs(&["a", "b"]), 10);
    assert_eq!(q.draw_next(), Some(jobs(&["a", "b"])));
    assert_eq!(q.draw_next(), None);
}

#[test]
fn empty_list_is_exhausted_from_the_start() {
    let mut q = BatchQueue::new(Vec::new(), 5);
    assert!(q.is_exhausted());
    assert_eq!(q.draw_next(), None);
}

#[test]
fn batch_size_one_hands_out_single_jobs() {
    let mut q = BatchQueue::new(jobs(&["a", "b", "c"]), 1);
    assert_eq!(q.draw_next(), Some(jobs(&["a"])));
    assert_eq!(q.draw_next(), Some(jobs(&["b"])));
    assert_eq!(q.draw_next(), Some(jobs(&["c"])));
    assert_eq!(q.draw_next(), None);
}

#[test]
fn all_batches_together_recover_the_job_list_exactly_once() {
    let names: Vec<String> = (1..=23).map(|i| format!("v{}", i)).collect();
    let mut q = BatchQueue::new(names.clone(), 7);
    let mut collected: Vec<String> = Vec::new();
    let mut count = 0;
    while let Some(batch) = q.draw_next() {
        assert!(!batch.is_empty());
        assert!(batch.len() <= 7);
        collected.extend(batch);
        count += 1;
    }
    assert_eq!(count, 4); // ceil(23 / 7)
    assert_eq!(collected, names);
}

#[test]
fn filtering_drops_completed_jobs_and_keeps_order() {
    let raw = jobs(&["v1", "x", "v2", "x", "v3"]);
    let completed = jobs(&["x", "y"]);
    assert_eq!(filter_new_jobs(&raw, &completed), jobs(&["v1", "v2", "v3"]));
}

#[test]
fn queue_built_from_filtered_list_never_yields_a_completed_job() {
    let raw = jobs(&["v1", "v2", "x", "v3", "v4", "x", "v5"]);
    let completed = jobs(&["x"]);
    let mut q = BatchQueue::build_filtered(raw, &completed, 2);
    while let Some(batch) = q.draw_next() {
        assert!(!batch.contains(&"x".to_string()));
    }
}

#[test]
fn filtering_everything_leaves_an_exhausted_queue() {
    let raw = jobs(&["x", "x"]);
    let completed = jobs(&["x"]);
    let mut q = BatchQueue::build_filtered(raw, &completed, 5);
    assert_eq!(q.draw_next(), None);
}
