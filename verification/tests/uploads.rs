use relayfs::bridge::uploads::{DrainStatus, SendOutcome, UploadQueue, CHUNK_MAX, WRITE_WINDOW};

fn paths(list: &[&str]) -> Vec<String> {
    list.iter().map(|s| s.to_string()).collect()
}

#[test]
fn writes_are_coalesced_and_sent_once() {
    let mut q = UploadQueue::new();
    q.enqueue("/f", 0, 10);
    q.enqueue("/f", 10, 20);
    q.enqueue("/f", 5, 15);
    assert_eq!(q.drain_status(&paths(&["/f"]), 0, false), DrainStatus::Waiting);
    assert_eq!(q.take_batch(0), vec![("/f".to_string(), (0, 20))]);
    assert!(q.take_batch(0).is_empty());
    assert_eq!(q.drain_status(&paths(&["/f"]), 0, false), DrainStatus::Waiting);
    q.finish("/f", (0, 20), SendOutcome::Sent, 5);
    assert_eq!(q.drain_status(&paths(&["/f"]), 0, false), DrainStatus::Drained);
    assert_eq!(q.error_count(), 0);
}

#[test]
fn sends_are_chunked_and_fill_the_window() {
    let mut q = UploadQueue::new();
    q.enqueue("/f", 0, WRITE_WINDOW + 5);
    let batch = q.take_batch(0);
    assert_eq!(batch.len() as u64, WRITE_WINDOW / CHUNK_MAX);
    assert_eq!(batch[0].1, (0, CHUNK_MAX));
    assert_eq!(batch.last().unwrap().1 .1, WRITE_WINDOW);
    assert!(q.take_batch(0).is_empty());
    assert!(q.has_room(u64::MAX - WRITE_WINDOW - 5));
    assert!(!q.has_room(u64::MAX - WRITE_WINDOW - 4));
    assert!(q.is_below(5));
    assert!(!q.is_below(4));
    q.finish("/f", (0, CHUNK_MAX), SendOutcome::Sent, 0);
    assert_eq!(q.take_batch(0), vec![("/f".to_string(), (WRITE_WINDOW, WRITE_WINDOW + 5))]);
}

#[test]
fn rewrites_wait_for_the_send_in_flight() {
    let mut q = UploadQueue::new();
    q.enqueue("/f", 0, 10);
    q.enqueue("/g", 0, 4);
    let batch = q.take_batch(0);
    assert_eq!(batch.len(), 2);
    q.enqueue("/f", 5, 12);
    // Blocked: the rewrite must not overtake the first write.
    assert!(q.take_batch(0).is_empty());
    q.finish("/g", (0, 4), SendOutcome::Sent, 0);
    assert!(q.take_batch(0).is_empty());
    q.finish("/f", (0, 10), SendOutcome::Sent, 0);
    assert_eq!(q.take_batch(0), vec![("/f".to_string(), (5, 12))]);
}

#[test]
fn a_transient_failure_is_retried_with_backoff() {
    let mut q = UploadQueue::new();
    q.enqueue("/f", 0, 10);
    q.take_batch(1000);
    q.finish("/f", (0, 10), SendOutcome::Retry, 1000);
    assert_eq!(q.error_count(), 1);
    assert_eq!(q.drain_status(&paths(&["/f"]), 0, false), DrainStatus::Failed);
    assert_eq!(q.drain_status(&paths(&["/f"]), 1, false), DrainStatus::Waiting);
    assert!(q.take_batch(1199).is_empty());
    assert_eq!(q.take_batch(1200), vec![("/f".to_string(), (0, 10))]);
    q.finish("/f", (0, 10), SendOutcome::Retry, 1200);
    assert!(q.take_batch(1599).is_empty());
    assert_eq!(q.take_batch(1600).len(), 1);
    for _ in 0..5 {
        q.finish("/f", (0, 10), SendOutcome::Retry, 5000);
        assert_eq!(q.take_batch(7000).len(), 1);
    }
    q.finish("/f", (0, 10), SendOutcome::Retry, 10_000);
    assert!(q.take_batch(11_999).is_empty());
    assert_eq!(q.take_batch(12_000).len(), 1);
    q.finish("/f", (0, 10), SendOutcome::Sent, 12_000);
    assert_eq!(q.drain_status(&paths(&["/f"]), q.error_count(), false), DrainStatus::Drained);
}

#[test]
fn a_dropped_send_fails_the_drain_that_waits() {
    let mut q = UploadQueue::new();
    q.enqueue("/f", 0, 10);
    q.take_batch(0);
    q.finish("/f", (0, 10), SendOutcome::Drop, 0);
    assert_eq!(q.drain_status(&paths(&["/f"]), 0, false), DrainStatus::Failed);
    assert_eq!(q.drain_status(&paths(&["/f"]), 1, false), DrainStatus::Drained);
}

#[test]
fn a_drain_looks_at_its_paths_only() {
    let mut q = UploadQueue::new();
    q.enqueue("/f", 0, 10);
    assert_eq!(q.drain_status(&paths(&["/g"]), 0, false), DrainStatus::Drained);
    assert_eq!(q.drain_status(&paths(&["/g", "/f"]), 0, false), DrainStatus::Waiting);
    assert_eq!(q.drain_status(&paths(&["/g", "/f"]), 0, true), DrainStatus::Failed);
    assert_eq!(q.drain_status(&paths(&[]), 0, false), DrainStatus::Drained);
}

#[test]
fn paths_are_the_same_by_their_parts() {
    let mut q = UploadQueue::new();
    q.enqueue_upload("/d//f", 0, 4);
    q.enqueue_upload("/d/./f", 4, 4);
    q.enqueue_upload("/d/f", 9, 0);
    assert_eq!(q.drain_status(&paths(&["/d/f/"]), 0, false), DrainStatus::Waiting);
    assert_eq!(q.drain_status(&paths(&["/d"]), 0, false), DrainStatus::Drained);
    // It is sent as it was first written.
    assert_eq!(q.take_batch(0), vec![("/d//f".to_string(), (0, 8))]);
    q.enqueue("/d/f", 20, 24);
    assert_eq!(q.take_batch(0), vec![("/d/f".to_string(), (20, 24))]);
    q.finish("/d/./f", (0, 8), SendOutcome::Retry, 0);
    q.finish("/d/f", (20, 24), SendOutcome::Sent, 0);
    assert_eq!(q.take_batch(0), vec![("/d/./f".to_string(), (0, 8))]);
}

#[test]
fn an_outcome_without_a_send_counts() {
    let mut q = UploadQueue::new();
    q.finish("/f", (0, 4), SendOutcome::Drop, 0);
    assert_eq!(q.error_count(), 1);
    assert!(q.is_below(0));
    q.finish("/f", (0, 4), SendOutcome::Retry, 0);
    assert_eq!(q.error_count(), 2);
    assert!(q.take_batch(199).is_empty());
    assert_eq!(q.take_batch(200), vec![("/f".to_string(), (0, 4))]);
    // Another range of the same file is in flight, and stays so.
    q.finish("/f", (2, 3), SendOutcome::Sent, 200);
    assert_eq!(q.drain_status(&paths(&["/f"]), 2, false), DrainStatus::Waiting);
    q.finish("/f", (2, 6), SendOutcome::Retry, 200);
    // What overlaps a send in flight waits for it.
    assert!(q.take_batch(5000).is_empty());
    q.finish("/f", (0, 4), SendOutcome::Sent, 5000);
    assert_eq!(q.take_batch(5000), vec![("/f".to_string(), (2, 6))]);
}

#[test]
fn an_empty_write_is_nothing() {
    let mut q = UploadQueue::new();
    q.enqueue("/f", 7, 7);
    q.enqueue("/f", 9, 3);
    assert!(q.take_batch(0).is_empty());
    assert!(q.is_below(0));
}
