use zero2prod::idempotency::IdempotencyStore;
use zero2prod::outbox::{DeliveryTask, Outbox};
use zero2prod::transaction::{CommitError, Storage, Transaction};

fn enqueue(outbox: Outbox, issue_id: u64, recipients: &[&str], now: u64) -> Result<Outbox, Outbox> {
    let mut storage = Storage { idempotency: IdempotencyStore::new(), outbox };
    let mut tx = Transaction::begin(now);
    let named: Vec<String> = recipients.iter().map(|r| r.to_string()).collect();
    storage.outbox.enqueue_batch(issue_id, &named, &mut tx);
    match storage.commit(tx) {
        Ok(()) => Ok(storage.outbox),
        Err(error) => {
            assert_eq!(error, CommitError::Unavailable);
            Err(storage.outbox)
        }
    }
}

fn queue(issue_id: u64, recipients: &[&str]) -> Outbox {
    enqueue(Outbox::new(), issue_id, recipients, 0).unwrap_or_else(|_| panic!("a new queue has room"))
}

fn and_then(outbox: Outbox, issue_id: u64, recipients: &[&str], now: u64) -> Outbox {
    enqueue(outbox, issue_id, recipients, now).unwrap_or_else(|_| panic!("the queue has room"))
}

fn task(task_id: u64, issue_id: u64, recipient: &str, attempt_count: u32, created_at: u64) -> DeliveryTask {
    DeliveryTask {
        task_id,
        issue_id,
        recipient_email: recipient.to_string(),
        attempt_count,
        created_at,
    }
}

#[test]
fn new_outbox_is_empty() {
    let mut outbox = Outbox::new();
    assert!(outbox.is_empty());
    assert_eq!(outbox.len(), 0);
    assert_eq!(outbox.claim_next(1, 0), None);
    assert_eq!(outbox.pending_for_issue(1), 0);
    assert!(outbox.is_complete(1));
}

#[test]
fn committed_batches_get_consecutive_ids() {
    let outbox = and_then(enqueue(Outbox::new(), 5, &["a@x", "b@x"], 100).ok().unwrap(), 6, &["c@x"], 200);
    assert_eq!(outbox.len(), 3);
    assert_eq!(outbox.task(0), Some(task(0, 5, "a@x", 0, 100)));
    assert_eq!(outbox.task(1), Some(task(1, 5, "b@x", 0, 100)));
    assert_eq!(outbox.task(2), Some(task(2, 6, "c@x", 0, 200)));
    assert_eq!(outbox.task(3), None);
    assert_eq!(outbox.pending_for_issue(5), 2);
    assert_eq!(outbox.pending_for_issue(6), 1);
    assert_eq!(outbox.pending_for_issue(7), 0);
}

#[test]
fn an_empty_batch_changes_nothing() {
    let outbox = queue(1, &[]);
    assert!(outbox.is_empty());
    let outbox = and_then(outbox, 1, &["a@x"], 100);
    assert_eq!(outbox.task(0).map(|t| t.task_id), Some(0));
}

#[test]
fn a_batch_without_ids_left_is_refused_whole() {
    let outbox = match enqueue(Outbox::starting_at(u64::MAX - 1), 1, &["a@x", "b@x"], 0) {
        Ok(_) => panic!("the queue has one id left, the batch needs two"),
        Err(outbox) => outbox,
    };
    assert!(outbox.is_empty());
    let outbox = and_then(outbox, 1, &["a@x"], 0);
    assert_eq!(outbox.task(u64::MAX - 1), Some(task(u64::MAX - 1, 1, "a@x", 0, 0)));
    let outbox = match enqueue(outbox, 1, &["b@x"], 0) {
        Ok(_) => panic!("the queue has no id left"),
        Err(outbox) => outbox,
    };
    assert_eq!(outbox.len(), 1);
    let outbox = and_then(outbox, 1, &[], 0);
    assert_eq!(outbox.len(), 1);
}

#[test]
fn a_recipient_named_twice_gets_one_task() {
    let outbox = queue(1, &["a@x", "b@x", "a@x", "c@x", "b@x", "a@x"]);
    assert_eq!(outbox.len(), 3);
    assert_eq!(outbox.task(0), Some(task(0, 1, "a@x", 0, 0)));
    assert_eq!(outbox.task(1), Some(task(1, 1, "b@x", 0, 0)));
    assert_eq!(outbox.task(2), Some(task(2, 1, "c@x", 0, 0)));
    let outbox = and_then(outbox, 2, &["a@x", "a@x"], 0);
    assert_eq!(outbox.len(), 4);
    assert_eq!(outbox.task(3), Some(task(3, 2, "a@x", 0, 0)));
}

#[test]
fn claim_next_hands_out_each_task_once() {
    let mut outbox = queue(1, &["a@x", "b@x", "c@x"]);
    assert_eq!(outbox.claim_next(10, 0), Some(task(0, 1, "a@x", 0, 0)));
    assert_eq!(outbox.claim_next(11, 0), Some(task(1, 1, "b@x", 0, 0)));
    assert_eq!(outbox.claim_next(10, 0), Some(task(2, 1, "c@x", 0, 0)));
    assert_eq!(outbox.claim_next(12, 0), None);
    assert_eq!(outbox.holder(0), Some(10));
    assert_eq!(outbox.holder(1), Some(11));
    assert_eq!(outbox.holder(2), Some(10));
    assert_eq!(outbox.len(), 3);
}

#[test]
fn delete_removes_for_good() {
    let mut outbox = queue(1, &["a@x", "b@x"]);
    assert!(outbox.delete(0));
    assert!(!outbox.delete(0));
    assert!(!outbox.delete(99));
    assert_eq!(outbox.len(), 1);
    assert_eq!(outbox.task(0), None);
    assert_eq!(outbox.claim_next(1, 0), Some(task(1, 1, "b@x", 0, 0)));
    let outbox = and_then(outbox, 1, &["c@x"], 0);
    assert_eq!(outbox.task(2).map(|t| t.recipient_email), Some("c@x".to_string()));
    assert_eq!(outbox.task(0), None);
}

#[test]
fn release_gives_the_task_back() {
    let mut outbox = queue(1, &["a@x"]);
    assert_eq!(outbox.claim_next(10, 5).map(|t| t.task_id), Some(0));
    assert_eq!(outbox.claim_next(11, 5), None);
    outbox.release(0);
    assert_eq!(outbox.holder(0), None);
    assert_eq!(outbox.claim_next(11, 5), Some(task(0, 1, "a@x", 0, 0)));
    assert_eq!(outbox.holder(0), Some(11));
}

#[test]
fn release_is_safe_any_number_of_times() {
    let mut outbox = queue(1, &["a@x", "b@x"]);
    outbox.claim_next(10, 0);
    for _ in 0..4 {
        outbox.release(0);
        outbox.release(1);
        outbox.release(77);
        assert_eq!(outbox.len(), 2);
        assert_eq!(outbox.holder(0), None);
        assert_eq!(outbox.holder(1), None);
        assert_eq!(outbox.task(0), Some(task(0, 1, "a@x", 0, 0)));
        assert_eq!(outbox.task(1), Some(task(1, 1, "b@x", 0, 0)));
    }
}

#[test]
fn defer_counts_the_attempt_and_waits() {
    let mut outbox = queue(1, &["a@x"]);
    outbox.claim_next(10, 100);
    outbox.defer(0, 160);
    assert_eq!(outbox.holder(0), None);
    assert_eq!(outbox.task(0), Some(task(0, 1, "a@x", 1, 0)));
    assert_eq!(outbox.claim_next(10, 159), None);
    assert_eq!(outbox.claim_next(10, 160), Some(task(0, 1, "a@x", 1, 0)));
    outbox.defer(42, 0);
    assert_eq!(outbox.len(), 1);
}

#[test]
fn claim_skips_held_and_waiting_tasks() {
    let mut outbox = queue(1, &["a@x", "b@x", "c@x"]);
    outbox.claim_next(10, 0);
    outbox.defer(0, 50);
    assert_eq!(outbox.claim_next(11, 10).map(|t| t.task_id), Some(1));
    assert_eq!(outbox.claim_next(12, 10).map(|t| t.task_id), Some(2));
    assert_eq!(outbox.claim_next(13, 10), None);
    assert_eq!(outbox.claim_next(13, 50).map(|t| t.task_id), Some(0));
}

#[test]
fn disconnect_frees_only_the_tasks_of_that_worker() {
    let mut outbox = queue(1, &["a@x", "b@x", "c@x"]);
    outbox.claim_next(10, 0);
    outbox.claim_next(11, 0);
    outbox.claim_next(10, 0);
    outbox.disconnect(10);
    assert_eq!(outbox.holder(0), None);
    assert_eq!(outbox.holder(1), Some(11));
    assert_eq!(outbox.holder(2), None);
    assert_eq!(outbox.len(), 3);
    outbox.disconnect(99);
    assert_eq!(outbox.holder(1), Some(11));
}

#[test]
fn a_task_of_a_lost_worker_is_claimed_by_another() {
    let mut outbox = queue(1, &["a@x"]);
    assert_eq!(outbox.claim_next(10, 0).map(|t| t.task_id), Some(0));
    assert_eq!(outbox.claim_next(11, 0), None);
    outbox.disconnect(10);
    assert_eq!(outbox.claim_next(11, 0), Some(task(0, 1, "a@x", 0, 0)));
    assert!(outbox.delete(0));
    assert!(outbox.is_complete(1));
}

#[test]
fn holder_of_a_missing_task_is_none() {
    let outbox = Outbox::new();
    assert_eq!(outbox.holder(0), None);
    assert_eq!(outbox.task(0), None);
}

#[test]
fn enqueue_batch_stages_without_touching_the_queue() {
    let outbox = Outbox::new();
    let mut tx = Transaction::begin(0);
    outbox.enqueue_batch(1, &vec!["a@x".to_string(), "b@x".to_string()], &mut tx);
    assert_eq!(tx.staged_tasks(), 2);
    outbox.enqueue_batch(2, &Vec::new(), &mut tx);
    assert_eq!(tx.staged_tasks(), 2);
    outbox.enqueue_batch(2, &vec!["a@x".to_string(), "c@x".to_string(), "a@x".to_string()], &mut tx);
    assert_eq!(tx.staged_tasks(), 4);
    assert!(outbox.is_empty());
}

#[test]
fn issue_is_complete_when_no_task_of_it_is_left() {
    let mut outbox = and_then(queue(1, &["a@x", "b@x"]), 2, &["a@x"], 0);
    assert!(!outbox.is_complete(1));
    outbox.delete(0);
    assert!(!outbox.is_complete(1));
    assert_eq!(outbox.pending_for_issue(1), 1);
    outbox.delete(1);
    assert!(outbox.is_complete(1));
    assert!(!outbox.is_complete(2));
    assert!(outbox.is_complete(3));
}

#[test]
fn cancel_removes_the_pending_tasks_of_the_issue_only() {
    let mut outbox = and_then(queue(1, &["a@x", "b@x", "c@x"]), 2, &["d@x"], 0);
    assert_eq!(outbox.claim_next(10, 0).map(|t| t.task_id), Some(0));
    outbox.defer(1, 500);
    assert_eq!(outbox.cancel_pending(1), 2);
    assert_eq!(outbox.len(), 2);
    assert_eq!(outbox.task(0), Some(task(0, 1, "a@x", 0, 0)));
    assert_eq!(outbox.holder(0), Some(10));
    assert_eq!(outbox.task(1), None);
    assert_eq!(outbox.task(2), None);
    assert_eq!(outbox.task(3), Some(task(3, 2, "d@x", 0, 0)));
    assert_eq!(outbox.pending_for_issue(1), 1);
    assert_eq!(outbox.cancel_pending(1), 0);
    assert_eq!(outbox.cancel_pending(9), 0);
    assert_eq!(outbox.len(), 2);
    assert!(outbox.delete(0));
    assert!(outbox.is_complete(1));
    assert_eq!(outbox.cancel_pending(2), 1);
    assert!(outbox.is_empty());
    let outbox = and_then(outbox, 1, &["e@x"], 0);
    assert_eq!(outbox.task(4).map(|t| t.recipient_email), Some("e@x".to_string()));
}

#[test]
fn a_worker_that_keeps_delivering_reaches_a_freed_task() {
    let mut outbox = queue(1, &["a@x", "b@x", "c@x", "d@x"]);
    let lost = 10;
    let rescuer = 11;
    outbox.claim_next(rescuer, 0);
    outbox.release(0);
    outbox.claim_next(lost, 0);
    outbox.claim_next(lost, 0);
    outbox.claim_next(lost, 0);
    assert_eq!(outbox.holder(2), Some(lost));
    outbox.disconnect(lost);
    let mut rounds = 0;
    while outbox.task(2).is_some() {
        let claimed = outbox.claim_next(rescuer, 0).expect("the freed tasks can be claimed");
        assert!(outbox.delete(claimed.task_id));
        rounds += 1;
    }
    assert_eq!(rounds, 3);
    assert_eq!(outbox.len(), 1);
    assert_eq!(outbox.task(3).map(|t| t.recipient_email), Some("d@x".to_string()));
}
