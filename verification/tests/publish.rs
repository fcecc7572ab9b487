use zero2prod::idempotency::{IdempotencyStore, SaveError};
use zero2prod::outbox::{DeliveryTask, Outbox};
use zero2prod::publish::{
    after_check, after_commit, after_recheck, publish, HandlerState, Lookup, PublishCommand,
    PublishError, PublishHandler, PublishOutcome,
};
use zero2prod::response::{Header, SavedResponse};
use zero2prod::transaction::{CommitError, Storage, Transaction};

fn response(tag: &str) -> SavedResponse {
    SavedResponse::new(
        303,
        vec![Header { name: "Location".to_string(), value: b"/admin/newsletters".to_vec() }],
        tag.as_bytes().to_vec(),
    )
}

fn command(actor_id: u64, key: &str, issue_id: u64, recipients: &[&str], tag: &str) -> PublishCommand {
    PublishCommand {
        actor_id,
        idempotency_key: key.to_string(),
        issue_id,
        recipients: recipients.iter().map(|r| r.to_string()).collect(),
        response: response(tag),
    }
}

fn accepted(outcome: &PublishOutcome) -> bool {
    matches!(outcome, PublishOutcome::Accepted(_))
}

#[test]
fn first_submission_is_executed() {
    let mut storage = Storage::new();
    let outcome = publish(&mut storage, command(1, "k1", 9, &["a@x", "b@x"], "first"), 50);
    assert!(matches!(&outcome, PublishOutcome::Accepted(r) if *r == response("first")));
    assert_eq!(outcome.response(), Some(&response("first")));
    assert_eq!(storage.idempotency.check(1, &"k1".to_string()), Some(response("first")));
    assert_eq!(storage.idempotency.saved_at(1, &"k1".to_string()), Some(50));
    assert_eq!(storage.outbox.len(), 2);
    assert_eq!(
        storage.outbox.task(0),
        Some(DeliveryTask {
            task_id: 0,
            issue_id: 9,
            recipient_email: "a@x".to_string(),
            attempt_count: 0,
            created_at: 50,
        })
    );
    assert_eq!(storage.outbox.task(1).map(|t| t.recipient_email), Some("b@x".to_string()));
}

#[test]
fn replay_returns_the_saved_response_and_changes_nothing() {
    let mut storage = Storage::new();
    publish(&mut storage, command(1, "k1", 9, &["a@x", "b@x"], "first"), 50);
    let outcome = publish(&mut storage, command(1, "k1", 9, &["a@x", "b@x"], "second"), 60);
    assert!(matches!(&outcome, PublishOutcome::Replayed(r) if *r == response("first")));
    assert_eq!(outcome.response(), Some(&response("first")));
    assert_eq!(storage.outbox.len(), 2);
    assert_eq!(storage.idempotency.len(), 1);
    assert_eq!(storage.idempotency.saved_at(1, &"k1".to_string()), Some(50));
}

#[test]
fn other_key_or_other_actor_is_a_new_command() {
    let mut storage = Storage::new();
    assert!(accepted(&publish(&mut storage, command(1, "k1", 9, &["a@x"], "r1"), 0)));
    assert!(accepted(&publish(&mut storage, command(1, "k2", 9, &["a@x"], "r2"), 0)));
    assert!(accepted(&publish(&mut storage, command(2, "k1", 9, &["a@x"], "r3"), 0)));
    assert_eq!(storage.outbox.len(), 3);
    assert_eq!(storage.idempotency.len(), 3);
    assert_eq!(storage.idempotency.check(2, &"k1".to_string()), Some(response("r3")));
}

#[test]
fn command_without_recipients_is_accepted_with_no_tasks() {
    let mut storage = Storage::new();
    let outcome = publish(&mut storage, command(1, "k1", 9, &[], "none"), 0);
    assert!(accepted(&outcome));
    assert!(storage.outbox.is_empty());
    assert!(storage.outbox.is_complete(9));
    assert_eq!(storage.idempotency.check(1, &"k1".to_string()), Some(response("none")));
    let again = publish(&mut storage, command(1, "k1", 9, &[], "none"), 1);
    assert!(matches!(&again, PublishOutcome::Replayed(r) if *r == response("none")));
}

#[test]
fn command_fails_whole_when_the_queue_has_no_ids_left() {
    let mut storage =
        Storage { idempotency: IdempotencyStore::new(), outbox: Outbox::starting_at(u64::MAX - 1) };
    let outcome = publish(&mut storage, command(1, "k1", 9, &["a@x", "b@x"], "r"), 0);
    assert!(matches!(outcome, PublishOutcome::Failed(PublishError::StorageUnavailable)));
    assert_eq!(outcome.response(), None);
    assert!(storage.outbox.is_empty());
    assert_eq!(storage.idempotency.len(), 0);
    assert_eq!(storage.idempotency.check(1, &"k1".to_string()), None);
    let retried = publish(&mut storage, command(1, "k1", 9, &["a@x"], "r"), 0);
    assert!(accepted(&retried));
    assert_eq!(storage.outbox.len(), 1);
}

#[test]
fn commit_writes_everything_that_was_staged() {
    let mut storage = Storage::new();
    let mut tx = Transaction::begin(5);
    storage.outbox.enqueue_batch(1, &vec!["a@x".to_string(), "b@x".to_string()], &mut tx);
    assert_eq!(storage.idempotency.save(1, "k1".to_string(), response("r1"), &mut tx), Ok(()));
    assert_eq!(storage.idempotency.save(1, "k2".to_string(), response("r2"), &mut tx), Ok(()));
    storage.outbox.enqueue_batch(2, &vec!["c@x".to_string()], &mut tx);
    assert_eq!(storage.commit(tx), Ok(()));
    assert_eq!(storage.idempotency.len(), 2);
    assert_eq!(storage.idempotency.check(1, &"k1".to_string()), Some(response("r1")));
    assert_eq!(storage.idempotency.check(1, &"k2".to_string()), Some(response("r2")));
    assert_eq!(storage.idempotency.saved_at(1, &"k2".to_string()), Some(5));
    assert_eq!(storage.outbox.len(), 3);
    assert_eq!(storage.outbox.pending_for_issue(1), 2);
    assert_eq!(storage.outbox.task(2).map(|t| (t.issue_id, t.recipient_email, t.created_at)), Some((2, "c@x".to_string(), 5)));
}

#[test]
fn transaction_that_is_never_committed_leaves_no_trace() {
    let storage = Storage::new();
    {
        let mut tx = Transaction::begin(5);
        storage.outbox.enqueue_batch(1, &vec!["a@x".to_string(), "b@x".to_string()], &mut tx);
        assert_eq!(tx.staged_tasks(), 2);
        assert!(storage.outbox.is_empty());
        assert_eq!(storage.idempotency.len(), 0);
        assert_eq!(storage.idempotency.save(1, "k1".to_string(), response("r1"), &mut tx), Ok(()));
    }
    assert!(storage.outbox.is_empty());
    assert_eq!(storage.idempotency.len(), 0);
    assert_eq!(storage.idempotency.check(1, &"k1".to_string()), None);
}

#[test]
fn commit_that_loses_the_race_writes_nothing() {
    let mut storage = Storage::new();
    let mut loser = Transaction::begin(5);
    storage.outbox.enqueue_batch(1, &vec!["a@x".to_string(), "b@x".to_string()], &mut loser);
    assert_eq!(storage.idempotency.save(1, "other".to_string(), response("o"), &mut loser), Ok(()));
    assert_eq!(storage.idempotency.save(1, "k1".to_string(), response("late"), &mut loser), Ok(()));
    assert!(accepted(&publish(&mut storage, command(1, "k1", 1, &["a@x", "b@x"], "winner"), 6)));
    assert_eq!(storage.commit(loser), Err(CommitError::Conflict));
    assert_eq!(storage.outbox.len(), 2);
    assert_eq!(storage.idempotency.len(), 1);
    assert_eq!(storage.idempotency.check(1, &"other".to_string()), None);
    assert_eq!(storage.idempotency.check(1, &"k1".to_string()), Some(response("winner")));
    let mut late = Transaction::begin(7);
    assert_eq!(
        storage.idempotency.save(1, "k1".to_string(), response("late"), &mut late),
        Err(SaveError::Conflict)
    );
}

#[test]
fn commit_without_ids_left_writes_nothing() {
    let mut storage =
        Storage { idempotency: IdempotencyStore::new(), outbox: Outbox::starting_at(u64::MAX) };
    let mut tx = Transaction::begin(5);
    storage.outbox.enqueue_batch(1, &vec!["a@x".to_string()], &mut tx);
    assert_eq!(storage.idempotency.save(1, "k1".to_string(), response("r1"), &mut tx), Ok(()));
    assert_eq!(storage.commit(tx), Err(CommitError::Unavailable));
    assert!(storage.outbox.is_empty());
    assert_eq!(storage.idempotency.len(), 0);
    let mut records_only = Transaction::begin(6);
    assert_eq!(storage.idempotency.save(1, "k1".to_string(), response("r1"), &mut records_only), Ok(()));
    assert_eq!(storage.commit(records_only), Ok(()));
    assert_eq!(storage.idempotency.len(), 1);
}

#[test]
fn empty_transaction_commits_to_nothing() {
    let mut storage = Storage::new();
    let tx = Transaction::begin(5);
    assert_eq!(tx.staged_tasks(), 0);
    assert_eq!(tx.staged_records(), 0);
    assert_eq!(storage.commit(tx), Ok(()));
    assert!(storage.outbox.is_empty());
    assert_eq!(storage.idempotency.len(), 0);
}

#[test]
fn handler_decisions_after_each_answer() {
    assert!(matches!(
        after_check(Lookup::Found(response("saved"))),
        HandlerState::Done(PublishOutcome::Replayed(r)) if r == response("saved")
    ));
    assert!(matches!(after_check(Lookup::Unseen), HandlerState::Staged));
    assert!(matches!(
        after_check(Lookup::Unavailable),
        HandlerState::Done(PublishOutcome::Failed(PublishError::StorageUnavailable))
    ));
    assert!(matches!(
        after_commit(Ok(()), response("fresh")),
        HandlerState::Done(PublishOutcome::Accepted(r)) if r == response("fresh")
    ));
    assert!(matches!(after_commit(Err(CommitError::Conflict), response("fresh")), HandlerState::Raced));
    assert!(matches!(
        after_commit(Err(CommitError::Unavailable), response("fresh")),
        HandlerState::Done(PublishOutcome::Failed(PublishError::StorageUnavailable))
    ));
    assert!(matches!(
        after_recheck(Lookup::Found(response("saved"))),
        HandlerState::Done(PublishOutcome::Replayed(r)) if r == response("saved")
    ));
    assert!(matches!(
        after_recheck(Lookup::Unseen),
        HandlerState::Done(PublishOutcome::Failed(PublishError::RaceUnresolved))
    ));
    assert!(matches!(
        after_recheck(Lookup::Unavailable),
        HandlerState::Done(PublishOutcome::Failed(PublishError::StorageUnavailable))
    ));
}

#[test]
fn handler_advances_step_by_step() {
    let mut storage = Storage::new();
    let mut handler = PublishHandler::new(command(1, "k1", 9, &["a@x"], "r"));
    assert!(!handler.is_done());
    assert!(handler.outcome().is_none());
    handler.advance(&mut storage, 0);
    assert!(!handler.is_done());
    assert!(storage.outbox.is_empty());
    assert_eq!(storage.idempotency.len(), 0);
    handler.advance(&mut storage, 1);
    assert!(handler.is_done());
    assert!(matches!(handler.outcome(), Some(PublishOutcome::Accepted(r)) if *r == response("r")));
    assert_eq!(storage.outbox.len(), 1);
    assert_eq!(storage.idempotency.saved_at(1, &"k1".to_string()), Some(1));
    handler.advance(&mut storage, 2);
    assert!(matches!(handler.outcome(), Some(PublishOutcome::Accepted(_))));
    assert_eq!(storage.outbox.len(), 1);
    assert_eq!(storage.idempotency.len(), 1);
}

#[test]
fn handler_that_stops_before_its_commit_leaves_no_trace() {
    let mut storage = Storage::new();
    {
        let mut handler = PublishHandler::new(command(1, "k1", 9, &["a@x", "b@x"], "r"));
        handler.advance(&mut storage, 0);
        assert!(!handler.is_done());
    }
    assert!(storage.outbox.is_empty());
    assert_eq!(storage.idempotency.len(), 0);
    assert!(accepted(&publish(&mut storage, command(1, "k1", 9, &["a@x", "b@x"], "r"), 1)));
    assert_eq!(storage.outbox.len(), 2);
}

#[test]
fn loser_of_a_race_gets_the_response_of_the_winner() {
    let mut storage = Storage::new();
    let mut first = PublishHandler::new(command(1, "k1", 9, &["a@x", "b@x"], "first"));
    let mut second = PublishHandler::new(command(1, "k1", 9, &["a@x", "b@x"], "second"));
    first.advance(&mut storage, 0);
    second.advance(&mut storage, 0);
    second.advance(&mut storage, 1);
    assert!(matches!(second.outcome(), Some(PublishOutcome::Accepted(r)) if *r == response("second")));
    first.advance(&mut storage, 2);
    assert!(!first.is_done());
    assert_eq!(storage.outbox.len(), 2);
    first.advance(&mut storage, 3);
    assert!(matches!(first.outcome(), Some(PublishOutcome::Replayed(r)) if *r == response("second")));
    assert_eq!(storage.outbox.len(), 2);
    assert_eq!(storage.idempotency.len(), 1);
    assert_eq!(storage.idempotency.saved_at(1, &"k1".to_string()), Some(1));
}

fn race(handlers: usize, schedule: &[usize]) {
    let mut storage = Storage::new();
    let mut running: Vec<PublishHandler> = (0..handlers)
        .map(|_| PublishHandler::new(command(4, "k1", 2, &["a@x", "b@x", "c@x"], "same")))
        .collect();
    for (now, &turn) in schedule.iter().enumerate() {
        running[turn].advance(&mut storage, now as u64);
        assert!(storage.outbox.len() == 0 || storage.outbox.len() == 3);
        assert_eq!(storage.outbox.len() == 3, storage.idempotency.len() == 1);
    }
    let mut executed = 0;
    for handler in running.iter() {
        let outcome = handler.outcome().expect("every handler has had its three turns");
        assert_eq!(outcome.response(), Some(&response("same")));
        if accepted(outcome) {
            executed += 1;
        }
    }
    assert_eq!(executed, 1);
    assert_eq!(storage.outbox.len(), 3);
    assert_eq!(storage.outbox.pending_for_issue(2), 3);
    assert_eq!(storage.idempotency.len(), 1);
}

#[test]
fn submissions_side_by_side_execute_once() {
    race(2, &[0, 1, 0, 1, 0, 1]);
    race(2, &[0, 0, 0, 1, 1, 1]);
    race(2, &[1, 0, 1, 0, 0, 1]);
    race(3, &[0, 1, 2, 2, 1, 0, 0, 1, 2]);
    race(4, &[3, 2, 1, 0, 0, 1, 2, 3, 3, 2, 1, 0]);
    race(5, &[0, 1, 2, 3, 4, 4, 4, 3, 3, 2, 2, 1, 1, 0, 0]);
}
