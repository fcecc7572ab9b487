use zero2prod::delivery::{DropReason, Resolution, SendError, SendOutcome, Step, Worker};
use zero2prod::publish::{publish, PublishCommand, PublishOutcome};
use zero2prod::response::{Header, SavedResponse};
use zero2prod::transaction::Storage;

fn newsletter(idempotency_key: &str) -> PublishCommand {
    PublishCommand {
        actor_id: 1,
        idempotency_key: idempotency_key.to_string(),
        issue_id: 100,
        recipients: vec!["a@x".to_string(), "b@x".to_string(), "c@x".to_string()],
        response: SavedResponse::new(
            303,
            vec![Header { name: "Location".to_string(), value: b"/admin/newsletters".to_vec() }],
            b"The newsletter issue has been accepted".to_vec(),
        ),
    }
}

#[test]
fn publish_replay_and_delivery_with_failures() {
    let mut storage = Storage::new();

    let first = publish(&mut storage, newsletter("k1"), 0);
    let r1 = match first {
        PublishOutcome::Accepted(response) => response,
        other => panic!("the first submission was not executed: {:?}", other),
    };
    assert_eq!(storage.outbox.len(), 3);
    assert_eq!(storage.outbox.pending_for_issue(100), 3);

    let replay = publish(&mut storage, newsletter("k1"), 1);
    let r2 = match replay {
        PublishOutcome::Replayed(response) => response,
        other => panic!("the replay was executed: {:?}", other),
    };
    assert_eq!(r2, r1);
    assert_eq!(r2.status_code, r1.status_code);
    assert_eq!(r2.body, r1.body);
    assert_eq!(r2.headers, r1.headers);
    assert_eq!(storage.outbox.len(), 3);

    let worker = Worker::new(7);
    let mut now = 2u64;
    let mut sends_to_b = 0u32;
    let mut sends_to_c = 0u32;
    let mut log: Vec<(String, Resolution)> = Vec::new();
    while !storage.outbox.is_complete(100) {
        match worker.poll(&mut storage.outbox, now) {
            Step::Sleep(secs) => now += secs,
            Step::Send(task) => {
                let outcome = match task.recipient_email.as_str() {
                    "a@x" => SendOutcome::Delivered,
                    "b@x" => {
                        sends_to_b += 1;
                        if sends_to_b < 3 {
                            assert!(storage.outbox.task(task.task_id).is_some());
                            SendOutcome::Failed(SendError::Transient)
                        } else {
                            SendOutcome::Delivered
                        }
                    }
                    _ => {
                        sends_to_c += 1;
                        SendOutcome::Failed(SendError::Permanent)
                    }
                };
                let settled = worker.settle(&mut storage.outbox, task.task_id, outcome, now).unwrap();
                if task.recipient_email == "b@x" {
                    assert_eq!(storage.outbox.task(task.task_id).is_some(), sends_to_b < 3);
                }
                log.push((task.recipient_email, settled));
            }
        }
    }

    assert_eq!(sends_to_b, 3);
    assert_eq!(sends_to_c, 1);
    assert_eq!(
        log,
        vec![
            ("a@x".to_string(), Resolution::Delivered),
            ("b@x".to_string(), Resolution::Retry { attempt_count: 1, not_before: 3 }),
            ("c@x".to_string(), Resolution::Dropped(DropReason::Permanent)),
            ("b@x".to_string(), Resolution::Retry { attempt_count: 2, not_before: 14 }),
            ("b@x".to_string(), Resolution::Delivered),
        ]
    );
    assert!(storage.outbox.is_empty());

    let late_replay = publish(&mut storage, newsletter("k1"), now);
    assert!(matches!(&late_replay, PublishOutcome::Replayed(response) if *response == r1));
    assert!(storage.outbox.is_empty());
}

#[test]
fn replay_while_workers_drain_adds_no_tasks() {
    let mut storage = Storage::new();
    publish(&mut storage, newsletter("k1"), 0);
    let worker = Worker::new(1);
    match worker.poll(&mut storage.outbox, 0) {
        Step::Send(task) => {
            assert_eq!(
                worker.settle(&mut storage.outbox, task.task_id, SendOutcome::Delivered, 0),
                Some(Resolution::Delivered)
            );
        }
        Step::Sleep(_) => panic!("three tasks wait in the queue"),
    }
    assert_eq!(storage.outbox.len(), 2);
    let replay = publish(&mut storage, newsletter("k1"), 5);
    assert!(matches!(replay, PublishOutcome::Replayed(_)));
    assert_eq!(storage.outbox.len(), 2);
    let other = publish(&mut storage, newsletter("k2"), 6);
    assert!(matches!(other, PublishOutcome::Accepted(_)));
    assert_eq!(storage.outbox.len(), 5);
    assert_eq!(storage.outbox.task(3).map(|t| t.task_id), Some(3));
}
