//! The delivery worker: what becomes of a claimed task once the attempt to
//! send its email has ended.

use vstd::prelude::*;
use crate::outbox::{DeliveryTask, Outbox, OutboxView};
use crate::retry::RetryPolicy;

verus! {

/// How the email collaborator tags a failed send.
#[derive(Debug, PartialEq, Eq, Structural, Clone, Copy)]
pub enum SendError {
    /// The send may succeed when tried again: a network fault, an overloaded
    /// provider.
    Transient,
    /// The send will never succeed: an invalid recipient, a refusal.
    Permanent,
}

/// How one attempt to send an email ended.
#[derive(Debug, PartialEq, Eq, Structural, Clone, Copy)]
pub enum SendOutcome {
    /// The collaborator accepted the email.
    Delivered,
    /// The collaborator reported a failure and tagged it.
    Failed(SendError),
    /// The attempt ran into its time limit.
    TimedOut,
    /// The attempt failed with an error that carries no tag.
    Unclassified,
}

/// What an outcome means for the task.
#[derive(Debug, PartialEq, Eq, Structural, Clone, Copy)]
pub enum Verdict {
    Delivered,
    Transient,
    Permanent,
}

impl SendOutcome {
    /// Only a failure tagged as permanent is permanent. A time-out and an
    /// untagged error count as transient: a retry is preferred to a silent
    /// loss.
    pub open spec fn verdict_of(self) -> Verdict {
        match self {
            SendOutcome::Delivered => Verdict::Delivered,
            SendOutcome::Failed(SendError::Permanent) => Verdict::Permanent,
            _ => Verdict::Transient,
        }
    }

    /// How an answer of the email provider with this HTTP status counts: a
    /// 2xx status as a delivery; 408, 429 and every 5xx status as a
    /// transient failure; every other 4xx status as a permanent failure;
    /// any other status as an error without a tag.
    pub open spec fn of_status(status: u16) -> SendOutcome {
        if 200 <= status <= 299 {
            SendOutcome::Delivered
        } else if status == 408 || status == 429 || 500 <= status <= 599 {
            SendOutcome::Failed(SendError::Transient)
        } else if 400 <= status <= 499 {
            SendOutcome::Failed(SendError::Permanent)
        } else {
            SendOutcome::Unclassified
        }
    }

    /// Reads the outcome of an attempt off the HTTP status of the email
    /// provider's answer.
    pub fn from_status(status: u16) -> (outcome: SendOutcome)
        ensures
            outcome == SendOutcome::of_status(status),
    {
        if status >= 200 && status <= 299 {
            SendOutcome::Delivered
        } else if status == 408 || status == 429 || (status >= 500 && status <= 599) {
            SendOutcome::Failed(SendError::Transient)
        } else if status >= 400 && status <= 499 {
            SendOutcome::Failed(SendError::Permanent)
        } else {
            SendOutcome::Unclassified
        }
    }

    /// What the outcome means for the task.
    pub fn verdict(&self) -> (verdict: Verdict)
        ensures
            verdict == self.verdict_of(),
    {
        match self {
            SendOutcome::Delivered => Verdict::Delivered,
            SendOutcome::Failed(SendError::Permanent) => Verdict::Permanent,
            SendOutcome::Failed(SendError::Transient) => Verdict::Transient,
            SendOutcome::TimedOut => Verdict::Transient,
            SendOutcome::Unclassified => Verdict::Transient,
        }
    }
}

/// Why a task was dropped without a delivery.
#[derive(Debug, PartialEq, Eq, Structural, Clone, Copy)]
pub enum DropReason {
    /// The send failed for good.
    Permanent,
    /// The send failed transiently as often as the policy allows.
    RetriesExhausted,
}

/// What becomes of a task after an attempt.
#[derive(Debug, PartialEq, Eq, Structural, Clone, Copy)]
pub enum Resolution {
    /// The email was sent: the task is removed.
    Delivered,
    /// The task goes back to the queue with this many failed attempts and is
    /// not claimed again before the time given.
    Retry { attempt_count: u32, not_before: u64 },
    /// The task is removed without a delivery, and the caller records it as
    /// skipped.
    Dropped(DropReason),
}

impl Resolution {
    /// The task is removed and never processed again.
    pub open spec fn is_terminal(self) -> bool {
        !(self is Retry)
    }
}

/// The time `delay` seconds after `now`, or the last time there is.
pub open spec fn time_after(now: u64, delay: nat) -> u64 {
    if now + delay <= u64::MAX {
        (now + delay) as u64
    } else {
        u64::MAX
    }
}

/// What becomes of a task with `attempts` failed attempts behind it when a
/// further attempt ends at `now` with the outcome given.
pub open spec fn resolution(
    policy: RetryPolicy,
    attempts: u32,
    outcome: SendOutcome,
    now: u64,
) -> Resolution {
    match outcome.verdict_of() {
        Verdict::Delivered => Resolution::Delivered,
        Verdict::Permanent => Resolution::Dropped(DropReason::Permanent),
        Verdict::Transient => if policy.gives_up_after((attempts + 1) as nat) {
            Resolution::Dropped(DropReason::RetriesExhausted)
        } else {
            Resolution::Retry {
                attempt_count: (attempts + 1) as u32,
                not_before: time_after(now, policy.delay_after((attempts + 1) as nat)),
            }
        },
    }
}

/// Decides what becomes of a task with `attempts` failed attempts behind it
/// when a further attempt ends at `now` with the outcome given.
pub fn resolve(policy: &RetryPolicy, attempts: u32, outcome: SendOutcome, now: u64) -> (decision:
    Resolution)
    ensures
        decision == resolution(*policy, attempts, outcome, now),
{
    match outcome.verdict() {
        Verdict::Delivered => Resolution::Delivered,
        Verdict::Permanent => Resolution::Dropped(DropReason::Permanent),
        Verdict::Transient => {
            if attempts >= u32::MAX || policy.is_exhausted(attempts + 1) {
                Resolution::Dropped(DropReason::RetriesExhausted)
            } else {
                let delay: u64 = policy.backoff_secs(attempts + 1);
                let not_before: u64 = if delay <= u64::MAX - now {
                    now + delay
                } else {
                    u64::MAX
                };
                Resolution::Retry { attempt_count: attempts + 1, not_before }
            }
        },
    }
}

impl OutboxView {
    /// The queue holds the task and the worker holds it.
    pub open spec fn holds(self, worker_id: u64, task_id: u64) -> bool {
        self.contains(task_id) && self.slot(task_id).claimed_by == Some(worker_id)
    }

    /// The queue after the worker has settled the task: removed where the
    /// resolution is terminal, deferred where it is a retry. A worker that
    /// does not hold the task changes nothing.
    pub open spec fn settle(
        self,
        policy: RetryPolicy,
        worker_id: u64,
        task_id: u64,
        outcome: SendOutcome,
        now: u64,
    ) -> OutboxView {
        if self.holds(worker_id, task_id) {
            match resolution(policy, self.slot(task_id).task.attempt_count, outcome, now) {
                Resolution::Retry { not_before, .. } => self.defer(task_id, not_before),
                _ => self.remove(task_id),
            }
        } else {
            self
        }
    }
}

/// What the queue answered when a worker asked for a task.
#[derive(Debug)]
pub enum Poll {
    /// A task, now held by the worker.
    Claimed(DeliveryTask),
    /// No task can be claimed at present.
    Empty,
    /// The queue could not be reached.
    StorageUnavailable,
}

/// What [`Poll`] holds, as mathematical values.
pub enum PollView {
    Claimed(crate::outbox::TaskView),
    Empty,
    StorageUnavailable,
}

impl View for Poll {
    type V = PollView;

    open spec fn view(&self) -> PollView {
        match self {
            Poll::Claimed(task) => PollView::Claimed(task@),
            Poll::Empty => PollView::Empty,
            Poll::StorageUnavailable => PollView::StorageUnavailable,
        }
    }
}

/// What a worker does next.
#[derive(Debug)]
pub enum Step {
    /// Send the email of the claimed task, then settle it.
    Send(DeliveryTask),
    /// Wait this many seconds, then ask the queue again.
    Sleep(u64),
}

/// What [`Step`] holds, as mathematical values.
pub enum StepView {
    Send(crate::outbox::TaskView),
    Sleep(u64),
}

impl View for Step {
    type V = StepView;

    open spec fn view(&self) -> StepView {
        match self {
            Step::Send(task) => StepView::Send(task@),
            Step::Sleep(secs) => StepView::Sleep(*secs),
        }
    }
}

/// One of any number of workers that drain the queue side by side.
#[derive(Debug, Clone, Copy)]
pub struct Worker {
    /// Tells this worker from the others: the queue records it as the holder
    /// of the tasks that the worker claims.
    pub worker_id: u64,
    pub policy: RetryPolicy,
    /// How long the worker waits when no task can be claimed, in seconds.
    pub idle_secs: u64,
    /// How long the worker waits when the queue cannot be reached, in
    /// seconds.
    pub storage_backoff_secs: u64,
}

impl Worker {
    /// What the worker does after the queue has answered.
    pub open spec fn step_after(self, poll: PollView) -> StepView {
        match poll {
            PollView::Claimed(task) => StepView::Send(task),
            PollView::Empty => StepView::Sleep(self.idle_secs),
            PollView::StorageUnavailable => StepView::Sleep(self.storage_backoff_secs),
        }
    }

    /// A worker with the default policy that waits ten seconds on an empty
    /// queue and one second on a queue that cannot be reached.
    pub fn new(worker_id: u64) -> (worker: Self)
        ensures
            worker == (Worker {
                worker_id,
                policy: RetryPolicy { base_delay_secs: 1, max_delay_secs: 60, max_attempts: 10 },
                idle_secs: 10,
                storage_backoff_secs: 1,
            }),
    {
        Worker {
            worker_id,
            policy: RetryPolicy { base_delay_secs: 1, max_delay_secs: 60, max_attempts: 10 },
            idle_secs: 10,
            storage_backoff_secs: 1,
        }
    }

    /// Decides what the worker does after the queue has answered: send the
    /// claimed task, or wait before asking again.
    pub fn on_poll(&self, poll: Poll) -> (step: Step)
        ensures
            step@ == self.step_after(poll@),
    {
        match poll {
            Poll::Claimed(task) => Step::Send(task),
            Poll::Empty => Step::Sleep(self.idle_secs),
            Poll::StorageUnavailable => Step::Sleep(self.storage_backoff_secs),
        }
    }

    /// Asks the queue for a task at the time given, and decides what to do.
    pub fn poll(&self, outbox: &mut Outbox, now: u64) -> (step: Step)
        requires
            old(outbox).wf(),
        ensures
            final(outbox).wf(),
            final(outbox)@ == old(outbox)@.claim(self.worker_id, now),
            step@ == if old(outbox)@.any_claimable(now) {
                StepView::Send(old(outbox)@.slots[old(outbox)@.first_claimable(now)].task)
            } else {
                StepView::Sleep(self.idle_secs)
            },
            step@ matches StepView::Send(task) ==> final(outbox)@.holds(
                self.worker_id,
                task.task_id,
            ),
    {
        let claimed = outbox.claim_next(self.worker_id, now);
        let poll = match claimed {
            Some(task) => {
                proof {
                    let i = old(outbox)@.first_claimable(now);
                    crate::outbox::lemma_position(outbox@, i);
                }
                Poll::Claimed(task)
            },
            None => Poll::Empty,
        };
        self.on_poll(poll)
    }

    /// Settles a task that this worker holds, after the attempt to send its
    /// email has ended at `now`: the task is removed after a delivery, after
    /// a permanent failure and after the last transient failure that the
    /// policy allows, and is deferred after any other transient failure.
    /// `None`, and no change, where the worker does not hold the task.
    pub fn settle(&self, outbox: &mut Outbox, task_id: u64, outcome: SendOutcome, now: u64) -> (result:
        Option<Resolution>)
        requires
            old(outbox).wf(),
        ensures
            final(outbox).wf(),
            final(outbox)@ == old(outbox)@.settle(self.policy, self.worker_id, task_id, outcome, now),
            result is Some <==> old(outbox)@.holds(self.worker_id, task_id),
            result matches Some(decision) ==> decision == resolution(
                self.policy,
                old(outbox)@.slot(task_id).task.attempt_count,
                outcome,
                now,
            ),
    {
        let held: bool = match outbox.holder(task_id) {
            Some(holder) => holder == self.worker_id,
            None => false,
        };
        if !held {
            return None;
        }
        let attempts: u32 = match outbox.task(task_id) {
            Some(task) => task.attempt_count,
            None => 0,
        };
        let decision = resolve(&self.policy, attempts, outcome, now);
        match decision {
            Resolution::Retry { attempt_count: _, not_before } => {
                outbox.defer(task_id, not_before);
            },
            _ => {
                outbox.delete(task_id);
            },
        }
        Some(decision)
    }
}

} // verus!
