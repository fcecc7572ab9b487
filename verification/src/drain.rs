//! Any number of workers draining one queue: what holds of every order in
//! which they claim, settle, release and lose their connections.

use vstd::prelude::*;
use crate::delivery::{resolution, SendOutcome, Verdict};
use crate::outbox::{
    count_issue, lemma_enqueue_keeps_order, lemma_first_exists, lemma_position,
    lemma_remove_keeps_order, OutboxView, SlotView,
};
use crate::retry::RetryPolicy;
use crate::transaction::{batch, each_once, lemma_each_once};

verus! {

/// One atomic operation of a worker on the queue.
pub enum WorkerOp {
    /// The worker asks for the first task that can be claimed.
    Claim { worker_id: u64, now: u64 },
    /// The worker settles a task after an attempt to send its email.
    Settle { worker_id: u64, task_id: u64, outcome: SendOutcome, now: u64 },
    /// The task is given back to the pending tasks.
    Release { task_id: u64 },
    /// The worker's connection is lost.
    Disconnect { worker_id: u64 },
}

/// The queue after the operation.
pub open spec fn after_op(policy: RetryPolicy, view: OutboxView, op: WorkerOp) -> OutboxView {
    match op {
        WorkerOp::Claim { worker_id, now } => view.claim(worker_id, now),
        WorkerOp::Settle { worker_id, task_id, outcome, now } => view.settle(
            policy,
            worker_id,
            task_id,
            outcome,
            now,
        ),
        WorkerOp::Release { task_id } => view.release(task_id),
        WorkerOp::Disconnect { worker_id } => view.disconnect(worker_id),
    }
}

/// The operation brings a task of the issue to its terminal state: the
/// worker that holds the task settles it as delivered or as dropped.
pub open spec fn resolves(
    policy: RetryPolicy,
    view: OutboxView,
    op: WorkerOp,
    issue_id: u64,
) -> bool {
    match op {
        WorkerOp::Settle { worker_id, task_id, outcome, now } => {
            &&& view.holds(worker_id, task_id)
            &&& view.slot(task_id).task.issue_id == issue_id
            &&& resolution(
                policy,
                view.slot(task_id).task.attempt_count,
                outcome,
                now,
            ).is_terminal()
        },
        _ => false,
    }
}

/// The queue after the operations, taken in order.
pub open spec fn after_ops(policy: RetryPolicy, view: OutboxView, ops: Seq<WorkerOp>) -> OutboxView
    decreases ops.len(),
{
    if ops.len() == 0 {
        view
    } else {
        after_op(policy, after_ops(policy, view, ops.drop_last()), ops.last())
    }
}

/// How many tasks of the issue the operations bring to their terminal state.
pub open spec fn resolved(
    policy: RetryPolicy,
    view: OutboxView,
    ops: Seq<WorkerOp>,
    issue_id: u64,
) -> nat
    decreases ops.len(),
{
    if ops.len() == 0 {
        0
    } else {
        resolved(policy, view, ops.drop_last(), issue_id) + if resolves(
            policy,
            after_ops(policy, view, ops.drop_last()),
            ops.last(),
            issue_id,
        ) {
            1nat
        } else {
            0nat
        }
    }
}

/// The two queues hold the same tasks of the same issues under the same
/// ids, in the same order.
pub open spec fn same_tasks(a: OutboxView, b: OutboxView) -> bool {
    &&& a.next_task_id == b.next_task_id
    &&& a.slots.len() == b.slots.len()
    &&& forall|i: int|
        0 <= i < a.slots.len() ==> (#[trigger] a.slots[i]).task.task_id == b.slots[i].task.task_id
            && a.slots[i].task.issue_id == b.slots[i].task.issue_id
}

/// Slots that agree on their issues count the same for every issue.
pub proof fn lemma_count_by_issue(a: Seq<SlotView>, b: Seq<SlotView>, issue_id: u64)
    requires
        a.len() == b.len(),
        forall|i: int| 0 <= i < a.len() ==> (#[trigger] a[i]).task.issue_id == b[i].task.issue_id,
    ensures
        count_issue(a, issue_id) == count_issue(b, issue_id),
    decreases a.len(),
{
    if a.len() > 0 {
        assert(a.last().task.issue_id == b.last().task.issue_id);
        assert forall|i: int| 0 <= i < a.drop_last().len() implies (
        #[trigger] a.drop_last()[i]).task.issue_id == b.drop_last()[i].task.issue_id by {
            assert(a[i].task.issue_id == b[i].task.issue_id);
        }
        lemma_count_by_issue(a.drop_last(), b.drop_last(), issue_id);
    }
}

/// Taking a slot out lowers the count of its issue by one and no other.
pub proof fn lemma_count_without(slots: Seq<SlotView>, i: int, issue_id: u64)
    requires
        0 <= i < slots.len(),
    ensures
        count_issue(slots, issue_id) == count_issue(slots.remove(i), issue_id) + if slots[i].task.issue_id
            == issue_id {
            1nat
        } else {
            0nat
        },
    decreases slots.len(),
{
    if i == slots.len() - 1 {
        assert(slots.remove(i) =~= slots.drop_last());
    } else {
        lemma_count_without(slots.drop_last(), i, issue_id);
        assert(slots.remove(i).drop_last() =~= slots.drop_last().remove(i));
        assert(slots.remove(i).last() == slots.last());
    }
}

/// A queue with the same tasks under the same ids is as well formed, and
/// holds as many tasks of each issue.
pub proof fn lemma_same_tasks(a: OutboxView, b: OutboxView, issue_id: u64)
    requires
        a.wf(),
        same_tasks(a, b),
    ensures
        b.wf(),
        b.pending(issue_id) == a.pending(issue_id),
        forall|task_id: u64| a.contains(task_id) == b.contains(task_id),
        forall|task_id: u64| a.contains(task_id) ==> a.position(task_id) == b.position(task_id),
{
    assert forall|i: int, j: int| 0 <= i < j < b.slots.len() implies (
    #[trigger] b.slots[i]).task.task_id < (#[trigger] b.slots[j]).task.task_id by {
        assert(a.slots[i].task.task_id < a.slots[j].task.task_id);
    }
    assert forall|i: int| 0 <= i < b.slots.len() implies (#[trigger] b.slots[i]).task.task_id
        < b.next_task_id by {
        assert(a.slots[i].task.task_id < a.next_task_id);
    }
    lemma_count_by_issue(a.slots, b.slots, issue_id);
    assert forall|task_id: u64| a.contains(task_id) == b.contains(task_id) by {
        if a.contains(task_id) {
            let p = a.position(task_id);
            assert(b.slots[p].task.task_id == task_id);
        }
        if b.contains(task_id) {
            let p = b.position(task_id);
            assert(a.slots[p].task.task_id == task_id);
        }
    }
    assert forall|task_id: u64| a.contains(task_id) implies a.position(task_id) == b.position(
        task_id,
    ) by {
        let p = a.position(task_id);
        assert(b.slots[p].task.task_id == task_id);
        lemma_position(b, p);
    }
}

/// One operation keeps the queue well formed, and takes a task of the issue
/// out exactly when it brings one to its terminal state.
pub proof fn lemma_op_conserves(policy: RetryPolicy, view: OutboxView, op: WorkerOp, issue_id: u64)
    requires
        view.wf(),
    ensures
        after_op(policy, view, op).wf(),
        after_op(policy, view, op).next_task_id == view.next_task_id,
        view.pending(issue_id) == after_op(policy, view, op).pending(issue_id) + if resolves(
            policy,
            view,
            op,
            issue_id,
        ) {
            1nat
        } else {
            0nat
        },
{
    let after = after_op(policy, view, op);
    match op {
        WorkerOp::Settle { worker_id, task_id, outcome, now } => {
            if view.holds(worker_id, task_id) {
                let p = view.position(task_id);
                let decision = resolution(policy, view.slot(task_id).task.attempt_count, outcome, now);
                if decision.is_terminal() {
                    lemma_remove_keeps_order(view, p);
                    lemma_count_without(view.slots, p, issue_id);
                } else {
                    assert(same_tasks(view, after));
                    lemma_same_tasks(view, after, issue_id);
                }
            }
        },
        WorkerOp::Claim { worker_id, now } => {
            if view.any_claimable(now) {
                lemma_first_exists(view, now);
            }
            assert(same_tasks(view, after));
            lemma_same_tasks(view, after, issue_id);
        },
        WorkerOp::Release { task_id } => {
            assert(same_tasks(view, after));
            lemma_same_tasks(view, after, issue_id);
        },
        WorkerOp::Disconnect { worker_id } => {
            assert(same_tasks(view, after));
            lemma_same_tasks(view, after, issue_id);
        },
    }
}

/// Whatever the workers do and in whatever order, no task is lost and none
/// is resolved twice: the tasks of an issue that are still in the queue and
/// those that were brought to their terminal state add up to the tasks that
/// the queue held at the start. So when the queue holds no task of the issue
/// any more, exactly as many were resolved as the issue had.
pub proof fn theorem_tasks_are_conserved(
    policy: RetryPolicy,
    view: OutboxView,
    ops: Seq<WorkerOp>,
    issue_id: u64,
)
    requires
        view.wf(),
    ensures
        after_ops(policy, view, ops).wf(),
        after_ops(policy, view, ops).pending(issue_id) + resolved(policy, view, ops, issue_id)
            == view.pending(issue_id),
        after_ops(policy, view, ops).pending(issue_id) == 0 ==> resolved(
            policy,
            view,
            ops,
            issue_id,
        ) == view.pending(issue_id),
    decreases ops.len(),
{
    if ops.len() > 0 {
        theorem_tasks_are_conserved(policy, view, ops.drop_last(), issue_id);
        lemma_op_conserves(policy, after_ops(policy, view, ops.drop_last()), ops.last(), issue_id);
    }
}

/// The operation is a settlement of the task by the worker that holds it.
pub open spec fn attempts(view: OutboxView, op: WorkerOp, task_id: u64) -> bool {
    op matches WorkerOp::Settle { worker_id, task_id: settled, .. } && settled == task_id
        && view.holds(worker_id, task_id)
}

/// Taking one task out leaves every other task as it was.
pub proof fn lemma_remove_keeps_others(view: OutboxView, p: int, task_id: u64)
    requires
        view.wf(),
        0 <= p < view.slots.len(),
        view.slots[p].task.task_id != task_id,
    ensures
        ({
            let rest = OutboxView { slots: view.slots.remove(p), ..view };
            &&& rest.contains(task_id) == view.contains(task_id)
            &&& view.contains(task_id) ==> rest.slot(task_id) == view.slot(task_id)
        }),
{
    let rest = OutboxView { slots: view.slots.remove(p), ..view };
    lemma_remove_keeps_order(view, p);
    if view.contains(task_id) {
        let q = view.position(task_id);
        let moved = if q < p { q } else { q - 1 };
        assert(rest.slots[moved] == view.slots[q]);
        lemma_position(rest, moved);
    }
    if rest.contains(task_id) {
        let moved = rest.position(task_id);
        let q = if moved < p { moved } else { moved + 1 };
        assert(view.slots[q] == rest.slots[moved]);
    }
}

/// An operation that is no settlement of the task by its holder leaves the
/// task in the queue, with its attempts and its waiting time as they were.
/// Its holder changes only as the operation says: a claim gives a task that
/// nobody held to the claimant, a release and a lost connection free it.
pub proof fn lemma_op_keeps_task(policy: RetryPolicy, view: OutboxView, op: WorkerOp, task_id: u64)
    requires
        view.wf(),
        view.contains(task_id),
        !attempts(view, op, task_id),
    ensures
        ({
            let after = after_op(policy, view, op);
            let was = view.slot(task_id);
            let is = after.slot(task_id);
            &&& after.contains(task_id)
            &&& is.task == was.task
            &&& is.not_before == was.not_before
            &&& match op {
                WorkerOp::Claim { worker_id, now } => {
                    &&& was.claimed_by is Some ==> is.claimed_by == was.claimed_by
                    &&& was.claimed_by is None ==> is.claimed_by is None || is.claimed_by == Some(
                        worker_id,
                    )
                },
                WorkerOp::Settle { .. } => is.claimed_by == was.claimed_by,
                WorkerOp::Release { task_id: released } => is.claimed_by == if released == task_id {
                    None
                } else {
                    was.claimed_by
                },
                WorkerOp::Disconnect { worker_id } => is.claimed_by == if was.claimed_by == Some(
                    worker_id,
                ) {
                    None
                } else {
                    was.claimed_by
                },
            }
        }),
{
    let after = after_op(policy, view, op);
    let q = view.position(task_id);
    match op {
        WorkerOp::Settle { worker_id, task_id: settled, outcome, now } => {
            if view.holds(worker_id, settled) {
                let p = view.position(settled);
                let decision = resolution(policy, view.slot(settled).task.attempt_count, outcome, now);
                if decision.is_terminal() {
                    lemma_remove_keeps_others(view, p, task_id);
                } else {
                    assert(same_tasks(view, after));
                    lemma_same_tasks(view, after, 0);
                    assert(after.position(task_id) == q);
                }
            }
        },
        WorkerOp::Claim { worker_id, now } => {
            if view.any_claimable(now) {
                lemma_first_exists(view, now);
            }
            assert(same_tasks(view, after));
            lemma_same_tasks(view, after, 0);
            assert(after.position(task_id) == q);
        },
        WorkerOp::Release { task_id: released } => {
            assert(same_tasks(view, after));
            lemma_same_tasks(view, after, 0);
            assert(after.position(task_id) == q);
        },
        WorkerOp::Disconnect { worker_id } => {
            assert(same_tasks(view, after));
            lemma_same_tasks(view, after, 0);
            assert(after.position(task_id) == q);
        },
    }
}

/// While a worker holds a task, no other worker gets it: a claim hands out
/// only a task that nobody holds, the settlement of a worker that does not
/// hold the task changes nothing, and after any operation but the holder's
/// own settlement, a release of the task and the loss of the holder's
/// connection, the holder still holds it.
pub proof fn theorem_exclusive_hold(
    policy: RetryPolicy,
    view: OutboxView,
    holder: u64,
    task_id: u64,
    op: WorkerOp,
)
    requires
        view.wf(),
        view.holds(holder, task_id),
    ensures
        op matches WorkerOp::Claim { worker_id, now } ==> (view.any_claimable(now) ==> {
            let i = view.first_claimable(now);
            &&& view.is_first_claimable(now, i)
            &&& view.slots[i].claimed_by is None
            &&& view.slots[i].task.task_id != task_id
            &&& after_op(policy, view, op).holds(worker_id, view.slots[i].task.task_id)
        }),
        op matches WorkerOp::Settle { worker_id, task_id: settled, .. } ==> (settled == task_id
            && worker_id != holder ==> after_op(policy, view, op) == view),
        !attempts(view, op, task_id) && !(op matches WorkerOp::Release { task_id: released }
            && released == task_id) && !(op matches WorkerOp::Disconnect { worker_id } && worker_id
            == holder) ==> after_op(policy, view, op).holds(holder, task_id),
{
    if !attempts(view, op, task_id) {
        lemma_op_keeps_task(policy, view, op, task_id);
    }
    match op {
        WorkerOp::Claim { worker_id, now } => {
            if view.any_claimable(now) {
                let after = after_op(policy, view, op);
                lemma_first_exists(view, now);
                let i = view.first_claimable(now);
                lemma_position(view, i);
                assert(same_tasks(view, after));
                lemma_same_tasks(view, after, 0);
                assert(after.position(view.slots[i].task.task_id) == i);
            }
        },
        _ => {},
    }
}

/// The queue after the worker has, as many times as there are rounds, claimed
/// the first task that can be claimed at the time given and delivered its
/// email.
pub open spec fn after_deliveries(
    policy: RetryPolicy,
    view: OutboxView,
    worker_id: u64,
    now: u64,
    rounds: nat,
) -> OutboxView
    decreases rounds,
{
    if rounds == 0 || !view.any_claimable(now) {
        view
    } else {
        let task_id = view.slots[view.first_claimable(now)].task.task_id;
        after_deliveries(
            policy,
            view.claim(worker_id, now).settle(
                policy,
                worker_id,
                task_id,
                SendOutcome::Delivered,
                now,
            ),
            worker_id,
            now,
            (rounds - 1) as nat,
        )
    }
}

/// One round of claiming and delivering takes the first task that can be
/// claimed out of the queue and leaves the others as they were.
pub proof fn lemma_delivery_round(policy: RetryPolicy, view: OutboxView, worker_id: u64, now: u64)
    requires
        view.wf(),
        view.any_claimable(now),
    ensures
        ({
            let i = view.first_claimable(now);
            let task_id = view.slots[i].task.task_id;
            let after = view.claim(worker_id, now).settle(
                policy,
                worker_id,
                task_id,
                SendOutcome::Delivered,
                now,
            );
            &&& view.is_first_claimable(now, i)
            &&& after.wf()
            &&& after.next_task_id == view.next_task_id
            &&& after.slots == view.slots.remove(i)
        }),
{
    lemma_first_exists(view, now);
    let i = view.first_claimable(now);
    let taken = view.claim(worker_id, now);
    assert(same_tasks(view, taken));
    lemma_same_tasks(view, taken, 0);
    lemma_position(view, i);
    assert(taken.position(view.slots[i].task.task_id) == i);
    lemma_remove_keeps_order(taken, i);
    assert(taken.slots.remove(i) =~= view.slots.remove(i));
}

/// A task that is not in the queue does not come back while a worker claims
/// and delivers.
pub proof fn lemma_deliveries_keep_gone(
    policy: RetryPolicy,
    view: OutboxView,
    worker_id: u64,
    now: u64,
    rounds: nat,
    task_id: u64,
)
    requires
        view.wf(),
        !view.contains(task_id),
    ensures
        !after_deliveries(policy, view, worker_id, now, rounds).contains(task_id),
    decreases rounds,
{
    if rounds > 0 && view.any_claimable(now) {
        lemma_delivery_round(policy, view, worker_id, now);
        let i = view.first_claimable(now);
        let after = view.claim(worker_id, now).settle(
            policy,
            worker_id,
            view.slots[i].task.task_id,
            SendOutcome::Delivered,
            now,
        );
        lemma_remove_keeps_others(view, i, task_id);
        assert(after == OutboxView { slots: view.slots.remove(i), ..view });
        lemma_deliveries_keep_gone(policy, after, worker_id, now, (rounds - 1) as nat, task_id);
    }
}

/// A task that can be claimed is delivered by a worker that keeps claiming
/// and delivering, after no more rounds than there are tasks up to it in the
/// queue.
pub proof fn theorem_claimable_task_is_reached(
    policy: RetryPolicy,
    view: OutboxView,
    worker_id: u64,
    task_id: u64,
    now: u64,
)
    requires
        view.wf(),
        view.contains(task_id),
        view.slot(task_id).claimable(now),
    ensures
        !after_deliveries(
            policy,
            view,
            worker_id,
            now,
            (view.position(task_id) + 1) as nat,
        ).contains(task_id),
    decreases view.position(task_id),
{
    let q = view.position(task_id);
    assert(view.slots[q].claimable(now));
    lemma_delivery_round(policy, view, worker_id, now);
    let i = view.first_claimable(now);
    if q < i {
        assert(!view.slots[q].claimable(now));
    }
    let after = view.claim(worker_id, now).settle(
        policy,
        worker_id,
        view.slots[i].task.task_id,
        SendOutcome::Delivered,
        now,
    );
    assert(after == OutboxView { slots: view.slots.remove(i), ..view });
    if i == q {
        lemma_remove_keeps_order(view, q);
        lemma_deliveries_keep_gone(policy, after, worker_id, now, q as nat, task_id);
    } else {
        assert(after.slots[q - 1] == view.slots[q]);
        lemma_position(after, q - 1);
        theorem_claimable_task_is_reached(policy, after, worker_id, task_id, now);
    }
}

/// A task whose worker lost its connection is free again, with its attempts
/// and its waiting time as they were, so that any worker can claim it as
/// soon as its waiting time is over. A worker that keeps claiming and
/// delivering from then on removes it, after no more rounds than there are
/// tasks up to it in the queue.
pub proof fn theorem_lost_connection_frees_task(
    policy: RetryPolicy,
    view: OutboxView,
    lost: u64,
    task_id: u64,
    rescuer: u64,
    now: u64,
)
    requires
        view.wf(),
        view.holds(lost, task_id),
    ensures
        ({
            let freed = view.disconnect(lost);
            &&& freed.wf()
            &&& freed.contains(task_id)
            &&& freed.position(task_id) == view.position(task_id)
            &&& freed.slot(task_id) == view.slot(task_id).freed()
            &&& view.slot(task_id).not_before <= now ==> {
                &&& freed.slot(task_id).claimable(now)
                &&& freed.any_claimable(now)
                &&& !after_deliveries(
                    policy,
                    freed,
                    rescuer,
                    now,
                    (view.position(task_id) + 1) as nat,
                ).contains(task_id)
            }
        }),
{
    let freed = view.disconnect(lost);
    let q = view.position(task_id);
    assert(same_tasks(view, freed));
    lemma_same_tasks(view, freed, 0);
    assert(freed.position(task_id) == q);
    if view.slot(task_id).not_before <= now {
        assert(freed.slots[q].claimable(now));
        theorem_claimable_task_is_reached(policy, freed, rescuer, task_id, now);
    }
}

/// How many of the operations are settlements of the task by its holder:
/// the attempts to send its email that ended while the operations ran.
pub open spec fn attempts_made(
    policy: RetryPolicy,
    view: OutboxView,
    ops: Seq<WorkerOp>,
    task_id: u64,
) -> nat
    decreases ops.len(),
{
    if ops.len() == 0 {
        0
    } else {
        attempts_made(policy, view, ops.drop_last(), task_id) + if attempts(
            after_ops(policy, view, ops.drop_last()),
            ops.last(),
            task_id,
        ) {
            1nat
        } else {
            0nat
        }
    }
}

/// Every settlement of the task among the operations reports a transient
/// failure.
pub open spec fn always_transient(ops: Seq<WorkerOp>, task_id: u64) -> bool {
    forall|k: int|
        0 <= k < ops.len() ==> ((#[trigger] ops[k]) matches WorkerOp::Settle {
            task_id: settled,
            outcome,
            ..
        } ==> (settled == task_id ==> outcome.verdict_of() == Verdict::Transient))
}

/// The most attempts that a task with `behind` failed attempts behind it
/// gets while every attempt fails transiently.
pub open spec fn attempts_left(policy: RetryPolicy, behind: nat) -> nat {
    if behind + 1 >= policy.max_attempts {
        1
    } else {
        (policy.max_attempts - behind) as nat
    }
}

/// A task whose every attempt fails transiently is not retried for ever,
/// whatever the workers do and in whatever order: while it is in the queue,
/// its failed attempts are counted one by one and stay below the ceiling of
/// the policy; the attempt that reaches the ceiling takes it out of the
/// queue; and it is never attempted more often than the ceiling allows.
pub proof fn theorem_bounded_retry(
    policy: RetryPolicy,
    view: OutboxView,
    ops: Seq<WorkerOp>,
    task_id: u64,
)
    requires
        view.wf(),
        view.contains(task_id),
        always_transient(ops, task_id),
    ensures
        ({
            let end = after_ops(policy, view, ops);
            let behind = view.slot(task_id).task.attempt_count as nat;
            let made = attempts_made(policy, view, ops, task_id);
            &&& end.wf()
            &&& made <= attempts_left(policy, behind)
            &&& end.contains(task_id) ==> end.slot(task_id).task.attempt_count == behind + made
                && (made == 0 || behind + made < policy.max_attempts)
            &&& !end.contains(task_id) ==> made >= 1 && behind + made >= policy.max_attempts
            &&& made == attempts_left(policy, behind) ==> !end.contains(task_id)
        }),
    decreases ops.len(),
{
    if ops.len() > 0 {
        let front = ops.drop_last();
        let op = ops.last();
        assert forall|k: int| 0 <= k < front.len() implies ((
        #[trigger] front[k]) matches WorkerOp::Settle { task_id: settled, outcome, .. } ==> (settled
            == task_id ==> outcome.verdict_of() == Verdict::Transient)) by {
            assert(front[k] == ops[k]);
        }
        theorem_bounded_retry(policy, view, front, task_id);
        let mid = after_ops(policy, view, front);
        lemma_op_conserves(policy, mid, op, 0);
        assert(op == ops[ops.len() - 1]);
        if mid.contains(task_id) {
            if attempts(mid, op, task_id) {
                let q = mid.position(task_id);
                let end = after_op(policy, mid, op);
                match op {
                    WorkerOp::Settle { worker_id, task_id: settled, outcome, now } => {
                        let decision = resolution(
                            policy,
                            mid.slot(task_id).task.attempt_count,
                            outcome,
                            now,
                        );
                        if decision.is_terminal() {
                            lemma_remove_keeps_order(mid, q);
                        } else {
                            assert(same_tasks(mid, end));
                            lemma_same_tasks(mid, end, 0);
                            assert(end.position(task_id) == q);
                        }
                    },
                    _ => {},
                }
            } else {
                lemma_op_keeps_task(policy, mid, op, task_id);
            }
        } else {
            match op {
                WorkerOp::Settle { worker_id, task_id: settled, outcome, now } => {
                    if mid.holds(worker_id, settled) {
                        let p = mid.position(settled);
                        let decision = resolution(
                            policy,
                            mid.slot(settled).task.attempt_count,
                            outcome,
                            now,
                        );
                        if decision.is_terminal() {
                            lemma_remove_keeps_others(mid, p, task_id);
                        } else {
                            let end = after_op(policy, mid, op);
                            assert(same_tasks(mid, end));
                            lemma_same_tasks(mid, end, 0);
                        }
                    }
                },
                WorkerOp::Claim { worker_id, now } => {
                    if mid.any_claimable(now) {
                        lemma_first_exists(mid, now);
                    }
                    let end = after_op(policy, mid, op);
                    assert(same_tasks(mid, end));
                    lemma_same_tasks(mid, end, 0);
                },
                _ => {
                    let end = after_op(policy, mid, op);
                    assert(same_tasks(mid, end));
                    lemma_same_tasks(mid, end, 0);
                },
            }
        }
    }
}

/// The slots of two lists put together count as the two lists do.
pub proof fn lemma_count_joined(a: Seq<SlotView>, b: Seq<SlotView>, issue_id: u64)
    ensures
        count_issue(a + b, issue_id) == count_issue(a, issue_id) + count_issue(b, issue_id),
    decreases b.len(),
{
    if b.len() == 0 {
        assert(a + b =~= a);
    } else {
        lemma_count_joined(a, b.drop_last(), issue_id);
        assert((a + b).drop_last() =~= a + b.drop_last());
        assert((a + b).last() == b.last());
    }
}

/// Slots that all belong to one issue count in full for that issue and not
/// at all for any other.
pub proof fn lemma_count_of_one_issue(slots: Seq<SlotView>, of: u64, issue_id: u64)
    requires
        forall|i: int| 0 <= i < slots.len() ==> (#[trigger] slots[i]).task.issue_id == of,
    ensures
        count_issue(slots, issue_id) == if issue_id == of {
            slots.len()
        } else {
            0
        },
    decreases slots.len(),
{
    if slots.len() > 0 {
        assert(slots.last().task.issue_id == of);
        assert forall|i: int| 0 <= i < slots.drop_last().len() implies (
        #[trigger] slots.drop_last()[i]).task.issue_id == of by {
            assert(slots[i].task.issue_id == of);
        }
        lemma_count_of_one_issue(slots.drop_last(), of, issue_id);
    }
}

/// Every recipient of an issue is resolved once: when the batch of an issue
/// that had no task in the queue has been enqueued, then, whatever the
/// workers do and in whatever order, the tasks of the issue that are still
/// in the queue and those that were brought to their terminal state add up
/// to the number of its recipients, each counted once. So when the delivery
/// of the issue is complete, exactly that many tasks were resolved.
pub proof fn theorem_every_recipient_is_resolved_once(
    policy: RetryPolicy,
    view: OutboxView,
    issue_id: u64,
    recipients: Seq<Seq<char>>,
    now: u64,
    ops: Seq<WorkerOp>,
)
    requires
        view.wf(),
        view.pending(issue_id) == 0,
        view.next_task_id + batch(issue_id, recipients).len() <= u64::MAX,
    ensures
        ({
            let queued = view.enqueue(batch(issue_id, recipients), now);
            let end = after_ops(policy, queued, ops);
            &&& queued.pending(issue_id) == each_once(recipients).len()
            &&& recipients.no_duplicates() ==> queued.pending(issue_id) == recipients.len()
            &&& end.pending(issue_id) + resolved(policy, queued, ops, issue_id) == each_once(
                recipients,
            ).len()
            &&& end.pending(issue_id) == 0 ==> resolved(policy, queued, ops, issue_id)
                == each_once(recipients).len()
        }),
{
    let queued = view.enqueue(batch(issue_id, recipients), now);
    let added = queued.slots.subrange(view.slots.len() as int, queued.slots.len() as int);
    assert(queued.slots =~= view.slots + added);
    lemma_count_joined(view.slots, added, issue_id);
    lemma_count_of_one_issue(added, issue_id, issue_id);
    lemma_each_once(recipients);
    lemma_enqueue_keeps_order(view, batch(issue_id, recipients), now);
    theorem_tasks_are_conserved(policy, queued, ops, issue_id);
}

} // verus!
