//! The transactional outbox: a durable queue of delivery tasks, one for each
//! recipient of an issue, which workers claim under mutual exclusion.

use vstd::prelude::*;

verus! {

/// One pending delivery of an issue to a recipient.
#[derive(Debug, PartialEq, Eq)]
pub struct DeliveryTask {
    pub task_id: u64,
    pub issue_id: u64,
    pub recipient_email: String,
    pub attempt_count: u32,
    pub created_at: u64,
}

/// What a [`DeliveryTask`] holds, as mathematical values.
#[verifier::ext_equal]
pub struct TaskView {
    pub task_id: u64,
    pub issue_id: u64,
    pub recipient_email: Seq<char>,
    pub attempt_count: u32,
    pub created_at: u64,
}

impl View for DeliveryTask {
    type V = TaskView;

    open spec fn view(&self) -> TaskView {
        TaskView {
            task_id: self.task_id,
            issue_id: self.issue_id,
            recipient_email: self.recipient_email@,
            attempt_count: self.attempt_count,
            created_at: self.created_at,
        }
    }
}

impl Clone for DeliveryTask {
    fn clone(&self) -> (copy: Self)
        ensures
            copy@ == self@,
    {
        DeliveryTask {
            task_id: self.task_id,
            issue_id: self.issue_id,
            recipient_email: self.recipient_email.clone(),
            attempt_count: self.attempt_count,
            created_at: self.created_at,
        }
    }
}

/// A delivery that waits to enter the queue: it has no task id yet.
#[derive(Debug, PartialEq, Eq)]
pub struct PendingTask {
    pub issue_id: u64,
    pub recipient_email: String,
}

/// What a [`PendingTask`] holds, as mathematical values.
#[verifier::ext_equal]
pub struct PendingView {
    pub issue_id: u64,
    pub recipient_email: Seq<char>,
}

impl View for PendingTask {
    type V = PendingView;

    open spec fn view(&self) -> PendingView {
        PendingView { issue_id: self.issue_id, recipient_email: self.recipient_email@ }
    }
}

/// The views of a list of pending tasks, in order.
pub open spec fn pending_views(pending: Seq<PendingTask>) -> Seq<PendingView> {
    Seq::new(pending.len(), |k: int| pending[k]@)
}

/// A task in the queue, with the worker that holds it, if any, and the time
/// before which no worker may claim it.
#[verifier::ext_equal]
pub struct SlotView {
    pub task: TaskView,
    pub claimed_by: Option<u64>,
    pub not_before: u64,
}

impl SlotView {
    /// No worker holds the task and its waiting time is over.
    pub open spec fn claimable(self, now: u64) -> bool {
        self.claimed_by is None && self.not_before <= now
    }

    /// The slot of a task that has just entered the queue.
    pub open spec fn fresh(pending: PendingView, task_id: u64, now: u64) -> SlotView {
        SlotView {
            task: TaskView {
                task_id,
                issue_id: pending.issue_id,
                recipient_email: pending.recipient_email,
                attempt_count: 0,
                created_at: now,
            },
            claimed_by: None,
            not_before: 0,
        }
    }

    /// The same task, held by the worker.
    pub open spec fn held_by(self, worker_id: u64) -> SlotView {
        SlotView { claimed_by: Some(worker_id), ..self }
    }

    /// The same task, held by nobody.
    pub open spec fn freed(self) -> SlotView {
        SlotView { claimed_by: None, ..self }
    }

    /// The task after a failed attempt: counted, held by nobody, and not to
    /// be claimed before the time given.
    pub open spec fn deferred(self, not_before: u64) -> SlotView {
        SlotView {
            task: TaskView {
                attempt_count: if self.task.attempt_count < u32::MAX {
                    (self.task.attempt_count + 1) as u32
                } else {
                    u32::MAX
                },
                ..self.task
            },
            claimed_by: None,
            not_before,
        }
    }
}

/// The queue as a mathematical value: the tasks in the order of their ids,
/// and the id that the next new task gets.
#[verifier::ext_equal]
pub struct OutboxView {
    pub slots: Seq<SlotView>,
    pub next_task_id: u64,
}

impl OutboxView {
    /// Task ids grow along the queue and lie below the next id to be given.
    pub open spec fn wf(self) -> bool {
        &&& forall|i: int, j: int|
            0 <= i < j < self.slots.len() ==> (#[trigger] self.slots[i]).task.task_id < (
            #[trigger] self.slots[j]).task.task_id
        &&& forall|i: int|
            0 <= i < self.slots.len() ==> (#[trigger] self.slots[i]).task.task_id
                < self.next_task_id
    }

    /// The queue holds a task with the id.
    pub open spec fn contains(self, task_id: u64) -> bool {
        exists|i: int| 0 <= i < self.slots.len() && (#[trigger] self.slots[i]).task.task_id == task_id
    }

    /// Where the task with the id stands, if the queue holds it.
    pub open spec fn position(self, task_id: u64) -> int {
        choose|i: int| 0 <= i < self.slots.len() && (#[trigger] self.slots[i]).task.task_id == task_id
    }

    /// The slot of the task with the id, if the queue holds it.
    pub open spec fn slot(self, task_id: u64) -> SlotView {
        self.slots[self.position(task_id)]
    }

    /// Some task can be claimed at the time given.
    pub open spec fn any_claimable(self, now: u64) -> bool {
        exists|i: int| 0 <= i < self.slots.len() && (#[trigger] self.slots[i]).claimable(now)
    }

    /// The task at `i` can be claimed and none before it can.
    pub open spec fn is_first_claimable(self, now: u64, i: int) -> bool {
        &&& 0 <= i < self.slots.len()
        &&& self.slots[i].claimable(now)
        &&& forall|j: int| 0 <= j < i ==> !(#[trigger] self.slots[j]).claimable(now)
    }

    /// Where the first task stands that can be claimed, if there is one.
    pub open spec fn first_claimable(self, now: u64) -> int {
        choose|i: int| self.is_first_claimable(now, i)
    }

    /// The queue after the pending tasks were enqueued at the time given:
    /// they stand at its end, in order, with consecutive new ids.
    pub open spec fn enqueue(self, pending: Seq<PendingView>, now: u64) -> OutboxView {
        OutboxView {
            slots: self.slots + Seq::new(
                pending.len(),
                |k: int| SlotView::fresh(pending[k], (self.next_task_id + k) as u64, now),
            ),
            next_task_id: (self.next_task_id + pending.len()) as u64,
        }
    }

    /// The queue after the worker claimed the first task that can be
    /// claimed; the same queue where there is none.
    pub open spec fn claim(self, worker_id: u64, now: u64) -> OutboxView {
        if self.any_claimable(now) {
            let i = self.first_claimable(now);
            OutboxView { slots: self.slots.update(i, self.slots[i].held_by(worker_id)), ..self }
        } else {
            self
        }
    }

    /// The queue without the task of that id.
    pub open spec fn remove(self, task_id: u64) -> OutboxView {
        if self.contains(task_id) {
            OutboxView { slots: self.slots.remove(self.position(task_id)), ..self }
        } else {
            self
        }
    }

    /// The queue in which nobody holds the task of that id.
    pub open spec fn release(self, task_id: u64) -> OutboxView {
        OutboxView {
            slots: Seq::new(
                self.slots.len(),
                |i: int|
                    if self.slots[i].task.task_id == task_id {
                        self.slots[i].freed()
                    } else {
                        self.slots[i]
                    },
            ),
            ..self
        }
    }

    /// The queue in which the task of that id has one more failed attempt,
    /// is held by nobody and waits until the time given.
    pub open spec fn defer(self, task_id: u64, not_before: u64) -> OutboxView {
        OutboxView {
            slots: Seq::new(
                self.slots.len(),
                |i: int|
                    if self.slots[i].task.task_id == task_id {
                        self.slots[i].deferred(not_before)
                    } else {
                        self.slots[i]
                    },
            ),
            ..self
        }
    }

    /// The queue after the worker's connection was lost: nobody holds what
    /// the worker held.
    pub open spec fn disconnect(self, worker_id: u64) -> OutboxView {
        OutboxView {
            slots: Seq::new(
                self.slots.len(),
                |i: int|
                    if self.slots[i].claimed_by == Some(worker_id) {
                        self.slots[i].freed()
                    } else {
                        self.slots[i]
                    },
            ),
            ..self
        }
    }

    /// The queue without the tasks of the issue that nobody holds.
    pub open spec fn cancel(self, issue_id: u64) -> OutboxView {
        OutboxView { slots: self.slots.filter(outlasts_cancel(issue_id)), ..self }
    }

    /// How many tasks of the issue the queue holds.
    pub open spec fn pending(self, issue_id: u64) -> nat {
        count_issue(self.slots, issue_id)
    }
}

/// Which slots stay when the pending tasks of the issue are cancelled: those
/// of other issues, and those that a worker holds.
pub open spec fn outlasts_cancel(issue_id: u64) -> spec_fn(SlotView) -> bool {
    |slot: SlotView| !(slot.task.issue_id == issue_id && slot.claimed_by is None)
}

/// How many of the slots belong to the issue.
pub open spec fn count_issue(slots: Seq<SlotView>, issue_id: u64) -> nat
    decreases slots.len(),
{
    if slots.len() == 0 {
        0
    } else {
        count_issue(slots.drop_last(), issue_id) + if slots.last().task.issue_id == issue_id {
            1nat
        } else {
            0nat
        }
    }
}

/// In a well-formed queue a task id is found where its task stands.
pub proof fn lemma_position(view: OutboxView, i: int)
    requires
        view.wf(),
        0 <= i < view.slots.len(),
    ensures
        view.contains(view.slots[i].task.task_id),
        view.position(view.slots[i].task.task_id) == i,
{
    let id = view.slots[i].task.task_id;
    assert(view.contains(id));
    let p = view.position(id);
    if p < i {
        assert(view.slots[p].task.task_id < view.slots[i].task.task_id);
    } else if i < p {
        assert(view.slots[i].task.task_id < view.slots[p].task.task_id);
    }
}

/// The first task that can be claimed stands at one place only.
pub proof fn lemma_first_claimable(view: OutboxView, now: u64, i: int)
    requires
        view.is_first_claimable(now, i),
    ensures
        view.any_claimable(now),
        view.first_claimable(now) == i,
{
    let p = view.first_claimable(now);
    assert(view.is_first_claimable(now, p));
    if p < i {
        assert(!view.slots[p].claimable(now));
    } else if i < p {
        assert(!view.slots[i].claimable(now));
    }
}

/// A queue with room for the pending tasks is well formed with them.
pub proof fn lemma_enqueue_keeps_order(view: OutboxView, pending: Seq<PendingView>, now: u64)
    requires
        view.wf(),
        view.next_task_id + pending.len() <= u64::MAX,
    ensures
        view.enqueue(pending, now).wf(),
{
    let after = view.enqueue(pending, now);
    let held = view.slots.len();
    assert forall|i: int, j: int| 0 <= i < j < after.slots.len() implies (
    #[trigger] after.slots[i]).task.task_id < (#[trigger] after.slots[j]).task.task_id by {
        if j < held {
            assert(view.slots[i].task.task_id < view.slots[j].task.task_id);
        } else if i < held {
            assert(view.slots[i].task.task_id < view.next_task_id);
        }
    }
    assert forall|i: int| 0 <= i < after.slots.len() implies (#[trigger] after.slots[i]).task.task_id
        < after.next_task_id by {
        if i < held {
            assert(view.slots[i].task.task_id < view.next_task_id);
        }
    }
}

/// Where some task can be claimed, one of them is the first.
pub proof fn lemma_first_exists(view: OutboxView, now: u64)
    requires
        view.any_claimable(now),
    ensures
        view.is_first_claimable(now, view.first_claimable(now)),
{
    let k = choose|i: int| 0 <= i < view.slots.len() && (#[trigger] view.slots[i]).claimable(now);
    lemma_none_before(view, now, k);
}

proof fn lemma_none_before(view: OutboxView, now: u64, k: int)
    requires
        0 <= k < view.slots.len(),
        view.slots[k].claimable(now),
    ensures
        exists|i: int| view.is_first_claimable(now, i),
    decreases k,
{
    if forall|j: int| 0 <= j < k ==> !(#[trigger] view.slots[j]).claimable(now) {
        assert(view.is_first_claimable(now, k));
    } else {
        let j = choose|j: int| 0 <= j < k && (#[trigger] view.slots[j]).claimable(now);
        lemma_none_before(view, now, j);
    }
}

struct Slot {
    task: DeliveryTask,
    claimed_by: Option<u64>,
    not_before: u64,
}

impl View for Slot {
    type V = SlotView;

    closed spec fn view(&self) -> SlotView {
        SlotView { task: self.task@, claimed_by: self.claimed_by, not_before: self.not_before }
    }
}

spec fn slot_views(slots: Seq<Slot>) -> Seq<SlotView> {
    Seq::new(slots.len(), |i: int| slots[i]@)
}

/// The queue of delivery tasks that all workers share.
pub struct Outbox {
    slots: Vec<Slot>,
    next_task_id: u64,
}

impl View for Outbox {
    type V = OutboxView;

    closed spec fn view(&self) -> OutboxView {
        OutboxView { slots: slot_views(self.slots@), next_task_id: self.next_task_id }
    }
}

impl Outbox {
    /// Task ids grow along the queue and lie below the next id to be given.
    pub open spec fn wf(&self) -> bool {
        self@.wf()
    }

    /// An empty queue whose first task will get the id 0.
    pub fn new() -> (outbox: Self)
        ensures
            outbox.wf(),
            outbox@ == (OutboxView { slots: Seq::<SlotView>::empty(), next_task_id: 0 }),
    {
        Outbox::starting_at(0)
    }

    /// An empty queue whose first task will get the id given.
    pub fn starting_at(first_task_id: u64) -> (outbox: Self)
        ensures
            outbox.wf(),
            outbox@ == (OutboxView {
                slots: Seq::<SlotView>::empty(),
                next_task_id: first_task_id,
            }),
    {
        let outbox = Outbox { slots: Vec::new(), next_task_id: first_task_id };
        assert(outbox@.slots =~= Seq::<SlotView>::empty());
        outbox
    }

    /// The number of tasks in the queue.
    pub fn len(&self) -> (n: usize)
        ensures
            n == self@.slots.len(),
    {
        self.slots.len()
    }

    /// Whether the queue holds no task.
    pub fn is_empty(&self) -> (empty: bool)
        ensures
            empty == (self@.slots.len() == 0),
    {
        self.slots.len() == 0
    }

    fn find(&self, task_id: u64) -> (found: Option<usize>)
        requires
            self.wf(),
        ensures
            found is Some <==> self@.contains(task_id),
            found matches Some(i) ==> i == self@.position(task_id) && i < self@.slots.len()
                && self@.slots[i as int].task.task_id == task_id,
    {
        let mut i: usize = 0;
        while i < self.slots.len()
            invariant
                i <= self.slots.len(),
                self.wf(),
                forall|j: int| 0 <= j < i ==> (#[trigger] self@.slots[j]).task.task_id != task_id,
            decreases self.slots.len() - i,
        {
            if self.slots[i].task.task_id == task_id {
                proof {
                    assert(self@.slots[i as int] == self.slots@[i as int]@);
                    lemma_position(self@, i as int);
                }
                return Some(i);
            }
            assert(self@.slots[i as int] == self.slots@[i as int]@);
            i = i + 1;
        }
        None
    }

    /// Puts the pending tasks at the end of the queue, each with the next
    /// free id, no attempt made, held by nobody and ready at once. Where the
    /// ids do not suffice for the whole batch, nothing is enqueued.
    pub(crate) fn insert_batch(&mut self, pending: &Vec<PendingTask>, now: u64) -> (enqueued: bool)
        requires
            old(self).wf(),
        ensures
            final(self).wf(),
            enqueued <==> old(self)@.next_task_id + pending@.len() <= u64::MAX,
            enqueued ==> final(self)@ == old(self)@.enqueue(pending_views(pending@), now),
            !enqueued ==> final(self)@ == old(self)@,
    {
        let first: u64 = self.next_task_id;
        if pending.len() as u64 > u64::MAX - first {
            return false;
        }
        let ghost before = self@;
        let ghost wanted = before.enqueue(pending_views(pending@), now);
        let mut k: usize = 0;
        while k < pending.len()
            invariant
                k <= pending.len(),
                first + pending.len() <= u64::MAX,
                self.next_task_id == first,
                before.wf(),
                before.next_task_id == first,
                wanted == before.enqueue(pending_views(pending@), now),
                self@.slots.len() == before.slots.len() + k,
                forall|j: int| 0 <= j < before.slots.len() + k ==> self@.slots[j] == wanted.slots[j],
            decreases pending.len() - k,
        {
            let task = DeliveryTask {
                task_id: first + k as u64,
                issue_id: pending[k].issue_id,
                recipient_email: pending[k].recipient_email.clone(),
                attempt_count: 0,
                created_at: now,
            };
            let ghost shorter = self@.slots;
            self.slots.push(Slot { task, claimed_by: None, not_before: 0 });
            proof {
                assert forall|j: int| 0 <= j < before.slots.len() + k + 1 implies self@.slots[j]
                    == wanted.slots[j] by {
                    if j < before.slots.len() + k {
                        assert(self@.slots[j] == shorter[j]);
                    } else {
                        assert(pending_views(pending@)[k as int] == pending@[k as int]@);
                    }
                }
            }
            k = k + 1;
        }
        self.next_task_id = first + pending.len() as u64;
        assert(self@.slots =~= wanted.slots);
        true
    }

    /// Hands the first task that can be claimed to the worker and marks it as
    /// held by that worker, so that no other worker gets it. `None` where
    /// every task is held or still waiting.
    pub fn claim_next(&mut self, worker_id: u64, now: u64) -> (claimed: Option<DeliveryTask>)
        requires
            old(self).wf(),
        ensures
            final(self).wf(),
            final(self)@ == old(self)@.claim(worker_id, now),
            claimed is Some <==> old(self)@.any_claimable(now),
            claimed matches Some(task) ==> {
                let i = old(self)@.first_claimable(now);
                &&& old(self)@.is_first_claimable(now, i)
                &&& task@ == old(self)@.slots[i].task
                &&& final(self)@.slots == old(self)@.slots.update(
                    i,
                    old(self)@.slots[i].held_by(worker_id),
                )
            },
    {
        let ghost before = self@;
        let mut i: usize = 0;
        while i < self.slots.len()
            invariant
                i <= self.slots.len(),
                self@ == before,
                before == old(self)@,
                before.wf(),
                forall|j: int| 0 <= j < i ==> !(#[trigger] before.slots[j]).claimable(now),
            decreases self.slots.len() - i,
        {
            assert(before.slots[i as int] == self.slots@[i as int]@);
            if self.slots[i].claimed_by.is_none() && self.slots[i].not_before <= now {
                proof {
                    lemma_first_claimable(before, now, i as int);
                }
                let task = self.slots[i].task.clone();
                self.slots[i].claimed_by = Some(worker_id);
                assert(self@.slots =~= before.slots.update(
                    i as int,
                    before.slots[i as int].held_by(worker_id),
                ));
                assert(self@ =~= before.claim(worker_id, now));
                assert forall|j: int| 0 <= j < self@.slots.len() implies (
                #[trigger] self@.slots[j]).task.task_id == before.slots[j].task.task_id by {}
                return Some(task);
            }
            i = i + 1;
        }
        None
    }

    /// Removes the task for good and says whether the queue held it.
    pub fn delete(&mut self, task_id: u64) -> (removed: bool)
        requires
            old(self).wf(),
        ensures
            final(self).wf(),
            removed == old(self)@.contains(task_id),
            final(self)@ == old(self)@.remove(task_id),
            !final(self)@.contains(task_id),
    {
        let ghost before = self@;
        match self.find(task_id) {
            Some(i) => {
                self.slots.remove(i);
                assert(self@.slots =~= before.slots.remove(i as int));
                proof {
                    lemma_remove_keeps_order(before, i as int);
                }
                true
            },
            None => false,
        }
    }

    /// Gives the task back to the pending tasks: nobody holds it afterwards.
    /// Nothing else changes, and a task that nobody holds, or an id that the
    /// queue does not have, leaves the queue as it is.
    pub fn release(&mut self, task_id: u64)
        requires
            old(self).wf(),
        ensures
            final(self).wf(),
            final(self)@ == old(self)@.release(task_id),
    {
        let ghost before = self@;
        match self.find(task_id) {
            Some(i) => {
                self.slots[i].claimed_by = None;
                proof {
                    assert forall|j: int| 0 <= j < before.slots.len() implies self@.slots[j]
                        == before.release(task_id).slots[j] by {
                        if j != i {
                            lemma_position(before, j);
                        }
                    }
                    assert(self@.slots =~= before.release(task_id).slots);
                }
            },
            None => {
                assert(self@.slots =~= before.release(task_id).slots);
            },
        }
    }

    /// Counts a failed attempt on the task and gives it back to the pending
    /// tasks, not to be claimed before the time given.
    pub fn defer(&mut self, task_id: u64, not_before: u64)
        requires
            old(self).wf(),
        ensures
            final(self).wf(),
            final(self)@ == old(self)@.defer(task_id, not_before),
    {
        let ghost before = self@;
        match self.find(task_id) {
            Some(i) => {
                let attempts: u32 = self.slots[i].task.attempt_count;
                self.slots[i].task.attempt_count = if attempts < u32::MAX {
                    attempts + 1
                } else {
                    u32::MAX
                };
                self.slots[i].claimed_by = None;
                self.slots[i].not_before = not_before;
                proof {
                    assert forall|j: int| 0 <= j < before.slots.len() implies self@.slots[j]
                        == before.defer(task_id, not_before).slots[j] by {
                        if j != i {
                            lemma_position(before, j);
                        }
                    }
                    assert(self@.slots =~= before.defer(task_id, not_before).slots);
                }
            },
            None => {
                assert(self@.slots =~= before.defer(task_id, not_before).slots);
            },
        }
    }

    /// Frees every task that the worker holds, as happens when the worker's
    /// connection is lost.
    pub fn disconnect(&mut self, worker_id: u64)
        requires
            old(self).wf(),
        ensures
            final(self).wf(),
            final(self)@ == old(self)@.disconnect(worker_id),
    {
        let ghost before = self@;
        let ghost wanted = before.disconnect(worker_id);
        let mut i: usize = 0;
        while i < self.slots.len()
            invariant
                i <= self.slots.len(),
                self@.slots.len() == before.slots.len(),
                self@.next_task_id == before.next_task_id,
                wanted == before.disconnect(worker_id),
                forall|j: int| 0 <= j < i ==> self@.slots[j] == wanted.slots[j],
                forall|j: int| i <= j < self@.slots.len() ==> self@.slots[j] == before.slots[j],
            decreases self.slots.len() - i,
        {
            assert(self@.slots[i as int] == self.slots@[i as int]@);
            let ghost mid = self@;
            let held: bool = match self.slots[i].claimed_by {
                Some(holder) => holder == worker_id,
                None => false,
            };
            if held {
                self.slots[i].claimed_by = None;
            }
            proof {
                assert forall|j: int| 0 <= j < i + 1 implies self@.slots[j] == wanted.slots[j] by {
                    if j < i {
                        assert(self@.slots[j] == mid.slots[j]);
                    }
                }
                assert forall|j: int| i + 1 <= j < self@.slots.len() implies self@.slots[j]
                    == before.slots[j] by {
                    assert(self@.slots[j] == mid.slots[j]);
                }
            }
            i = i + 1;
        }
        assert(self@.slots =~= wanted.slots);
    }
}

impl Outbox {
    /// How many tasks of the issue are still in the queue: the deliveries
    /// of the issue that are not yet resolved.
    pub fn pending_for_issue(&self, issue_id: u64) -> (n: usize)
        ensures
            n == self@.pending(issue_id),
    {
        let mut n: usize = 0;
        let mut i: usize = 0;
        while i < self.slots.len()
            invariant
                i <= self.slots.len(),
                n <= i,
                n == count_issue(self@.slots.subrange(0, i as int), issue_id),
            decreases self.slots.len() - i,
        {
            proof {
                let longer = self@.slots.subrange(0, i + 1);
                assert(longer.drop_last() =~= self@.slots.subrange(0, i as int));
                assert(longer.last() == self.slots@[i as int]@);
            }
            if self.slots[i].task.issue_id == issue_id {
                n = n + 1;
            }
            i = i + 1;
        }
        assert(self@.slots.subrange(0, i as int) =~= self@.slots);
        n
    }

    /// Whether the delivery of the issue is complete: no task of it is left.
    pub fn is_complete(&self, issue_id: u64) -> (complete: bool)
        ensures
            complete == (self@.pending(issue_id) == 0),
    {
        self.pending_for_issue(issue_id) == 0
    }

    /// A copy of the task with the id, if the queue holds it.
    pub fn task(&self, task_id: u64) -> (found: Option<DeliveryTask>)
        requires
            self.wf(),
        ensures
            found is Some <==> self@.contains(task_id),
            found matches Some(task) ==> task@ == self@.slot(task_id).task,
    {
        match self.find(task_id) {
            Some(i) => {
                assert(self@.slots[i as int] == self.slots@[i as int]@);
                Some(self.slots[i].task.clone())
            },
            None => None,
        }
    }

    /// The worker that holds the task with the id, if the queue holds the
    /// task and a worker holds it.
    pub fn holder(&self, task_id: u64) -> (holder: Option<u64>)
        requires
            self.wf(),
        ensures
            holder == if self@.contains(task_id) {
                self@.slot(task_id).claimed_by
            } else {
                None
            },
    {
        match self.find(task_id) {
            Some(i) => {
                assert(self@.slots[i as int] == self.slots@[i as int]@);
                self.slots[i].claimed_by
            },
            None => None,
        }
    }
}

impl Outbox {
    /// Cancels what is left of an issue: removes the tasks of the issue that
    /// nobody holds, and says how many they were. A task that a worker holds
    /// stays, and so does every task of another issue.
    pub fn cancel_pending(&mut self, issue_id: u64) -> (removed: usize)
        requires
            old(self).wf(),
        ensures
            final(self).wf(),
            final(self)@ == old(self)@.cancel(issue_id),
            removed == old(self)@.slots.len() - final(self)@.slots.len(),
    {
        let ghost before = self@;
        let ghost keep = outlasts_cancel(issue_id);
        let mut kept: Vec<Slot> = Vec::new();
        let mut i: usize = 0;
        while i < self.slots.len()
            invariant
                i <= self.slots.len(),
                self@ == before,
                before.wf(),
                keep == outlasts_cancel(issue_id),
                kept@.len() <= i,
                slot_views(kept@) == before.slots.subrange(0, i as int).filter(keep),
                forall|j: int, k: int|
                    0 <= j < kept@.len() && i <= k < before.slots.len() ==> (#[trigger] kept@[j])@.task.task_id
                        < (#[trigger] before.slots[k]).task.task_id,
                forall|a: int, b: int|
                    0 <= a < b < kept@.len() ==> (#[trigger] kept@[a])@.task.task_id < (
                    #[trigger] kept@[b])@.task.task_id,
                forall|j: int|
                    0 <= j < kept@.len() ==> (#[trigger] kept@[j])@.task.task_id
                        < before.next_task_id,
            decreases self.slots.len() - i,
        {
            let slot = &self.slots[i];
            let cancelled: bool = slot.task.issue_id == issue_id && slot.claimed_by.is_none();
            proof {
                reveal(Seq::filter);
                let longer = before.slots.subrange(0, i + 1);
                assert(longer.drop_last() =~= before.slots.subrange(0, i as int));
                assert(longer.last() == before.slots[i as int]);
                assert(before.slots[i as int] == self.slots@[i as int]@);
                assert(keep(before.slots[i as int]) == !cancelled);
            }
            if !cancelled {
                let ghost shorter = kept@;
                let copy = Slot {
                    task: slot.task.clone(),
                    claimed_by: slot.claimed_by,
                    not_before: slot.not_before,
                };
                assert(copy@ == before.slots[i as int]);
                kept.push(copy);
                proof {
                    assert(slot_views(kept@) =~= slot_views(shorter).push(before.slots[i as int]));
                    assert forall|j: int, k: int|
                        0 <= j < kept@.len() && i + 1 <= k < before.slots.len() implies (
                    #[trigger] kept@[j])@.task.task_id < (
                    #[trigger] before.slots[k]).task.task_id by {
                        if j < shorter.len() {
                            assert(kept@[j] == shorter[j]);
                        } else {
                            assert(before.slots[i as int].task.task_id
                                < before.slots[k].task.task_id);
                        }
                    }
                    assert forall|a: int, b: int| 0 <= a < b < kept@.len() implies (
                    #[trigger] kept@[a])@.task.task_id < (#[trigger] kept@[b])@.task.task_id by {
                        assert(kept@[a] == shorter[a]);
                        if b < shorter.len() {
                            assert(kept@[b] == shorter[b]);
                        } else {
                            assert(shorter[a]@.task.task_id < before.slots[i as int].task.task_id);
                        }
                    }
                    assert forall|j: int| 0 <= j < kept@.len() implies (
                    #[trigger] kept@[j])@.task.task_id < before.next_task_id by {
                        if j < shorter.len() {
                            assert(kept@[j] == shorter[j]);
                        }
                    }
                }
            }
            i = i + 1;
        }
        assert(before.slots.subrange(0, i as int) =~= before.slots);
        let removed: usize = self.slots.len() - kept.len();
        self.slots = kept;
        proof {
            assert(self@.slots == before.cancel(issue_id).slots);
            assert forall|a: int, b: int| 0 <= a < b < self@.slots.len() implies (
            #[trigger] self@.slots[a]).task.task_id < (#[trigger] self@.slots[b]).task.task_id by {
                assert(self.slots@[a]@.task.task_id < self.slots@[b]@.task.task_id);
            }
            assert forall|a: int| 0 <= a < self@.slots.len() implies (
            #[trigger] self@.slots[a]).task.task_id < self@.next_task_id by {
                assert(self.slots@[a]@.task.task_id < before.next_task_id);
            }
        }
        removed
    }
}

/// Releasing a task twice is releasing it once, and releasing a task that
/// nobody holds, or that the queue does not have, changes nothing.
pub proof fn lemma_release_is_idempotent(view: OutboxView, task_id: u64)
    ensures
        view.release(task_id).release(task_id) == view.release(task_id),
        (forall|i: int|
            0 <= i < view.slots.len() && (#[trigger] view.slots[i]).task.task_id == task_id
                ==> view.slots[i].claimed_by is None) ==> view.release(task_id) == view,
{
    assert(view.release(task_id).release(task_id).slots =~= view.release(task_id).slots);
    if forall|i: int|
        0 <= i < view.slots.len() && (#[trigger] view.slots[i]).task.task_id == task_id
            ==> view.slots[i].claimed_by is None {
        assert(view.release(task_id).slots =~= view.slots);
    }
}

/// Taking one task out leaves the others in order.
pub proof fn lemma_remove_keeps_order(view: OutboxView, i: int)
    requires
        view.wf(),
        0 <= i < view.slots.len(),
    ensures
        (OutboxView { slots: view.slots.remove(i), ..view }).wf(),
        !(OutboxView { slots: view.slots.remove(i), ..view }).contains(view.slots[i].task.task_id),
        view.remove(view.slots[i].task.task_id) == (OutboxView {
            slots: view.slots.remove(i),
            ..view
        }),
{
    let rest = OutboxView { slots: view.slots.remove(i), ..view };
    assert forall|a: int, b: int| 0 <= a < b < rest.slots.len() implies (
    #[trigger] rest.slots[a]).task.task_id < (#[trigger] rest.slots[b]).task.task_id by {
        let a0 = if a < i { a } else { a + 1 };
        let b0 = if b < i { b } else { b + 1 };
        assert(view.slots[a0].task.task_id < view.slots[b0].task.task_id);
    }
    assert forall|a: int| 0 <= a < rest.slots.len() implies (#[trigger] rest.slots[a]).task.task_id
        < rest.next_task_id by {
        let a0 = if a < i { a } else { a + 1 };
        assert(view.slots[a0].task.task_id < view.next_task_id);
    }
    assert forall|a: int| 0 <= a < rest.slots.len() implies (#[trigger] rest.slots[a]).task.task_id
        != view.slots[i].task.task_id by {
        let a0 = if a < i { a } else { a + 1 };
        if a0 < i {
            assert(view.slots[a0].task.task_id < view.slots[i].task.task_id);
        } else {
            assert(view.slots[i].task.task_id < view.slots[a0].task.task_id);
        }
    }
    lemma_position(view, i);
}

} // verus!
