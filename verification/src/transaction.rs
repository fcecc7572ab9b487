//! The storage that the command handler and the workers share, and the
//! transactions through which the handler writes to it: what a transaction
//! holds reaches the storage all at once, or not at all.

use vstd::prelude::*;
use crate::idempotency::{
    as_map, distinct_keys, has_key, lemma_place_of, lemma_push_inserts, record_views,
    IdempotencyRecord, IdempotencyStore, RecordView, SaveError, SavedOutcome, StoreKey,
};
use crate::outbox::{pending_views, Outbox, OutboxView, PendingTask, PendingView, SlotView};
use crate::response::SavedResponse;

verus! {

/// The writes of one command, held back until they are committed.
pub struct Transaction {
    records: Vec<IdempotencyRecord>,
    tasks: Vec<PendingTask>,
    started_at: u64,
}

/// What a [`Transaction`] holds, as mathematical values.
#[verifier::ext_equal]
pub struct TransactionView {
    /// The responses to be saved, in the order in which they were staged.
    pub records: Seq<RecordView>,
    /// The tasks to be enqueued, in the order in which they were staged.
    pub tasks: Seq<PendingView>,
    /// When the transaction was opened.
    pub started_at: u64,
}

impl View for Transaction {
    type V = TransactionView;

    closed spec fn view(&self) -> TransactionView {
        TransactionView {
            records: record_views(self.records@),
            tasks: pending_views(self.tasks@),
            started_at: self.started_at,
        }
    }
}

/// The addresses of a list of recipients, in order.
pub open spec fn addresses(recipients: Seq<String>) -> Seq<Seq<char>> {
    Seq::new(recipients.len(), |k: int| recipients[k]@)
}

/// The addresses in the order in which each occurs first, each of them once.
pub open spec fn each_once(recipients: Seq<Seq<char>>) -> Seq<Seq<char>>
    decreases recipients.len(),
{
    if recipients.len() == 0 {
        recipients
    } else {
        let front = each_once(recipients.drop_last());
        if front.contains(recipients.last()) {
            front
        } else {
            front.push(recipients.last())
        }
    }
}

/// No address stands twice among the addresses taken once, and none is lost.
pub proof fn lemma_each_once(recipients: Seq<Seq<char>>)
    ensures
        each_once(recipients).no_duplicates(),
        each_once(recipients).len() <= recipients.len(),
        forall|address: Seq<char>|
            each_once(recipients).contains(address) <==> recipients.contains(address),
        recipients.no_duplicates() ==> each_once(recipients) == recipients,
    decreases recipients.len(),
{
    if recipients.len() > 0 {
        let shorter = recipients.drop_last();
        let last = recipients.last();
        let front = each_once(shorter);
        lemma_each_once(shorter);
        assert forall|address: Seq<char>|
            each_once(recipients).contains(address) <==> recipients.contains(address) by {
            if recipients.contains(address) {
                let i = choose|i: int| 0 <= i < recipients.len() && recipients[i] == address;
                if i < shorter.len() {
                    assert(shorter[i] == address);
                    assert(shorter.contains(address));
                    assert(front.contains(address));
                    let j = choose|j: int| 0 <= j < front.len() && front[j] == address;
                    assert(each_once(recipients)[j] == address);
                } else if !front.contains(last) {
                    assert(each_once(recipients)[front.len() as int] == address);
                }
            }
            if each_once(recipients).contains(address) {
                let j = choose|j: int|
                    0 <= j < each_once(recipients).len() && each_once(recipients)[j] == address;
                if j < front.len() {
                    assert(front[j] == address);
                    assert(shorter.contains(address));
                    let i = choose|i: int| 0 <= i < shorter.len() && shorter[i] == address;
                    assert(recipients[i] == address);
                } else {
                    assert(recipients[recipients.len() - 1] == address);
                }
            }
        }
        if recipients.no_duplicates() {
            assert forall|i: int, j: int| 0 <= i < j < shorter.len() implies shorter[i]
                != shorter[j] by {
                assert(recipients[i] != recipients[j]);
            }
            if front.contains(last) {
                let i = choose|i: int| 0 <= i < shorter.len() && shorter[i] == last;
                assert(recipients[i] != recipients[recipients.len() - 1]);
            }
            assert(front.push(last) =~= recipients);
        }
    }
}

/// One pending task of the issue for each address, in the order in which
/// the addresses occur first. An address that is named again gets no second
/// task.
pub open spec fn batch(issue_id: u64, recipients: Seq<Seq<char>>) -> Seq<PendingView> {
    Seq::new(
        each_once(recipients).len(),
        |k: int| PendingView { issue_id, recipient_email: each_once(recipients)[k] },
    )
}

impl TransactionView {
    /// No key is staged twice.
    pub open spec fn wf(self) -> bool {
        distinct_keys(self.records)
    }

    /// The transaction with one more response staged.
    pub open spec fn with_record(
        self,
        actor_id: u64,
        key: Seq<char>,
        response: crate::response::ResponseView,
    ) -> TransactionView {
        TransactionView {
            records: self.records.push(
                RecordView {
                    actor_id,
                    idempotency_key: key,
                    saved_response: response,
                    created_at: self.started_at,
                },
            ),
            ..self
        }
    }

    /// The transaction with one more task staged for each recipient.
    pub open spec fn with_batch(self, issue_id: u64, recipients: Seq<Seq<char>>) -> TransactionView {
        TransactionView { tasks: self.tasks + batch(issue_id, recipients), ..self }
    }
}

impl Transaction {
    /// No key is staged twice.
    pub open spec fn wf(&self) -> bool {
        self@.wf()
    }

    /// A transaction opened at the time given, with nothing staged.
    pub fn begin(now: u64) -> (tx: Self)
        ensures
            tx.wf(),
            tx@ == (TransactionView {
                records: Seq::<RecordView>::empty(),
                tasks: Seq::<PendingView>::empty(),
                started_at: now,
            }),
    {
        let tx = Transaction { records: Vec::new(), tasks: Vec::new(), started_at: now };
        assert(tx@.records =~= Seq::<RecordView>::empty());
        assert(tx@.tasks =~= Seq::<PendingView>::empty());
        tx
    }

    /// How many tasks are staged.
    pub fn staged_tasks(&self) -> (n: usize)
        ensures
            n == self@.tasks.len(),
    {
        self.tasks.len()
    }

    /// How many responses are staged.
    pub fn staged_records(&self) -> (n: usize)
        ensures
            n == self@.records.len(),
    {
        self.records.len()
    }

    fn has_staged(&self, actor_id: u64, key: &String) -> (found: bool)
        ensures
            found == has_key(self@.records, (actor_id, key@)),
    {
        let mut i: usize = 0;
        while i < self.records.len()
            invariant
                i <= self.records.len(),
                forall|j: int| 0 <= j < i ==> (#[trigger] self@.records[j]).key() != (actor_id, key@),
            decreases self.records.len() - i,
        {
            assert(self@.records[i as int] == self.records@[i as int]@);
            if self.records[i].actor_id == actor_id && self.records[i].idempotency_key == *key {
                return true;
            }
            i = i + 1;
        }
        false
    }
}

impl IdempotencyStore {
    /// Stages the response under the actor and key, to be saved when the
    /// transaction is committed. Refused with [`SaveError::Conflict`], and
    /// nothing staged, where the store already holds a response under the
    /// key, or the transaction has already staged one.
    pub fn save(
        &self,
        actor_id: u64,
        key: String,
        response: SavedResponse,
        tx: &mut Transaction,
    ) -> (result: Result<(), SaveError>)
        requires
            self.wf(),
            old(tx).wf(),
        ensures
            final(tx).wf(),
            result is Ok <==> !self@.dom().contains((actor_id, key@)) && !has_key(
                old(tx)@.records,
                (actor_id, key@),
            ),
            result is Ok ==> final(tx)@ == old(tx)@.with_record(actor_id, key@, response@),
            result is Err ==> final(tx)@ == old(tx)@,
            result is Err ==> result == Err::<(), SaveError>(SaveError::Conflict),
    {
        if self.contains(actor_id, &key) || tx.has_staged(actor_id, &key) {
            return Err(SaveError::Conflict);
        }
        let record = IdempotencyRecord {
            actor_id,
            idempotency_key: key,
            saved_response: response,
            created_at: tx.started_at,
        };
        proof {
            lemma_push_inserts(tx@.records, record@);
            assert(record_views(tx.records@.push(record)) =~= tx@.records.push(record@));
        }
        tx.records.push(record);
        Ok(())
    }
}

impl Outbox {
    /// Stages one delivery task of the issue for each recipient, in the
    /// order in which the recipients occur first, to be enqueued when the
    /// transaction is committed. A recipient that is named again gets no
    /// second task. The queue itself is not touched before the commit.
    pub fn enqueue_batch(&self, issue_id: u64, recipients: &Vec<String>, tx: &mut Transaction)
        requires
            old(tx).wf(),
        ensures
            final(tx).wf(),
            final(tx)@ == old(tx)@.with_batch(issue_id, addresses(recipients@)),
    {
        let ghost before = tx@;
        let ghost named = addresses(recipients@);
        let first: usize = tx.tasks.len();
        let mut k: usize = 0;
        while k < recipients.len()
            invariant
                k <= recipients.len(),
                named == addresses(recipients@),
                named.len() == recipients@.len(),
                first == before.tasks.len(),
                tx.tasks@.len() == first + each_once(named.subrange(0, k as int)).len(),
                tx@.records == before.records,
                tx@.started_at == before.started_at,
                tx@.tasks == before.tasks + batch(issue_id, named.subrange(0, k as int)),
            decreases recipients.len() - k,
        {
            let ghost seen = each_once(named.subrange(0, k as int));
            let ghost staged = tx@.tasks;
            proof {
                assert(named.subrange(0, k + 1).drop_last() =~= named.subrange(0, k as int));
                assert(named.subrange(0, k + 1).last() == recipients@[k as int]@);
            }
            let mut known: bool = false;
            let mut j: usize = first;
            while j < tx.tasks.len()
                invariant
                    first <= j <= tx.tasks.len(),
                    k < recipients.len(),
                    named.len() == recipients@.len(),
                    tx.tasks@.len() == first + seen.len(),
                    tx@.tasks == staged,
                    staged == before.tasks + batch(issue_id, named.subrange(0, k as int)),
                    seen == each_once(named.subrange(0, k as int)),
                    first == before.tasks.len(),
                    known <==> exists|i: int| 0 <= i < j - first && seen[i] == recipients@[k as int]@,
                decreases tx.tasks.len() - j,
            {
                assert(tx@.tasks[j as int] == tx.tasks@[j as int]@);
                assert(staged[j as int].recipient_email == seen[j - first]);
                if tx.tasks[j].recipient_email == recipients[k] {
                    known = true;
                }
                j = j + 1;
            }
            proof {
                if seen.contains(recipients@[k as int]@) {
                    let i = choose|i: int| 0 <= i < seen.len() && seen[i] == recipients@[k as int]@;
                    assert(0 <= i < j - first && seen[i] == recipients@[k as int]@);
                }
            }
            assert(known == seen.contains(recipients@[k as int]@));
            proof {
                let longer = named.subrange(0, k + 1);
                assert(longer.drop_last() =~= named.subrange(0, k as int));
                assert(longer.last() == recipients@[k as int]@);
                assert(each_once(longer) == if known {
                    seen
                } else {
                    seen.push(recipients@[k as int]@)
                });
            }
            if !known {
                tx.tasks.push(PendingTask { issue_id, recipient_email: recipients[k].clone() });
                assert(tx@.tasks =~= staged.push(
                    PendingView { issue_id, recipient_email: recipients@[k as int]@ },
                ));
            }
            assert(tx@.tasks =~= before.tasks + batch(issue_id, named.subrange(0, k + 1)));
            k = k + 1;
        }
        assert(named.subrange(0, k as int) =~= named);
    }
}

/// Why a transaction could not be committed.
#[derive(Debug, PartialEq, Eq, Structural, Clone, Copy)]
pub enum CommitError {
    /// Another writer has saved a response under a key that the transaction
    /// wants to save.
    Conflict,
    /// The storage cannot take the writes: the queue has no task ids left.
    Unavailable,
}

/// The idempotency store and the outbox, which are written together.
pub struct Storage {
    pub idempotency: IdempotencyStore,
    pub outbox: Outbox,
}

/// What a [`Storage`] holds, as mathematical values.
#[verifier::ext_equal]
pub struct StorageView {
    pub idempotency: Map<StoreKey, SavedOutcome>,
    pub outbox: OutboxView,
}

impl View for Storage {
    type V = StorageView;

    open spec fn view(&self) -> StorageView {
        StorageView { idempotency: self.idempotency@, outbox: self.outbox@ }
    }
}

impl StorageView {
    /// The storage already holds a response under a key that the transaction
    /// has staged.
    pub open spec fn conflicts_with(self, tx: TransactionView) -> bool {
        exists|i: int|
            0 <= i < tx.records.len() && self.idempotency.dom().contains(
                (#[trigger] tx.records[i]).key(),
            )
    }

    /// The queue has a task id for each task that the transaction has staged.
    pub open spec fn has_room_for(self, tx: TransactionView) -> bool {
        self.outbox.next_task_id + tx.tasks.len() <= u64::MAX
    }

    /// Why the transaction cannot be committed, if it cannot.
    pub open spec fn refusal(self, tx: TransactionView) -> Option<CommitError> {
        if self.conflicts_with(tx) {
            Some(CommitError::Conflict)
        } else if !self.has_room_for(tx) {
            Some(CommitError::Unavailable)
        } else {
            None
        }
    }

    /// The storage with everything that the transaction has staged: each
    /// response under its key, and the tasks at the end of the queue.
    pub open spec fn with_all_of(self, tx: TransactionView) -> StorageView {
        StorageView {
            idempotency: self.idempotency.union_prefer_right(as_map(tx.records)),
            outbox: self.outbox.enqueue(tx.tasks, tx.started_at),
        }
    }

    /// The storage after the attempt to commit the transaction: everything
    /// that was staged, or nothing of it.
    pub open spec fn commit(self, tx: TransactionView) -> StorageView {
        if self.refusal(tx) is None {
            self.with_all_of(tx)
        } else {
            self
        }
    }
}

impl Storage {
    /// Both parts are well formed.
    pub open spec fn wf(&self) -> bool {
        self.idempotency.wf() && self.outbox.wf()
    }

    /// A storage with no saved response and no task.
    pub fn new() -> (storage: Self)
        ensures
            storage.wf(),
            storage@.idempotency == Map::<StoreKey, SavedOutcome>::empty(),
            storage@.outbox == (OutboxView {
                slots: Seq::<crate::outbox::SlotView>::empty(),
                next_task_id: 0,
            }),
    {
        Storage { idempotency: IdempotencyStore::new(), outbox: Outbox::new() }
    }

    /// Writes everything that the transaction has staged, or nothing: where
    /// a staged key is taken, or the queue has no ids left for the staged
    /// tasks, the storage stays as it was.
    pub fn commit(&mut self, tx: Transaction) -> (result: Result<(), CommitError>)
        requires
            old(self).wf(),
            tx.wf(),
        ensures
            final(self).wf(),
            final(self)@ == old(self)@.commit(tx@),
            result == match old(self)@.refusal(tx@) {
                Some(error) => Err::<(), CommitError>(error),
                None => Ok::<(), CommitError>(()),
            },
    {
        let ghost before = self@;
        let mut i: usize = 0;
        while i < tx.records.len()
            invariant
                i <= tx.records.len(),
                self@ == before,
                before == old(self)@,
                self.wf(),
                forall|j: int|
                    0 <= j < i ==> !before.idempotency.dom().contains(
                        (#[trigger] tx@.records[j]).key(),
                    ),
            decreases tx.records.len() - i,
        {
            assert(tx@.records[i as int] == tx.records@[i as int]@);
            if self.idempotency.contains(tx.records[i].actor_id, &tx.records[i].idempotency_key) {
                assert(before.conflicts_with(tx@));
                return Err(CommitError::Conflict);
            }
            i = i + 1;
        }
        assert(!before.conflicts_with(tx@));
        if !self.outbox.insert_batch(&tx.tasks, tx.started_at) {
            return Err(CommitError::Unavailable);
        }
        let mut i: usize = 0;
        while i < tx.records.len()
            invariant
                i <= tx.records.len(),
                self.wf(),
                tx.wf(),
                self@.outbox == before.outbox.enqueue(tx@.tasks, tx@.started_at),
                !before.conflicts_with(tx@),
                self@.idempotency == before.idempotency.union_prefer_right(
                    as_map(tx@.records.subrange(0, i as int)),
                ),
            decreases tx.records.len() - i,
        {
            let record = tx.records[i].clone();
            proof {
                let staged = tx@.records;
                let prefix = staged.subrange(0, i as int);
                assert(staged[i as int] == tx.records@[i as int]@);
                assert(record@ == staged[i as int]);
                assert forall|a: int, b: int| 0 <= a < b < prefix.len() implies (
                #[trigger] prefix[a]).key() != (#[trigger] prefix[b]).key() by {
                    assert(staged[a].key() != staged[b].key());
                }
                if has_key(prefix, record@.key()) {
                    let p = crate::idempotency::place_of(prefix, record@.key());
                    assert(staged[p].key() != staged[i as int].key());
                }
                lemma_push_inserts(prefix, record@);
                assert(prefix.push(record@) =~= staged.subrange(0, i + 1));
                assert(before.idempotency.union_prefer_right(as_map(prefix)).insert(
                    record@.key(),
                    record@.outcome(),
                ) =~= before.idempotency.union_prefer_right(
                    as_map(prefix).insert(record@.key(), record@.outcome()),
                ));
            }
            let _ = self.idempotency.insert(record);
            i = i + 1;
        }
        assert(tx@.records.subrange(0, i as int) =~= tx@.records);
        Ok(())
    }
}

/// A commit is all or nothing: either the storage is as it was, or every
/// staged response is saved under its key and every staged task stands in
/// the queue, behind the tasks that were there, which are untouched.
pub proof fn lemma_commit_is_atomic(storage: StorageView, tx: TransactionView)
    requires
        tx.wf(),
    ensures
        ({
            let after = storage.commit(tx);
            let held = storage.outbox.slots.len();
            ||| after == storage
            ||| {
                &&& forall|i: int|
                    0 <= i < tx.records.len() ==> after.idempotency.dom().contains(
                        (#[trigger] tx.records[i]).key(),
                    ) && after.idempotency[tx.records[i].key()] == tx.records[i].outcome()
                &&& after.outbox.slots.len() == held + tx.tasks.len()
                &&& forall|k: int|
                    0 <= k < tx.tasks.len() ==> #[trigger] after.outbox.slots[held + k]
                        == SlotView::fresh(
                        tx.tasks[k],
                        (storage.outbox.next_task_id + k) as u64,
                        tx.started_at,
                    )
                &&& forall|i: int|
                    0 <= i < held ==> #[trigger] after.outbox.slots[i] == storage.outbox.slots[i]
            }
        }),
{
    if storage.refusal(tx) is None {
        assert forall|i: int| 0 <= i < tx.records.len() implies storage.commit(
            tx,
        ).idempotency.dom().contains((#[trigger] tx.records[i]).key()) && storage.commit(
            tx,
        ).idempotency[tx.records[i].key()] == tx.records[i].outcome() by {
            lemma_place_of(tx.records, i);
        }
    }
}

/// A commit never changes and never removes a response that is saved.
pub proof fn lemma_commit_keeps_saved(storage: StorageView, tx: TransactionView, key: StoreKey)
    requires
        storage.idempotency.dom().contains(key),
    ensures
        storage.commit(tx).idempotency.dom().contains(key),
        storage.commit(tx).idempotency[key] == storage.idempotency[key],
{
    if storage.refusal(tx) is None {
        if has_key(tx.records, key) {
            let p = crate::idempotency::place_of(tx.records, key);
            assert(storage.idempotency.dom().contains(tx.records[p].key()));
            assert(storage.conflicts_with(tx));
        }
    }
}

/// A batch holds one task for each recipient and no two tasks for the same
/// recipient: every task of the batch goes to one of the recipients, every
/// recipient has a task in it, and no two of its tasks go to the same
/// address. Each task is new, of the issue, and ready to be claimed.
pub proof fn lemma_one_task_per_recipient(
    view: OutboxView,
    issue_id: u64,
    recipients: Seq<Seq<char>>,
    now: u64,
)
    ensures
        ({
            let after = view.enqueue(batch(issue_id, recipients), now);
            let held = view.slots.len();
            let added = after.slots.len() - held;
            &&& 0 <= added <= recipients.len()
            &&& recipients.no_duplicates() ==> added == recipients.len()
            &&& forall|k: int|
                0 <= k < added ==> (#[trigger] after.slots[held + k]).task.issue_id == issue_id
                    && recipients.contains(after.slots[held + k].task.recipient_email)
                    && after.slots[held + k].task.attempt_count == 0 && after.slots[held
                    + k].claimable(now)
            &&& forall|i: int|
                0 <= i < recipients.len() ==> exists|k: int|
                    0 <= k < added && (#[trigger] after.slots[held + k]).task.recipient_email
                        == #[trigger] recipients[i]
            &&& forall|a: int, b: int|
                0 <= a < b < added ==> (#[trigger] after.slots[held + a]).task.recipient_email != (
                #[trigger] after.slots[held + b]).task.recipient_email
        }),
{
    lemma_each_once(recipients);
    let once = each_once(recipients);
    let after = view.enqueue(batch(issue_id, recipients), now);
    let held = view.slots.len() as int;
    assert forall|k: int| 0 <= k < once.len() implies recipients.contains(
        (#[trigger] after.slots[held + k]).task.recipient_email,
    ) by {
        assert(once.contains(once[k]));
    }
    assert forall|i: int| 0 <= i < recipients.len() implies exists|k: int|
        0 <= k < once.len() && (#[trigger] after.slots[held + k]).task.recipient_email
            == #[trigger] recipients[i] by {
        assert(recipients.contains(recipients[i]));
        assert(once.contains(recipients[i]));
        let k = choose|k: int| 0 <= k < once.len() && once[k] == recipients[i];
        assert(after.slots[held + k].task.recipient_email == recipients[i]);
    }
}

} // verus!
