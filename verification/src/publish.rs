//! The command handler: accepts a publish command once, however often it is
//! submitted, and hands every submission the response of the first.

use vstd::prelude::*;
use crate::idempotency::{as_map, lemma_push_inserts, RecordView, SavedOutcome, StoreKey};
use crate::response::{ResponseView, SavedResponse};
use crate::transaction::{
    addresses, batch, CommitError, Storage, StorageView, Transaction, TransactionView,
};

verus! {

/// A command to publish an issue to its recipients.
#[derive(Debug)]
pub struct PublishCommand {
    /// The authenticated caller.
    pub actor_id: u64,
    /// The caller's token for this logical attempt.
    pub idempotency_key: String,
    pub issue_id: u64,
    /// The confirmed recipients of the issue.
    pub recipients: Vec<String>,
    /// The response to hand back if this is the first execution.
    pub response: SavedResponse,
}

/// What a [`PublishCommand`] holds, as mathematical values.
#[verifier::ext_equal]
pub struct CommandView {
    pub actor_id: u64,
    pub idempotency_key: Seq<char>,
    pub issue_id: u64,
    pub recipients: Seq<Seq<char>>,
    pub response: ResponseView,
}

impl View for PublishCommand {
    type V = CommandView;

    open spec fn view(&self) -> CommandView {
        CommandView {
            actor_id: self.actor_id,
            idempotency_key: self.idempotency_key@,
            issue_id: self.issue_id,
            recipients: addresses(self.recipients@),
            response: self.response@,
        }
    }
}

impl CommandView {
    /// The key under which the command's response is saved.
    pub open spec fn key(self) -> StoreKey {
        (self.actor_id, self.idempotency_key)
    }

    /// The tasks of the command: one for each recipient.
    pub open spec fn tasks(self) -> Seq<crate::outbox::PendingView> {
        batch(self.issue_id, self.recipients)
    }

    /// The writes of the command's first execution at the time given: its
    /// response under its key, and one task for each recipient.
    pub open spec fn transaction(self, now: u64) -> TransactionView {
        TransactionView {
            records: seq![
                RecordView {
                    actor_id: self.actor_id,
                    idempotency_key: self.idempotency_key,
                    saved_response: self.response,
                    created_at: now,
                },
            ],
            tasks: self.tasks(),
            started_at: now,
        }
    }
}

/// Why a command was neither executed nor answered from the store.
#[derive(Debug, PartialEq, Eq, Structural, Clone, Copy)]
pub enum PublishError {
    /// The storage could not take the writes or could not be reached.
    /// Nothing was committed: the caller may submit the command again.
    StorageUnavailable,
    /// Another submission won the race for the key, but its response could
    /// not be read back. Nothing was committed: the caller may submit the
    /// command again.
    RaceUnresolved,
}

/// How the handling of a command ended.
#[derive(Debug)]
pub enum PublishOutcome {
    /// The command was executed now; this is its response.
    Accepted(SavedResponse),
    /// The command had been executed before; this is the response saved
    /// then.
    Replayed(SavedResponse),
    /// The command was not executed.
    Failed(PublishError),
}

/// What a [`PublishOutcome`] holds, as mathematical values.
#[verifier::ext_equal]
pub enum OutcomeView {
    Accepted(ResponseView),
    Replayed(ResponseView),
    Failed(PublishError),
}

impl View for PublishOutcome {
    type V = OutcomeView;

    open spec fn view(&self) -> OutcomeView {
        match self {
            PublishOutcome::Accepted(response) => OutcomeView::Accepted(response@),
            PublishOutcome::Replayed(response) => OutcomeView::Replayed(response@),
            PublishOutcome::Failed(error) => OutcomeView::Failed(*error),
        }
    }
}

impl OutcomeView {
    /// The response that the caller gets, if the command did not fail.
    pub open spec fn response(self) -> Option<ResponseView> {
        match self {
            OutcomeView::Accepted(response) => Some(response),
            OutcomeView::Replayed(response) => Some(response),
            OutcomeView::Failed(_) => None,
        }
    }
}

impl PublishOutcome {
    /// The response that the caller gets, if the command did not fail. It
    /// does not tell a first execution from a replay.
    pub fn response(&self) -> (response: Option<&SavedResponse>)
        ensures
            match response {
                Some(r) => self@.response() == Some(r@),
                None => self@.response() is None,
            },
    {
        match self {
            PublishOutcome::Accepted(response) => Some(response),
            PublishOutcome::Replayed(response) => Some(response),
            PublishOutcome::Failed(_) => None,
        }
    }
}

/// What the store answered when it was asked for a saved response.
#[derive(Debug)]
pub enum Lookup {
    /// The response saved under the key.
    Found(SavedResponse),
    /// Nothing is saved under the key.
    Unseen,
    /// The store could not be reached.
    Unavailable,
}

/// What a [`Lookup`] holds, as mathematical values.
pub enum LookupView {
    Found(ResponseView),
    Unseen,
    Unavailable,
}

impl View for Lookup {
    type V = LookupView;

    open spec fn view(&self) -> LookupView {
        match self {
            Lookup::Found(response) => LookupView::Found(response@),
            Lookup::Unseen => LookupView::Unseen,
            Lookup::Unavailable => LookupView::Unavailable,
        }
    }
}

/// Where the handling of a command stands.
#[derive(Debug)]
pub enum HandlerState {
    /// Next, the store is asked whether the command was executed before.
    Start,
    /// The command was not seen. Next, its writes are committed in one
    /// transaction.
    Staged,
    /// Another submission saved its response first. Next, that response is
    /// read back.
    Raced,
    /// The handling has ended.
    Done(PublishOutcome),
}

/// What a [`HandlerState`] holds, as mathematical values.
#[verifier::ext_equal]
pub enum HandlerView {
    Start,
    Staged,
    Raced,
    Done(OutcomeView),
}

impl View for HandlerState {
    type V = HandlerView;

    open spec fn view(&self) -> HandlerView {
        match self {
            HandlerState::Start => HandlerView::Start,
            HandlerState::Staged => HandlerView::Staged,
            HandlerState::Raced => HandlerView::Raced,
            HandlerState::Done(outcome) => HandlerView::Done(outcome@),
        }
    }
}

impl HandlerView {
    /// The handling has ended with the first execution of the command.
    pub open spec fn executed(self) -> bool {
        match self {
            HandlerView::Done(OutcomeView::Accepted(_)) => true,
            _ => false,
        }
    }

    /// The response that the caller got, if the handling has ended with one.
    pub open spec fn response(self) -> Option<ResponseView> {
        match self {
            HandlerView::Done(outcome) => outcome.response(),
            _ => None,
        }
    }
}

/// Where the handler stands after the first look into the store.
pub open spec fn checked(found: LookupView) -> HandlerView {
    match found {
        LookupView::Found(response) => HandlerView::Done(OutcomeView::Replayed(response)),
        LookupView::Unseen => HandlerView::Staged,
        LookupView::Unavailable => HandlerView::Done(
            OutcomeView::Failed(PublishError::StorageUnavailable),
        ),
    }
}

/// Where the handler stands after the attempt to commit.
pub open spec fn committed(result: Result<(), CommitError>, fresh: ResponseView) -> HandlerView {
    match result {
        Ok(()) => HandlerView::Done(OutcomeView::Accepted(fresh)),
        Err(CommitError::Conflict) => HandlerView::Raced,
        Err(CommitError::Unavailable) => HandlerView::Done(
            OutcomeView::Failed(PublishError::StorageUnavailable),
        ),
    }
}

/// Where the handler stands after it has looked into the store again.
pub open spec fn rechecked(found: LookupView) -> HandlerView {
    match found {
        LookupView::Found(response) => HandlerView::Done(OutcomeView::Replayed(response)),
        LookupView::Unseen => HandlerView::Done(OutcomeView::Failed(PublishError::RaceUnresolved)),
        LookupView::Unavailable => HandlerView::Done(
            OutcomeView::Failed(PublishError::StorageUnavailable),
        ),
    }
}

/// Decides how to go on after the first look into the store: a saved
/// response is handed back as it is, an unseen command is executed.
pub fn after_check(found: Lookup) -> (next: HandlerState)
    ensures
        next@ == checked(found@),
{
    match found {
        Lookup::Found(response) => HandlerState::Done(PublishOutcome::Replayed(response)),
        Lookup::Unseen => HandlerState::Staged,
        Lookup::Unavailable => HandlerState::Done(
            PublishOutcome::Failed(PublishError::StorageUnavailable),
        ),
    }
}

/// Decides how to go on after the attempt to commit: the fresh response goes
/// out only if the writes are in; the loser of a race reads the winner's
/// response back.
pub fn after_commit(result: Result<(), CommitError>, fresh: SavedResponse) -> (next: HandlerState)
    ensures
        next@ == committed(result, fresh@),
{
    match result {
        Ok(()) => HandlerState::Done(PublishOutcome::Accepted(fresh)),
        Err(CommitError::Conflict) => HandlerState::Raced,
        Err(CommitError::Unavailable) => HandlerState::Done(
            PublishOutcome::Failed(PublishError::StorageUnavailable),
        ),
    }
}

/// Decides how to go on after the second look into the store.
pub fn after_recheck(found: Lookup) -> (next: HandlerState)
    ensures
        next@ == rechecked(found@),
{
    match found {
        Lookup::Found(response) => HandlerState::Done(PublishOutcome::Replayed(response)),
        Lookup::Unseen => HandlerState::Done(PublishOutcome::Failed(PublishError::RaceUnresolved)),
        Lookup::Unavailable => HandlerState::Done(
            PublishOutcome::Failed(PublishError::StorageUnavailable),
        ),
    }
}

impl StorageView {
    /// What the store answers when it is asked for the key.
    pub open spec fn lookup(self, key: StoreKey) -> LookupView {
        if self.idempotency.dom().contains(key) {
            LookupView::Found(self.idempotency[key].response)
        } else {
            LookupView::Unseen
        }
    }

    /// What the attempt to commit the transaction returns.
    pub open spec fn commit_result(self, tx: TransactionView) -> Result<(), CommitError> {
        match self.refusal(tx) {
            Some(error) => Err(error),
            None => Ok(()),
        }
    }
}

/// One step of a handler against the storage, at the time given: where the
/// handler stands afterwards, and what the storage holds.
pub open spec fn step(
    command: CommandView,
    state: HandlerView,
    storage: StorageView,
    now: u64,
) -> (HandlerView, StorageView) {
    match state {
        HandlerView::Start => (checked(storage.lookup(command.key())), storage),
        HandlerView::Staged => (
            committed(storage.commit_result(command.transaction(now)), command.response),
            storage.commit(command.transaction(now)),
        ),
        HandlerView::Raced => (rechecked(storage.lookup(command.key())), storage),
        HandlerView::Done(outcome) => (state, storage),
    }
}

/// The handling of one submission of a command, which advances in steps.
/// Each step is atomic; the steps of other handlers and of the workers may
/// fall between any two of them.
pub struct PublishHandler {
    command: PublishCommand,
    state: HandlerState,
}

impl PublishHandler {
    /// The command that is handled.
    pub closed spec fn command(&self) -> CommandView {
        self.command@
    }

    /// Where the handling stands.
    pub closed spec fn state(&self) -> HandlerView {
        self.state@
    }

    /// A handler that has not yet looked into the store.
    pub fn new(command: PublishCommand) -> (handler: Self)
        ensures
            handler.command() == command@,
            handler.state() == HandlerView::Start,
    {
        PublishHandler { command, state: HandlerState::Start }
    }

    /// Whether the handling has ended.
    pub fn is_done(&self) -> (done: bool)
        ensures
            done == (self.state() is Done),
    {
        match &self.state {
            HandlerState::Done(_) => true,
            _ => false,
        }
    }

    /// How the handling ended, once it has.
    pub fn outcome(&self) -> (outcome: Option<&PublishOutcome>)
        ensures
            match outcome {
                Some(o) => self.state() == HandlerView::Done(o@),
                None => !(self.state() is Done),
            },
    {
        match &self.state {
            HandlerState::Done(outcome) => Some(outcome),
            _ => None,
        }
    }

    fn look_up(&self, storage: &Storage) -> (found: Lookup)
        requires
            storage.wf(),
        ensures
            found@ == storage@.lookup(self.command().key()),
    {
        match storage.idempotency.check(self.command.actor_id, &self.command.idempotency_key) {
            Some(response) => Lookup::Found(response),
            None => Lookup::Unseen,
        }
    }

    /// Takes the next step against the storage, at the time given. A handler
    /// that has ended changes nothing.
    pub fn advance(&mut self, storage: &mut Storage, now: u64)
        requires
            old(storage).wf(),
        ensures
            final(storage).wf(),
            final(self).command() == old(self).command(),
            (final(self).state(), final(storage)@) == step(
                old(self).command(),
                old(self).state(),
                old(storage)@,
                now,
            ),
    {
        match &self.state {
            HandlerState::Start => {
                let found = self.look_up(storage);
                self.state = after_check(found);
            },
            HandlerState::Staged => {
                let ghost wanted = self.command@.transaction(now);
                let mut tx = Transaction::begin(now);
                storage.outbox.enqueue_batch(
                    self.command.issue_id,
                    &self.command.recipients,
                    &mut tx,
                );
                let saved = storage.idempotency.save(
                    self.command.actor_id,
                    self.command.idempotency_key.clone(),
                    self.command.response.clone(),
                    &mut tx,
                );
                let result = match saved {
                    Ok(()) => {
                        assert(tx@.tasks =~= wanted.tasks);
                        assert(tx@.records =~= wanted.records);
                        assert(tx@ == wanted);
                        storage.commit(tx)
                    },
                    Err(_) => {
                        assert(wanted.records[0].key() == self.command@.key());
                        assert(storage@.conflicts_with(wanted));
                        Err(CommitError::Conflict)
                    },
                };
                self.state = after_commit(result, self.command.response.clone());
            },
            HandlerState::Raced => {
                let found = self.look_up(storage);
                self.state = after_recheck(found);
            },
            HandlerState::Done(_) => {},
        }
    }
}

impl PublishHandler {
    fn finish(self) -> (outcome: PublishOutcome)
        ensures
            self.state() matches HandlerView::Done(o) ==> outcome@ == o,
    {
        match self.state {
            HandlerState::Done(outcome) => outcome,
            _ => PublishOutcome::Failed(PublishError::RaceUnresolved),
        }
    }
}

impl StorageView {
    /// The storage after the first execution of the command at the time
    /// given: the command's response is saved under its key, and one task for
    /// each recipient stands at the end of the queue.
    pub open spec fn accept(self, command: CommandView, now: u64) -> StorageView {
        StorageView {
            idempotency: self.idempotency.insert(
                command.key(),
                SavedOutcome { response: command.response, created_at: now },
            ),
            outbox: self.outbox.enqueue(command.tasks(), now),
        }
    }

    /// The queue has a task id for each task of the command.
    pub open spec fn has_room(self, command: CommandView) -> bool {
        self.outbox.next_task_id + command.tasks().len() <= u64::MAX
    }
}

/// Committing the writes of a command is its first execution where the key
/// is free and the queue has room, and changes nothing otherwise.
pub proof fn lemma_commit_of_command(storage: StorageView, command: CommandView, now: u64)
    ensures
        storage.refusal(command.transaction(now)) == if storage.idempotency.dom().contains(
            command.key(),
        ) {
            Some(CommitError::Conflict)
        } else if !storage.has_room(command) {
            Some(CommitError::Unavailable)
        } else {
            None
        },
        storage.with_all_of(command.transaction(now)) == storage.accept(command, now),
        storage.commit(command.transaction(now)) == if !storage.idempotency.dom().contains(
            command.key(),
        ) && storage.has_room(command) {
            storage.accept(command, now)
        } else {
            storage
        },
{
    let tx = command.transaction(now);
    let record = tx.records[0];
    assert(record.key() == command.key());
    if storage.conflicts_with(tx) {
        let i = choose|i: int|
            0 <= i < tx.records.len() && storage.idempotency.dom().contains(
                (#[trigger] tx.records[i]).key(),
            );
        assert(tx.records[i] == record);
    }
    let none = Seq::<RecordView>::empty();
    lemma_push_inserts(none, record);
    assert(none.push(record) =~= tx.records);
    assert(as_map(none) =~= Map::<StoreKey, SavedOutcome>::empty());
    assert(storage.with_all_of(tx).idempotency =~= storage.accept(command, now).idempotency);
}

/// A step of a handler changes the storage only by a whole first execution,
/// and hands out the fresh response only with it: the response is saved and
/// the tasks are enqueued together, or neither is.
pub proof fn lemma_step_is_atomic(
    command: CommandView,
    state: HandlerView,
    storage: StorageView,
    now: u64,
)
    ensures
        ({
            let (next, after) = step(command, state, storage, now);
            let executes = state is Staged && !storage.idempotency.dom().contains(command.key())
                && storage.has_room(command);
            &&& executes ==> after == storage.accept(command, now) && next == HandlerView::Done(
                OutcomeView::Accepted(command.response),
            )
            &&& !executes ==> after == storage
            &&& !executes && !(state is Done) ==> !next.executed()
        }),
{
    lemma_commit_of_command(storage, command, now);
}

/// Handles the command from the first step to the last, with no step of
/// another handler in between. A command whose key is saved gets the saved
/// response and changes nothing. A command that is new is executed: its
/// response is saved and one task for each recipient is enqueued, all at
/// once; where the queue has no room for that, nothing is written and the
/// command fails.
pub fn publish(storage: &mut Storage, command: PublishCommand, now: u64) -> (outcome:
    PublishOutcome)
    requires
        old(storage).wf(),
    ensures
        final(storage).wf(),
        outcome@ == if old(storage)@.idempotency.dom().contains(command@.key()) {
            OutcomeView::Replayed(old(storage)@.idempotency[command@.key()].response)
        } else if old(storage)@.has_room(command@) {
            OutcomeView::Accepted(command@.response)
        } else {
            OutcomeView::Failed(PublishError::StorageUnavailable)
        },
        final(storage)@ == if !old(storage)@.idempotency.dom().contains(command@.key()) && old(
            storage,
        )@.has_room(command@) {
            old(storage)@.accept(command@, now)
        } else {
            old(storage)@
        },
{
    proof {
        lemma_commit_of_command(storage@, command@, now);
    }
    let mut handler = PublishHandler::new(command);
    handler.advance(storage, now);
    handler.advance(storage, now);
    handler.finish()
}

} // verus!
