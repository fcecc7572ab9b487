//! Many submissions under one key, handled side by side while the workers
//! drain the queue: however the steps fall between one another, the command
//! is executed once, and every submission that ends gets the same response.

use vstd::prelude::*;
use crate::drain::{after_op, lemma_op_conserves, WorkerOp};
use crate::idempotency::{SavedOutcome, StoreKey};
use crate::outbox::lemma_enqueue_keeps_order;
use crate::publish::{lemma_commit_of_command, step, CommandView, HandlerView};
use crate::retry::RetryPolicy;
use crate::transaction::StorageView;

verus! {

/// The storage, and where each of the handlers stands.
#[verifier::ext_equal]
pub struct Race {
    pub storage: StorageView,
    pub handlers: Seq<HandlerView>,
}

/// One atomic step of the race.
pub enum Turn {
    /// The handler of that number takes its next step at the time given.
    Submission { handler: int, now: u64 },
    /// A worker operates on the queue.
    Delivery { op: WorkerOp },
}

/// The race before any handler has taken a step.
pub open spec fn at_start(storage: StorageView, handlers: nat) -> Race {
    Race { storage, handlers: Seq::new(handlers, |i: int| HandlerView::Start) }
}

/// The race after the turn. A turn of a handler that is not there changes
/// nothing.
pub open spec fn after_turn(
    policy: RetryPolicy,
    commands: Seq<CommandView>,
    race: Race,
    turn: Turn,
) -> Race {
    match turn {
        Turn::Submission { handler, now } => {
            if 0 <= handler < race.handlers.len() {
                let (state, storage) = step(
                    commands[handler],
                    race.handlers[handler],
                    race.storage,
                    now,
                );
                Race { storage, handlers: race.handlers.update(handler, state) }
            } else {
                race
            }
        },
        Turn::Delivery { op } => Race {
            storage: StorageView {
                outbox: after_op(policy, race.storage.outbox, op),
                ..race.storage
            },
            ..race
        },
    }
}

/// The race after the turns of the schedule, taken in order.
pub open spec fn after_schedule(
    policy: RetryPolicy,
    commands: Seq<CommandView>,
    race: Race,
    schedule: Seq<Turn>,
) -> Race
    decreases schedule.len(),
{
    if schedule.len() == 0 {
        race
    } else {
        after_turn(
            policy,
            commands,
            after_schedule(policy, commands, race, schedule.drop_last()),
            schedule.last(),
        )
    }
}

/// Nothing of the commands has reached the storage: no response is saved
/// that the start did not hold, and no task id has been given out.
pub open spec fn untouched(start: StorageView, storage: StorageView) -> bool {
    &&& storage.idempotency == start.idempotency
    &&& storage.outbox.next_task_id == start.outbox.next_task_id
}

/// Exactly one of the commands has been executed: its response is the one
/// response saved beyond those of the start, and as many task ids have been
/// given out as it has tasks.
pub open spec fn executed_once(
    commands: Seq<CommandView>,
    start: StorageView,
    storage: StorageView,
) -> bool {
    exists|winner: int, at: u64|
        0 <= winner < commands.len() && #[trigger] is_execution_of(
            commands[winner],
            at,
            start,
            storage,
        )
}

/// The storage holds the first execution of the command at the time given.
pub open spec fn is_execution_of(
    command: CommandView,
    at: u64,
    start: StorageView,
    storage: StorageView,
) -> bool {
    &&& storage.idempotency == start.idempotency.insert(
        command.key(),
        SavedOutcome { response: command.response, created_at: at },
    )
    &&& storage.outbox.next_task_id == start.outbox.next_task_id + command.tasks().len()
}

/// What holds of a race at every moment.
pub open spec fn consistent(
    commands: Seq<CommandView>,
    key: StoreKey,
    start: StorageView,
    race: Race,
) -> bool {
    &&& race.handlers.len() == commands.len()
    &&& race.storage.outbox.wf()
    &&& if race.storage.idempotency.dom().contains(key) {
        &&& executed_once(commands, start, race.storage)
        &&& forall|i: int|
            0 <= i < race.handlers.len() && (#[trigger] race.handlers[i]) is Done
                ==> race.handlers[i].response() == Some(race.storage.idempotency[key].response)
        &&& forall|i: int, j: int|
            0 <= i < race.handlers.len() && 0 <= j < race.handlers.len() && (
            #[trigger] race.handlers[i]).executed() && (#[trigger] race.handlers[j]).executed()
                ==> i == j
    } else {
        &&& untouched(start, race.storage)
        &&& forall|i: int|
            0 <= i < race.handlers.len() ==> (#[trigger] race.handlers[i]) is Start
                || race.handlers[i] is Staged
    }
}

/// The commands are submissions under one key that is free at the start, and
/// the queue is well formed and has task ids for the recipients of each.
pub open spec fn same_key(commands: Seq<CommandView>, key: StoreKey, start: StorageView) -> bool {
    &&& start.outbox.wf()
    &&& !start.idempotency.dom().contains(key)
    &&& forall|i: int| 0 <= i < commands.len() ==> (#[trigger] commands[i]).key() == key
    &&& forall|i: int| 0 <= i < commands.len() ==> start.has_room(#[trigger] commands[i])
}

/// One turn keeps a race consistent.
pub proof fn lemma_turn_keeps_consistent(
    policy: RetryPolicy,
    commands: Seq<CommandView>,
    key: StoreKey,
    start: StorageView,
    race: Race,
    turn: Turn,
)
    requires
        same_key(commands, key, start),
        consistent(commands, key, start, race),
    ensures
        consistent(commands, key, start, after_turn(policy, commands, race, turn)),
{
    let next = after_turn(policy, commands, race, turn);
    match turn {
        Turn::Delivery { op } => {
            lemma_op_conserves(policy, race.storage.outbox, op, 0);
            if race.storage.idempotency.dom().contains(key) {
                let (winner, at) = choose|winner: int, at: u64|
                    0 <= winner < commands.len() && #[trigger] is_execution_of(
                        commands[winner],
                        at,
                        start,
                        race.storage,
                    );
                assert(is_execution_of(commands[winner], at, start, next.storage));
            }
        },
        Turn::Submission { handler: i, now } => {
            if 0 <= i < race.handlers.len() {
                let command = commands[i];
                assert(command.key() == key);
                assert(start.has_room(command));
                lemma_commit_of_command(race.storage, command, now);
                assert forall|a: int|
                    0 <= a < next.handlers.len() && a != i implies next.handlers[a]
                    == race.handlers[a] by {}
                if race.storage.idempotency.dom().contains(key) {
                    assert(next.storage == race.storage);
                    assert(race.handlers[i] is Done ==> next.handlers[i] == race.handlers[i]);
                    assert(!(race.handlers[i] is Done) ==> !next.handlers[i].executed());
                    assert forall|a: int| 0 <= a < next.handlers.len() && (
                    #[trigger] next.handlers[a]) is Done implies next.handlers[a].response()
                        == Some(next.storage.idempotency[key].response) by {
                        if a != i {
                            assert(next.handlers[a] == race.handlers[a]);
                        }
                    }
                    assert forall|a: int, b: int|
                        0 <= a < next.handlers.len() && 0 <= b < next.handlers.len() && (
                        #[trigger] next.handlers[a]).executed() && (
                        #[trigger] next.handlers[b]).executed() implies a == b by {
                        assert(race.handlers[a].executed());
                        assert(race.handlers[b].executed());
                    }
                } else {
                    assert(race.handlers[i] is Start || race.handlers[i] is Staged);
                    if race.handlers[i] is Start {
                        assert(next.storage == race.storage);
                        assert forall|a: int| 0 <= a < next.handlers.len() implies (
                        #[trigger] next.handlers[a]) is Start || next.handlers[a] is Staged by {
                            if a != i {
                                assert(next.handlers[a] == race.handlers[a]);
                            }
                        }
                    } else {
                        assert(race.storage.has_room(command));
                        assert(next.storage == race.storage.accept(command, now));
                        lemma_enqueue_keeps_order(race.storage.outbox, command.tasks(), now);
                        assert(next.storage.idempotency.dom().contains(key));
                        assert(is_execution_of(commands[i], now, start, next.storage));
                        assert forall|a: int| 0 <= a < next.handlers.len() && (
                        #[trigger] next.handlers[a]) is Done implies next.handlers[a].response()
                            == Some(next.storage.idempotency[key].response) by {
                            if a != i {
                                assert(next.handlers[a] == race.handlers[a]);
                                assert(race.handlers[a] is Start || race.handlers[a] is Staged);
                            }
                        }
                        assert forall|a: int, b: int|
                            0 <= a < next.handlers.len() && 0 <= b < next.handlers.len() && (
                            #[trigger] next.handlers[a]).executed() && (
                            #[trigger] next.handlers[b]).executed() implies a == b by {
                            if a != i {
                                assert(race.handlers[a] is Start || race.handlers[a] is Staged);
                            }
                            if b != i {
                                assert(race.handlers[b] is Start || race.handlers[b] is Staged);
                            }
                        }
                    }
                }
            }
        },
    }
}

/// Every schedule keeps a race consistent.
pub proof fn lemma_schedule_keeps_consistent(
    policy: RetryPolicy,
    commands: Seq<CommandView>,
    key: StoreKey,
    start: StorageView,
    schedule: Seq<Turn>,
)
    requires
        same_key(commands, key, start),
    ensures
        consistent(
            commands,
            key,
            start,
            after_schedule(policy, commands, at_start(start, commands.len()), schedule),
        ),
    decreases schedule.len(),
{
    if schedule.len() > 0 {
        lemma_schedule_keeps_consistent(policy, commands, key, start, schedule.drop_last());
        lemma_turn_keeps_consistent(
            policy,
            commands,
            key,
            start,
            after_schedule(policy, commands, at_start(start, commands.len()), schedule.drop_last()),
            schedule.last(),
        );
    }
}

/// Any number of submissions under one key, whose handlers take their steps
/// in any order and with any operations of the workers in between: whatever
/// the schedule, either nothing of the commands has reached the storage, or
/// exactly one of them has been executed, with one response saved and one
/// batch of task ids given out; at most one handler ends as the one that
/// executed; no handler fails; and all handlers that have ended got the same
/// response, the one that is saved.
pub proof fn theorem_concurrent_submissions(
    policy: RetryPolicy,
    commands: Seq<CommandView>,
    key: StoreKey,
    start: StorageView,
    schedule: Seq<Turn>,
)
    requires
        same_key(commands, key, start),
    ensures
        ({
            let end = after_schedule(policy, commands, at_start(start, commands.len()), schedule);
            &&& end.handlers.len() == commands.len()
            &&& untouched(start, end.storage) || executed_once(commands, start, end.storage)
            &&& forall|i: int|
                0 <= i < end.handlers.len() && (#[trigger] end.handlers[i]) is Done ==> {
                    &&& executed_once(commands, start, end.storage)
                    &&& end.handlers[i].response() == Some(
                        end.storage.idempotency[key].response,
                    )
                }
            &&& forall|i: int, j: int|
                0 <= i < end.handlers.len() && 0 <= j < end.handlers.len() && (
                #[trigger] end.handlers[i]) is Done && (#[trigger] end.handlers[j]) is Done
                    ==> end.handlers[i].response() == end.handlers[j].response()
                    && end.handlers[i].response() is Some
            &&& forall|i: int, j: int|
                0 <= i < end.handlers.len() && 0 <= j < end.handlers.len() && (
                #[trigger] end.handlers[i]).executed() && (#[trigger] end.handlers[j]).executed()
                    ==> i == j
        }),
{
    lemma_schedule_keeps_consistent(policy, commands, key, start, schedule);
}

} // verus!
