//! Idempotent acceptance of newsletter publish commands and reliable,
//! retrying fan-out of the resulting per-recipient deliveries.
//!
//! A publish command carries an idempotency key. The command handler
//! ([`publish`]) executes a command the first time its key is seen: in one
//! transaction ([`transaction`]) it saves the response under the key
//! ([`idempotency`]) and enqueues one delivery task for each recipient
//! ([`outbox`]). Every later submission under the key gets the saved
//! response ([`response`]) and changes nothing. Workers ([`delivery`]) claim
//! the tasks one by one, send the emails, and remove a task or put it back
//! for a later attempt ([`retry`]).
//!
//! What holds of many submissions and many workers side by side is proved in
//! [`race`] and [`drain`]. [`startup`] holds what the application fixes when
//! it starts.

pub mod delivery;
pub mod drain;
pub mod idempotency;
pub mod outbox;
pub mod publish;
pub mod race;
pub mod response;
pub mod retry;
pub mod startup;
pub mod transaction;
