//! A transaction command processor over a multi-version key-value store.
//!
//! Commands of a percolator-style two-phase commit (prewrite, commit,
//! rollback, pessimistic locking, lock resolution, status checks) run
//! against a snapshot of the store and yield either a result for the client
//! or a batch of modifications for the engine to apply, together with the
//! wake-ups for transactions that wait for released locks.
//!
//! - `types`: locks, version records, mutations, errors and modifications.
//! - `bytes`: byte-string equality and order.
//! - `hash`: the key fingerprint that names a key to the waiter manager.
//! - `store`: the store's three column families and the reads on them.
//! - `txn`: the per-key steps of a transaction over a snapshot.
//! - `process`: the read and write paths of every command.
//! - `executor`: tasks, the messages back to the scheduler, and the worker side.
//! - `laws`: properties that relate the operations.

pub mod types;
pub mod bytes;
pub mod hash;
pub mod store;
pub mod txn;
pub mod process;
pub mod executor;
pub mod laws;
