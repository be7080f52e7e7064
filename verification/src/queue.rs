//! Transactional queues.
//!
//! * [`task`] is the queue that callers share.
//! * `act` lists what handles do to the state that they share.
//! * `shared` guards one state for many handles, and admits one act at a time.
//! * [`state`] is the bookkeeping of a queue, as a value that one caller owns.
//! * [`ledger`] is the mathematical model that all of them are specified against.
//! * [`laws`] states what holds of single operations, whatever the ledger.
//! * [`history`] states what holds of every sequence of operations.

mod act;
pub mod history;
pub mod laws;
pub mod ledger;
mod shared;
pub mod state;
pub mod task;
