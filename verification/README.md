# txn_lock

A bounded queue of caller-driven transactional tasks, written and verified in Verus.

`queue::task::TaskQueue<I, O>` holds ordered outputs from caller-driven work. Construct it with a
positive per-transaction capacity, obtain a task with `start`, record its output before executing
the corresponding operation, and call `complete` only after success. Dropping a task fails its
transaction; no work is spawned or detached. Callers separately bound the number of live
transactions.

`record` releases preparation exclusion. Tasks in different transactions can execute
concurrently. Each transaction keeps its own request sequence: starting another task while its
previous task is unfinished returns `Busy`.

An exclusive operation permit provides fallible commit, rollback, and cutoff finalization. Commit
seals outputs and arms the permit; callers arm it explicitly before other external effects. An
armed permit must be completed, or all clones become unusable.

## Layout

| Path | Holds |
| --- | --- |
| `src/error.rs` | the errors, their texts, `Debug`, and conversions from tokio's semaphore errors |
| `src/order.rs` | what is required of the order of transaction identities |
| `src/queue/ledger.rs` | the mathematical model of a queue |
| `src/queue/state.rs` | the bookkeeping of a queue, with exact contracts over the model |
| `src/queue/shared.rs` | one state behind a mutex, and tasks that were dropped |
| `src/queue/task.rs` | the handles: `TaskQueue`, `Task` and `Operation` |
| `src/queue/laws.rs` | what holds of single operations |
| `src/queue/history.rs` | what holds of every sequence of operations |
| `app/` | `Display` and `Error` for a wrapper of the error type, and a checked constructor |

## What is proved

Every operation of `State` has a contract that gives its result and the ledger it leaves, and
every state is one that some history of operations leads to. The same holds of recording and of
cancelling a task on the state that handles share.

The contracts of the handles fix less, since other handles may change the shared ledger at any
time: a method returns what the operation returns on some ledger that a history leads to, and the
handle itself changes as stated. That this ledger is the one in force while the method held the
lock, and which operation is performed on it, is not proved; it is seen in the body of the method.

The laws are theorems about the same ledgers: capacity bounds outputs, admission is exclusive, an
interruption is latched, a transaction runs exactly while one of its tasks is in flight, decisions
last until they are final, and a commit hands out exactly what was recorded, in order, once every
task that recorded has completed.

What is taken on trust is the standard library's `Mutex` and `Arc`: that taking a mutex and
borrowing what it guards does not unwind, and that cloning an `Arc` yields a pointer to the same
value. Taking a mutex may panic or never return where the calling thread holds it already, so a
comparison, clone or destructor of an identity or an output must not call the queue. Nothing is
assumed of the `Formatter` that `Debug` prints to.
