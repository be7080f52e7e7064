//! A bounded queue of caller-driven transactional tasks.
//!
//! The caller owns and polls each task. Permits never spawn work or hold a mutex
//! across execution. Dropping an unfinished task fails its transaction.
//!
//! ```
//! use txn_lock::queue::task::TaskQueue;
//!
//! let queue = TaskQueue::<u64, &str>::new(16);
//! let mut task = queue.start(1).unwrap();
//! task.record("mutation").unwrap();
//! // Execute the operation represented by the record here.
//! task.complete().unwrap();
//! let mut operation = queue.operation().unwrap();
//! assert_eq!(operation.commit(&1).unwrap(), Some(vec!["mutation"]));
//! operation.complete();
//! ```
//!
//! All handles share one state behind a mutex. A method that reads or changes it visits it once:
//! it takes the lock and performs one operation of [`State`](crate::queue::state::State), whose
//! contract says exactly what it returns and changes; recording an output also gives admission
//! back. Dropping a task cancels it, and dropping an operation gives admission back, each in a
//! visit too.
//!
//! Which ledger a visit finds depends on the other handles. The contracts here say of it that a
//! history leads to it, what the method returns on it, and which ledger is left. A handle that was
//! admitted keeps a journal of its visits, so that its contracts also say that there was no other.

use std::sync::{Arc, Mutex};

use vstd::prelude::*;

use crate::error::Error;
use crate::order::ordered;
use crate::queue::act::{
    Acquire, CheckFinalize, CheckRollback, Commit, Finalize, Finish, Fresh, Pending, Readable,
    Record, Register, Rollback, Start,
};
use crate::queue::laws::agree_elsewhere;
use crate::queue::ledger::{copies, Ledger, Owner, Status, Transaction, Visit};
use crate::queue::shared::{
    depart, enter, note, noted, publish, published, resume, share, visit, visited, Journal, Link,
    Parting, Shared,
};

verus! {

/// Pending outputs and live decisions for one transactional owner.
/// Capacity bounds outputs per transaction; the caller separately bounds live transactions.
/// Clones share one owner. An interrupted operation makes every clone unusable.
///
/// Comparisons, clones and destructors of `I` and `O` run while the queue is locked. They must not
/// call the queue, nor drop one of its tasks or operations: the call may then panic or never
/// return. Where one of them panics, the queue is left whole, and later calls go on with it.
#[verifier::reject_recursive_types(I)]
#[verifier::reject_recursive_types(O)]
pub struct TaskQueue<I: Ord, O> {
    capacity: usize,
    state: Arc<Mutex<Shared<I, O>>>,
}

impl<I: Ord, O> Clone for TaskQueue<I, O> {
    fn clone(&self) -> (queue: Self)
        ensures
            queue == *self,
    {
        proof {
            use_type_invariant(self);
        }
        TaskQueue { capacity: self.capacity, state: share(&self.state) }
    }
}

impl<I: Ord, O> TaskQueue<I, O> {
    #[verifier::type_invariant]
    spec fn inv(self) -> bool {
        self.capacity > 0
    }

    /// The number of outputs that each transaction may have.
    pub closed spec fn capacity(self) -> nat {
        self.capacity as nat
    }

    /// A visit to the state of this queue found `found` and left `left`.
    pub closed spec fn saw(self, found: Ledger<I, O>, left: Ledger<I, O>) -> bool {
        visited(*self.state, found, left)
    }

    /// The journal of some handle of this queue read `visits`.
    pub closed spec fn read(self, visits: Seq<Visit<Ledger<I, O>>>) -> bool {
        noted(visits)
    }

    /// Every visit to the state of this queue is one that this queue saw.
    proof fn lemma_saw(self)
        ensures
            forall|found: Ledger<I, O>, left: Ledger<I, O>| #[trigger]
                visited(*self.state, found, left) ==> self.saw(found, left),
    {
    }

    /// The first ledger of this queue was `first`.
    pub closed spec fn began(self, first: Ledger<I, O>) -> bool {
        published(*self.state, first)
    }

    /// Create an unpublished queue with a positive per-transaction capacity.
    pub fn new(capacity: usize) -> (queue: Self)
        requires
            capacity > 0,
            ordered::<I>(),
        ensures
            queue.capacity() == capacity,
            queue.began(Ledger::empty()),
    {
        TaskQueue { capacity, state: publish(Shared::new()) }
    }

    /// Require an unused queue before delegating it to a new owner.
    pub fn validate_fresh(&self) -> (result: Result<(), Error>)
        ensures
            exists|now: Ledger<I, O>, next: Ledger<I, O>| #[trigger]
                self.saw(now, next) && now.reachable() && next == now && result == if now.fresh() {
                    Ok::<(), Error>(())
                } else {
                    Err(Error::Conflict)
                },
    {
        proof {
            self.lemma_saw();
        }
        visit(&self.state, Fresh)
    }

    /// Register an identity without retaining the caller's transaction capability.
    pub fn register(&self, id: I) -> (result: Result<(), Error>)
        ensures
            exists|now: Ledger<I, O>, next: Ledger<I, O>| #[trigger]
                self.saw(now, next) && now.reachable() && result == now.check(id) && next
                    == now.registered(id),
    {
        proof {
            self.lemma_saw();
        }
        visit(&self.state, Register { id })
    }

    /// Check an observation without registration, rejecting failed or rolled-back transactions.
    pub fn readable(&self, id: I) -> (result: Result<(), Error>)
        ensures
            exists|now: Ledger<I, O>, next: Ledger<I, O>| #[trigger]
                self.saw(now, next) && now.reachable() && result == now.readable(id) && next == now,
    {
        proof {
            self.lemma_saw();
        }
        visit(&self.state, Readable { id })
    }

    /// Reserve one output before preparation. Recording releases preparation exclusion;
    /// execution then overlaps other transactions. Requests within one transaction
    /// remain ordered so execution and replay cannot disagree.
    pub fn start(&self, id: I) -> (result: Result<Task<'_, I, O>, Error>) where I: Clone
        ensures
            exists|now: Ledger<I, O>, next: Ledger<I, O>, key: I| #[trigger]
                self.saw(now, next) && now.reachable() && #[trigger] cloned(id, key) && next
                    == now.started(key, self.capacity()) && match result {
                    Ok(task) => now.start(key, self.capacity()) is Ok && task.journal()
                        == Seq::empty().push(Visit { found: now, left: next }),
                    Err(error) => now.start(key, self.capacity()) == Err::<(), Error>(error),
                },
            result matches Ok(task) ==> task.live() && task.id() == id && task.queue() == *self
                && !task.recorded(),
    {
        proof {
            use_type_invariant(self);
            self.lemma_saw();
        }
        let key = id.clone();
        assert(cloned(id, key));
        let link = Box::new(Link::new(id));
        match enter(&self.state, Start::new(key, self.capacity)) {
            Ok(journal) => {
                assert(journal@ =~= Seq::empty().push(journal@[0]));
                assert(self.saw(journal@[0].found, journal@[0].left));
                Ok(Task { queue: self, preparing: true, link: Some(link), journal })
            },
            Err(error) => Err(error),
        }
    }

    /// Exclude preparation and other lifecycle operations, but not task execution.
    pub fn operation(&self) -> (result: Result<Operation<'_, I, O>, Error>)
        ensures
            exists|now: Ledger<I, O>, next: Ledger<I, O>| #[trigger]
                self.saw(now, next) && now.reachable() && next == now.acquired() && match result {
                    Ok(operation) => now.ready() is Ok && operation.journal()
                        == Seq::empty().push(Visit { found: now, left: next }),
                    Err(error) => now.ready() == Err::<(), Error>(error),
                },
            result matches Ok(operation) ==> operation.queue() == *self && !operation.armed()
                && operation.held(),
    {
        proof {
            self.lemma_saw();
        }
        match enter(&self.state, Acquire) {
            Ok(journal) => {
                assert(journal@ =~= Seq::empty().push(journal@[0]));
                assert(self.saw(journal@[0].found, journal@[0].left));
                Ok(Operation { queue: self, armed: false, held: true, journal })
            },
            Err(error) => Err(error),
        }
    }
}

/// `longer` is `shorter` and one more visit, to the state of `queue`.
pub open spec fn one_more<I: Ord, O>(
    queue: TaskQueue<I, O>,
    shorter: Seq<Visit<Ledger<I, O>>>,
    longer: Seq<Visit<Ledger<I, O>>>,
) -> bool {
    &&& longer.len() == shorter.len() + 1
    &&& longer.drop_last() == shorter
    &&& queue.saw(longer.last().found, longer.last().left)
    &&& longer.last().found.reachable()
}

/// One caller-owned task keeps its transaction Running until completion or drop.
/// This status describes admitted queue work, not collection locking.
/// Dropping without completion fails the transaction and preserves its output.
#[verifier::reject_recursive_types(I)]
#[verifier::reject_recursive_types(O)]
pub struct Task<'a, I: Ord, O> {
    queue: &'a TaskQueue<I, O>,
    preparing: bool,
    link: Option<Box<Link<I>>>,
    journal: Journal<Ledger<I, O>>,
}

impl<'a, I: Ord, O> Task<'a, I, O> {
    /// The task was neither completed nor dropped.
    pub closed spec fn live(self) -> bool {
        self.link is Some
    }

    /// The transaction that the task belongs to.
    pub closed spec fn id(self) -> I {
        self.link->0.identity()
    }

    /// The queue that the task belongs to.
    pub closed spec fn queue(self) -> TaskQueue<I, O> {
        *self.queue
    }

    /// The output is recorded, and preparation is over.
    pub closed spec fn recorded(self) -> bool {
        !self.preparing
    }

    /// The visits that the task paid to its queue, oldest first.
    pub closed spec fn journal(self) -> Seq<Visit<Ledger<I, O>>> {
        self.journal@
    }

    /// What cancelling the task leaves of the ledger `now`.
    pub open spec fn cancelled(self, now: Ledger<I, O>) -> Ledger<I, O> {
        if self.recorded() {
            now.failed(self.id())
        } else {
            now.failed(self.id()).released(false)
        }
    }

    /// Record exactly once, before executing the selected operation.
    pub fn record(&mut self, output: O) -> (result: Result<(), Error>)
        requires
            old(self).live(),
        ensures
            old(self).recorded() ==> result == Err::<(), Error>(Error::Conflict)
                && final(self).journal() == old(self).journal(),
            !old(self).recorded() ==> one_more(
                old(self).queue(),
                old(self).journal(),
                final(self).journal(),
            ) && ({
                let now = final(self).journal().last().found;
                let next = final(self).journal().last().left;
                &&& result == now.record(old(self).id())
                &&& next == if result is Ok {
                    now.recorded(old(self).id(), output).released(false)
                } else {
                    now
                }
            }),
            final(self).recorded() == (old(self).recorded() || result is Ok),
            final(self).live(),
            final(self).id() == old(self).id(),
            final(self).queue() == old(self).queue(),
    {
        if !self.preparing {
            return Err(Error::Conflict);
        }
        if let Some(link) = &self.link {
            let result = resume(
                &self.queue.state,
                &mut self.journal,
                Record { id: link.id(), output },
            );
            if result.is_err() {
                return result;
            }
        }
        self.preparing = false;
        Ok(())
    }

    /// A successful task must have recorded its output.
    pub fn complete(self) -> (result: Result<(), Error>)
        requires
            self.live(),
        ensures
            !self.recorded() ==> result == Err::<(), Error>(Error::Failed) && exists|
                visits: Seq<Visit<Ledger<I, O>>>,
            | #[trigger]
                self.queue().read(visits) && one_more(self.queue(), self.journal(), visits)
                    && visits.last().left == self.cancelled(visits.last().found),
            self.recorded() ==> exists|visits: Seq<Visit<Ledger<I, O>>>| #[trigger]
                self.queue().read(visits) && one_more(self.queue(), self.journal(), visits)
                    && result == visits.last().found.finish(self.id()) && visits.last().left
                    == visits.last().found.finished(self.id()),
            result is Err ==> exists|now: Ledger<I, O>, next: Ledger<I, O>| #[trigger]
                self.queue().saw(now, next) && now.reachable() && next == self.cancelled(now),
    {
        let mut task = self;
        if task.preparing {
            task.cancel();
            note(&task.journal);
            assert(self.queue().read(task.journal()));
            return Err(Error::Failed);
        }
        if let Some(link) = &task.link {
            let result = resume(&task.queue.state, &mut task.journal, Finish { id: link.id() });
            note(&task.journal);
            assert(self.queue().read(task.journal()));
            if result.is_err() {
                task.cancel();
                return result;
            }
        }
        task.link = None;
        Ok(())
    }

    /// Fail the transaction of the task, unless the task is over, and give admission back where
    /// the task prepares.
    fn cancel(&mut self)
        ensures
            !final(self).live(),
            final(self).queue() == old(self).queue(),
            old(self).live() ==> one_more(
                old(self).queue(),
                old(self).journal(),
                final(self).journal(),
            ) && final(self).journal().last().left == old(self).cancelled(
                final(self).journal().last().found,
            ),
            !old(self).live() ==> final(self).journal() == old(self).journal(),
        opens_invariants none
        no_unwind
    {
        let mut link = None;
        std::mem::swap(&mut link, &mut self.link);
        if let Some(link) = link {
            depart(
                &self.queue.state,
                &mut self.journal,
                Parting::Cancel(link, self.preparing),
            );
        }
    }
}

/// Cancelling a task in flight fails its transaction, which keeps its outputs, and touches no
/// other. A task that prepares gives admission back, and one that has recorded leaves admission
/// to whoever holds it.
pub proof fn law_cancellation<'a, I: Ord, O>(task: Task<'a, I, O>, now: Ledger<I, O>)
    requires
        now.wf(),
        now.transactions.contains_key(task.id()),
        now.transactions[task.id()].status is Running,
    ensures
        ({
            let next = task.cancelled(now);
            &&& agree_elsewhere(next, now, task.id())
            &&& next.transactions.contains_key(task.id())
            &&& next.transactions[task.id()] == (Transaction {
                status: Status::Failed,
                preparing: false,
                outputs: now.transactions[task.id()].outputs,
            })
            &&& next.owner == if !task.recorded() && now.owner is Busy {
                Owner::Ready
            } else {
                now.owner
            }
        }),
{
    now.lemma_with(task.id(), Transaction::failed(now.outputs(task.id())));
}

impl<'a, I: Ord, O> Drop for Task<'a, I, O> {
    /// Cancel the task, unless it was completed.
    fn drop(&mut self)
        ensures
            !final(self).live(),
            old(self).live() ==> one_more(
                old(self).queue(),
                old(self).journal(),
                final(self).journal(),
            ) && final(self).journal().last().left == old(self).cancelled(
                final(self).journal().last().found,
            ),
            !old(self).live() ==> final(self).journal() == old(self).journal(),
        opens_invariants none
        no_unwind
    {
        self.cancel();
    }
}

/// Exclusive lifecycle access. Arming requires explicit successful completion.
/// Cancellation cannot return an error, so interruption is latched for all clones.
/// The caller owns recovery or shutdown policy; the queue cannot repair external effects.
#[verifier::reject_recursive_types(I)]
#[verifier::reject_recursive_types(O)]
pub struct Operation<'a, I: Ord, O> {
    queue: &'a TaskQueue<I, O>,
    armed: bool,
    held: bool,
    journal: Journal<Ledger<I, O>>,
}

impl<'a, I: Ord, O> Operation<'a, I, O> {
    /// The queue of this operation.
    pub closed spec fn queue(self) -> TaskQueue<I, O> {
        *self.queue
    }

    /// Dropping this operation interrupts the queue.
    pub closed spec fn armed(self) -> bool {
        self.armed
    }

    /// This operation has not given admission back.
    pub closed spec fn held(self) -> bool {
        self.held
    }

    /// The visits that this operation paid to its queue, oldest first.
    pub closed spec fn journal(self) -> Seq<Visit<Ledger<I, O>>> {
        self.journal@
    }

    /// This operation after one more visit, and otherwise unchanged.
    pub closed spec fn and(self, visit: Visit<Ledger<I, O>>) -> Self {
        Operation { journal: self.journal.and(visit), ..self }
    }

    /// Arm before starting an external effect whose interruption requires reopening.
    pub fn arm(&mut self)
        ensures
            final(self).armed(),
            final(self).held() == old(self).held(),
            final(self).queue() == old(self).queue(),
            final(self).journal() == old(self).journal(),
    {
        self.armed = true;
    }

    /// Seal successful outputs, retaining the decision until finalization.
    /// Unseen identities are admitted as read-only transactions.
    /// None is a duplicate commit; Some(empty) is a newly committed read-only transaction.
    /// Sealing arms the permit before the outputs are handed to the caller.
    pub fn commit(&mut self, id: &I) -> (result: Result<Option<Vec<O>>, Error>) where I: Clone
        ensures
            one_more(old(self).queue(), old(self).journal(), final(self).journal()),
            exists|key: I| #[trigger]
                cloned(*id, key) && ({
                    let now = final(self).journal().last().found;
                    let next = final(self).journal().last().left;
                    &&& next == now.committed(key)
                    &&& match result {
                        Ok(Some(outputs)) => now.commit(key) == Ok::<Option<Seq<O>>, Error>(
                            Some(outputs@),
                        ),
                        Ok(None) => now.commit(key) == Ok::<Option<Seq<O>>, Error>(None),
                        Err(error) => now.commit(key) == Err::<Option<Seq<O>>, Error>(error),
                    }
                }),
            final(self).armed() == (old(self).armed() || result matches Ok(Some(_))),
            final(self).held() == old(self).held(),
            final(self).queue() == old(self).queue(),
    {
        let key = id.clone();
        assert(cloned(*id, key));
        let result = resume(&self.queue.state, &mut self.journal, Commit { id: key });
        if let Ok(Some(_)) = &result {
            self.armed = true;
        }
        result
    }

    /// Validate rollback before the caller delegates its external effect.
    /// An unseen identity above the cutoff is eligible for rollback.
    pub fn check_rollback(&self, id: &I) -> (result: Result<bool, Error>)
        ensures
            exists|now: Ledger<I, O>, next: Ledger<I, O>| #[trigger]
                self.queue().saw(now, next) && now.reachable() && result == now.check_rollback(*id)
                    && next == now,
    {
        proof {
            self.queue().lemma_saw();
        }
        visit(&self.queue.state, CheckRollback { id })
    }

    /// Discard outputs only after the caller's rollback succeeds.
    pub fn rollback(&mut self, id: &I) -> (result: Result<(), Error>) where I: Clone
        ensures
            one_more(old(self).queue(), old(self).journal(), final(self).journal()),
            exists|key: I| #[trigger]
                cloned(*id, key) && ({
                    let now = final(self).journal().last().found;
                    let next = final(self).journal().last().left;
                    &&& next == now.rolled_back(key)
                    &&& match now.check_rollback(key) {
                        Ok(_) => result is Ok,
                        Err(error) => result == Err::<(), Error>(error),
                    }
                }),
            *final(self) == old(self).and(final(self).journal().last()),
            final(self).armed() == old(self).armed(),
            final(self).held() == old(self).held(),
            final(self).queue() == old(self).queue(),
    {
        let key = id.clone();
        assert(cloned(*id, key));
        resume(&self.queue.state, &mut self.journal, Rollback { id: key })
    }

    /// Check covered tasks before the caller finalizes external state.
    pub fn check_finalize(&self, cutoff: &I) -> (result: Result<(), Error>)
        ensures
            exists|now: Ledger<I, O>, next: Ledger<I, O>| #[trigger]
                self.queue().saw(now, next) && now.reachable() && result == now.check_finalize(
                    *cutoff,
                ) && next == now,
    {
        proof {
            self.queue().lemma_saw();
        }
        visit(&self.queue.state, CheckFinalize { cutoff })
    }

    /// Advance the cutoff after the caller's finalization succeeds; older cutoffs are no-ops.
    pub fn finalize(&mut self, cutoff: I) -> (result: Result<(), Error>)
        ensures
            one_more(old(self).queue(), old(self).journal(), final(self).journal()),
            result == final(self).journal().last().found.check_finalize(cutoff),
            final(self).journal().last().left == final(self).journal().last().found.advanced(
                cutoff,
            ),
            *final(self) == old(self).and(final(self).journal().last()),
            final(self).armed() == old(self).armed(),
            final(self).held() == old(self).held(),
            final(self).queue() == old(self).queue(),
    {
        resume(&self.queue.state, &mut self.journal, Finalize { cutoff })
    }

    /// Copies of the outputs of every live transaction, transactions in increasing order.
    pub fn pending(&self) -> (outputs: Vec<O>) where O: Clone
        ensures
            exists|now: Ledger<I, O>, next: Ledger<I, O>, all: Seq<O>| #[trigger]
                self.queue().saw(now, next) && now.reachable() && #[trigger] now.pending(all)
                    && copies(all, outputs@) && next == now,
    {
        proof {
            self.queue().lemma_saw();
        }
        visit(&self.queue.state, Pending)
    }

    /// Acknowledge completion of all external effects before releasing exclusion.
    pub fn complete(self)
        ensures
            self.held() ==> exists|visits: Seq<Visit<Ledger<I, O>>>| #[trigger]
                self.queue().read(visits) && one_more(self.queue(), self.journal(), visits)
                    && visits.last().left == visits.last().found.released(false),
    {
        let mut operation = self;
        operation.disarm();
        operation.release();
        note(&operation.journal);
        assert(self.queue().read(operation.journal()));
    }

    /// Let the operation give admission back without an interruption.
    fn disarm(&mut self)
        ensures
            !final(self).armed(),
            final(self).held() == old(self).held(),
            final(self).queue() == old(self).queue(),
            final(self).journal() == old(self).journal(),
    {
        self.armed = false;
    }

    /// Give admission back, unless that was done.
    fn release(&mut self)
        ensures
            !final(self).held(),
            final(self).armed() == old(self).armed(),
            final(self).queue() == old(self).queue(),
            old(self).held() ==> one_more(
                old(self).queue(),
                old(self).journal(),
                final(self).journal(),
            ) && final(self).journal().last().left
                == final(self).journal().last().found.released(old(self).armed()),
            !old(self).held() ==> final(self).journal() == old(self).journal(),
        opens_invariants none
        no_unwind
    {
        if self.held {
            self.held = false;
            depart(&self.queue.state, &mut self.journal, Parting::Release(self.armed));
        }
    }
}

impl<'a, I: Ord, O> Drop for Operation<'a, I, O> {
    /// Give admission back, which interrupts the queue where the operation is armed.
    fn drop(&mut self)
        ensures
            !final(self).held(),
            old(self).held() ==> one_more(
                old(self).queue(),
                old(self).journal(),
                final(self).journal(),
            ) && final(self).journal().last().left
                == final(self).journal().last().found.released(old(self).armed()),
            !old(self).held() ==> final(self).journal() == old(self).journal(),
        opens_invariants none
        no_unwind
    {
        self.release();
    }
}

} // verus!
