//! The mathematical model of a task queue.
//!
//! A [`Ledger`] maps each known transaction to its status and pending outputs, and remembers
//! who owns admission and which identities are finalized. Every operation of the queue is
//! described by its result on a ledger and by the ledger that it leaves.

use vstd::prelude::*;

use crate::error::Error;
use crate::order::{before, lemma_order, ordered, same};

verus! {

/// The status of one known transaction.
#[derive(Clone, Copy, PartialEq, Eq, Structural)]
pub enum Status {
    /// The transaction may start a task or take a decision.
    Active,
    /// A task of the transaction is unfinished.
    Running,
    /// A task of the transaction was dropped before it completed.
    Failed,
    /// The transaction was committed and its outputs handed out.
    Committed,
    /// The transaction was rolled back and its outputs discarded.
    RolledBack,
}

/// Who holds admission.
#[derive(Clone, Copy, PartialEq, Eq, Structural)]
pub enum Owner {
    /// Nobody: preparation or a lifecycle operation may begin.
    Ready,
    /// One preparation or one lifecycle operation.
    Busy,
    /// An armed operation did not complete; nobody may resume.
    Interrupted,
}

/// What is known of one transaction.
pub struct Transaction<O> {
    pub status: Status,
    /// Its running task has not recorded an output yet.
    pub preparing: bool,
    /// The outputs that its tasks recorded, oldest first.
    pub outputs: Seq<O>,
}

impl<O> Transaction<O> {
    /// An active transaction with the given outputs.
    pub open spec fn active(outputs: Seq<O>) -> Self {
        Transaction { status: Status::Active, preparing: false, outputs }
    }

    /// A transaction whose task prepares.
    pub open spec fn preparing(outputs: Seq<O>) -> Self {
        Transaction { status: Status::Running, preparing: true, outputs }
    }

    /// A transaction whose task has recorded its output and executes.
    pub open spec fn executing(outputs: Seq<O>) -> Self {
        Transaction { status: Status::Running, preparing: false, outputs }
    }

    /// A transaction whose task was dropped.
    pub open spec fn failed(outputs: Seq<O>) -> Self {
        Transaction { status: Status::Failed, preparing: false, outputs }
    }

    /// A transaction that was decided and has no outputs left.
    pub open spec fn decided(status: Status) -> Self {
        Transaction { status, preparing: false, outputs: Seq::empty() }
    }

    /// Only a running task prepares, and a decided transaction has no outputs.
    pub open spec fn wf(self) -> bool {
        &&& self.preparing ==> self.status is Running
        &&& self.status is Committed || self.status is RolledBack ==> self.outputs.len() == 0
    }
}

/// The map `transactions` with `entry` for every identity that names the same transaction as
/// `id`.
pub open spec fn put<I: Ord, O>(
    transactions: Map<I, Transaction<O>>,
    id: I,
    entry: Transaction<O>,
) -> Map<I, Transaction<O>> {
    Map::new(
        |k: I| same(k, id) || transactions.contains_key(k),
        |k: I|
            if same(k, id) {
                entry
            } else {
                transactions[k]
            },
    )
}

/// The part of `transactions` that comes strictly after `cutoff`.
pub open spec fn after<I: Ord, O>(
    transactions: Map<I, Transaction<O>>,
    cutoff: I,
) -> Map<I, Transaction<O>> {
    Map::new(
        |k: I| before(cutoff, k) && transactions.contains_key(k),
        |k: I| transactions[k],
    )
}

/// `ids` names every known transaction exactly once, in increasing order.
pub open spec fn lists<I: Ord, O>(ids: Seq<I>, transactions: Map<I, Transaction<O>>) -> bool {
    &&& forall|i: int, j: int| 0 <= i < j < ids.len() ==> before(ids[i], ids[j])
    &&& forall|k: I| #[trigger]
        transactions.contains_key(k) <==> exists|i: int|
            0 <= i < ids.len() && #[trigger] same(ids[i], k)
}

/// The outputs of the transactions that `ids` names, one transaction after the other.
pub open spec fn gathered<I: Ord, O>(
    ids: Seq<I>,
    transactions: Map<I, Transaction<O>>,
) -> Seq<O> {
    ids.map_values(|id: I| transactions[id].outputs).flatten()
}

/// `copy` holds a clone of each item of `items`, in the same order.
pub open spec fn copies<O: Clone>(items: Seq<O>, copy: Seq<O>) -> bool {
    &&& copy.len() == items.len()
    &&& forall|i: int| 0 <= i < items.len() ==> cloned(#[trigger] items[i], copy[i])
}

/// The state of one transactional owner.
#[verifier::reject_recursive_types(I)]
pub struct Ledger<I: Ord, O> {
    pub owner: Owner,
    pub finalized: Option<I>,
    pub transactions: Map<I, Transaction<O>>,
}

/// One stay of a handle behind the lock: what it found there, and what it left.
pub struct Visit<V> {
    pub found: V,
    pub left: V,
}

impl<I: Ord, O> Ledger<I, O> {
    /// A ledger that has seen nothing.
    pub open spec fn empty() -> Self {
        Ledger { owner: Owner::Ready, finalized: None, transactions: Map::empty() }
    }

    /// Identities that name the same transaction are known alike, no known transaction is
    /// covered by the cutoff, and what is known of each is consistent.
    pub open spec fn wf(self) -> bool {
        &&& ordered::<I>()
        &&& forall|a: I, b: I| #[trigger]
            same(a, b) && self.transactions.contains_key(a) ==> self.transactions.contains_key(b)
                && self.transactions[a] == self.transactions[b]
        &&& forall|a: I| #[trigger]
            self.transactions.contains_key(a) ==> !self.covered(a) && self.transactions[a].wf()
    }

    /// `id` is at or below the cutoff.
    pub open spec fn covered(self, id: I) -> bool {
        self.finalized matches Some(cutoff) && !before(cutoff, id)
    }

    /// The status of `id`, if it is known.
    pub open spec fn status(self, id: I) -> Option<Status> {
        if self.transactions.contains_key(id) {
            Some(self.transactions[id].status)
        } else {
            None
        }
    }

    /// A task of `id` is in flight and has not recorded an output yet.
    pub open spec fn preparing(self, id: I) -> bool {
        self.transactions.contains_key(id) && self.transactions[id].preparing
    }

    /// The pending outputs of `id`: none where it is unknown.
    pub open spec fn outputs(self, id: I) -> Seq<O> {
        if self.transactions.contains_key(id) {
            self.transactions[id].outputs
        } else {
            Seq::empty()
        }
    }

    /// This ledger with `entry` for `id`.
    pub open spec fn with(self, id: I, entry: Transaction<O>) -> Self {
        Ledger { transactions: put(self.transactions, id, entry), ..self }
    }

    /// Nothing was registered or finalized, and nobody holds admission.
    pub open spec fn fresh(self) -> bool {
        self.owner is Ready && self.finalized is None && self.transactions == Map::<
            I,
            Transaction<O>,
        >::empty()
    }

    /// Whether preparation or a lifecycle operation may begin.
    pub open spec fn ready(self) -> Result<(), Error> {
        match self.owner {
            Owner::Ready => Ok(()),
            Owner::Busy => Err(Error::Busy),
            Owner::Interrupted => Err(Error::Interrupted),
        }
    }

    /// Whether `id` may be used at all.
    pub open spec fn check(self, id: I) -> Result<(), Error> {
        if self.owner is Interrupted {
            Err(Error::Interrupted)
        } else if self.covered(id) {
            Err(Error::Outdated)
        } else {
            Ok(())
        }
    }

    /// This ledger once `id` was registered: a transaction that was not known is active, without
    /// outputs.
    pub open spec fn registered(self, id: I) -> Self {
        if self.check(id) is Ok && self.status(id) is None {
            self.with(id, Transaction::active(Seq::empty()))
        } else {
            self
        }
    }

    /// Whether an observation by `id` is valid.
    pub open spec fn readable(self, id: I) -> Result<(), Error> {
        if self.check(id) is Err {
            self.check(id)
        } else {
            match self.status(id) {
                Some(Status::Failed) => Err(Error::Failed),
                Some(Status::RolledBack) => Err(Error::RolledBack),
                _ => Ok(()),
            }
        }
    }

    /// Whether `id` may start a task where each transaction may have `capacity` outputs.
    pub open spec fn start(self, id: I, capacity: nat) -> Result<(), Error> {
        if self.ready() is Err {
            self.ready()
        } else if self.check(id) is Err {
            self.check(id)
        } else {
            match self.status(id) {
                Some(Status::Running) => Err(Error::Busy),
                Some(Status::Failed) => Err(Error::Failed),
                Some(Status::Committed) => Err(Error::Committed),
                Some(Status::RolledBack) => Err(Error::RolledBack),
                _ => if self.outputs(id).len() == capacity {
                    Err(Error::Saturated)
                } else {
                    Ok(())
                },
            }
        }
    }

    /// This ledger once `id` was asked to start a task: where it may, the task prepares and
    /// holds admission.
    pub open spec fn started(self, id: I, capacity: nat) -> Self {
        if self.start(id, capacity) is Ok {
            Ledger { owner: Owner::Busy, ..self }.with(
                id,
                Transaction::preparing(self.outputs(id)),
            )
        } else {
            self
        }
    }

    /// This ledger once a lifecycle operation was begun: where it may, it holds admission.
    pub open spec fn acquired(self) -> Self {
        if self.ready() is Ok {
            Ledger { owner: Owner::Busy, ..self }
        } else {
            self
        }
    }

    /// This ledger once the holder of admission is gone. An armed one leaves an interruption.
    pub open spec fn released(self, armed: bool) -> Self {
        if self.owner is Busy {
            Ledger {
                owner: if armed {
                    Owner::Interrupted
                } else {
                    Owner::Ready
                },
                ..self
            }
        } else {
            self
        }
    }

    /// Whether the task of `id` may record an output: once, while it prepares.
    pub open spec fn record(self, id: I) -> Result<(), Error> {
        if self.check(id) is Err {
            self.check(id)
        } else if !self.preparing(id) {
            Err(Error::Conflict)
        } else {
            Ok(())
        }
    }

    /// This ledger once the task of `id` was asked to record `output`.
    pub open spec fn recorded(self, id: I, output: O) -> Self {
        if self.record(id) is Ok {
            self.with(id, Transaction::executing(self.outputs(id).push(output)))
        } else {
            self
        }
    }

    /// Whether the task of `id` may complete: once it has recorded its output.
    pub open spec fn finish(self, id: I) -> Result<(), Error> {
        if self.check(id) is Err {
            self.check(id)
        } else if self.status(id) != Some(Status::Running) {
            Err(Error::Conflict)
        } else if self.preparing(id) {
            Err(Error::Failed)
        } else {
            Ok(())
        }
    }

    /// This ledger once the task of `id` was asked to complete.
    pub open spec fn finished(self, id: I) -> Self {
        if self.finish(id) is Ok {
            self.with(id, Transaction::active(self.outputs(id)))
        } else {
            self
        }
    }

    /// This ledger once the task of `id` was dropped without completion.
    pub open spec fn failed(self, id: I) -> Self {
        if self.status(id) == Some(Status::Running) {
            self.with(id, Transaction::failed(self.outputs(id)))
        } else {
            self
        }
    }

    /// What committing `id` returns: its outputs the first time, nothing after that.
    pub open spec fn commit(self, id: I) -> Result<Option<Seq<O>>, Error> {
        match self.check(id) {
            Err(error) => Err(error),
            Ok(()) => match self.status(id) {
                Some(Status::Committed) => Ok(None),
                Some(Status::Running) => Err(Error::Busy),
                Some(Status::Failed) => Err(Error::Failed),
                Some(Status::RolledBack) => Err(Error::RolledBack),
                _ => Ok(Some(self.outputs(id))),
            },
        }
    }

    /// This ledger once `id` was asked to commit.
    pub open spec fn committed(self, id: I) -> Self {
        if self.commit(id) matches Ok(Some(_)) {
            self.with(id, Transaction::decided(Status::Committed))
        } else {
            self
        }
    }

    /// Whether `id` may be rolled back, and if so, whether it was not yet.
    pub open spec fn check_rollback(self, id: I) -> Result<bool, Error> {
        match self.check(id) {
            Err(error) => Err(error),
            Ok(()) => match self.status(id) {
                Some(Status::Running) => Err(Error::Busy),
                Some(Status::Committed) => Err(Error::Committed),
                Some(Status::RolledBack) => Ok(false),
                _ => Ok(true),
            },
        }
    }

    /// This ledger once `id` was asked to roll back.
    pub open spec fn rolled_back(self, id: I) -> Self {
        if self.check_rollback(id) is Ok {
            self.with(id, Transaction::decided(Status::RolledBack))
        } else {
            self
        }
    }

    /// Some task of a transaction at or below `cutoff` is unfinished.
    pub open spec fn runs_within(self, cutoff: I) -> bool {
        exists|k: I| !before(cutoff, k) && #[trigger] self.status(k) == Some(Status::Running)
    }

    /// Whether the cutoff may advance to `cutoff`.
    pub open spec fn check_finalize(self, cutoff: I) -> Result<(), Error> {
        if self.runs_within(cutoff) {
            Err(Error::Busy)
        } else {
            Ok(())
        }
    }

    /// This ledger once the cutoff was asked to advance to `cutoff`: where it may, everything at
    /// or below it is final and forgotten. A cutoff that is not above the one in force changes
    /// nothing.
    pub open spec fn advanced(self, cutoff: I) -> Self {
        if self.check_finalize(cutoff) is Err || (self.finalized matches Some(prior) && !before(
            prior,
            cutoff,
        )) {
            self
        } else {
            Ledger {
                finalized: Some(cutoff),
                transactions: after(self.transactions, cutoff),
                ..self
            }
        }
    }

    /// `outputs` holds the outputs of every known transaction: transactions in increasing
    /// order, and within one in the order of recording.
    pub open spec fn pending(self, outputs: Seq<O>) -> bool {
        exists|ids: Seq<I>| #[trigger]
            lists(ids, self.transactions) && outputs == gathered(ids, self.transactions)
    }

    /// After [`Ledger::with`] the given entry is that of `id`, and of nothing else; a second
    /// change for `id` replaces the first.
    pub proof fn lemma_with(self, id: I, entry: Transaction<O>)
        requires
            ordered::<I>(),
        ensures
            same(id, id),
            self.with(id, entry).transactions.contains_key(id),
            self.with(id, entry).transactions[id] == entry,
            forall|k: I|
                #![trigger self.with(id, entry).status(k)]
                self.with(id, entry).status(k) == if same(k, id) {
                    Some(entry.status)
                } else {
                    self.status(k)
                },
            forall|k: I|
                #![trigger self.with(id, entry).preparing(k)]
                self.with(id, entry).preparing(k) == if same(k, id) {
                    entry.preparing
                } else {
                    self.preparing(k)
                },
            forall|k: I|
                #![trigger self.with(id, entry).outputs(k)]
                self.with(id, entry).outputs(k) == if same(k, id) {
                    entry.outputs
                } else {
                    self.outputs(k)
                },
            forall|next: Transaction<O>| #[trigger]
                self.with(id, entry).with(id, next) == self.with(id, next),
    {
        assert(same(id, id)) by {
            lemma_order::<I>();
        }
        assert forall|next: Transaction<O>| #[trigger]
            self.with(id, entry).with(id, next) == self.with(id, next) by {
            assert(self.with(id, entry).with(id, next).transactions =~= self.with(
                id,
                next,
            ).transactions);
        }
    }

    /// Identities that name the same transaction are indistinguishable.
    pub proof fn lemma_same(self, a: I, b: I)
        requires
            self.wf(),
            same(a, b),
        ensures
            same(b, a),
            self.status(a) == self.status(b),
            self.preparing(a) == self.preparing(b),
            self.outputs(a) == self.outputs(b),
            self.covered(a) == self.covered(b),
    {
        lemma_order::<I>();
        assert(same(b, a));
    }

    /// A consistent change for an identity above the cutoff keeps a ledger well formed.
    pub proof fn lemma_with_wf(self, id: I, entry: Transaction<O>)
        requires
            self.wf(),
            !self.covered(id),
            entry.wf(),
        ensures
            self.with(id, entry).wf(),
    {
        let changed = self.with(id, entry);
        lemma_order::<I>();
        assert forall|a: I, b: I| #[trigger] same(a, b) && changed.transactions.contains_key(
            a,
        ) implies changed.transactions.contains_key(b) && changed.transactions[a]
            == changed.transactions[b] by {
            assert(same(b, a));
        }
        assert forall|a: I| #[trigger] changed.transactions.contains_key(a) implies !changed.covered(
            a,
        ) && changed.transactions[a].wf() by {
            if same(a, id) {
                assert(same(id, a));
            }
        }
    }
}

} // verus!
