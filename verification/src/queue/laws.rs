//! What holds of the operations of a queue, whatever its ledger.

use vstd::prelude::*;

use crate::error::Error;
use crate::order::{before, lemma_order, ordered, same};
use crate::queue::ledger::{copies, gathered, lists, put, Ledger, Owner, Status, Transaction};

verus! {

/// An unused queue is fresh, and observing it does not change that: `readable` changes nothing
/// and accepts every identity.
pub proof fn law_unused_is_fresh<I: Ord, O>(id: I)
    requires
        ordered::<I>(),
    ensures
        Ledger::<I, O>::empty().wf(),
        Ledger::<I, O>::empty().fresh(),
        Ledger::<I, O>::empty().readable(id) is Ok,
{
}

/// What is refused changes nothing.
pub proof fn law_refusals_change_nothing<I: Ord, O>(
    ledger: Ledger<I, O>,
    id: I,
    output: O,
    capacity: nat,
)
    requires
        ledger.wf(),
    ensures
        ledger.check(id) is Err ==> ledger.registered(id) == ledger,
        ledger.start(id, capacity) is Err ==> ledger.started(id, capacity) == ledger,
        ledger.record(id) is Err ==> ledger.recorded(id, output) == ledger,
        ledger.finish(id) is Err ==> ledger.finished(id) == ledger,
        ledger.ready() is Err ==> ledger.acquired() == ledger,
        ledger.commit(id) is Err ==> ledger.committed(id) == ledger,
        ledger.check_rollback(id) is Err ==> ledger.rolled_back(id) == ledger,
        ledger.check_finalize(id) is Err ==> ledger.advanced(id) == ledger,
{
}

/// Giving admission back changes nothing but the owner: the queue is ready again, or interrupted
/// where the holder is armed.
pub proof fn law_release_touches_the_owner_only<I: Ord, O>(ledger: Ledger<I, O>)
    requires
        ledger.wf(),
        ledger.owner is Busy,
    ensures
        ledger.released(false) == (Ledger { owner: Owner::Ready, ..ledger }),
        ledger.released(true) == (Ledger { owner: Owner::Interrupted, ..ledger }),
{
}

/// The holder of admission gives it back when it is dropped; an armed one leaves an
/// interruption.
pub proof fn law_armed_holder_interrupts<I: Ord, O>(ledger: Ledger<I, O>)
    requires
        ledger.wf(),
        ledger.ready() is Ok,
    ensures
        ledger.acquired().ready() == Err::<(), Error>(Error::Busy),
        ledger.acquired().released(false) == ledger,
        ledger.acquired().released(true).ready() == Err::<(), Error>(Error::Interrupted),
{
}

/// An interrupted queue refuses everything, and is not fresh.
pub proof fn law_interrupted_refuses<I: Ord, O>(ledger: Ledger<I, O>, id: I, capacity: nat)
    requires
        ledger.wf(),
        ledger.owner is Interrupted,
    ensures
        ledger.ready() == Err::<(), Error>(Error::Interrupted),
        ledger.check(id) == Err::<(), Error>(Error::Interrupted),
        ledger.record(id) == Err::<(), Error>(Error::Interrupted),
        ledger.finish(id) == Err::<(), Error>(Error::Interrupted),
        ledger.readable(id) == Err::<(), Error>(Error::Interrupted),
        ledger.start(id, capacity) == Err::<(), Error>(Error::Interrupted),
        ledger.commit(id) == Err::<Option<Seq<O>>, Error>(Error::Interrupted),
        ledger.check_rollback(id) == Err::<bool, Error>(Error::Interrupted),
        !ledger.fresh(),
{
}

/// A transaction above the cutoff that was never seen can be observed, started, committed as
/// read-only and rolled back.
pub proof fn law_unseen_is_accepted<I: Ord, O>(ledger: Ledger<I, O>, id: I, capacity: nat)
    requires
        ledger.wf(),
        !(ledger.owner is Interrupted),
        !ledger.covered(id),
        ledger.status(id) is None,
        capacity > 0,
    ensures
        ledger.check(id) is Ok,
        ledger.readable(id) is Ok,
        ledger.owner is Ready ==> ledger.start(id, capacity) is Ok,
        ledger.commit(id) == Ok::<Option<Seq<O>>, Error>(Some(Seq::empty())),
        ledger.check_rollback(id) == Ok::<bool, Error>(true),
{
}

/// Registration is idempotent and changes nothing of a known transaction.
pub proof fn law_registration_is_idempotent<I: Ord, O>(ledger: Ledger<I, O>, id: I)
    requires
        ledger.wf(),
    ensures
        ledger.registered(id).registered(id) == ledger.registered(id),
        ledger.status(id) is Some ==> ledger.registered(id) == ledger,
{
    ledger.lemma_with(id, Transaction::active(Seq::empty()));
}

/// A commit hands the outputs out once: a repeated commit returns nothing and changes nothing,
/// and neither a rollback nor another task is possible.
pub proof fn law_commit_is_decided_once<I: Ord, O>(ledger: Ledger<I, O>, id: I, capacity: nat)
    requires
        ledger.wf(),
        ledger.commit(id) matches Ok(Some(_)),
    ensures
        ledger.commit(id) == Ok::<Option<Seq<O>>, Error>(Some(ledger.outputs(id))),
        ledger.committed(id).commit(id) == Ok::<Option<Seq<O>>, Error>(None),
        ledger.committed(id).committed(id) == ledger.committed(id),
        ledger.committed(id).outputs(id) == Seq::<O>::empty(),
        ledger.committed(id).check_rollback(id) == Err::<bool, Error>(Error::Committed),
        ledger.owner is Ready ==> ledger.committed(id).start(id, capacity) == Err::<(), Error>(
            Error::Committed,
        ),
        ledger.committed(id).readable(id) is Ok,
{
    ledger.lemma_with(id, Transaction::decided(Status::Committed));
}

/// A rollback discards the outputs for good: it can be repeated without effect, and neither a
/// commit, an observation nor another task is possible.
pub proof fn law_rollback_is_decided_once<I: Ord, O>(ledger: Ledger<I, O>, id: I, capacity: nat)
    requires
        ledger.wf(),
        ledger.check_rollback(id) is Ok,
    ensures
        ledger.rolled_back(id).check_rollback(id) == Ok::<bool, Error>(false),
        ledger.rolled_back(id).rolled_back(id) == ledger.rolled_back(id),
        ledger.rolled_back(id).outputs(id) == Seq::<O>::empty(),
        ledger.rolled_back(id).commit(id) == Err::<Option<Seq<O>>, Error>(Error::RolledBack),
        ledger.rolled_back(id).readable(id) == Err::<(), Error>(Error::RolledBack),
        ledger.owner is Ready ==> ledger.rolled_back(id).start(id, capacity) == Err::<(), Error>(
            Error::RolledBack,
        ),
{
    ledger.lemma_with(id, Transaction::decided(Status::RolledBack));
}

/// A task that fails keeps the outputs of its transaction, which then refuses observation,
/// commit and further tasks, and can be rolled back.
pub proof fn law_failure_keeps_outputs<I: Ord, O>(ledger: Ledger<I, O>, id: I, capacity: nat)
    requires
        ledger.wf(),
        ledger.status(id) == Some(Status::Running),
        !(ledger.owner is Interrupted),
    ensures
        ledger.failed(id).status(id) == Some(Status::Failed),
        ledger.failed(id).outputs(id) == ledger.outputs(id),
        ledger.failed(id).readable(id) == Err::<(), Error>(Error::Failed),
        ledger.failed(id).commit(id) == Err::<Option<Seq<O>>, Error>(Error::Failed),
        ledger.failed(id).check_rollback(id) == Ok::<bool, Error>(true),
        ledger.owner is Ready ==> ledger.failed(id).start(id, capacity) == Err::<(), Error>(
            Error::Failed,
        ),
{
    ledger.lemma_with(id, Transaction::failed(ledger.outputs(id)));
}

/// `ledger` once a task of `id` was started, has recorded `output`, and executes.
pub open spec fn executing<I: Ord, O>(
    ledger: Ledger<I, O>,
    id: I,
    output: O,
    capacity: nat,
) -> Ledger<I, O> {
    ledger.started(id, capacity).recorded(id, output).released(false)
}

/// A task that was started, has recorded and executes leaves nothing but its output and the
/// status of its transaction.
proof fn lemma_executing<I: Ord, O>(ledger: Ledger<I, O>, id: I, output: O, capacity: nat)
    requires
        ledger.wf(),
        ledger.start(id, capacity) is Ok,
    ensures
        ledger.started(id, capacity).preparing(id),
        ledger.started(id, capacity).outputs(id) == ledger.outputs(id),
        ledger.started(id, capacity).status(id) == Some(Status::Running),
        executing(ledger, id, output, capacity) == ledger.with(
            id,
            Transaction::executing(ledger.outputs(id).push(output)),
        ),
{
    let busy = Ledger { owner: Owner::Busy, ..ledger };
    busy.lemma_with(id, Transaction::preparing(ledger.outputs(id)));
}

/// The life of a successful task. While it prepares, nobody else may begin anything; once it has
/// recorded, its transaction runs and admission is free; once it has completed, the transaction
/// is active with one more output, and nothing else has changed.
pub proof fn law_task_cycle<I: Ord, O>(
    ledger: Ledger<I, O>,
    id: I,
    other: I,
    output: O,
    capacity: nat,
)
    requires
        ledger.wf(),
        ledger.start(id, capacity) is Ok,
    ensures
        ({
            let preparing = ledger.started(id, capacity);
            &&& preparing.status(id) == Some(Status::Running)
            &&& preparing.outputs(id) == ledger.outputs(id)
            &&& preparing.ready() == Err::<(), Error>(Error::Busy)
            &&& preparing.start(other, capacity) == Err::<(), Error>(Error::Busy)
            &&& preparing.finish(id) == Err::<(), Error>(Error::Failed)
            &&& preparing.record(id) is Ok
        }),
        ({
            let executing = executing(ledger, id, output, capacity);
            &&& executing.ready() is Ok
            &&& executing.status(id) == Some(Status::Running)
            &&& executing.record(id) == Err::<(), Error>(Error::Conflict)
            &&& executing.start(id, capacity) == Err::<(), Error>(Error::Busy)
            &&& executing.commit(id) == Err::<Option<Seq<O>>, Error>(Error::Busy)
            &&& executing.check_rollback(id) == Err::<bool, Error>(Error::Busy)
            &&& executing.readable(id) is Ok
            &&& executing.finish(id) is Ok
        }),
        ({
            let done = executing(ledger, id, output, capacity).finished(id);
            let outputs = ledger.outputs(id).push(output);
            &&& done == ledger.with(id, Transaction::active(outputs))
            &&& done.commit(id) == Ok::<Option<Seq<O>>, Error>(Some(outputs))
        }),
{
    lemma_executing(ledger, id, output, capacity);
    ledger.lemma_with(id, Transaction::executing(ledger.outputs(id).push(output)));
    ledger.lemma_with(id, Transaction::active(ledger.outputs(id).push(output)));
}

/// A task that is cancelled before it records fails its transaction without an output, gives
/// admission back, and changes nothing else.
pub proof fn law_cancelled_preparation<I: Ord, O>(ledger: Ledger<I, O>, id: I, capacity: nat)
    requires
        ledger.wf(),
        ledger.start(id, capacity) is Ok,
    ensures
        ({
            let cancelled = ledger.started(id, capacity).failed(id).released(false);
            &&& cancelled == ledger.with(id, Transaction::failed(ledger.outputs(id)))
            &&& cancelled.ready() is Ok
            &&& cancelled.status(id) == Some(Status::Failed)
            &&& cancelled.outputs(id) == ledger.outputs(id)
            &&& cancelled.readable(id) == Err::<(), Error>(Error::Failed)
        }),
{
    let busy = Ledger { owner: Owner::Busy, ..ledger };
    busy.lemma_with(id, Transaction::preparing(ledger.outputs(id)));
    ledger.lemma_with(id, Transaction::failed(ledger.outputs(id)));
}

/// Execution of one transaction excludes no other: what a lifecycle operation or a start returns
/// for another transaction is the same with and without the task in flight. Only a cutoff that
/// covers the task has to wait.
pub proof fn law_execution_overlaps<I: Ord, O>(
    ledger: Ledger<I, O>,
    id: I,
    other: I,
    output: O,
    capacity: nat,
)
    requires
        ledger.wf(),
        ledger.start(id, capacity) is Ok,
        !same(other, id),
    ensures
        ({
            let executing = executing(ledger, id, output, capacity);
            &&& executing.ready() == ledger.ready()
            &&& executing.start(other, capacity) == ledger.start(other, capacity)
            &&& executing.readable(other) == ledger.readable(other)
            &&& executing.commit(other) == ledger.commit(other)
            &&& executing.check_rollback(other) == ledger.check_rollback(other)
            &&& before(other, id) ==> executing.check_finalize(other) == ledger.check_finalize(
                other,
            )
            &&& before(id, other) ==> executing.check_finalize(other) == Err::<(), Error>(
                Error::Busy,
            )
        }),
{
    let executing = executing(ledger, id, output, capacity);
    lemma_executing(ledger, id, output, capacity);
    ledger.lemma_with(id, Transaction::executing(ledger.outputs(id).push(output)));
    if before(other, id) {
        assert forall|k: I| !before(other, k) implies #[trigger] executing.status(k)
            == ledger.status(k) by {
            lemma_order::<I>();
        }
        if ledger.runs_within(other) {
            let k = choose|k: I|
                !before(other, k) && #[trigger] ledger.status(k) == Some(Status::Running);
            assert(executing.status(k) == Some(Status::Running));
        }
    }
    if before(id, other) {
        assert(!before(other, id)) by {
            lemma_order::<I>();
        }
        assert(executing.status(id) == Some(Status::Running));
    }
}

/// Finalization forgets what it covers, refuses it from then on, and leaves the rest alone.
pub proof fn law_finalization_covers<I: Ord, O>(
    ledger: Ledger<I, O>,
    cutoff: I,
    id: I,
    capacity: nat,
)
    requires
        ledger.wf(),
        ledger.check_finalize(cutoff) is Ok,
    ensures
        ledger.advanced(cutoff).wf(),
        ledger.advanced(cutoff).covered(id) == (ledger.covered(id) || !before(cutoff, id)),
        ledger.advanced(cutoff).covered(id) ==> ledger.advanced(cutoff).status(id) is None,
        ledger.advanced(cutoff).covered(id) && !(ledger.owner is Interrupted) ==> {
            &&& ledger.advanced(cutoff).check(id) == Err::<(), Error>(Error::Outdated)
            &&& ledger.advanced(cutoff).readable(id) == Err::<(), Error>(Error::Outdated)
            &&& ledger.owner is Ready ==> ledger.advanced(cutoff).start(id, capacity) == Err::<
                (),
                Error,
            >(Error::Outdated)
            &&& ledger.advanced(cutoff).commit(id) == Err::<Option<Seq<O>>, Error>(Error::Outdated)
            &&& ledger.advanced(cutoff).check_rollback(id) == Err::<bool, Error>(Error::Outdated)
        },
        !ledger.advanced(cutoff).covered(id) ==> {
            &&& ledger.advanced(cutoff).status(id) == ledger.status(id)
            &&& ledger.advanced(cutoff).outputs(id) == ledger.outputs(id)
        },
{
    lemma_order::<I>();
}

/// Finalization is idempotent, and a cutoff that is not above the one in force is a no-op that
/// always succeeds.
pub proof fn law_older_cutoffs_are_no_ops<I: Ord, O>(ledger: Ledger<I, O>, cutoff: I, older: I)
    requires
        ledger.wf(),
        ledger.check_finalize(cutoff) is Ok,
        !before(cutoff, older),
    ensures
        ledger.advanced(cutoff).check_finalize(older) is Ok,
        ledger.advanced(cutoff).advanced(older) == ledger.advanced(cutoff),
{
    let done = ledger.advanced(cutoff);
    law_finalization_covers(ledger, cutoff, older, 1);
    assert(done.covered(older));
    assert(!before(done.finalized->0, older));
    assert forall|k: I| !before(older, k) implies #[trigger] done.status(k) != Some(
        Status::Running,
    ) by {
        assert(done.covered(k)) by {
            lemma_order::<I>();
        }
    }
}

/// A ledger fixes its pending outputs: there is one list of them.
pub proof fn law_pending_is_unique<I: Ord, O>(ledger: Ledger<I, O>, one: Seq<O>, two: Seq<O>)
    requires
        ledger.wf(),
        ledger.pending(one),
        ledger.pending(two),
    ensures
        one == two,
{
    let known = ledger.transactions;
    let a = choose|ids: Seq<I>| #[trigger] lists(ids, known) && one == gathered(ids, known);
    let b = choose|ids: Seq<I>| #[trigger] lists(ids, known) && two == gathered(ids, known);
    if a.len() > b.len() {
        lemma_listings_agree(a, b, known, b.len() as int);
    } else if b.len() > a.len() {
        lemma_listings_agree(b, a, known, a.len() as int);
    }
    let f = |id: I| known[id].outputs;
    assert forall|i: int| 0 <= i < a.len() implies #[trigger] a.map_values(f)[i] == b.map_values(
        f,
    )[i] by {
        lemma_listings_agree(a, b, known, i);
        assert(known.contains_key(a[i])) by {
            lemma_order::<I>();
            assert(same(a[i], a[i]));
        }
        ledger.lemma_same(a[i], b[i]);
    }
    assert(a.map_values(f) =~= b.map_values(f));
}

/// Two increasing listings of the same transactions agree at every position.
proof fn lemma_listings_agree<I: Ord, O>(
    a: Seq<I>,
    b: Seq<I>,
    known: Map<I, Transaction<O>>,
    n: int,
)
    requires
        ordered::<I>(),
        lists(a, known),
        lists(b, known),
        0 <= n < a.len(),
    ensures
        n < b.len(),
        same(a[n], b[n]),
    decreases n,
{
    assert forall|m: int| 0 <= m < n implies m < b.len() && same(a[m], #[trigger] b[m]) by {
        lemma_listings_agree(a, b, known, m);
    }
    lemma_order::<I>();
    assert(same(a[n], a[n]));
    assert(known.contains_key(a[n]));
    let j = choose|j: int| 0 <= j < b.len() && #[trigger] same(b[j], a[n]);
    if j < n {
        assert(same(a[j], b[j]));
        assert(same(a[j], a[n]));
        assert(before(a[j], a[n]));
    }
    assert(same(b[n], b[n]));
    assert(known.contains_key(b[n]));
    let i = choose|i: int| 0 <= i < a.len() && #[trigger] same(a[i], b[n]);
    if i < n {
        assert(same(a[i], b[i]));
        assert(same(b[i], a[i]));
        assert(same(b[i], b[n]));
        assert(before(b[i], b[n]));
    }
    if j > n {
        assert(before(b[n], b[j]));
        assert(before(b[n], a[n]));
        if i > n {
            assert(before(a[n], a[i]));
            assert(before(a[n], b[n]));
        }
    }
    assert(same(b[n], a[n]));
}

/// An identity may be used unless the queue is interrupted or the cutoff is at or above it.
pub proof fn law_use<I: Ord, O>(ledger: Ledger<I, O>, id: I)
    ensures
        ledger.check(id) is Ok <==> !(ledger.owner is Interrupted) && (ledger.finalized is Some
            ==> before(ledger.finalized->0, id)),
        ledger.check(id) == Err::<(), Error>(Error::Interrupted) <==> ledger.owner is Interrupted,
        ledger.check(id) == Err::<(), Error>(Error::Outdated) <==> !(ledger.owner is Interrupted)
            && ledger.finalized is Some && !before(ledger.finalized->0, id),
{
}

/// Preparation or a lifecycle operation may begin exactly while nobody holds admission, and takes
/// it; nothing else changes.
pub proof fn law_admission<I: Ord, O>(ledger: Ledger<I, O>)
    ensures
        ledger.ready() is Ok <==> ledger.owner is Ready,
        ledger.ready() == Err::<(), Error>(Error::Busy) <==> ledger.owner is Busy,
        ledger.ready() == Err::<(), Error>(Error::Interrupted) <==> ledger.owner is Interrupted,
        ledger.acquired().owner == if ledger.owner is Ready {
            Owner::Busy
        } else {
            ledger.owner
        },
        ledger.acquired().finalized == ledger.finalized,
        ledger.acquired().transactions == ledger.transactions,
{
}

/// A queue is fresh exactly while nobody holds admission, nothing is final and no identity is
/// known.
pub proof fn law_freshness<I: Ord, O>(ledger: Ledger<I, O>)
    ensures
        ledger.fresh() <==> ledger.owner is Ready && ledger.finalized is None && forall|k: I|
            !#[trigger] ledger.transactions.contains_key(k),
{
    if forall|k: I| !#[trigger] ledger.transactions.contains_key(k) {
        assert(ledger.transactions =~= Map::empty());
    }
}

/// On a queue that is not interrupted, an identity above the cutoff is readable exactly if its
/// transaction neither failed nor was rolled back, whatever outputs it has.
pub proof fn law_readable<I: Ord, O>(ledger: Ledger<I, O>, id: I)
    ensures
        ({
            let usable = !(ledger.owner is Interrupted) && (ledger.finalized is Some ==> before(
                ledger.finalized->0,
                id,
            ));
            let known = ledger.transactions.contains_key(id);
            let status = ledger.transactions[id].status;
            &&& ledger.readable(id) is Ok <==> usable && !(known && (status is Failed
                || status is RolledBack))
            &&& ledger.readable(id) == Err::<(), Error>(Error::Failed) <==> usable && known
                && status is Failed
            &&& ledger.readable(id) == Err::<(), Error>(Error::RolledBack) <==> usable && known
                && status is RolledBack
            &&& ledger.readable(id) == Err::<(), Error>(Error::Interrupted)
                <==> ledger.owner is Interrupted
            &&& ledger.readable(id) == Err::<(), Error>(Error::Outdated) <==> !usable && !(
            ledger.owner is Interrupted)
        }),
{
}

/// On a ready queue, an identity above the cutoff that is unknown or active may start a task
/// unless it has as many outputs as the capacity, and is saturated exactly then. Every other
/// refusal names its cause.
pub proof fn law_start<I: Ord, O>(ledger: Ledger<I, O>, id: I, capacity: nat)
    ensures
        ({
            let usable = ledger.owner is Ready && (ledger.finalized is Some ==> before(
                ledger.finalized->0,
                id,
            ));
            let known = ledger.transactions.contains_key(id);
            let status = ledger.transactions[id].status;
            let count = if known {
                ledger.transactions[id].outputs.len()
            } else {
                0
            };
            let result = ledger.start(id, capacity);
            &&& result is Ok <==> usable && (known ==> status is Active) && count != capacity
            &&& result == Err::<(), Error>(Error::Saturated) <==> usable && (known
                ==> status is Active) && count == capacity
            &&& result == Err::<(), Error>(Error::Busy) <==> ledger.owner is Busy || (usable
                && known && status is Running)
            &&& result == Err::<(), Error>(Error::Failed) <==> usable && known && status is Failed
            &&& result == Err::<(), Error>(Error::Committed) <==> usable && known
                && status is Committed
            &&& result == Err::<(), Error>(Error::RolledBack) <==> usable && known
                && status is RolledBack
            &&& result == Err::<(), Error>(Error::Interrupted) <==> ledger.owner is Interrupted
            &&& result == Err::<(), Error>(Error::Outdated) <==> ledger.owner is Ready && !usable
        }),
{
}

/// The task of a transaction may record exactly while it prepares.
pub proof fn law_record<I: Ord, O>(ledger: Ledger<I, O>, id: I)
    ensures
        ({
            let usable = !(ledger.owner is Interrupted) && (ledger.finalized is Some ==> before(
                ledger.finalized->0,
                id,
            ));
            let preparing = ledger.transactions.contains_key(id)
                && ledger.transactions[id].preparing;
            let result = ledger.record(id);
            &&& result is Ok <==> usable && preparing
            &&& result == Err::<(), Error>(Error::Conflict) <==> usable && !preparing
            &&& result == Err::<(), Error>(Error::Interrupted) <==> ledger.owner is Interrupted
            &&& result == Err::<(), Error>(Error::Outdated) <==> !usable && !(
            ledger.owner is Interrupted)
        }),
{
}

/// The task of a transaction may complete exactly while it runs and does not prepare.
pub proof fn law_finish<I: Ord, O>(ledger: Ledger<I, O>, id: I)
    ensures
        ({
            let usable = !(ledger.owner is Interrupted) && (ledger.finalized is Some ==> before(
                ledger.finalized->0,
                id,
            ));
            let running = ledger.transactions.contains_key(id)
                && ledger.transactions[id].status is Running;
            let preparing = ledger.transactions[id].preparing;
            let result = ledger.finish(id);
            &&& result is Ok <==> usable && running && !preparing
            &&& result == Err::<(), Error>(Error::Failed) <==> usable && running && preparing
            &&& result == Err::<(), Error>(Error::Conflict) <==> usable && !running
            &&& result == Err::<(), Error>(Error::Interrupted) <==> ledger.owner is Interrupted
            &&& result == Err::<(), Error>(Error::Outdated) <==> !usable && !(
            ledger.owner is Interrupted)
        }),
{
}

/// On a queue that is not interrupted, a commit of an identity above the cutoff hands out exactly
/// the outputs of a transaction that is active, or nothing for one that is unknown, and returns
/// no outputs at all only where it was committed before. Every refusal names its cause.
pub proof fn law_commit<I: Ord, O>(ledger: Ledger<I, O>, id: I)
    ensures
        ({
            let usable = !(ledger.owner is Interrupted) && (ledger.finalized is Some ==> before(
                ledger.finalized->0,
                id,
            ));
            let known = ledger.transactions.contains_key(id);
            let status = ledger.transactions[id].status;
            let result = ledger.commit(id);
            &&& result is Ok && result->Ok_0 is Some <==> usable && (known ==> status is Active)
            &&& usable && known && status is Active ==> result == Ok::<Option<Seq<O>>, Error>(
                Some(ledger.transactions[id].outputs),
            )
            &&& usable && !known ==> result == Ok::<Option<Seq<O>>, Error>(Some(Seq::empty()))
            &&& result == Ok::<Option<Seq<O>>, Error>(None) <==> usable && known
                && status is Committed
            &&& result == Err::<Option<Seq<O>>, Error>(Error::Busy) <==> usable && known
                && status is Running
            &&& result == Err::<Option<Seq<O>>, Error>(Error::Failed) <==> usable && known
                && status is Failed
            &&& result == Err::<Option<Seq<O>>, Error>(Error::RolledBack) <==> usable && known
                && status is RolledBack
            &&& result == Err::<Option<Seq<O>>, Error>(Error::Interrupted)
                <==> ledger.owner is Interrupted
            &&& result == Err::<Option<Seq<O>>, Error>(Error::Outdated) <==> !usable && !(
            ledger.owner is Interrupted)
        }),
{
}

/// On a queue that is not interrupted, every identity above the cutoff may be rolled back unless
/// its transaction runs or was committed: one that is unknown, active or failed for the first
/// time, one that was rolled back again.
pub proof fn law_rollback<I: Ord, O>(ledger: Ledger<I, O>, id: I)
    ensures
        ({
            let usable = !(ledger.owner is Interrupted) && (ledger.finalized is Some ==> before(
                ledger.finalized->0,
                id,
            ));
            let known = ledger.transactions.contains_key(id);
            let status = ledger.transactions[id].status;
            let result = ledger.check_rollback(id);
            &&& result == Ok::<bool, Error>(true) <==> usable && (known ==> status is Active
                || status is Failed)
            &&& result == Ok::<bool, Error>(false) <==> usable && known && status is RolledBack
            &&& result == Err::<bool, Error>(Error::Busy) <==> usable && known
                && status is Running
            &&& result == Err::<bool, Error>(Error::Committed) <==> usable && known
                && status is Committed
            &&& result == Err::<bool, Error>(Error::Interrupted) <==> ledger.owner is Interrupted
            &&& result == Err::<bool, Error>(Error::Outdated) <==> !usable && !(
            ledger.owner is Interrupted)
        }),
{
}

/// The cutoff may advance unless a transaction at or below it runs.
pub proof fn law_finalize<I: Ord, O>(ledger: Ledger<I, O>, cutoff: I)
    ensures
        ledger.check_finalize(cutoff) is Ok <==> forall|k: I| #[trigger]
            ledger.transactions.contains_key(k) && !before(cutoff, k) ==> !(
            ledger.transactions[k].status is Running),
        ledger.check_finalize(cutoff) is Err ==> ledger.check_finalize(cutoff) == Err::<(), Error>(
            Error::Busy,
        ),
{
    if ledger.runs_within(cutoff) {
        let k = choose|k: I|
            !before(cutoff, k) && #[trigger] ledger.status(k) == Some(Status::Running);
        assert(ledger.transactions.contains_key(k));
    } else {
        assert forall|k: I| #[trigger]
            ledger.transactions.contains_key(k) && !before(cutoff, k) implies !(
        ledger.transactions[k].status is Running) by {
            assert(ledger.status(k) == Some(ledger.transactions[k].status));
        }
    }
}

/// `one` and `two` have the same cutoff and know the same of every transaction but that of `id`.
pub open spec fn agree_elsewhere<I: Ord, O>(one: Ledger<I, O>, two: Ledger<I, O>, id: I) -> bool {
    &&& one.finalized == two.finalized
    &&& forall|k: I|
        !same(k, id) ==> (#[trigger] one.transactions.contains_key(k)
            <==> two.transactions.contains_key(k))
    &&& forall|k: I|
        !same(k, id) && #[trigger] one.transactions.contains_key(k) ==> one.transactions[k]
            == two.transactions[k]
}

/// What a transaction may do, it does to itself alone: it becomes active and empty when it is
/// registered first, runs and takes admission when its task starts, gains its output when that is
/// recorded, is active again when the task completes, failed when the task is dropped, and
/// decided, without outputs, by a commit or a rollback.
pub proof fn law_effects<I: Ord, O>(ledger: Ledger<I, O>, id: I, output: O, capacity: nat)
    requires
        ledger.wf(),
    ensures
        ({
            let outputs = if ledger.transactions.contains_key(id) {
                ledger.transactions[id].outputs
            } else {
                Seq::empty()
            };
            &&& ledger.check(id) is Ok ==> ({
                let next = ledger.registered(id);
                &&& agree_elsewhere(next, ledger, id)
                &&& next.owner == ledger.owner
                &&& next.transactions.contains_key(id)
                &&& ledger.transactions.contains_key(id) ==> next.transactions[id]
                    == ledger.transactions[id]
                &&& !ledger.transactions.contains_key(id) ==> next.transactions[id] == (
                Transaction { status: Status::Active, preparing: false, outputs: Seq::<O>::empty() })
            })
            &&& ledger.start(id, capacity) is Ok ==> ({
                let next = ledger.started(id, capacity);
                &&& agree_elsewhere(next, ledger, id)
                &&& next.owner is Busy
                &&& next.transactions.contains_key(id)
                &&& next.transactions[id] == (Transaction {
                    status: Status::Running,
                    preparing: true,
                    outputs,
                })
            })
            &&& ledger.record(id) is Ok ==> ({
                let next = ledger.recorded(id, output);
                &&& agree_elsewhere(next, ledger, id)
                &&& next.owner == ledger.owner
                &&& next.transactions.contains_key(id)
                &&& next.transactions[id] == (Transaction {
                    status: Status::Running,
                    preparing: false,
                    outputs: outputs.push(output),
                })
            })
            &&& ledger.finish(id) is Ok ==> ({
                let next = ledger.finished(id);
                &&& agree_elsewhere(next, ledger, id)
                &&& next.owner == ledger.owner
                &&& next.transactions.contains_key(id)
                &&& next.transactions[id] == (Transaction {
                    status: Status::Active,
                    preparing: false,
                    outputs,
                })
            })
            &&& ledger.transactions.contains_key(id) && ledger.transactions[id].status is Running
                ==> ({
                let next = ledger.failed(id);
                &&& agree_elsewhere(next, ledger, id)
                &&& next.owner == ledger.owner
                &&& next.transactions.contains_key(id)
                &&& next.transactions[id] == (Transaction {
                    status: Status::Failed,
                    preparing: false,
                    outputs,
                })
            })
            &&& !(ledger.transactions.contains_key(id)
                && ledger.transactions[id].status is Running) ==> ledger.failed(id) == ledger
            &&& ledger.commit(id) is Ok ==> ({
                let next = ledger.committed(id);
                &&& agree_elsewhere(next, ledger, id)
                &&& next.owner == ledger.owner
                &&& next.transactions.contains_key(id)
                &&& next.transactions[id] == (Transaction {
                    status: Status::Committed,
                    preparing: false,
                    outputs: Seq::<O>::empty(),
                })
            })
            &&& ledger.check_rollback(id) is Ok ==> ({
                let next = ledger.rolled_back(id);
                &&& agree_elsewhere(next, ledger, id)
                &&& next.owner == ledger.owner
                &&& next.transactions.contains_key(id)
                &&& next.transactions[id] == (Transaction {
                    status: Status::RolledBack,
                    preparing: false,
                    outputs: Seq::<O>::empty(),
                })
            })
        }),
{
    assert(same(id, id)) by {
        lemma_order::<I>();
    }
    if ledger.commit(id) == Ok::<Option<Seq<O>>, Error>(None) {
        assert(ledger.transactions[id].wf());
        assert(ledger.transactions[id].outputs =~= Seq::empty());
    }
}

/// An advance of the cutoff forgets every transaction at or below it, keeps every other as it
/// was, and makes the cutoff final, unless an identity at or above it was final already.
pub proof fn law_advance<I: Ord, O>(ledger: Ledger<I, O>, cutoff: I)
    requires
        ledger.wf(),
        ledger.check_finalize(cutoff) is Ok,
    ensures
        ({
            let next = ledger.advanced(cutoff);
            let older = ledger.finalized is Some && !before(ledger.finalized->0, cutoff);
            &&& next.owner == ledger.owner
            &&& next.finalized == if older {
                ledger.finalized
            } else {
                Some(cutoff)
            }
            &&& forall|k: I| #[trigger]
                next.transactions.contains_key(k) <==> ledger.transactions.contains_key(k)
                    && before(cutoff, k)
            &&& forall|k: I| #[trigger]
                next.transactions.contains_key(k) ==> next.transactions[k]
                    == ledger.transactions[k]
        }),
{
    let next = ledger.advanced(cutoff);
    assert forall|k: I| #[trigger] next.transactions.contains_key(k) implies before(cutoff, k) by {
        lemma_order::<I>();
    }
}

/// `ledger` once tasks of `id` have recorded `items`, one after the other, and completed.
pub open spec fn cycles<I: Ord, O>(
    ledger: Ledger<I, O>,
    id: I,
    items: Seq<O>,
    capacity: nat,
) -> Ledger<I, O>
    decreases items.len(),
{
    if items.len() == 0 {
        ledger
    } else {
        executing(
            cycles(ledger, id, items.drop_last(), capacity),
            id,
            items.last(),
            capacity,
        ).finished(id)
    }
}

/// Capacity is usable in full. On a ready queue, a transaction above the cutoff that is unknown
/// or active can record as many further outputs as the capacity has room for, one task after the
/// other, and every one of these tasks starts, records and completes. The transaction then has
/// its former outputs and these, in that order. It can be read, rolled back and committed, and a
/// commit hands out all of them. It can start another task exactly if there is room left.
pub proof fn law_capacity_is_usable_in_full<I: Ord, O>(
    ledger: Ledger<I, O>,
    id: I,
    items: Seq<O>,
    capacity: nat,
)
    requires
        ledger.wf(),
        ledger.owner is Ready,
        ledger.finalized is Some ==> before(ledger.finalized->0, id),
        ledger.transactions.contains_key(id) ==> ledger.transactions[id].status is Active,
        ledger.outputs(id).len() + items.len() <= capacity,
    ensures
        forall|i: int|
            0 <= i < items.len() ==> ({
                let at = #[trigger] cycles(ledger, id, items.take(i), capacity);
                &&& at.start(id, capacity) is Ok
                &&& at.started(id, capacity).record(id) is Ok
                &&& executing(at, id, items[i], capacity).finish(id) is Ok
            }),
        ({
            let done = cycles(ledger, id, items, capacity);
            let all = ledger.outputs(id) + items;
            &&& done.wf()
            &&& done.owner is Ready
            &&& agree_elsewhere(done, ledger, id)
            &&& done.outputs(id) == all
            &&& done.readable(id) is Ok
            &&& done.check_rollback(id) == Ok::<bool, Error>(true)
            &&& done.rolled_back(id).outputs(id) == Seq::<O>::empty()
            &&& done.commit(id) == Ok::<Option<Seq<O>>, Error>(Some(all))
            &&& done.start(id, capacity) is Ok <==> all.len() < capacity
            &&& done.start(id, capacity) == Err::<(), Error>(Error::Saturated) <==> all.len()
                == capacity
        }),
    decreases items.len(),
{
    let done = cycles(ledger, id, items, capacity);
    let all = ledger.outputs(id) + items;
    assert(same(id, id)) by {
        lemma_order::<I>();
    }
    if items.len() == 0 {
        assert(all =~= ledger.outputs(id));
    } else {
        let fewer = items.drop_last();
        let at = cycles(ledger, id, fewer, capacity);
        law_capacity_is_usable_in_full(ledger, id, fewer, capacity);
        assert(at.start(id, capacity) is Ok);
        law_task_cycle(at, id, id, items.last(), capacity);
        assert(at.outputs(id).push(items.last()) =~= all);
        at.lemma_with(id, Transaction::active(all));
        at.lemma_with_wf(id, Transaction::active(all));
        assert(done == at.with(id, Transaction::active(all)));
        assert forall|i: int| 0 <= i < items.len() implies ({
            let at = #[trigger] cycles(ledger, id, items.take(i), capacity);
            &&& at.start(id, capacity) is Ok
            &&& at.started(id, capacity).record(id) is Ok
            &&& executing(at, id, items[i], capacity).finish(id) is Ok
        }) by {
            if i < fewer.len() {
                assert(fewer.take(i) =~= items.take(i));
                assert(cycles(ledger, id, fewer.take(i), capacity).start(id, capacity) is Ok);
                assert(fewer[i] == items[i]);
            } else {
                assert(items.take(i) =~= fewer);
            }
        }
    }
    done.lemma_with(id, Transaction::decided(Status::RolledBack));
}

/// Concatenated blocks are those before one of them, that one, and those after it.
proof fn lemma_flatten_split<O>(blocks: Seq<Seq<O>>, j: int)
    requires
        0 <= j < blocks.len(),
    ensures
        blocks.flatten() == blocks.take(j).flatten() + blocks[j] + blocks.skip(j + 1).flatten(),
    decreases blocks.len(),
{
    let whole = blocks.take(j).flatten() + blocks[j] + blocks.skip(j + 1).flatten();
    let rest = blocks.drop_first();
    if j == 0 {
        assert(blocks.take(0) =~= Seq::empty());
        assert(blocks.skip(1) =~= rest);
        assert(blocks.flatten() =~= whole);
    } else {
        lemma_flatten_split(rest, j - 1);
        assert(rest.take(j - 1) =~= blocks.take(j).drop_first());
        assert(rest.skip(j) =~= blocks.skip(j + 1));
        assert(blocks.take(j).first() == blocks.first());
        assert(blocks.flatten() =~= whole);
    }
}

/// `all` is `piece` between `left` and `right`.
pub open spec fn parted<O>(all: Seq<O>, left: Seq<O>, piece: Seq<O>, right: Seq<O>) -> bool {
    all == left + piece + right
}

/// A change of the transaction at place `j` of a listing changes the outputs at that place alone.
proof fn lemma_piece<I: Ord, O>(
    ledger: Ledger<I, O>,
    ids: Seq<I>,
    j: int,
    id: I,
    entry: Transaction<O>,
)
    requires
        ledger.wf(),
        ledger.transactions.contains_key(id),
        lists(ids, ledger.transactions),
        0 <= j < ids.len(),
        same(ids[j], id),
    ensures
        lists(ids, put(ledger.transactions, id, entry)),
        ids.map_values(|k: I| put(ledger.transactions, id, entry)[k].outputs)
            == ids.map_values(|k: I| ledger.transactions[k].outputs).update(j, entry.outputs),
{
    let known = ledger.transactions;
    let changed = put(known, id, entry);
    assert forall|k: I| #[trigger] changed.contains_key(k) <==> known.contains_key(k) by {
        if same(k, id) {
            assert(same(id, k)) by {
                lemma_order::<I>();
            }
        }
    }
    assert forall|i: int| 0 <= i < ids.len() && i != j implies !same(#[trigger] ids[i], id) by {
        lemma_order::<I>();
        if i < j {
            assert(before(ids[i], ids[j]));
        } else {
            assert(before(ids[j], ids[i]));
        }
    }
    let before_it = ids.map_values(|k: I| known[k].outputs);
    let after_it = ids.map_values(|k: I| changed[k].outputs);
    assert forall|i: int| 0 <= i < ids.len() implies #[trigger] after_it[i] == before_it.update(
        j,
        entry.outputs,
    )[i] by {
        assert(known.contains_key(ids[i])) by {
            assert(same(ids[i], ids[i])) by {
                lemma_order::<I>();
            }
        }
        assert(changed.contains_key(ids[i]));
    }
    assert(after_it =~= before_it.update(j, entry.outputs));
}

/// The pending outputs hold those of each known transaction in one piece. A change of that
/// transaction changes its piece alone, whatever else it changes.
pub proof fn law_pending_in_pieces<I: Ord, O>(ledger: Ledger<I, O>, all: Seq<O>, id: I)
    requires
        ledger.wf(),
        ledger.pending(all),
        ledger.transactions.contains_key(id),
    ensures
        exists|left: Seq<O>, right: Seq<O>| #[trigger]
            parted(all, left, ledger.transactions[id].outputs, right) && forall|
                entry: Transaction<O>,
                changed: Seq<O>,
            | #[trigger]
                parted(changed, left, entry.outputs, right) ==> #[trigger] ledger.with(
                    id,
                    entry,
                ).pending(changed),
{
    let known = ledger.transactions;
    let ids = choose|ids: Seq<I>| #[trigger] lists(ids, known) && all == gathered(ids, known);
    let j = choose|j: int| 0 <= j < ids.len() && #[trigger] same(ids[j], id);
    let blocks = ids.map_values(|k: I| known[k].outputs);
    let left = blocks.take(j).flatten();
    let right = blocks.skip(j + 1).flatten();
    lemma_flatten_split(blocks, j);
    ledger.lemma_same(ids[j], id);
    assert(known.contains_key(ids[j]));
    assert(parted(all, left, known[id].outputs, right));
    assert forall|entry: Transaction<O>, changed: Seq<O>| #[trigger]
        parted(changed, left, entry.outputs, right) implies #[trigger] ledger.with(
        id,
        entry,
    ).pending(changed) by {
        let pieces = blocks.update(j, entry.outputs);
        lemma_piece(ledger, ids, j, id, entry);
        lemma_flatten_split(pieces, j);
        assert(pieces.take(j) =~= blocks.take(j));
        assert(pieces.skip(j + 1) =~= blocks.skip(j + 1));
        assert(gathered(ids, put(known, id, entry)) == changed);
        assert(lists(ids, ledger.with(id, entry).transactions));
    }
}

/// Identities that name an earlier and a later transaction are in that order.
proof fn lemma_earlier<I: Ord>(x: I, y: I, a: I, b: I)
    requires
        ordered::<I>(),
        same(x, a),
        same(y, b),
        before(a, b),
    ensures
        same(a, x),
        same(b, y),
        !before(y, x),
        !same(x, y),
        !same(y, x),
        x != y,
{
    lemma_order::<I>();
    assert(before(x, b));
    assert(same(b, y));
    assert(before(x, y));
}

/// Pending outputs follow the order of identities: those of an earlier transaction come first.
pub proof fn law_pending_in_order<I: Ord, O>(ledger: Ledger<I, O>, all: Seq<O>, a: I, b: I)
    requires
        ledger.wf(),
        ledger.pending(all),
        ledger.transactions.contains_key(a),
        ledger.transactions.contains_key(b),
        before(a, b),
    ensures
        exists|front: Seq<O>, right: Seq<O>, left: Seq<O>, middle: Seq<O>|
            #![trigger parted(all, front, ledger.transactions[b].outputs, right), parted(front, left, ledger.transactions[a].outputs, middle)]
            parted(all, front, ledger.transactions[b].outputs, right) && parted(
                front,
                left,
                ledger.transactions[a].outputs,
                middle,
            ),
{
    let known = ledger.transactions;
    let ids = choose|ids: Seq<I>| #[trigger] lists(ids, known) && all == gathered(ids, known);
    let i = choose|i: int| 0 <= i < ids.len() && #[trigger] same(ids[i], a);
    let j = choose|j: int| 0 <= j < ids.len() && #[trigger] same(ids[j], b);
    let blocks = ids.map_values(|k: I| known[k].outputs);
    if j < i {
        assert(before(ids[j], ids[i]));
    }
    lemma_earlier(ids[i], ids[j], a, b);
    ledger.lemma_same(ids[i], a);
    ledger.lemma_same(ids[j], b);
    assert(known.contains_key(ids[i]) && known.contains_key(ids[j]));
    lemma_flatten_split(blocks, j);
    lemma_flatten_split(blocks.take(j), i);
    let front = blocks.take(j).flatten();
    assert(parted(all, front, known[b].outputs, blocks.skip(j + 1).flatten()));
    assert(blocks.take(j)[i] == known[a].outputs);
    assert(parted(
        front,
        blocks.take(j).take(i).flatten(),
        known[a].outputs,
        blocks.take(j).skip(i + 1).flatten(),
    ));
}

/// Nothing is pending in an unused queue.
pub proof fn law_nothing_pending_at_first<I: Ord, O>(all: Seq<O>)
    requires
        ordered::<I>(),
        Ledger::<I, O>::empty().pending(all),
    ensures
        all.len() == 0,
{
    let known = Ledger::<I, O>::empty().transactions;
    let ids = choose|ids: Seq<I>| #[trigger] lists(ids, known) && all == gathered(ids, known);
    if ids.len() > 0 {
        assert(same(ids[0], ids[0])) by {
            lemma_order::<I>();
        }
        assert(known.contains_key(ids[0]));
    }
}

/// Where a clone equals what it was made of, so do copies.
pub proof fn law_faithful_copies<O: Clone>(items: Seq<O>, copy: Seq<O>)
    requires
        copies(items, copy),
        forall|a: O, b: O| #[trigger] cloned(a, b) ==> a == b,
    ensures
        copy == items,
{
    assert forall|i: int| 0 <= i < items.len() implies copy[i] == items[i] by {
        assert(cloned(items[i], copy[i]));
    }
    assert(copy =~= items);
}

} // verus!
