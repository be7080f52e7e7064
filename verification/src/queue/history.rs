//! What holds of every history of a queue.
//!
//! Each operation of [`State`](crate::queue::state::State) that changes its ledger is an
//! [`Event`]. A shared queue performs one at a time, so that its history is a sequence of events,
//! whichever handles they came from.

use vstd::prelude::*;

use crate::error::Error;
use crate::order::{before, lemma_order, ordered, same};
use crate::queue::ledger::{Ledger, Owner, Status, Transaction, Visit};

verus! {

/// One operation on a ledger.
pub enum Event<I, O> {
    /// An identity is registered.
    Register(I),
    /// A transaction is asked to start a task, where each may have so many outputs.
    Start(I, nat),
    /// The task of a transaction is asked to record an output.
    Record(I, O),
    /// The task of a transaction is asked to complete.
    Finish(I),
    /// The task of a transaction is dropped.
    Fail(I),
    /// A lifecycle operation is asked to begin.
    Acquire,
    /// The holder of admission is dropped, armed or not.
    Release(bool),
    /// A transaction is asked to commit.
    Commit(I),
    /// A transaction is asked to roll back.
    Rollback(I),
    /// The cutoff is asked to advance.
    Finalize(I),
}

impl<I: Ord, O> Ledger<I, O> {
    /// This ledger after `event`.
    pub open spec fn next(self, event: Event<I, O>) -> Self {
        match event {
            Event::Register(id) => self.registered(id),
            Event::Start(id, capacity) => self.started(id, capacity),
            Event::Record(id, output) => self.recorded(id, output),
            Event::Finish(id) => self.finished(id),
            Event::Fail(id) => self.failed(id),
            Event::Acquire => self.acquired(),
            Event::Release(armed) => self.released(armed),
            Event::Commit(id) => self.committed(id),
            Event::Rollback(id) => self.rolled_back(id),
            Event::Finalize(cutoff) => self.advanced(cutoff),
        }
    }

    /// This ledger after all of `events`.
    pub open spec fn run(self, events: Seq<Event<I, O>>) -> Self
        decreases events.len(),
    {
        if events.len() == 0 {
            self
        } else {
            self.next(events.first()).run(events.drop_first())
        }
    }

    /// This ledger is what some history makes of an unused queue.
    pub open spec fn reachable(self) -> bool {
        ordered::<I>() && exists|events: Seq<Event<I, O>>| #[trigger]
            Ledger::empty().run(events) == self
    }

    /// No transaction has more than `capacity` outputs, and one whose task prepares has room for
    /// another.
    pub open spec fn bounded(self, capacity: nat) -> bool {
        forall|k: I|
            #![trigger self.outputs(k)]
            self.outputs(k).len() <= capacity && (self.preparing(k) ==> self.outputs(k).len()
                < capacity)
    }

    /// `id` was committed or rolled back.
    pub open spec fn decided(self, id: I) -> bool {
        self.status(id) == Some(Status::Committed) || self.status(id) == Some(Status::RolledBack)
    }

    /// A task of `id` is in flight.
    pub open spec fn running(self, id: I) -> bool {
        self.status(id) == Some(Status::Running)
    }

    /// Something was registered or finalized.
    pub open spec fn used(self) -> bool {
        self.finalized is Some || exists|k: I| #[trigger] self.status(k) is Some
    }

    /// What is known of `id`.
    pub open spec fn known(self, id: I) -> Option<Transaction<O>> {
        if self.transactions.contains_key(id) {
            Some(self.transactions[id])
        } else {
            None
        }
    }

    /// What is known of `id` after `event`.
    pub open spec fn known_after(self, event: Event<I, O>, id: I) -> Option<Transaction<O>> {
        let outputs = self.outputs(id);
        match event {
            Event::Register(k) if same(id, k) && self.check(id) is Ok && self.status(id) is None =>
                Some(Transaction::active(Seq::empty())),
            Event::Start(k, capacity) if same(id, k) && self.start(id, capacity) is Ok => Some(
                Transaction::preparing(outputs),
            ),
            Event::Record(k, output) if same(id, k) && self.record(id) is Ok => Some(
                Transaction::executing(outputs.push(output)),
            ),
            Event::Finish(k) if same(id, k) && self.finish(id) is Ok => Some(
                Transaction::active(outputs),
            ),
            Event::Fail(k) if same(id, k) && self.running(id) => Some(
                Transaction::failed(outputs),
            ),
            Event::Commit(k) if same(id, k) && self.commit(id) == Ok::<Option<Seq<O>>, Error>(
                Some(outputs),
            ) => Some(Transaction::decided(Status::Committed)),
            Event::Rollback(k) if same(id, k) && self.check_rollback(id) is Ok => Some(
                Transaction::decided(Status::RolledBack),
            ),
            Event::Finalize(cutoff) if !before(cutoff, id) && self.check_finalize(
                cutoff,
            ) is Ok => None,
            _ => self.known(id),
        }
    }
}

/// A change for one identity is a change for all that name the same transaction.
proof fn lemma_changed<I: Ord, O>(ledger: Ledger<I, O>, k: I, entry: Transaction<O>, id: I)
    requires
        ledger.wf(),
        !ledger.covered(k),
        entry.wf(),
    ensures
        ledger.with(k, entry).wf(),
        ledger.with(k, entry).known(id) == if same(id, k) {
            Some(entry)
        } else {
            ledger.known(id)
        },
{
    ledger.lemma_with_wf(k, entry);
}

/// Every event keeps a ledger well formed, and changes what is known of one transaction and of
/// no other; only an advance of the cutoff forgets transactions, and only those that it covers.
pub proof fn law_events_are_local<I: Ord, O>(ledger: Ledger<I, O>, event: Event<I, O>, id: I)
    requires
        ledger.wf(),
    ensures
        ledger.next(event).wf(),
        ledger.next(event).known(id) == ledger.known_after(event, id),
{
    let next = ledger.next(event);
    match event {
        Event::Register(k) => {
            if same(id, k) {
                ledger.lemma_same(id, k);
            }
            if ledger.check(k) is Ok {
                lemma_changed(ledger, k, Transaction::active(Seq::empty()), id);
            }
        },
        Event::Start(k, capacity) => {
            if same(id, k) {
                ledger.lemma_same(id, k);
            }
            if ledger.start(k, capacity) is Ok {
                let busy = Ledger { owner: Owner::Busy, ..ledger };
                assert(forall|a: I| #[trigger] busy.covered(a) == ledger.covered(a));
                lemma_changed(busy, k, Transaction::preparing(ledger.outputs(k)), id);
            }
        },
        Event::Record(k, output) => {
            if same(id, k) {
                ledger.lemma_same(id, k);
            }
            if ledger.record(k) is Ok {
                lemma_changed(
                    ledger,
                    k,
                    Transaction::executing(ledger.outputs(k).push(output)),
                    id,
                );
            }
        },
        Event::Finish(k) => {
            if same(id, k) {
                ledger.lemma_same(id, k);
            }
            if ledger.finish(k) is Ok {
                lemma_changed(ledger, k, Transaction::active(ledger.outputs(k)), id);
            }
        },
        Event::Fail(k) => {
            if same(id, k) {
                ledger.lemma_same(id, k);
            }
            if ledger.running(k) {
                lemma_changed(ledger, k, Transaction::failed(ledger.outputs(k)), id);
            }
        },
        Event::Commit(k) => {
            if same(id, k) {
                ledger.lemma_same(id, k);
            }
            if ledger.commit(k) matches Ok(Some(_)) {
                lemma_changed(ledger, k, Transaction::decided(Status::Committed), id);
            }
        },
        Event::Rollback(k) => {
            if same(id, k) {
                ledger.lemma_same(id, k);
            }
            if ledger.check_rollback(k) is Ok {
                lemma_changed(ledger, k, Transaction::decided(Status::RolledBack), id);
            }
        },
        Event::Finalize(cutoff) => {
            if ledger.finalized is Some && !before(ledger.finalized->0, cutoff) && !before(
                cutoff,
                id,
            ) {
                assert(ledger.covered(id)) by {
                    lemma_order::<I>();
                }
            }
            assert(next.wf()) by {
                lemma_order::<I>();
            }
        },
        Event::Acquire | Event::Release(_) => {
            assert(forall|a: I| #[trigger] next.covered(a) == ledger.covered(a));
        },
    }
}

/// One more event at the end of a history.
proof fn lemma_run_push<I: Ord, O>(
    ledger: Ledger<I, O>,
    events: Seq<Event<I, O>>,
    event: Event<I, O>,
)
    ensures
        ledger.run(events.push(event)) == ledger.run(events).next(event),
    decreases events.len(),
{
    let longer = events.push(event);
    if events.len() == 0 {
        assert(longer.first() == event);
        assert(longer.drop_first() =~= Seq::empty());
        assert(ledger.next(event).run(Seq::empty()) == ledger.next(event));
    } else {
        assert(longer.first() == events.first());
        assert(longer.drop_first() =~= events.drop_first().push(event));
        lemma_run_push(ledger.next(events.first()), events.drop_first(), event);
    }
}

/// What follows a reachable ledger is reachable.
pub proof fn law_next_is_reachable<I: Ord, O>(ledger: Ledger<I, O>, event: Event<I, O>)
    requires
        ledger.reachable(),
    ensures
        ledger.next(event).reachable(),
{
    let events = choose|events: Seq<Event<I, O>>| #[trigger]
        Ledger::empty().run(events) == ledger;
    lemma_run_push(Ledger::empty(), events, event);
    assert(Ledger::<I, O>::empty().run(events.push(event)) == ledger.next(event));
}

/// A ledger that knows no transaction is reachable, whatever its cutoff and whoever owns it.
pub proof fn law_bare_is_reachable<I: Ord, O>(owner: Owner, finalized: Option<I>)
    requires
        ordered::<I>(),
    ensures
        (Ledger::<I, O> { owner, finalized, transactions: Map::empty() }).reachable(),
{
    let unused = Ledger::<I, O>::empty();
    assert(unused.run(Seq::empty()) == unused);
    let first = match finalized {
        None => unused,
        Some(cutoff) => {
            law_next_is_reachable(unused, Event::Finalize(cutoff));
            unused.next(Event::Finalize(cutoff))
        },
    };
    assert(first.transactions =~= Map::empty());
    law_next_is_reachable(first, Event::Acquire);
    law_next_is_reachable(first.next(Event::Acquire), Event::Release(true));
}

/// A reachable ledger is well formed.
pub proof fn law_reachable_is_wf<I: Ord, O>(ledger: Ledger<I, O>)
    requires
        ledger.reachable(),
    ensures
        ledger.wf(),
{
    let events = choose|events: Seq<Event<I, O>>| #[trigger]
        Ledger::empty().run(events) == ledger;
    law_histories_keep_wf(Ledger::empty(), events);
}

/// Every history keeps a ledger well formed.
pub proof fn law_histories_keep_wf<I: Ord, O>(ledger: Ledger<I, O>, events: Seq<Event<I, O>>)
    requires
        ledger.wf(),
    ensures
        ledger.run(events).wf(),
    decreases events.len(),
{
    if events.len() > 0 {
        law_events_are_local(ledger, events.first(), arbitrary());
        law_histories_keep_wf(ledger.next(events.first()), events.drop_first());
    }
}

/// Every task of the history is started where each transaction may have `capacity` outputs.
pub open spec fn starts_within<I, O>(events: Seq<Event<I, O>>, capacity: nat) -> bool {
    forall|i: int|
        0 <= i < events.len() ==> (#[trigger] events[i] matches Event::Start(_, bound) ==> bound
            == capacity)
}

/// Capacity bounds the outputs of each transaction, in every history of an unused queue.
pub proof fn law_capacity_bounds_outputs<I: Ord, O>(
    events: Seq<Event<I, O>>,
    capacity: nat,
    id: I,
)
    requires
        ordered::<I>(),
        starts_within(events, capacity),
    ensures
        Ledger::<I, O>::empty().run(events).outputs(id).len() <= capacity,
{
    let unused = Ledger::<I, O>::empty();
    assert(unused.wf());
    assert(unused.bounded(capacity));
    law_histories_keep_bounds(unused, events, capacity);
}

/// Every history keeps the bound on the outputs of each transaction.
pub proof fn law_histories_keep_bounds<I: Ord, O>(
    ledger: Ledger<I, O>,
    events: Seq<Event<I, O>>,
    capacity: nat,
)
    requires
        ledger.wf(),
        ledger.bounded(capacity),
        starts_within(events, capacity),
    ensures
        ledger.run(events).bounded(capacity),
    decreases events.len(),
{
    if events.len() > 0 {
        let next = ledger.next(events.first());
        assert(events[0] == events.first());
        law_events_are_local(ledger, events.first(), arbitrary());
        assert forall|k: I|
            #![trigger next.outputs(k)]
            next.outputs(k).len() <= capacity && (next.preparing(k) ==> next.outputs(k).len()
                < capacity) by {
            law_events_are_local(ledger, events.first(), k);
            assert(ledger.outputs(k).len() <= capacity);
        }
        law_histories_keep_bounds(next, events.drop_first(), capacity);
    }
}

/// Admission is exclusive: while it is held, no task starts and no lifecycle operation begins,
/// until its holder is dropped.
pub proof fn law_admission_is_exclusive<I: Ord, O>(
    ledger: Ledger<I, O>,
    events: Seq<Event<I, O>>,
    capacity: nat,
    id: I,
)
    requires
        ledger.wf(),
        ledger.owner is Busy,
        forall|i: int| 0 <= i < events.len() ==> !(#[trigger] events[i] is Release),
    ensures
        ledger.run(events).owner is Busy,
        ledger.run(events).ready() == Err::<(), Error>(Error::Busy),
        ledger.run(events).start(id, capacity) == Err::<(), Error>(Error::Busy),
    decreases events.len(),
{
    if events.len() > 0 {
        law_events_are_local(ledger, events.first(), id);
        assert(!(events[0] is Release));
        law_admission_is_exclusive(
            ledger.next(events.first()),
            events.drop_first(),
            capacity,
            id,
        );
    }
}

/// An interruption is latched: nothing that any handle does afterwards ends it.
pub proof fn law_interruption_is_latched<I: Ord, O>(
    ledger: Ledger<I, O>,
    events: Seq<Event<I, O>>,
)
    requires
        ledger.wf(),
        ledger.owner is Interrupted,
    ensures
        ledger.run(events).owner is Interrupted,
    decreases events.len(),
{
    if events.len() > 0 {
        law_events_are_local(ledger, events.first(), arbitrary());
        law_interruption_is_latched(
            ledger.next(events.first()),
            events.drop_first(),
        );
    }
}

/// Nothing but its own completion or drop takes a task out of flight: no decision and no cutoff
/// touches its transaction meanwhile.
pub proof fn law_running_until_finished<I: Ord, O>(
    ledger: Ledger<I, O>,
    events: Seq<Event<I, O>>,
    id: I,
)
    requires
        ledger.wf(),
        ledger.running(id),
        forall|i: int|
            0 <= i < events.len() ==> !(#[trigger] events[i] matches Event::Finish(k) && same(id, k)),
        forall|i: int|
            0 <= i < events.len() ==> !(#[trigger] events[i] matches Event::Fail(k) && same(id, k)),
    ensures
        ledger.run(events).running(id),
    decreases events.len(),
{
    if events.len() > 0 {
        law_events_are_local(ledger, events.first(), id);
        assert(events[0] == events.first());
        assert(forall|i: int| 0 <= i < events.len() - 1 ==> events.drop_first()[i] == events[i + 1]);
        law_running_until_finished(
            ledger.next(events.first()),
            events.drop_first(),
            id,
        );
    }
}

/// A task in flight finds its transaction: it can record while it prepares and complete once it
/// has recorded, unless the queue was interrupted.
pub proof fn law_task_finds_its_transaction<I: Ord, O>(ledger: Ledger<I, O>, id: I)
    requires
        ledger.wf(),
        ledger.running(id),
    ensures
        ledger.owner is Interrupted ==> ledger.record(id) == Err::<(), Error>(Error::Interrupted)
            && ledger.finish(id) == Err::<(), Error>(Error::Interrupted),
        !(ledger.owner is Interrupted) ==> ledger.record(id) == if ledger.preparing(id) {
            Ok(())
        } else {
            Err::<(), Error>(Error::Conflict)
        },
        !(ledger.owner is Interrupted) ==> ledger.finish(id) == if ledger.preparing(id) {
            Err::<(), Error>(Error::Failed)
        } else {
            Ok(())
        },
{
}

/// Starting a task reserves its output: as long as its preparation holds admission, the task can
/// record, whatever other handles do.
pub proof fn law_started_task_can_record<I: Ord, O>(
    ledger: Ledger<I, O>,
    events: Seq<Event<I, O>>,
    capacity: nat,
    id: I,
)
    requires
        ledger.wf(),
        ledger.start(id, capacity) is Ok,
        forall|i: int| 0 <= i < events.len() ==> !(#[trigger] events[i] is Release),
        forall|i: int|
            0 <= i < events.len() ==> !(#[trigger] events[i] matches Event::Record(k, _) && same(
                id,
                k,
            )),
        forall|i: int|
            0 <= i < events.len() ==> !(#[trigger] events[i] matches Event::Fail(k) && same(id, k)),
    ensures
        ledger.started(id, capacity).run(events).record(id) is Ok,
{
    let started = ledger.started(id, capacity);
    law_events_are_local(ledger, Event::Start(id, capacity), id);
    assert(same(id, id)) by {
        lemma_order::<I>();
    }
    lemma_preparing_until_recorded(started, events, id);
    law_admission_is_exclusive(started, events, capacity, id);
    law_histories_keep_wf(started, events);
}

/// Nothing but its own output or drop ends the preparation of a task.
proof fn lemma_preparing_until_recorded<I: Ord, O>(
    ledger: Ledger<I, O>,
    events: Seq<Event<I, O>>,
    id: I,
)
    requires
        ledger.wf(),
        ledger.preparing(id),
        forall|i: int|
            0 <= i < events.len() ==> !(#[trigger] events[i] matches Event::Record(k, _) && same(
                id,
                k,
            )),
        forall|i: int|
            0 <= i < events.len() ==> !(#[trigger] events[i] matches Event::Fail(k) && same(id, k)),
    ensures
        ledger.run(events).preparing(id),
    decreases events.len(),
{
    if events.len() > 0 {
        law_events_are_local(ledger, events.first(), id);
        assert(ledger.running(id));
        assert(events[0] == events.first());
        assert(forall|i: int| 0 <= i < events.len() - 1 ==> events.drop_first()[i] == events[i + 1]);
        lemma_preparing_until_recorded(ledger.next(events.first()), events.drop_first(), id);
    }
}

/// The cutoff only advances: what is final stays final.
pub proof fn law_final_stays_final<I: Ord, O>(
    ledger: Ledger<I, O>,
    events: Seq<Event<I, O>>,
    id: I,
)
    requires
        ledger.wf(),
        ledger.covered(id),
    ensures
        ledger.run(events).covered(id),
    decreases events.len(),
{
    if events.len() > 0 {
        let next = ledger.next(events.first());
        law_events_are_local(ledger, events.first(), id);
        assert(next.covered(id)) by {
            lemma_order::<I>();
        }
        law_final_stays_final(next, events.drop_first(), id);
    }
}

/// The transactions that an advance of the cutoff forgets are final, and so is what was final.
proof fn lemma_covered<I: Ord, O>(ledger: Ledger<I, O>, event: Event<I, O>, id: I)
    requires
        ledger.wf(),
    ensures
        ledger.covered(id) ==> ledger.next(event).covered(id),
        event matches Event::Finalize(cutoff) ==> !before(cutoff, id) && ledger.check_finalize(
            cutoff,
        ) is Ok ==> ledger.next(event).covered(id),
{
    lemma_order::<I>();
}

/// A decision lasts until it is final: a committed transaction stays committed and a rolled-back
/// one rolled back until the cutoff covers it.
pub proof fn law_decisions_last<I: Ord, O>(
    ledger: Ledger<I, O>,
    events: Seq<Event<I, O>>,
    id: I,
)
    requires
        ledger.wf(),
        ledger.decided(id),
    ensures
        ledger.run(events).status(id) == ledger.status(id) || ledger.run(
            events,
        ).covered(id),
    decreases events.len(),
{
    if events.len() > 0 {
        let next = ledger.next(events.first());
        law_events_are_local(ledger, events.first(), id);
        if next.status(id) == ledger.status(id) {
            law_decisions_last(next, events.drop_first(), id);
        } else {
            law_final_stays_final(next, events.drop_first(), id);
        }
    }
}

/// A queue that was used is never fresh again.
pub proof fn law_used_is_never_fresh<I: Ord, O>(
    ledger: Ledger<I, O>,
    events: Seq<Event<I, O>>,
)
    requires
        ledger.wf(),
        ledger.used(),
    ensures
        ledger.run(events).used(),
        !ledger.run(events).fresh(),
    decreases events.len(),
{
    if events.len() > 0 {
        let next = ledger.next(events.first());
        let k = choose|k: I| #[trigger] ledger.status(k) is Some;
        law_events_are_local(ledger, events.first(), k);
        assert(next.finalized is Some || next.status(k) is Some);
        law_used_is_never_fresh(next, events.drop_first());
    }
}

/// `event` hands out or discards the outputs of `id`.
pub open spec fn discards<I: Ord, O>(ledger: Ledger<I, O>, event: Event<I, O>, id: I) -> bool {
    match event {
        Event::Commit(k) => same(id, k) && ledger.commit(id) matches Ok(Some(_)),
        Event::Rollback(k) => same(id, k) && ledger.check_rollback(id) is Ok,
        Event::Finalize(cutoff) => !before(cutoff, id) && ledger.check_finalize(cutoff) is Ok,
        _ => false,
    }
}

/// No event of the history hands out or discards the outputs of `id`.
pub open spec fn retains<I: Ord, O>(
    ledger: Ledger<I, O>,
    events: Seq<Event<I, O>>,
    id: I,
) -> bool
    decreases events.len(),
{
    events.len() > 0 ==> !discards(ledger, events.first(), id) && retains(
        ledger.next(events.first()),
        events.drop_first(),
        id,
    )
}

/// The outputs that tasks of `id` record in the history, oldest first.
pub open spec fn records<I: Ord, O>(
    ledger: Ledger<I, O>,
    events: Seq<Event<I, O>>,
    id: I,
) -> Seq<O>
    decreases events.len(),
{
    if events.len() == 0 {
        Seq::empty()
    } else {
        let rest = records(
            ledger.next(events.first()),
            events.drop_first(),
            id,
        );
        match events.first() {
            Event::Record(k, output) if same(id, k) && ledger.record(id) is Ok => seq![output]
                + rest,
            _ => rest,
        }
    }
}

/// Outputs are kept in the order of recording, whether tasks succeed or fail, until they are
/// handed out by a commit or discarded by a rollback or by the cutoff.
pub proof fn law_outputs_in_order<I: Ord, O>(
    ledger: Ledger<I, O>,
    events: Seq<Event<I, O>>,
    id: I,
)
    requires
        ledger.wf(),
        retains(ledger, events, id),
    ensures
        ledger.run(events).outputs(id) == ledger.outputs(id) + records(
            ledger,
            events,
            id,
        ),
    decreases events.len(),
{
    if events.len() > 0 {
        let next = ledger.next(events.first());
        law_events_are_local(ledger, events.first(), id);
        law_outputs_in_order(next, events.drop_first(), id);
    }
    assert(ledger.run(events).outputs(id) =~= ledger.outputs(id) + records(
        ledger,
        events,
        id,
    ));
}

/// A transaction whose outputs were handed out or discarded is decided or final.
proof fn lemma_discarded<I: Ord, O>(ledger: Ledger<I, O>, events: Seq<Event<I, O>>, id: I)
    requires
        ledger.wf(),
        !retains(ledger, events, id),
    ensures
        ledger.run(events).decided(id) || ledger.run(events).covered(id),
    decreases events.len(),
{
    let next = ledger.next(events.first());
    law_events_are_local(ledger, events.first(), id);
    if discards(ledger, events.first(), id) {
        lemma_covered(ledger, events.first(), id);
        if next.covered(id) {
            law_final_stays_final(next, events.drop_first(), id);
        } else {
            law_decisions_last(next, events.drop_first(), id);
        }
    } else {
        lemma_discarded(next, events.drop_first(), id);
    }
}

/// What a commit hands out is what the tasks of the transaction recorded since it was first
/// seen, in that order.
pub proof fn law_commit_hands_out_what_was_recorded<I: Ord, O>(
    ledger: Ledger<I, O>,
    events: Seq<Event<I, O>>,
    id: I,
)
    requires
        ledger.wf(),
        ledger.status(id) is None,
        ledger.run(events).commit(id) matches Ok(Some(_)),
    ensures
        ledger.run(events).commit(id) == Ok::<Option<Seq<O>>, Error>(
            Some(records(ledger, events, id)),
        ),
{
    law_histories_keep_wf(ledger, events);
    if !retains(ledger, events, id) {
        lemma_discarded(ledger, events, id);
    }
    law_outputs_in_order(ledger, events, id);
    assert(Seq::<O>::empty() + records(ledger, events, id) =~= records(
        ledger,
        events,
        id,
    ));
}

/// Event `i` of the history starts a task of `id`.
pub open spec fn starts<I: Ord, O>(
    ledger: Ledger<I, O>,
    events: Seq<Event<I, O>>,
    i: int,
    id: I,
) -> bool {
    &&& 0 <= i < events.len()
    &&& events[i] matches Event::Start(k, capacity)
    &&& same(id, k)
    &&& ledger.run(events.take(i)).start(id, capacity) is Ok
}

/// Event `i` of the history records an output of a task of `id`.
pub open spec fn records_output<I: Ord, O>(
    ledger: Ledger<I, O>,
    events: Seq<Event<I, O>>,
    i: int,
    id: I,
) -> bool {
    &&& 0 <= i < events.len()
    &&& events[i] matches Event::Record(k, _)
    &&& same(id, k)
    &&& ledger.run(events.take(i)).record(id) is Ok
}

/// Event `i` of the history completes a task of `id`.
pub open spec fn completes<I: Ord, O>(
    ledger: Ledger<I, O>,
    events: Seq<Event<I, O>>,
    i: int,
    id: I,
) -> bool {
    &&& 0 <= i < events.len()
    &&& events[i] matches Event::Finish(k)
    &&& same(id, k)
    &&& ledger.run(events.take(i)).finish(id) is Ok
}

/// Event `i` of the history drops a task of `id`.
pub open spec fn drops<I: Ord, O>(events: Seq<Event<I, O>>, i: int, id: I) -> bool {
    &&& 0 <= i < events.len()
    &&& events[i] matches Event::Fail(k)
    &&& same(id, k)
}

/// Event `i` of the history completes or drops a task of `id`.
pub open spec fn ends<I: Ord, O>(
    ledger: Ledger<I, O>,
    events: Seq<Event<I, O>>,
    i: int,
    id: I,
) -> bool {
    completes(ledger, events, i, id) || drops(events, i, id)
}

/// No task of `id` completes or is dropped after event `i` and before event `j`.
pub open spec fn lasts<I: Ord, O>(
    ledger: Ledger<I, O>,
    events: Seq<Event<I, O>>,
    i: int,
    j: int,
    id: I,
) -> bool {
    forall|m: int| i < m < j ==> !#[trigger] ends(ledger, events, m, id)
}

/// The task of `id` that event `i` started is neither completed nor dropped.
pub open spec fn in_flight<I: Ord, O>(
    ledger: Ledger<I, O>,
    events: Seq<Event<I, O>>,
    i: int,
    id: I,
) -> bool {
    starts(ledger, events, i, id) && lasts(ledger, events, i, events.len() as int, id)
}

/// The task of `id` that was in flight at event `i` completed.
pub open spec fn completed<I: Ord, O>(
    ledger: Ledger<I, O>,
    events: Seq<Event<I, O>>,
    i: int,
    id: I,
) -> bool {
    exists|j: int|
        i < j && #[trigger] completes(ledger, events, j, id) && lasts(ledger, events, i, j, id)
}

/// What an event is does not depend on what follows it.
proof fn lemma_prefix<I: Ord, O>(
    ledger: Ledger<I, O>,
    events: Seq<Event<I, O>>,
    n: int,
    i: int,
    id: I,
)
    requires
        0 <= i < n <= events.len(),
    ensures
        starts(ledger, events.take(n), i, id) == starts(ledger, events, i, id),
        records_output(ledger, events.take(n), i, id) == records_output(ledger, events, i, id),
        completes(ledger, events.take(n), i, id) == completes(ledger, events, i, id),
        ends(ledger, events.take(n), i, id) == ends(ledger, events, i, id),
{
    assert(events.take(n).take(i) =~= events.take(i));
    assert(events.take(n)[i] == events[i]);
}

/// A history is its last event after the others.
proof fn lemma_last<I: Ord, O>(ledger: Ledger<I, O>, events: Seq<Event<I, O>>)
    requires
        ledger.wf(),
        events.len() > 0,
    ensures
        ledger.run(events.take(events.len() - 1)).wf(),
        ledger.run(events) == ledger.run(events.take(events.len() - 1)).next(events.last()),
{
    let prefix = events.take(events.len() - 1);
    law_histories_keep_wf(ledger, prefix);
    lemma_run_push(ledger, prefix, events.last());
    assert(prefix.push(events.last()) =~= events);
}

/// A transaction is running exactly while one of its started tasks is neither completed nor
/// dropped.
pub proof fn law_running_while_in_flight<I: Ord, O>(
    ledger: Ledger<I, O>,
    events: Seq<Event<I, O>>,
    id: I,
)
    requires
        ledger.wf(),
        !ledger.running(id),
    ensures
        ledger.run(events).running(id) <==> exists|i: int| #[trigger]
            in_flight(ledger, events, i, id),
    decreases events.len(),
{
    if events.len() > 0 {
        let n = events.len() - 1;
        let prefix = events.take(n);
        let last = ledger.run(prefix);
        lemma_last(ledger, events);
        law_events_are_local(last, events.last(), id);
        law_running_while_in_flight(ledger, prefix, id);
        assert forall|i: int| 0 <= i < n implies ends(ledger, prefix, i, id) == #[trigger] ends(
            ledger,
            events,
            i,
            id,
        ) by {
            lemma_prefix(ledger, events, n, i, id);
        }
        if ledger.run(events).running(id) {
            if starts(ledger, events, n, id) {
                assert(in_flight(ledger, events, n, id));
            } else {
                let i = choose|i: int| #[trigger] in_flight(ledger, prefix, i, id);
                lemma_prefix(ledger, events, n, i, id);
                assert(!ends(ledger, events, n, id));
                assert(in_flight(ledger, events, i, id));
            }
        } else {
            assert forall|i: int| !#[trigger] in_flight(ledger, events, i, id) by {
                if in_flight(ledger, events, i, id) && i < n {
                    lemma_prefix(ledger, events, n, i, id);
                    assert(!ends(ledger, events, n, id));
                    assert forall|m: int| i < m < n implies !#[trigger] ends(
                        ledger,
                        prefix,
                        m,
                        id,
                    ) by {
                        assert(!ends(ledger, events, m, id));
                    }
                    assert(in_flight(ledger, prefix, i, id));
                }
            }
        }
    }
}

/// No more than one task of a transaction is in flight.
pub proof fn law_one_task_in_flight<I: Ord, O>(
    ledger: Ledger<I, O>,
    events: Seq<Event<I, O>>,
    i: int,
    j: int,
    id: I,
)
    requires
        ledger.wf(),
        !ledger.running(id),
        in_flight(ledger, events, i, id),
        in_flight(ledger, events, j, id),
    ensures
        i == j,
{
    if i != j {
        let first = if i < j { i } else { j };
        let second = if i < j { j } else { i };
        let prefix = events.take(second);
        lemma_prefix(ledger, events, second, first, id);
        assert forall|m: int| first < m < second implies !#[trigger] ends(
            ledger,
            prefix,
            m,
            id,
        ) by {
            lemma_prefix(ledger, events, second, m, id);
            assert(!ends(ledger, events, m, id));
        }
        assert(in_flight(ledger, prefix, first, id));
        law_running_while_in_flight(ledger, prefix, id);
    }
}

/// Every task that recorded an output completed, but for the one that executes, unless its
/// transaction failed, was rolled back or is final.
proof fn lemma_recorded_completes<I: Ord, O>(
    ledger: Ledger<I, O>,
    events: Seq<Event<I, O>>,
    i: int,
    id: I,
)
    requires
        ledger.wf(),
        records_output(ledger, events, i, id),
    ensures
        ({
            let now = ledger.run(events);
            let idle = now.status(id) == Some(Status::Active) || now.status(id) == Some(
                Status::Committed,
            ) || (now.status(id) is None && !now.covered(id));
            &&& idle || now.preparing(id) ==> completed(ledger, events, i, id)
            &&& now.running(id) && !now.preparing(id) ==> completed(ledger, events, i, id)
                || lasts(ledger, events, i, events.len() as int, id)
        }),
    decreases events.len(),
{
    let n = events.len() - 1;
    let prefix = events.take(n);
    let last = ledger.run(prefix);
    lemma_last(ledger, events);
    law_events_are_local(last, events.last(), id);
    lemma_covered(last, events.last(), id);
    if i < n {
        lemma_prefix(ledger, events, n, i, id);
        lemma_recorded_completes(ledger, prefix, i, id);
        assert forall|m: int| 0 <= m < n implies ends(ledger, prefix, m, id) == #[trigger] ends(
            ledger,
            events,
            m,
            id,
        ) by {
            lemma_prefix(ledger, events, n, m, id);
        }
        if completed(ledger, prefix, i, id) {
            let j = choose|j: int|
                i < j && #[trigger] completes(ledger, prefix, j, id) && lasts(
                    ledger,
                    prefix,
                    i,
                    j,
                    id,
                );
            lemma_prefix(ledger, events, n, j, id);
            assert(completes(ledger, events, j, id));
            assert(lasts(ledger, events, i, j, id));
        } else if lasts(ledger, prefix, i, n, id) {
            assert(lasts(ledger, events, i, n, id));
            if completes(ledger, events, n, id) {
                assert(completed(ledger, events, i, id));
            }
        }
    }
}

/// Every task that recorded an output of a committed transaction has completed, and has so when
/// the transaction commits.
pub proof fn law_commit_waits_for_tasks<I: Ord, O>(
    ledger: Ledger<I, O>,
    events: Seq<Event<I, O>>,
    i: int,
    id: I,
)
    requires
        ledger.wf(),
        records_output(ledger, events, i, id),
        ledger.run(events).status(id) == Some(Status::Committed) || ledger.run(events).commit(
            id,
        ) matches Ok(Some(_)),
    ensures
        completed(ledger, events, i, id),
{
    law_histories_keep_wf(ledger, events);
    lemma_recorded_completes(ledger, events, i, id);
}

/// Commits do not interfere. After the commit of one transaction and whatever other handles do
/// that neither decides nor finalizes another, a commit of that other one hands out, if it
/// succeeds, the outputs that it had and those recorded meanwhile; it passes for a repetition
/// only where that other one was committed before.
pub proof fn law_commits_are_independent<I: Ord, O>(
    first: Visit<Ledger<I, O>>,
    second: Visit<Ledger<I, O>>,
    events: Seq<Event<I, O>>,
    a: I,
    b: I,
)
    requires
        first.found.wf(),
        first.left == first.found.committed(a),
        second.found == first.left.run(events),
        second.left == second.found.committed(b),
        !same(b, a),
        retains(first.left, events, b),
    ensures
        second.found.commit(b) matches Ok(Some(outputs)) ==> outputs == first.found.outputs(b)
            + records(first.left, events, b),
        second.found.commit(b) == Ok::<Option<Seq<O>>, Error>(None) ==> first.found.status(b)
            == Some(Status::Committed),
        events.len() == 0 ==> second.found.commit(b) == first.found.commit(b),
        second.found.commit(b) is Ok ==> second.left.commit(b) == Ok::<Option<Seq<O>>, Error>(None),
        second.found.commit(b) is Ok ==> second.left.status(b) == Some(Status::Committed),
{
    law_events_are_local(first.found, Event::Commit(a), b);
    law_outputs_in_order(first.left, events, b);
    law_histories_keep_wf(first.left, events);
    law_events_are_local(second.found, Event::Commit(b), b);
    assert(same(b, b)) by {
        lemma_order::<I>();
    }
    if first.found.status(b) != Some(Status::Committed) {
        lemma_uncommitted(first.left, events, b);
    }
}

/// Only a commit makes a transaction committed.
proof fn lemma_uncommitted<I: Ord, O>(ledger: Ledger<I, O>, events: Seq<Event<I, O>>, id: I)
    requires
        ledger.wf(),
        retains(ledger, events, id),
        ledger.status(id) != Some(Status::Committed),
    ensures
        ledger.run(events).status(id) != Some(Status::Committed),
    decreases events.len(),
{
    if events.len() > 0 {
        law_events_are_local(ledger, events.first(), id);
        lemma_uncommitted(ledger.next(events.first()), events.drop_first(), id);
    }
}

/// What an advance of the cutoff covers is unknown and refused from then on, whatever any handle
/// does afterwards: it is outdated, unless the queue is interrupted.
pub proof fn law_finalized_is_refused_for_good<I: Ord, O>(
    ledger: Ledger<I, O>,
    cutoff: I,
    events: Seq<Event<I, O>>,
    id: I,
    capacity: nat,
)
    requires
        ledger.wf(),
        ledger.check_finalize(cutoff) is Ok,
        !before(cutoff, id),
    ensures
        ({
            let later = ledger.advanced(cutoff).run(events);
            &&& !later.transactions.contains_key(id)
            &&& later.start(id, capacity) is Err
            &&& !(later.owner is Interrupted) ==> {
                &&& later.check(id) == Err::<(), Error>(Error::Outdated)
                &&& later.readable(id) == Err::<(), Error>(Error::Outdated)
                &&& later.record(id) == Err::<(), Error>(Error::Outdated)
                &&& later.finish(id) == Err::<(), Error>(Error::Outdated)
                &&& later.commit(id) == Err::<Option<Seq<O>>, Error>(Error::Outdated)
                &&& later.check_rollback(id) == Err::<bool, Error>(Error::Outdated)
            }
        }),
{
    let next = ledger.advanced(cutoff);
    law_events_are_local(ledger, Event::Finalize(cutoff), id);
    lemma_covered(ledger, Event::Finalize(cutoff), id);
    law_final_stays_final(next, events, id);
    law_histories_keep_wf(next, events);
}

/// Nothing but an advance of the cutoff makes an identity final: an identity above the cutoff
/// stays above it until the cutoff is asked to advance to it or beyond.
pub proof fn law_only_finalization_covers<I: Ord, O>(
    ledger: Ledger<I, O>,
    events: Seq<Event<I, O>>,
    id: I,
)
    requires
        ledger.wf(),
        ledger.finalized is Some ==> before(ledger.finalized->0, id),
        forall|i: int|
            0 <= i < events.len() ==> (#[trigger] events[i] matches Event::Finalize(cutoff)
                ==> before(cutoff, id)),
    ensures
        ledger.run(events).finalized is Some ==> before(ledger.run(events).finalized->0, id),
    decreases events.len(),
{
    if events.len() > 0 {
        law_events_are_local(ledger, events.first(), id);
        assert(events[0] == events.first());
        assert(forall|i: int| 0 <= i < events.len() - 1 ==> events.drop_first()[i] == events[i + 1]);
        law_only_finalization_covers(ledger.next(events.first()), events.drop_first(), id);
    }
}

} // verus!
