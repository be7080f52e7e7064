//! One state behind a mutex, for many handles.
//!
//! A destructor must not unwind, so it cannot compare identities: their order is the caller's
//! code. A dropped task therefore only leaves its identity behind, and whoever locks the state
//! next marks the transaction as failed before doing anything else. The ledger of a
//! [`Shared`] state counts a dropped task as failed from the moment it was dropped.
//!
//! Handles reach the state in visits: they hand over one [`Act`], which is performed once while the
//! lock is held. What a visit found and left is known of it elsewhere, and of nothing else. The
//! functions that pay a visit know nothing of the value behind the mutex, so that all they can do
//! to it is to perform the act. A handle that was admitted keeps its visits in a [`Journal`].

use std::sync::{Arc, Mutex, MutexGuard, PoisonError};

use vstd::prelude::*;

use crate::error::Error;
use crate::order::{lemma_order, ordered};
use crate::queue::history::{law_next_is_reachable, law_reachable_is_wf, Event};
use crate::queue::ledger::{Ledger, Transaction, Visit};
use crate::queue::state::State;

verus! {

/// Declares std's mutex. What it guards is not visible in its value: other handles may change
/// it at any time.
#[verifier::external_type_specification]
#[verifier::external_body]
#[verifier::reject_recursive_types(T)]
pub struct ExMutex<T: ?Sized>(std::sync::Mutex<T>);

/// Declares the guard of std's mutex.
#[verifier::external_type_specification]
#[verifier::external_body]
#[verifier::reject_recursive_types(T)]
pub struct ExMutexGuard<'a, T: ?Sized + 'a>(std::sync::MutexGuard<'a, T>);

/// Declares the error of a mutex of which a holder panicked.
#[verifier::external_type_specification]
#[verifier::external_body]
#[verifier::reject_recursive_types(T)]
pub struct ExPoisonError<T>(std::sync::PoisonError<T>);

/// [`std::sync::Mutex::new`] moves a value into a new mutex. Nothing is claimed of the mutex.
pub assume_specification<T>[ std::sync::Mutex::<T>::new ](t: T) -> (mutex: std::sync::Mutex<T>)
;

/// [`std::sync::Mutex::lock`] waits until the mutex is free and takes it. Nothing is claimed of
/// the value behind the guard, nor of whether another holder panicked: both depend on what other
/// handles did.
///
/// The call is taken not to unwind. The standard library documents one case in which it may, or
/// may never return: that the calling thread holds the mutex already. A guard stays within one
/// method of the queue, so that this happens only where a comparison, clone or destructor of the
/// caller's, which that method runs, calls the same queue. Callers are asked not to.
#[verifier::external_body]
fn wait<'a, T>(mutex: &'a Mutex<T>) -> (result: Result<
    MutexGuard<'a, T>,
    PoisonError<MutexGuard<'a, T>>,
>)
    opens_invariants none
    no_unwind
{
    mutex.lock()
}

/// [`std::sync::PoisonError::into_inner`] takes the guard out of the error, and does not unwind.
/// Nothing is claimed of the value behind the guard, which depends on what other handles did.
#[verifier::external_body]
fn recover<'a, T>(error: PoisonError<MutexGuard<'a, T>>) -> (guard: MutexGuard<'a, T>)
    opens_invariants none
    no_unwind
{
    error.into_inner()
}

/// Take the mutex, also where another holder panicked: a caller's comparison, clone or destructor
/// may, but only before or after the guarded value changes, which is whole in either case.
fn lock<'a, T>(mutex: &'a Mutex<T>) -> (guard: MutexGuard<'a, T>)
    opens_invariants none
    no_unwind
{
    match wait(mutex) {
        Ok(guard) => guard,
        Err(poisoned) => recover(poisoned),
    }
}

/// [`std::ops::DerefMut::deref_mut`] of a guard borrows the guarded value. Nothing is claimed of
/// the value, which depends on what other handles did.
#[verifier::external_body]
fn contents<'b, 'a, T>(guard: &'b mut MutexGuard<'a, T>) -> (value: &'b mut T)
    opens_invariants none
    no_unwind
{
    std::ops::DerefMut::deref_mut(guard)
}

/// [`Arc::clone`] makes another pointer to the same value.
#[verifier::external_body]
pub(crate) fn share<T>(pointer: &Arc<T>) -> (other: Arc<T>)
    ensures
        other == *pointer,
{
    Arc::clone(pointer)
}

/// The identity of a task, and a place in the list of dropped tasks.
pub struct Link<I> {
    id: I,
    next: Option<Box<Link<I>>>,
}

impl<I> Link<I> {
    pub closed spec fn identity(self) -> I {
        self.id
    }

    /// Reserve a place in the list.
    pub fn new(id: I) -> (link: Self)
        ensures
            link.identity() == id,
    {
        Link { id, next: None }
    }

    /// The identity of the task.
    pub fn id(&self) -> (id: &I)
        ensures
            *id == self.identity(),
    {
        &self.id
    }
}

/// `ledger` once the tasks of `links` have failed.
spec fn settled<I: Ord, O>(links: Option<Box<Link<I>>>, ledger: Ledger<I, O>) -> Ledger<I, O>
    decreases links,
{
    match links {
        None => ledger,
        Some(link) => settled(link.next, ledger).failed(link.id),
    }
}

/// It does not matter which of two tasks failed first.
proof fn lemma_failed_commutes<I: Ord, O>(ledger: Ledger<I, O>, a: I, b: I)
    requires
        ledger.wf(),
    ensures
        ledger.failed(a).failed(b) == ledger.failed(b).failed(a),
        ledger.failed(a).wf(),
{
    lemma_order::<I>();
    ledger.lemma_with(a, Transaction::failed(ledger.outputs(a)));
    ledger.lemma_with(b, Transaction::failed(ledger.outputs(b)));
    assert(ledger.failed(a).failed(b).transactions =~= ledger.failed(b).failed(a).transactions);
}

proof fn lemma_settled<I: Ord, O>(links: Option<Box<Link<I>>>, ledger: Ledger<I, O>, id: I)
    requires
        ledger.wf(),
    ensures
        settled(links, ledger).wf(),
        settled(links, ledger.failed(id)) == settled(links, ledger).failed(id),
    decreases links,
{
    lemma_failed_commutes(ledger, id, id);
    match links {
        None => {},
        Some(link) => {
            lemma_settled(link.next, ledger, id);
            lemma_failed_commutes(settled(link.next, ledger), link.id, id);
        },
    }
}

/// Failing tasks and releasing admission do not interfere.
proof fn lemma_settled_released<I: Ord, O>(
    links: Option<Box<Link<I>>>,
    ledger: Ledger<I, O>,
    armed: bool,
)
    ensures
        settled(links, ledger.released(armed)) == settled(links, ledger).released(armed),
    decreases links,
{
    match links {
        None => {},
        Some(link) => lemma_settled_released(link.next, ledger, armed),
    }
}

/// Tasks that fail leave a reachable ledger.
proof fn lemma_settled_reachable<I: Ord, O>(links: Option<Box<Link<I>>>, ledger: Ledger<I, O>)
    requires
        ledger.reachable(),
    ensures
        settled(links, ledger).reachable(),
    decreases links,
{
    match links {
        None => {},
        Some(link) => {
            lemma_settled_reachable(link.next, ledger);
            law_next_is_reachable(settled(link.next, ledger), Event::Fail(link.id));
        },
    }
}

/// A state, and the tasks that were dropped since it was last used.
#[verifier::reject_recursive_types(I)]
pub struct Shared<I: Ord, O> {
    state: State<I, O>,
    dropped: Option<Box<Link<I>>>,
}

impl<I: Ord, O> View for Shared<I, O> {
    type V = Ledger<I, O>;

    closed spec fn view(&self) -> Ledger<I, O> {
        settled(self.dropped, self.state@)
    }
}

impl<I: Ord, O> Shared<I, O> {
    /// Create an unused state.
    pub fn new() -> (shared: Self)
        requires
            ordered::<I>(),
        ensures
            shared@ == Ledger::<I, O>::empty(),
    {
        Shared { state: State::new(), dropped: None }
    }

    /// Learn that the ledger is reachable.
    pub fn observe(&self)
        ensures
            self@.reachable(),
        opens_invariants none
        no_unwind
    {
        self.state.observe();
        proof {
            lemma_settled_reachable(self.dropped, self.state@);
        }
    }

    /// Cancel the task of `link`: its transaction fails, and where the task was preparing, its
    /// preparation gives admission back without an interruption.
    pub fn cancel(&mut self, link: Box<Link<I>>, preparing: bool)
        ensures
            final(self)@ == if preparing {
                old(self)@.failed(link.identity()).released(false)
            } else {
                old(self)@.failed(link.identity())
            },
        opens_invariants none
        no_unwind
    {
        let mut link = link;
        std::mem::swap(&mut link.next, &mut self.dropped);
        self.dropped = Some(link);
        if preparing {
            self.release(false);
        }
    }

    /// Record the output of a task that prepares, whose preparation then gives admission back.
    pub fn record(&mut self, id: &I, output: O) -> (result: Result<(), Error>)
        ensures
            old(self)@.reachable(),
            result == old(self)@.record(*id),
            final(self)@ == if result is Ok {
                old(self)@.recorded(*id, output).released(false)
            } else {
                old(self)@
            },
    {
        let state = self.settle();
        let result = state.record(id, output);
        if result.is_ok() {
            state.release(false);
        }
        result
    }

    /// Take admission back from its holder, which latches an interruption where it is armed.
    pub fn release(&mut self, armed: bool)
        ensures
            final(self)@ == old(self)@.released(armed),
        opens_invariants none
        no_unwind
    {
        proof {
            lemma_settled_released(self.dropped, self.state@, armed);
        }
        self.state.release(armed);
    }

    /// Mark the transactions of dropped tasks as failed, and borrow the state.
    pub fn settle(&mut self) -> (state: &mut State<I, O>)
        ensures
            state@ == old(self)@,
            state@.reachable(),
            final(self)@ == final(state)@,
    {
        while self.dropped.is_some()
            invariant
                self@ == old(self)@,
            decreases self.dropped,
        {
            if let Some(link) = &self.dropped {
                self.state.observe();
                proof {
                    law_reachable_is_wf(self.state@);
                    lemma_settled(link.next, self.state@, link.id);
                }
                self.state.fail(&link.id);
            }
            let mut link = None;
            std::mem::swap(&mut link, &mut self.dropped);
            if let Some(mut link) = link {
                std::mem::swap(&mut link.next, &mut self.dropped);
            }
        }
        self.state.observe();
        &mut self.state
    }
}

impl<I: Ord, O> Drop for Shared<I, O> {
    /// Unlink the dropped tasks one by one, so that a long list needs no deep recursion.
    fn drop(&mut self)
        opens_invariants none
        no_unwind
    {
        let mut links = None;
        std::mem::swap(&mut links, &mut self.dropped);
        loop
            decreases links,
        {
            match links {
                None => return,
                Some(link) => {
                    let mut link = link;
                    links = None;
                    std::mem::swap(&mut links, &mut link.next);
                },
            }
        }
    }
}

/// A value that handles share behind a mutex. Its view always satisfies `valid`.
pub trait Guarded: View + Sized {
    spec fn valid(view: Self::V) -> bool;

    /// Learn that the view is valid.
    fn validate(&self)
        ensures
            Self::valid(self@),
    ;
}

impl<I: Ord, O> Guarded for Shared<I, O> {
    open spec fn valid(view: Ledger<I, O>) -> bool {
        view.reachable()
    }

    fn validate(&self) {
        self.observe();
    }
}

/// Behind `mutex`, somebody who held the lock once found `found` and left `left`. What is meant
/// by that stays within this module: elsewhere it is known of a visit, and of nothing else.
pub closed spec fn visited<T: Guarded>(mutex: Mutex<T>, found: T::V, left: T::V) -> bool {
    T::valid(found) && T::valid(left)
}

/// `mutex` was made for a value with the view `first`. Elsewhere it is known of a mutex that
/// [`publish`] made, and of no other.
pub closed spec fn published<T: Guarded>(mutex: Mutex<T>, first: T::V) -> bool {
    T::valid(first)
}

/// Something that is done to a guarded value while the lock is held, once.
pub trait Act<T: Guarded>: Sized {
    type Reply;

    /// Where this act finds `found`, it leaves `left` and returns `reply`.
    spec fn effect(self, found: T::V, left: T::V, reply: Self::Reply) -> bool;

    fn perform(self, value: &mut T) -> (reply: Self::Reply)
        ensures
            self.effect(old(value)@, final(value)@, reply),
    ;
}

/// An act that needs no admission.
pub trait Request<T: Guarded>: Act<T> {

}

/// An act that asks for admission.
pub trait Entry<T: Guarded>: Act<T, Reply = Result<(), Error>> {

}

/// An act of a handle that was admitted.
pub trait Step<T: Guarded>: Act<T> {

}

/// The last act of a handle that was admitted, which cannot unwind.
pub enum Parting<I> {
    /// Give admission back, armed or not.
    Release(bool),
    /// Cancel a task, which prepares or not.
    Cancel(Box<Link<I>>, bool),
}

impl<I: Ord> Parting<I> {
    /// What this act leaves where it finds `found`.
    pub open spec fn effect<O>(self, found: Ledger<I, O>) -> Ledger<I, O> {
        match self {
            Parting::Release(armed) => found.released(armed),
            Parting::Cancel(link, preparing) => if preparing {
                found.failed(link.identity()).released(false)
            } else {
                found.failed(link.identity())
            },
        }
    }

    fn perform<O>(self, shared: &mut Shared<I, O>)
        ensures
            final(shared)@ == self.effect(old(shared)@),
        opens_invariants none
        no_unwind
    {
        match self {
            Parting::Release(armed) => shared.release(armed),
            Parting::Cancel(link, preparing) => shared.cancel(link, preparing),
        }
    }
}

/// The visits of one handle that was admitted, oldest first. Only a visit adds to them, and only
/// an admission begins them.
#[verifier::reject_recursive_types(V)]
pub struct Journal<V> {
    visits: Ghost<Seq<Visit<V>>>,
}

impl<V> View for Journal<V> {
    type V = Seq<Visit<V>>;

    closed spec fn view(&self) -> Seq<Visit<V>> {
        self.visits@
    }
}

/// The journal of some handle read `visits`. What is meant by that stays within this module:
/// elsewhere it is known of what [`note`] was shown, and of nothing else.
pub closed spec fn noted<V>(visits: Seq<Visit<V>>) -> bool {
    visits.len() > 0
}

/// Take note of a journal.
pub(crate) fn note<V>(journal: &Journal<V>)
    ensures
        noted(journal@),
{
    proof {
        use_type_invariant(journal);
    }
}

impl<V> Journal<V> {
    #[verifier::type_invariant]
    spec fn inv(self) -> bool {
        self.visits@.len() > 0
    }

    /// This journal and one more visit.
    pub closed spec fn and(self, visit: Visit<V>) -> Self {
        Journal { visits: Ghost(self.visits@.push(visit)) }
    }
}

/// Share a value.
pub(crate) fn publish<T: Guarded>(value: T) -> (pointer: Arc<Mutex<T>>)
    ensures
        published(*pointer, value@),
{
    value.validate();
    Arc::new(Mutex::new(value))
}

/// Hold the lock for one request.
pub(crate) fn visit<T: Guarded, A: Request<T>>(mutex: &Mutex<T>, request: A) -> (reply: A::Reply)
    ensures
        exists|found: T::V, left: T::V| #[trigger]
            visited(*mutex, found, left) && T::valid(found) && request.effect(found, left, reply),
{
    let mut guard = lock(mutex);
    let value = contents(&mut guard);
    value.validate();
    let ghost found = value@;
    let reply = request.perform(value);
    value.validate();
    assert(visited(*mutex, found, value@));
    reply
}

/// Hold the lock to ask for admission, which begins a journal.
pub(crate) fn enter<T: Guarded, A: Entry<T>>(mutex: &Mutex<T>, entry: A) -> (result: Result<
    Journal<T::V>,
    Error,
>)
    ensures
        match result {
            Ok(journal) => journal@.len() == 1 && visited(
                *mutex,
                journal@[0].found,
                journal@[0].left,
            ) && T::valid(journal@[0].found) && entry.effect(
                journal@[0].found,
                journal@[0].left,
                Ok(()),
            ),
            Err(error) => exists|found: T::V, left: T::V| #[trigger]
                visited(*mutex, found, left) && T::valid(found) && entry.effect(
                    found,
                    left,
                    Err(error),
                ),
        },
{
    let mut guard = lock(mutex);
    let value = contents(&mut guard);
    value.validate();
    let ghost found = value@;
    let reply = entry.perform(value);
    value.validate();
    assert(visited(*mutex, found, value@));
    let ghost first = Visit { found, left: value@ };
    assert(entry.effect(first.found, first.left, reply));
    match reply {
        Ok(unit) => {
            assert(unit == ());
            Ok(Journal { visits: Ghost(Seq::empty().push(first)) })
        },
        Err(error) => Err(error),
    }
}

/// Hold the lock for one step of a handle that was admitted.
pub(crate) fn resume<T: Guarded, A: Step<T>>(
    mutex: &Mutex<T>,
    journal: &mut Journal<T::V>,
    step: A,
) -> (reply: A::Reply)
    ensures
        final(journal)@.len() == old(journal)@.len() + 1,
        final(journal)@.drop_last() == old(journal)@,
        *final(journal) == old(journal).and(final(journal)@.last()),
        visited(*mutex, final(journal)@.last().found, final(journal)@.last().left),
        T::valid(final(journal)@.last().found),
        step.effect(final(journal)@.last().found, final(journal)@.last().left, reply),
{
    let mut guard = lock(mutex);
    let value = contents(&mut guard);
    value.validate();
    let ghost found = value@;
    let reply = step.perform(value);
    value.validate();
    proof {
        journal.visits@ = journal.visits@.push(Visit { found, left: value@ });
    }
    reply
}

/// Hold the lock for the last act of a handle that was admitted.
pub(crate) fn depart<I: Ord, O>(
    mutex: &Mutex<Shared<I, O>>,
    journal: &mut Journal<Ledger<I, O>>,
    parting: Parting<I>,
)
    ensures
        final(journal)@.len() == old(journal)@.len() + 1,
        final(journal)@.drop_last() == old(journal)@,
        *final(journal) == old(journal).and(final(journal)@.last()),
        visited(*mutex, final(journal)@.last().found, final(journal)@.last().left),
        final(journal)@.last().found.reachable(),
        final(journal)@.last().left == parting.effect(final(journal)@.last().found),
    opens_invariants none
    no_unwind
{
    let mut guard = lock(mutex);
    let shared = contents(&mut guard);
    shared.observe();
    let ghost found = shared@;
    parting.perform(shared);
    shared.observe();
    proof {
        journal.visits@ = journal.visits@.push(Visit { found, left: shared@ });
    }
}

} // verus!
