//! The bookkeeping of a task queue, as a value that one caller owns.

use vstd::prelude::*;

use crate::error::Error;
use crate::order::{before, lemma_order, ordered, precedes, same};
use crate::queue::history::{
    law_next_is_reachable, law_reachable_is_wf, law_bare_is_reachable, Event,
};
use crate::queue::ledger::{
    after, copies, gathered, lists, put, Ledger, Owner, Status, Transaction,
};

verus! {

/// One known transaction: its identity, its status, whether its task has still to record, and
/// its pending outputs.
struct Entry<I: Ord, O> {
    id: I,
    status: Status,
    preparing: bool,
    outputs: Vec<O>,
}

impl<I: Ord, O> Entry<I, O> {
    spec fn transaction(self) -> Transaction<O> {
        Transaction { status: self.status, preparing: self.preparing, outputs: self.outputs@ }
    }
}

/// The entries are in increasing order of identity, without duplicates.
spec fn sorted<I: Ord, O>(entries: Seq<Entry<I, O>>) -> bool {
    forall|i: int, j: int| 0 <= i < j < entries.len() ==> before(entries[i].id, entries[j].id)
}

/// Entry `i` is the one of `id`.
spec fn at<I: Ord, O>(entries: Seq<Entry<I, O>>, i: int, id: I) -> bool {
    0 <= i < entries.len() && same(entries[i].id, id)
}

/// Where the entry of `id` is, if there is one.
spec fn place<I: Ord, O>(entries: Seq<Entry<I, O>>, id: I) -> int {
    choose|i: int| at(entries, i, id)
}

/// What the entries say of each identity.
spec fn transactions<I: Ord, O>(entries: Seq<Entry<I, O>>) -> Map<I, Transaction<O>> {
    Map::new(
        |k: I| exists|i: int| at(entries, i, k),
        |k: I| entries[place(entries, k)].transaction(),
    )
}

/// The owner, the cutoff and the live transactions of one queue.
#[verifier::reject_recursive_types(I)]
pub struct State<I: Ord, O> {
    owner: Owner,
    finalized: Option<I>,
    entries: Vec<Entry<I, O>>,
}

impl<I: Ord, O> View for State<I, O> {
    type V = Ledger<I, O>;

    closed spec fn view(&self) -> Ledger<I, O> {
        Ledger {
            owner: self.owner,
            finalized: self.finalized,
            transactions: transactions(self.entries@),
        }
    }
}

/// There is an entry of `id`, and it is entry `i` alone.
proof fn lemma_at<I: Ord, O>(entries: Seq<Entry<I, O>>, i: int, id: I)
    requires
        ordered::<I>(),
        sorted(entries),
        at(entries, i, id),
    ensures
        place(entries, id) == i,
        transactions(entries).contains_key(id),
        transactions(entries)[id] == entries[i].transaction(),
{
    lemma_order::<I>();
    let p = place(entries, id);
    assert(at(entries, p, id));
    assert(same(id, entries[i].id));
    assert(same(entries[p].id, entries[i].id));
    if p < i {
        assert(before(entries[p].id, entries[i].id));
    } else if i < p {
        assert(before(entries[i].id, entries[p].id));
    }
}

/// Without entries nothing is known.
proof fn lemma_empty<I: Ord, O>(entries: Seq<Entry<I, O>>)
    requires
        entries.len() == 0,
    ensures
        transactions(entries) == Map::<I, Transaction<O>>::empty(),
{
    assert(transactions(entries) =~= Map::empty());
}

/// Changing the status and outputs of entry `i` changes what is known of `id`, its identity.
proof fn lemma_update<I: Ord, O>(entries: Seq<Entry<I, O>>, i: int, entry: Entry<I, O>, id: I)
    requires
        ordered::<I>(),
        sorted(entries),
        at(entries, i, id),
        entry.id == entries[i].id,
    ensures
        sorted(entries.update(i, entry)),
        transactions(entries.update(i, entry)) == put(
            transactions(entries),
            id,
            entry.transaction(),
        ),
{
    lemma_order::<I>();
    let changed = entries.update(i, entry);
    assert forall|k: I| transactions(changed).contains_key(k) <==> put(
        transactions(entries),
        id,
        entry.transaction(),
    ).contains_key(k) by {
        if transactions(changed).contains_key(k) {
            let j = choose|j: int| at(changed, j, k);
            assert(at(entries, j, k));
        }
        if transactions(entries).contains_key(k) {
            let j = choose|j: int| at(entries, j, k);
            assert(at(changed, j, k));
        }
        if same(k, id) {
            assert(same(id, k));
            assert(at(changed, i, k));
        }
    }
    assert forall|k: I| transactions(changed).contains_key(k) implies transactions(changed)[k]
        == put(transactions(entries), id, entry.transaction())[k] by {
        let j = choose|j: int| at(changed, j, k);
        lemma_at(changed, j, k);
        assert(at(entries, j, k));
        lemma_at(entries, j, k);
        if same(k, id) {
            assert(same(id, k));
            assert(at(entries, i, k));
            lemma_at(entries, i, k);
        } else if j == i {
            assert(same(id, entries[i].id));
            assert(same(k, entries[i].id));
            assert(same(k, id));
        }
    }
    assert(transactions(changed) =~= put(transactions(entries), id, entry.transaction()));
}

/// Inserting an entry where its identity belongs makes that identity known.
proof fn lemma_insert<I: Ord, O>(entries: Seq<Entry<I, O>>, i: int, entry: Entry<I, O>, id: I)
    requires
        ordered::<I>(),
        sorted(entries),
        same(entry.id, id),
        0 <= i <= entries.len(),
        forall|j: int| 0 <= j < i ==> before(#[trigger] entries[j].id, id),
        forall|j: int| i <= j < entries.len() ==> before(id, #[trigger] entries[j].id),
    ensures
        sorted(entries.insert(i, entry)),
        at(entries.insert(i, entry), i, id),
        !transactions(entries).contains_key(id),
        transactions(entries.insert(i, entry)) == put(
            transactions(entries),
            id,
            entry.transaction(),
        ),
{
    lemma_order::<I>();
    let grown = entries.insert(i, entry);
    let known = put(transactions(entries), id, entry.transaction());
    assert(same(id, entry.id));
    assert(grown[i] == entry);
    assert forall|j: int| 0 <= j < i implies #[trigger] grown[j] == entries[j] by {}
    assert forall|j: int| i < j < grown.len() implies #[trigger] grown[j] == entries[j - 1] by {}
    assert forall|a: int, b: int| 0 <= a < b < grown.len() implies before(
        grown[a].id,
        grown[b].id,
    ) by {
        if a == i {
            assert(before(id, entries[b - 1].id));
        } else if b == i {
            assert(before(entries[a].id, id));
        }
    }
    assert forall|j: int| !at(entries, j, id) by {
        if at(entries, j, id) {
            if j < i {
                assert(before(entries[j].id, id));
            } else {
                assert(before(id, entries[j].id));
            }
        }
    }
    assert forall|k: I| transactions(grown).contains_key(k) <==> known.contains_key(k) by {
        if transactions(grown).contains_key(k) {
            let j = choose|j: int| at(grown, j, k);
            if j == i {
                assert(same(k, entry.id));
            } else {
                assert(at(entries, if j < i { j } else { j - 1 }, k));
            }
        }
        if transactions(entries).contains_key(k) {
            let j = choose|j: int| at(entries, j, k);
            assert(at(grown, if j < i { j } else { j + 1 }, k));
        }
        if same(k, id) {
            assert(same(id, k));
            assert(at(grown, i, k));
        }
    }
    assert forall|k: I| transactions(grown).contains_key(k) implies transactions(grown)[k]
        == known[k] by {
        let j = choose|j: int| at(grown, j, k);
        lemma_at(grown, j, k);
        if same(k, id) {
            assert(same(id, k));
            assert(at(grown, i, k));
            lemma_at(grown, i, k);
        } else if j == i {
            assert(same(k, entry.id));
            assert(same(k, id));
        } else {
            let j0 = if j < i { j } else { j - 1 };
            assert(at(entries, j0, k));
            lemma_at(entries, j0, k);
        }
    }
    assert(transactions(grown) =~= known);
}

/// The entries from the first one after `cutoff` on are those after `cutoff`.
proof fn lemma_after<I: Ord, O>(entries: Seq<Entry<I, O>>, i: int, cutoff: I)
    requires
        ordered::<I>(),
        sorted(entries),
        0 <= i <= entries.len(),
        forall|j: int| 0 <= j < i ==> !before(cutoff, #[trigger] entries[j].id),
        forall|j: int| i <= j < entries.len() ==> before(cutoff, #[trigger] entries[j].id),
    ensures
        sorted(entries.subrange(i, entries.len() as int)),
        transactions(entries.subrange(i, entries.len() as int)) == after(
            transactions(entries),
            cutoff,
        ),
{
    lemma_order::<I>();
    let kept = entries.subrange(i, entries.len() as int);
    let known = after(transactions(entries), cutoff);
    assert forall|j: int| 0 <= j < kept.len() implies #[trigger] kept[j] == entries[j + i] by {}
    assert forall|k: I| transactions(kept).contains_key(k) <==> known.contains_key(k) by {
        if transactions(kept).contains_key(k) {
            let j = choose|j: int| at(kept, j, k);
            assert(at(entries, j + i, k));
            assert(before(cutoff, entries[j + i].id));
        }
        if known.contains_key(k) {
            let j = choose|j: int| at(entries, j, k);
            assert(same(k, entries[j].id));
            assert(before(cutoff, entries[j].id));
            assert(at(kept, j - i, k));
        }
    }
    assert forall|k: I| transactions(kept).contains_key(k) implies transactions(kept)[k]
        == known[k] by {
        let j = choose|j: int| at(kept, j, k);
        lemma_at(kept, j, k);
        assert(at(entries, j + i, k));
        lemma_at(entries, j + i, k);
    }
    assert(transactions(kept) =~= known);
}

impl<I: Ord, O> State<I, O> {
    #[verifier::type_invariant]
    spec fn inv(self) -> bool {
        &&& ordered::<I>()
        &&& sorted(self.entries@)
        &&& self@.reachable()
    }

    /// Create the state of an unused queue.
    pub fn new() -> (state: Self)
        requires
            ordered::<I>(),
        ensures
            state@ == Ledger::<I, O>::empty(),
            state@.reachable(),
    {
        let entries = Vec::new();
        proof {
            lemma_empty(entries@);
            law_bare_is_reachable::<I, O>(Owner::Ready, None);
        }
        State { owner: Owner::Ready, finalized: None, entries }
    }

    /// Learn that the ledger is reachable.
    pub(crate) fn observe(&self)
        ensures
            self@.reachable(),
        opens_invariants none
        no_unwind
    {
        proof {
            use_type_invariant(self);
        }
    }

    /// The number of entries that come before `id`.
    fn locate(&self, id: &I) -> (i: usize)
        ensures
            i <= self.entries@.len(),
            forall|j: int| 0 <= j < i ==> before(#[trigger] self.entries@[j].id, *id),
            forall|j: int|
                i <= j < self.entries@.len() ==> !before(#[trigger] self.entries@[j].id, *id),
    {
        proof {
            use_type_invariant(self);
            lemma_order::<I>();
        }
        let mut low: usize = 0;
        let mut high: usize = self.entries.len();
        while low < high
            invariant
                low <= high <= self.entries@.len(),
                self.inv(),
                forall|j: int| 0 <= j < low ==> before(#[trigger] self.entries@[j].id, *id),
                forall|j: int|
                    high <= j < self.entries@.len() ==> !before(#[trigger] self.entries@[j].id, *id),
            decreases high - low,
        {
            let middle: usize = low + (high - low) / 2;
            if precedes(&self.entries[middle].id, id) {
                proof {
                    lemma_order::<I>();
                }
                low = middle + 1;
            } else {
                proof {
                    lemma_order::<I>();
                    assert forall|j: int| middle <= j < self.entries@.len() implies !before(
                        #[trigger] self.entries@[j].id,
                        *id,
                    ) by {
                        if j > middle {
                            assert(before(self.entries@[middle as int].id, self.entries@[j].id));
                        }
                    }
                }
                high = middle;
            }
        }
        low
    }

    /// The entry of `id`, if there is one.
    fn find(&self, id: &I) -> (found: Option<usize>)
        ensures
            match found {
                Some(i) => at(self.entries@, i as int, *id) && self@.transactions.contains_key(*id)
                    && self@.transactions[*id] == self.entries@[i as int].transaction(),
                None => !self@.transactions.contains_key(*id),
            },
    {
        let i: usize = self.locate(id);
        proof {
            use_type_invariant(self);
            lemma_order::<I>();
        }
        if i < self.entries.len() && !precedes(id, &self.entries[i].id) {
            proof {
                assert(same(self.entries@[i as int].id, *id));
                lemma_at(self.entries@, i as int, *id);
            }
            Some(i)
        } else {
            proof {
                assert forall|j: int| !at(self.entries@, j, *id) by {
                    if at(self.entries@, j, *id) {
                        if j < i {
                            assert(before(self.entries@[j].id, *id));
                        } else if j > i {
                            assert(before(self.entries@[i as int].id, self.entries@[j].id));
                            assert(before(self.entries@[i as int].id, *id));
                        }
                    }
                }
            }
            None
        }
    }

    /// The status of `id`, if it is known.
    fn status(&self, id: &I) -> (status: Option<Status>)
        ensures
            status == self@.status(*id),
    {
        match self.find(id) {
            Some(i) => Some(self.entries[i].status),
            None => None,
        }
    }

    /// Move the entries out.
    fn take(&mut self) -> (entries: Vec<Entry<I, O>>)
        ensures
            entries@ == old(self).entries@,
            final(self).entries@.len() == 0,
            final(self).owner == old(self).owner,
            final(self).finalized == old(self).finalized,
    {
        let mut entries = Vec::new();
        proof {
            use_type_invariant(&*self);
            lemma_empty(entries@);
            law_bare_is_reachable::<I, O>(self.owner, self.finalized);
        }
        std::mem::swap(&mut entries, &mut self.entries);
        entries
    }

    /// Give entry `i`, the one of `id`, another status, which leads to the ledger `next`.
    fn mark(
        &mut self,
        i: usize,
        status: Status,
        preparing: bool,
        Ghost(id): Ghost<I>,
        Ghost(next): Ghost<Ledger<I, O>>,
    )
        requires
            at(old(self).entries@, i as int, id),
            next == old(self)@.with(
                id,
                Transaction { status, preparing, outputs: old(self)@.outputs(id) },
            ),
            next.reachable(),
        ensures
            final(self)@ == next,
    {
        let ghost entry = Entry { status, preparing, ..self.entries@[i as int] };
        proof {
            use_type_invariant(&*self);
            lemma_at(self.entries@, i as int, id);
            lemma_update(self.entries@, i as int, entry, id);
        }
        let mut entries = self.take();
        entries[i].status = status;
        entries[i].preparing = preparing;
        assert(entries@ =~= old(self).entries@.update(i as int, entry));
        self.entries = entries;
    }

    /// Decide entry `i`, the one of `id`, and take its outputs, which leads to the ledger `next`.
    fn seal(
        &mut self,
        i: usize,
        status: Status,
        Ghost(id): Ghost<I>,
        Ghost(next): Ghost<Ledger<I, O>>,
    ) -> (outputs: Vec<O>)
        requires
            at(old(self).entries@, i as int, id),
            next == old(self)@.with(id, Transaction::decided(status)),
            next.reachable(),
        ensures
            outputs@ == old(self)@.outputs(id),
            final(self)@ == next,
    {
        let mut outputs = Vec::new();
        let ghost entry = Entry {
            status,
            preparing: false,
            outputs,
            ..self.entries@[i as int]
        };
        proof {
            use_type_invariant(&*self);
            lemma_at(self.entries@, i as int, id);
            lemma_update(self.entries@, i as int, entry, id);
        }
        let mut entries = self.take();
        entries[i].status = status;
        entries[i].preparing = false;
        std::mem::swap(&mut outputs, &mut entries[i].outputs);
        assert(entries@ =~= old(self).entries@.update(i as int, entry));
        self.entries = entries;
        outputs
    }

    /// Whether preparation or a lifecycle operation may begin.
    pub fn ready(&self) -> (result: Result<(), Error>)
        ensures
            result == self@.ready(),
    {
        match self.owner {
            Owner::Ready => Ok(()),
            Owner::Busy => Err(Error::Busy),
            Owner::Interrupted => Err(Error::Interrupted),
        }
    }

    /// Whether `id` may be used at all.
    pub fn check(&self, id: &I) -> (result: Result<(), Error>)
        ensures
            result == self@.check(*id),
    {
        proof {
            use_type_invariant(self);
        }
        if self.owner == Owner::Interrupted {
            return Err(Error::Interrupted);
        }
        match &self.finalized {
            Some(cutoff) if !precedes(cutoff, id) => Err(Error::Outdated),
            _ => Ok(()),
        }
    }

    /// The entry of `id`, which is created where `id` is not known yet.
    fn enroll(&mut self, id: I) -> (result: Result<usize, Error>)
        ensures
            match result {
                Ok(i) => old(self)@.check(id) is Ok && at(final(self).entries@, i as int, id),
                Err(error) => old(self)@.check(id) == Err::<(), Error>(error),
            },
            final(self)@ == old(self)@.registered(id),
            final(self)@.reachable(),
    {
        proof {
            use_type_invariant(&*self);
        }
        if let Err(error) = self.check(&id) {
            return Err(error);
        }
        if let Some(i) = self.find(&id) {
            return Ok(i);
        }
        let i: usize = self.locate(&id);
        let ghost key = id;
        let entry = Entry { id, status: Status::Active, preparing: false, outputs: Vec::new() };
        proof {
            lemma_order::<I>();
            assert forall|j: int| i <= j < self.entries@.len() implies before(
                key,
                #[trigger] self.entries@[j].id,
            ) by {
                if same(self.entries@[j].id, key) {
                    assert(at(self.entries@, j, key));
                }
                assert(before(self.entries@[j].id, key) || same(self.entries@[j].id, key)
                    || before(key, self.entries@[j].id));
            }
            lemma_insert(self.entries@, i as int, entry, key);
            law_next_is_reachable(self@, Event::Register(key));
        }
        let mut entries = self.take();
        entries.insert(i, entry);
        self.entries = entries;
        Ok(i)
    }

    /// Require that nothing was registered or finalized and nobody holds admission.
    pub fn validate_fresh(&self) -> (result: Result<(), Error>)
        ensures
            result == if self@.fresh() {
                Ok::<(), Error>(())
            } else {
                Err(Error::Conflict)
            },
    {
        proof {
            if self.entries@.len() == 0 {
                assert(self@.transactions =~= Map::empty());
            } else {
                use_type_invariant(self);
                lemma_order::<I>();
                let id = self.entries@[0].id;
                assert(at(self.entries@, 0, id));
                assert(self@.transactions.contains_key(id));
            }
        }
        if self.owner == Owner::Ready && self.finalized.is_none() && self.entries.len() == 0 {
            Ok(())
        } else {
            Err(Error::Conflict)
        }
    }

    /// Make `id` known.
    pub fn register(&mut self, id: I) -> (result: Result<(), Error>)
        ensures
            result == old(self)@.check(id),
            final(self)@ == old(self)@.registered(id),
            final(self)@.reachable(),
    {
        match self.enroll(id) {
            Ok(_) => Ok(()),
            Err(error) => Err(error),
        }
    }

    /// Check an observation by `id`, rejecting failed or rolled-back transactions.
    pub fn readable(&self, id: &I) -> (result: Result<(), Error>)
        ensures
            result == self@.readable(*id),
    {
        if let Err(error) = self.check(id) {
            return Err(error);
        }
        match self.status(id) {
            Some(Status::Failed) => Err(Error::Failed),
            Some(Status::RolledBack) => Err(Error::RolledBack),
            _ => Ok(()),
        }
    }

    /// Start a task of `id`, whose preparation then holds admission. Each transaction may have
    /// `capacity` outputs.
    pub fn start(&mut self, id: I, capacity: usize) -> (result: Result<(), Error>)
        requires
            capacity > 0,
        ensures
            result == old(self)@.start(id, capacity as nat),
            final(self)@ == old(self)@.started(id, capacity as nat),
            final(self)@.reachable(),
    {
        let ghost key = id;
        let ghost next = old(self)@.started(id, capacity as nat);
        proof {
            use_type_invariant(&*self);
            self@.lemma_with(key, Transaction::active(Seq::empty()));
            law_next_is_reachable(self@, Event::Start(key, capacity as nat));
            law_next_is_reachable(next, Event::Release(false));
        }
        if let Err(error) = self.ready() {
            return Err(error);
        }
        let i: usize = match self.enroll(id) {
            Ok(i) => i,
            Err(error) => return Err(error),
        };
        proof {
            use_type_invariant(&*self);
            lemma_at(self.entries@, i as int, key);
        }
        match self.entries[i].status {
            Status::Active => {},
            Status::Running => return Err(Error::Busy),
            Status::Failed => return Err(Error::Failed),
            Status::Committed => return Err(Error::Committed),
            Status::RolledBack => return Err(Error::RolledBack),
        }
        if self.entries[i].outputs.len() == capacity {
            return Err(Error::Saturated);
        }
        self.mark(i, Status::Running, true, Ghost(key), Ghost(next.released(false)));
        proof {
            use_type_invariant(&*self);
        }
        self.owner = Owner::Busy;
        Ok(())
    }

    /// Give admission to a lifecycle operation.
    pub fn acquire(&mut self) -> (result: Result<(), Error>)
        ensures
            result == old(self)@.ready(),
            final(self)@ == old(self)@.acquired(),
            final(self)@.reachable(),
    {
        proof {
            use_type_invariant(&*self);
            law_next_is_reachable(self@, Event::Acquire);
        }
        if let Err(error) = self.ready() {
            return Err(error);
        }
        self.owner = Owner::Busy;
        Ok(())
    }

    /// Take admission back from its holder, which latches an interruption where it is armed.
    pub fn release(&mut self, armed: bool)
        ensures
            final(self)@ == old(self)@.released(armed),
            final(self)@.reachable(),
        opens_invariants none
        no_unwind
    {
        proof {
            use_type_invariant(&*self);
            law_next_is_reachable(self@, Event::Release(armed));
        }
        match self.owner {
            Owner::Busy => {
                self.owner = if armed {
                    Owner::Interrupted
                } else {
                    Owner::Ready
                };
            },
            _ => {},
        }
    }

    /// Record the output of the task of `id`, once.
    pub fn record(&mut self, id: &I, output: O) -> (result: Result<(), Error>)
        ensures
            result == old(self)@.record(*id),
            final(self)@ == old(self)@.recorded(*id, output),
            final(self)@.reachable(),
    {
        proof {
            use_type_invariant(&*self);
            law_reachable_is_wf(self@);
            law_next_is_reachable(self@, Event::Record(*id, output));
        }
        if let Err(error) = self.check(id) {
            return Err(error);
        }
        let i: usize = match self.find(id) {
            Some(i) => i,
            None => return Err(Error::Conflict),
        };
        if !self.entries[i].preparing {
            return Err(Error::Conflict);
        }
        let ghost known = self.entries@;
        let mut entries = self.take();
        entries[i].preparing = false;
        entries[i].outputs.push(output);
        proof {
            let entry = entries@[i as int];
            assert(entries@ =~= known.update(i as int, entry));
            lemma_update(known, i as int, entry, *id);
        }
        self.entries = entries;
        Ok(())
    }

    /// Complete the task of `id`, which must have recorded its output.
    pub fn finish(&mut self, id: &I) -> (result: Result<(), Error>)
        ensures
            result == old(self)@.finish(*id),
            final(self)@ == old(self)@.finished(*id),
            final(self)@.reachable(),
    {
        proof {
            use_type_invariant(&*self);
            law_next_is_reachable(self@, Event::Finish(*id));
        }
        if let Err(error) = self.check(id) {
            return Err(error);
        }
        let i: usize = match self.find(id) {
            Some(i) => i,
            None => return Err(Error::Conflict),
        };
        if self.entries[i].status != Status::Running {
            return Err(Error::Conflict);
        }
        if self.entries[i].preparing {
            return Err(Error::Failed);
        }
        self.mark(i, Status::Active, false, Ghost(*id), Ghost(self@.finished(*id)));
        Ok(())
    }

    /// Fail the task of `id`.
    pub fn fail(&mut self, id: &I)
        ensures
            final(self)@ == old(self)@.failed(*id),
            final(self)@.reachable(),
    {
        proof {
            use_type_invariant(&*self);
            law_next_is_reachable(self@, Event::Fail(*id));
        }
        if let Some(i) = self.find(id) {
            if self.entries[i].status == Status::Running {
                self.mark(i, Status::Failed, false, Ghost(*id), Ghost(self@.failed(*id)));
            }
        }
    }

    /// Commit `id`, which hands out its outputs unless it is committed already.
    pub fn commit(&mut self, id: I) -> (result: Result<Option<Vec<O>>, Error>)
        ensures
            match result {
                Ok(Some(outputs)) => old(self)@.commit(id) == Ok::<Option<Seq<O>>, Error>(
                    Some(outputs@),
                ),
                Ok(None) => old(self)@.commit(id) == Ok::<Option<Seq<O>>, Error>(None),
                Err(error) => old(self)@.commit(id) == Err::<Option<Seq<O>>, Error>(error),
            },
            final(self)@ == old(self)@.committed(id),
            final(self)@.reachable(),
    {
        let ghost key = id;
        proof {
            use_type_invariant(&*self);
            self@.lemma_with(key, Transaction::active(Seq::empty()));
            law_next_is_reachable(self@, Event::Commit(key));
        }
        let i: usize = match self.enroll(id) {
            Ok(i) => i,
            Err(error) => return Err(error),
        };
        proof {
            use_type_invariant(&*self);
            lemma_at(self.entries@, i as int, key);
        }
        match self.entries[i].status {
            Status::Committed => return Ok(None),
            Status::Running => return Err(Error::Busy),
            Status::Failed => return Err(Error::Failed),
            Status::RolledBack => return Err(Error::RolledBack),
            Status::Active => {},
        }
        let outputs = self.seal(i, Status::Committed, Ghost(key), Ghost(old(self)@.committed(key)));
        Ok(Some(outputs))
    }

    /// Whether `id` may be rolled back, and if so, whether it was not yet.
    pub fn check_rollback(&self, id: &I) -> (result: Result<bool, Error>)
        ensures
            result == self@.check_rollback(*id),
    {
        if let Err(error) = self.check(id) {
            return Err(error);
        }
        match self.status(id) {
            Some(Status::Running) => Err(Error::Busy),
            Some(Status::Committed) => Err(Error::Committed),
            Some(Status::RolledBack) => Ok(false),
            _ => Ok(true),
        }
    }

    /// Roll `id` back, which discards its outputs.
    pub fn rollback(&mut self, id: I) -> (result: Result<(), Error>)
        ensures
            result == match old(self)@.check_rollback(id) {
                Ok(_) => Ok::<(), Error>(()),
                Err(error) => Err(error),
            },
            final(self)@ == old(self)@.rolled_back(id),
            final(self)@.reachable(),
    {
        let ghost key = id;
        proof {
            use_type_invariant(&*self);
            self@.lemma_with(key, Transaction::active(Seq::empty()));
            law_next_is_reachable(self@, Event::Rollback(key));
        }
        if let Err(error) = self.check_rollback(&id) {
            return Err(error);
        }
        let i: usize = match self.enroll(id) {
            Ok(i) => i,
            Err(error) => return Err(error),
        };
        let _ = self.seal(i, Status::RolledBack, Ghost(key), Ghost(old(self)@.rolled_back(key)));
        Ok(())
    }

    /// The number of entries at or below `cutoff`.
    fn covered(&self, cutoff: &I) -> (i: usize)
        ensures
            i <= self.entries@.len(),
            forall|j: int| 0 <= j < i ==> !before(*cutoff, #[trigger] self.entries@[j].id),
            forall|j: int|
                i <= j < self.entries@.len() ==> before(*cutoff, #[trigger] self.entries@[j].id),
    {
        let i: usize = self.locate(cutoff);
        proof {
            use_type_invariant(self);
            lemma_order::<I>();
        }
        let covered: usize = if i < self.entries.len() && !precedes(cutoff, &self.entries[i].id) {
            i + 1
        } else {
            i
        };
        proof {
            assert forall|j: int| covered <= j < self.entries@.len() implies before(
                *cutoff,
                #[trigger] self.entries@[j].id,
            ) by {
                if j > i {
                    assert(before(self.entries@[i as int].id, self.entries@[j].id));
                    assert(same(*cutoff, self.entries@[i as int].id) || before(
                        *cutoff,
                        self.entries@[i as int].id,
                    ) || before(self.entries@[i as int].id, *cutoff));
                }
            }
        }
        covered
    }

    /// Whether every task at or below `cutoff` has finished.
    pub fn check_finalize(&self, cutoff: &I) -> (result: Result<(), Error>)
        ensures
            result == self@.check_finalize(*cutoff),
    {
        let covered: usize = self.covered(cutoff);
        proof {
            use_type_invariant(self);
            lemma_order::<I>();
        }
        let mut i: usize = 0;
        while i < covered
            invariant
                i <= covered <= self.entries@.len(),
                self.inv(),
                forall|j: int| 0 <= j < i ==> !(#[trigger] self.entries@[j].status is Running),
                forall|j: int|
                    0 <= j < covered ==> !before(*cutoff, #[trigger] self.entries@[j].id),
            decreases covered - i,
        {
            if self.entries[i].status == Status::Running {
                proof {
                    lemma_order::<I>();
                    let id = self.entries@[i as int].id;
                    assert(at(self.entries@, i as int, id));
                    lemma_at(self.entries@, i as int, id);
                    assert(self@.status(id) == Some(Status::Running));
                }
                return Err(Error::Busy);
            }
            i += 1;
        }
        proof {
            assert forall|k: I| !before(*cutoff, k) implies #[trigger] self@.status(k) != Some(
                Status::Running,
            ) by {
                if self@.status(k) == Some(Status::Running) {
                    let j = choose|j: int| at(self.entries@, j, k);
                    lemma_at(self.entries@, j, k);
                    assert(same(self.entries@[j].id, k));
                }
            }
        }
        Ok(())
    }

    /// Advance the cutoff, which forgets everything at or below it. Older cutoffs are no-ops. What
    /// was forgotten is dropped once the change is complete.
    pub fn finalize(&mut self, cutoff: I) -> (result: Result<(), Error>)
        ensures
            result == old(self)@.check_finalize(cutoff),
            final(self)@ == old(self)@.advanced(cutoff),
            final(self)@.reachable(),
    {
        proof {
            use_type_invariant(&*self);
            law_next_is_reachable(self@, Event::Finalize(cutoff));
        }
        if let Err(error) = self.check_finalize(&cutoff) {
            return Err(error);
        }
        if let Some(prior) = &self.finalized {
            if !precedes(prior, &cutoff) {
                return Ok(());
            }
        }
        let covered: usize = self.covered(&cutoff);
        proof {
            lemma_after(self.entries@, covered as int, cutoff);
        }
        let mut entries = self.take();
        let kept = entries.split_off(covered);
        proof {
            use_type_invariant(&*self);
            lemma_empty(self.entries@);
            law_bare_is_reachable::<I, O>(self.owner, Some(cutoff));
        }
        let mut finalized = Some(cutoff);
        std::mem::swap(&mut finalized, &mut self.finalized);
        self.entries = kept;
        Ok(())
    }

    /// Copies of the outputs of every known transaction, transactions in increasing order.
    pub fn pending(&self) -> (outputs: Vec<O>) where O: Clone
        ensures
            exists|all: Seq<O>| #[trigger] self@.pending(all) && copies(all, outputs@),
    {
        proof {
            use_type_invariant(self);
        }
        let ghost ids = self.entries@.map_values(|entry: Entry<I, O>| entry.id);
        let ghost known = ids.map_values(|id: I| self@.transactions[id].outputs);
        let mut outputs = Vec::new();
        let mut i: usize = 0;
        proof {
            assert(known.take(0) =~= Seq::empty());
        }
        while i < self.entries.len()
            invariant
                i <= self.entries@.len(),
                self.inv(),
                ids == self.entries@.map_values(|entry: Entry<I, O>| entry.id),
                known == ids.map_values(|id: I| self@.transactions[id].outputs),
                copies(known.take(i as int).flatten(), outputs@),
            decreases self.entries@.len() - i,
        {
            let ghost gathered = known.take(i as int).flatten();
            let ghost all = self.entries@[i as int].outputs@;
            let mut j: usize = 0;
            while j < self.entries[i].outputs.len()
                invariant
                    i < self.entries@.len(),
                    all == self.entries@[i as int].outputs@,
                    j <= all.len(),
                    copies(gathered + all.take(j as int), outputs@),
                decreases all.len() - j,
            {
                let output = self.entries[i].outputs[j].clone();
                proof {
                    assert(cloned(all[j as int], output));
                    let items = gathered + all.take(j + 1);
                    assert forall|n: int| 0 <= n < items.len() implies cloned(
                        #[trigger] items[n],
                        outputs@.push(output)[n],
                    ) by {
                        if n < outputs@.len() {
                            assert(items[n] == (gathered + all.take(j as int))[n]);
                        }
                    }
                }
                outputs.push(output);
                j += 1;
            }
            proof {
                let id = self.entries@[i as int].id;
                assert(at(self.entries@, i as int, id)) by {
                    lemma_order::<I>();
                }
                lemma_at(self.entries@, i as int, id);
                assert(known[i as int] == all);
                assert(all.take(all.len() as int) =~= all);
                assert(known.take(i + 1) =~= known.take(i as int).push(all));
                known.take(i as int).lemma_flatten_push(all);
            }
            i += 1;
        }
        proof {
            assert(known.take(known.len() as int) =~= known);
            assert(gathered(ids, self@.transactions) == known.flatten());
            assert forall|k: I| #[trigger] self@.transactions.contains_key(k) <==> exists|i: int|
                0 <= i < ids.len() && #[trigger] same(ids[i], k) by {
                if self@.transactions.contains_key(k) {
                    let i = choose|i: int| at(self.entries@, i, k);
                    assert(same(ids[i], k));
                }
                if exists|i: int| 0 <= i < ids.len() && #[trigger] same(ids[i], k) {
                    let i = choose|i: int| 0 <= i < ids.len() && #[trigger] same(ids[i], k);
                    assert(at(self.entries@, i, k));
                }
            }
            assert(lists(ids, self@.transactions));
            assert(self@.pending(known.flatten()));
        }
        outputs
    }
}

} // verus!
