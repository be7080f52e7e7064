//! What handles do to the state that they share, one act for each visit.

use vstd::prelude::*;

use crate::error::Error;
use crate::queue::ledger::{copies, Ledger};
use crate::queue::shared::{Act, Entry, Request, Shared, Step};

verus! {

/// Require an unused queue.
pub struct Fresh;

/// Make an identity known.
pub struct Register<I> {
    pub id: I,
}

/// Check an observation.
pub struct Readable<I> {
    pub id: I,
}

/// Start a task, where each transaction may have so many outputs.
pub struct Start<I> {
    id: I,
    capacity: usize,
}

impl<I> Start<I> {
    #[verifier::type_invariant]
    spec fn inv(self) -> bool {
        self.capacity > 0
    }

    pub closed spec fn id(self) -> I {
        self.id
    }

    pub closed spec fn capacity(self) -> nat {
        self.capacity as nat
    }

    pub fn new(id: I, capacity: usize) -> (start: Self)
        requires
            capacity > 0,
        ensures
            start.id() == id,
            start.capacity() == capacity,
    {
        Start { id, capacity }
    }
}

/// Begin a lifecycle operation.
pub struct Acquire;

/// Record the output of a task, whose preparation then gives admission back.
pub struct Record<'a, I, O> {
    pub id: &'a I,
    pub output: O,
}

/// Complete a task.
pub struct Finish<'a, I> {
    pub id: &'a I,
}

/// Commit a transaction.
pub struct Commit<I> {
    pub id: I,
}

/// Check a rollback.
pub struct CheckRollback<'a, I> {
    pub id: &'a I,
}

/// Roll a transaction back.
pub struct Rollback<I> {
    pub id: I,
}

/// Check an advance of the cutoff.
pub struct CheckFinalize<'a, I> {
    pub cutoff: &'a I,
}

/// Advance the cutoff.
pub struct Finalize<I> {
    pub cutoff: I,
}

/// Copy every pending output.
pub struct Pending;

impl<I: Ord, O> Act<Shared<I, O>> for Fresh {
    type Reply = Result<(), Error>;

    open spec fn effect(
        self,
        found: Ledger<I, O>,
        left: Ledger<I, O>,
        reply: Result<(), Error>,
    ) -> bool {
        left == found && reply == if found.fresh() {
            Ok::<(), Error>(())
        } else {
            Err(Error::Conflict)
        }
    }

    fn perform(self, value: &mut Shared<I, O>) -> (reply: Result<(), Error>) {
        value.settle().validate_fresh()
    }
}

impl<I: Ord, O> Request<Shared<I, O>> for Fresh {

}

impl<I: Ord, O> Act<Shared<I, O>> for Register<I> {
    type Reply = Result<(), Error>;

    open spec fn effect(
        self,
        found: Ledger<I, O>,
        left: Ledger<I, O>,
        reply: Result<(), Error>,
    ) -> bool {
        left == found.registered(self.id) && reply == found.check(self.id)
    }

    fn perform(self, value: &mut Shared<I, O>) -> (reply: Result<(), Error>) {
        value.settle().register(self.id)
    }
}

impl<I: Ord, O> Request<Shared<I, O>> for Register<I> {

}

impl<I: Ord, O> Act<Shared<I, O>> for Readable<I> {
    type Reply = Result<(), Error>;

    open spec fn effect(
        self,
        found: Ledger<I, O>,
        left: Ledger<I, O>,
        reply: Result<(), Error>,
    ) -> bool {
        left == found && reply == found.readable(self.id)
    }

    fn perform(self, value: &mut Shared<I, O>) -> (reply: Result<(), Error>) {
        value.settle().readable(&self.id)
    }
}

impl<I: Ord, O> Request<Shared<I, O>> for Readable<I> {

}

impl<I: Ord, O> Act<Shared<I, O>> for Start<I> {
    type Reply = Result<(), Error>;

    open spec fn effect(
        self,
        found: Ledger<I, O>,
        left: Ledger<I, O>,
        reply: Result<(), Error>,
    ) -> bool {
        left == found.started(self.id(), self.capacity()) && reply == found.start(
            self.id(),
            self.capacity(),
        )
    }

    fn perform(self, value: &mut Shared<I, O>) -> (reply: Result<(), Error>) {
        proof {
            use_type_invariant(&self);
        }
        value.settle().start(self.id, self.capacity)
    }
}

impl<I: Ord, O> Entry<Shared<I, O>> for Start<I> {

}

impl<I: Ord, O> Act<Shared<I, O>> for Acquire {
    type Reply = Result<(), Error>;

    open spec fn effect(
        self,
        found: Ledger<I, O>,
        left: Ledger<I, O>,
        reply: Result<(), Error>,
    ) -> bool {
        left == found.acquired() && reply == found.ready()
    }

    fn perform(self, value: &mut Shared<I, O>) -> (reply: Result<(), Error>) {
        value.settle().acquire()
    }
}

impl<I: Ord, O> Entry<Shared<I, O>> for Acquire {

}

impl<'a, I: Ord, O> Act<Shared<I, O>> for Record<'a, I, O> {
    type Reply = Result<(), Error>;

    open spec fn effect(
        self,
        found: Ledger<I, O>,
        left: Ledger<I, O>,
        reply: Result<(), Error>,
    ) -> bool {
        reply == found.record(*self.id) && left == if reply is Ok {
            found.recorded(*self.id, self.output).released(false)
        } else {
            found
        }
    }

    fn perform(self, value: &mut Shared<I, O>) -> (reply: Result<(), Error>) {
        value.record(self.id, self.output)
    }
}

impl<'a, I: Ord, O> Step<Shared<I, O>> for Record<'a, I, O> {

}

impl<'a, I: Ord, O> Act<Shared<I, O>> for Finish<'a, I> {
    type Reply = Result<(), Error>;

    open spec fn effect(
        self,
        found: Ledger<I, O>,
        left: Ledger<I, O>,
        reply: Result<(), Error>,
    ) -> bool {
        left == found.finished(*self.id) && reply == found.finish(*self.id)
    }

    fn perform(self, value: &mut Shared<I, O>) -> (reply: Result<(), Error>) {
        value.settle().finish(self.id)
    }
}

impl<'a, I: Ord, O> Step<Shared<I, O>> for Finish<'a, I> {

}

impl<I: Ord, O> Act<Shared<I, O>> for Commit<I> {
    type Reply = Result<Option<Vec<O>>, Error>;

    open spec fn effect(
        self,
        found: Ledger<I, O>,
        left: Ledger<I, O>,
        reply: Result<Option<Vec<O>>, Error>,
    ) -> bool {
        left == found.committed(self.id) && match reply {
            Ok(Some(outputs)) => found.commit(self.id) == Ok::<Option<Seq<O>>, Error>(
                Some(outputs@),
            ),
            Ok(None) => found.commit(self.id) == Ok::<Option<Seq<O>>, Error>(None),
            Err(error) => found.commit(self.id) == Err::<Option<Seq<O>>, Error>(error),
        }
    }

    fn perform(self, value: &mut Shared<I, O>) -> (reply: Result<Option<Vec<O>>, Error>) {
        value.settle().commit(self.id)
    }
}

impl<I: Ord, O> Step<Shared<I, O>> for Commit<I> {

}

impl<'a, I: Ord, O> Act<Shared<I, O>> for CheckRollback<'a, I> {
    type Reply = Result<bool, Error>;

    open spec fn effect(
        self,
        found: Ledger<I, O>,
        left: Ledger<I, O>,
        reply: Result<bool, Error>,
    ) -> bool {
        left == found && reply == found.check_rollback(*self.id)
    }

    fn perform(self, value: &mut Shared<I, O>) -> (reply: Result<bool, Error>) {
        value.settle().check_rollback(self.id)
    }
}

impl<'a, I: Ord, O> Request<Shared<I, O>> for CheckRollback<'a, I> {

}

impl<I: Ord, O> Act<Shared<I, O>> for Rollback<I> {
    type Reply = Result<(), Error>;

    open spec fn effect(
        self,
        found: Ledger<I, O>,
        left: Ledger<I, O>,
        reply: Result<(), Error>,
    ) -> bool {
        left == found.rolled_back(self.id) && match found.check_rollback(self.id) {
            Ok(_) => reply is Ok,
            Err(error) => reply == Err::<(), Error>(error),
        }
    }

    fn perform(self, value: &mut Shared<I, O>) -> (reply: Result<(), Error>) {
        value.settle().rollback(self.id)
    }
}

impl<I: Ord, O> Step<Shared<I, O>> for Rollback<I> {

}

impl<'a, I: Ord, O> Act<Shared<I, O>> for CheckFinalize<'a, I> {
    type Reply = Result<(), Error>;

    open spec fn effect(
        self,
        found: Ledger<I, O>,
        left: Ledger<I, O>,
        reply: Result<(), Error>,
    ) -> bool {
        left == found && reply == found.check_finalize(*self.cutoff)
    }

    fn perform(self, value: &mut Shared<I, O>) -> (reply: Result<(), Error>) {
        value.settle().check_finalize(self.cutoff)
    }
}

impl<'a, I: Ord, O> Request<Shared<I, O>> for CheckFinalize<'a, I> {

}

impl<I: Ord, O> Act<Shared<I, O>> for Finalize<I> {
    type Reply = Result<(), Error>;

    open spec fn effect(
        self,
        found: Ledger<I, O>,
        left: Ledger<I, O>,
        reply: Result<(), Error>,
    ) -> bool {
        left == found.advanced(self.cutoff) && reply == found.check_finalize(self.cutoff)
    }

    fn perform(self, value: &mut Shared<I, O>) -> (reply: Result<(), Error>) {
        value.settle().finalize(self.cutoff)
    }
}

impl<I: Ord, O> Step<Shared<I, O>> for Finalize<I> {

}

impl<I: Ord, O: Clone> Act<Shared<I, O>> for Pending {
    type Reply = Vec<O>;

    open spec fn effect(self, found: Ledger<I, O>, left: Ledger<I, O>, reply: Vec<O>) -> bool {
        left == found && exists|all: Seq<O>| #[trigger] found.pending(all) && copies(all, reply@)
    }

    fn perform(self, value: &mut Shared<I, O>) -> (reply: Vec<O>) {
        value.settle().pending()
    }
}

impl<I: Ord, O: Clone> Request<Shared<I, O>> for Pending {

}

} // verus!
