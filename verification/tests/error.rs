use std::future::Future;
use std::task::{Context, Poll, Waker};

use tokio::sync::{Semaphore, TryAcquireError};
use txn_lock::Error;

#[test]
fn every_error_has_its_message() {
    for (error, message) in [
        (
            Error::Committed,
            "cannot acquire an exclusive lock after committing",
        ),
        (
            Error::Conflict,
            "there is a conflicting transactional lock on this resource",
        ),
        (Error::Outdated, "the value has already been finalized"),
        (Error::WouldBlock, "synchronous lock acquisition failed"),
        (Error::Saturated, "transactional queue capacity exhausted"),
        (Error::Busy, "operation in progress"),
        (
            Error::Failed,
            "transaction contains a failed or cancelled task",
        ),
        (Error::RolledBack, "transaction was rolled back"),
        (
            Error::Interrupted,
            "requires reload after an interrupted operation",
        ),
        (
            Error::Background(String::from("disk full")),
            "an error occured in a background task: disk full",
        ),
        (
            Error::Background(String::new()),
            "an error occured in a background task: ",
        ),
    ] {
        assert_eq!(error.message(), message);
        assert_eq!(format!("{error:?}"), message);
        assert_eq!(format!("{error:#?}"), message);
        assert_eq!(format!("{error:80?}"), message);
    }
}

#[test]
fn semaphore_errors_convert() {
    let semaphore = Semaphore::new(1);
    let permit = semaphore.try_acquire().unwrap();
    let busy = semaphore.try_acquire().unwrap_err();
    assert_eq!(busy, TryAcquireError::NoPermits);
    assert_eq!(Error::from(busy), Error::WouldBlock);
    drop(permit);
    semaphore.close();
    let closed = semaphore.try_acquire().unwrap_err();
    assert_eq!(closed, TryAcquireError::Closed);
    assert_eq!(Error::from(closed), Error::Outdated);
    let mut acquire = Box::pin(semaphore.acquire());
    let mut context = Context::from_waker(Waker::noop());
    let polled = acquire.as_mut().poll(&mut context);
    match polled {
        Poll::Ready(Err(error)) => assert_eq!(Error::from(error), Error::Outdated),
        _ => panic!("a closed semaphore is acquired at once, with an error"),
    }
}

#[test]
fn errors_compare_by_variant_and_cause() {
    let error = Error::Background(String::from("cause"));
    assert_eq!(error.clone(), error);
    assert_ne!(error, Error::Background(String::from("other")));
    assert_ne!(Error::Busy, Error::Interrupted);
}
