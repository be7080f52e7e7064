//! The errors of transactional locks and queues.

use vstd::prelude::*;
use vstd::string::StringExecFns;

verus! {

/// An error which may occur when attempting to acquire a transactional lock
#[derive(Clone, PartialEq, Eq)]
pub enum Error {
    /// Cannot acquire a write lock because the transaction is already committed
    Committed,
    /// Cannot write to the requested range because it's already been locked in the future
    Conflict,
    /// Cannot read or write to the requested range because it's already been finalized
    Outdated,
    /// Unable to acquire a transactional lock synchronously
    WouldBlock,
    /// A bounded transactional queue has reached its configured capacity
    Saturated,
    /// Another task or lifecycle operation holds exclusive admission.
    Busy,
    /// A task failed or was cancelled before completion.
    Failed,
    /// The transaction was rolled back.
    RolledBack,
    /// An armed operation did not complete; this owner cannot safely resume.
    Interrupted,
    /// An error occurred in a delegated operation.
    Background(String),
}

/// Declares tokio's error of a closed semaphore, which carries nothing to read.
#[verifier::external_type_specification]
#[verifier::external_body]
pub struct ExAcquireError(tokio::sync::AcquireError);

/// Declares tokio's error of an unsuccessful non-blocking acquisition, with its two variants.
#[verifier::external_type_specification]
pub struct ExTryAcquireError(tokio::sync::TryAcquireError);

/// Declares std's destination of formatted text, which cannot be read back.
#[verifier::external_type_specification]
#[verifier::external_body]
pub struct ExFormatter<'a>(std::fmt::Formatter<'a>);

/// Declares std's error of a destination that takes no text.
#[verifier::external_type_specification]
#[verifier::external_body]
pub struct ExFormatError(std::fmt::Error);

/// [`std::fmt::Formatter::write_str`] hands `text` to the destination. Nothing is claimed of the
/// destination or of the result: what becomes of the text, and whether it is refused, is up to
/// the writer behind the formatter.
#[verifier::external_body]
fn append(destination: &mut std::fmt::Formatter<'_>, text: &str) -> (result: Result<
    (),
    std::fmt::Error,
>) {
    destination.write_str(text)
}

impl Error {
    /// The text that describes an error.
    pub open spec fn text(self) -> Seq<char> {
        match self {
            Error::Committed => "cannot acquire an exclusive lock after committing"@,
            Error::Conflict => "there is a conflicting transactional lock on this resource"@,
            Error::Outdated => "the value has already been finalized"@,
            Error::WouldBlock => "synchronous lock acquisition failed"@,
            Error::Saturated => "transactional queue capacity exhausted"@,
            Error::Busy => "operation in progress"@,
            Error::Failed => "transaction contains a failed or cancelled task"@,
            Error::RolledBack => "transaction was rolled back"@,
            Error::Interrupted => "requires reload after an interrupted operation"@,
            Error::Background(cause) => "an error occured in a background task: "@ + cause@,
        }
    }

    /// Describe this error.
    pub fn message(&self) -> (message: String)
        ensures
            message@ == self.text(),
    {
        let text = match self {
            Error::Committed => "cannot acquire an exclusive lock after committing",
            Error::Conflict => "there is a conflicting transactional lock on this resource",
            Error::Outdated => "the value has already been finalized",
            Error::WouldBlock => "synchronous lock acquisition failed",
            Error::Saturated => "transactional queue capacity exhausted",
            Error::Busy => "operation in progress",
            Error::Failed => "transaction contains a failed or cancelled task",
            Error::RolledBack => "transaction was rolled back",
            Error::Interrupted => "requires reload after an interrupted operation",
            Error::Background(cause) => {
                let prefix = "an error occured in a background task: ";
                return prefix.to_owned().concat(cause.as_str());
            },
        };
        text.to_owned()
    }
}

impl std::fmt::Debug for Error {
    /// Print the text that describes this error.
    fn fmt(&self, f: &mut std::fmt::Formatter<'_>) -> (result: Result<(), std::fmt::Error>) {
        append(f, self.message().as_str())
    }
}

impl From<tokio::sync::AcquireError> for Error {
    fn from(_cause: tokio::sync::AcquireError) -> (error: Self) {
        Error::Outdated
    }
}

impl vstd::std_specs::convert::FromSpecImpl<tokio::sync::AcquireError> for Error {
    open spec fn obeys_from_spec() -> bool {
        true
    }

    open spec fn from_spec(_cause: tokio::sync::AcquireError) -> Self {
        Error::Outdated
    }
}

impl From<tokio::sync::TryAcquireError> for Error {
    fn from(cause: tokio::sync::TryAcquireError) -> (error: Self) {
        match cause {
            tokio::sync::TryAcquireError::Closed => Error::Outdated,
            tokio::sync::TryAcquireError::NoPermits => Error::WouldBlock,
        }
    }
}

impl vstd::std_specs::convert::FromSpecImpl<tokio::sync::TryAcquireError> for Error {
    open spec fn obeys_from_spec() -> bool {
        true
    }

    open spec fn from_spec(cause: tokio::sync::TryAcquireError) -> Self {
        match cause {
            tokio::sync::TryAcquireError::Closed => Error::Outdated,
            tokio::sync::TryAcquireError::NoPermits => Error::WouldBlock,
        }
    }
}

} // verus!
