//! The errors that the operations on worlds and registries report.

use vstd::prelude::*;
use vstd::std_specs::cmp::PartialEqSpecImpl;

verus! {

/// Why an operation was refused, or why a wait brought no value.
#[derive(Debug)]
pub enum WorldError {
    /// No world is registered under this identifier.
    NotFound(String),
    /// A world is already registered under this identifier.
    DuplicateId(String),
    /// The world is running and cannot be started again.
    AlreadyRunning,
    /// The world has finished or failed and cannot be started again.
    AlreadyCompleted,
    /// The world is not running.
    NotRunning,
    /// The world under this identifier is running and cannot be removed.
    StillRunning(String),
    /// The world holds no callable: none was given, or it was taken by an
    /// earlier start.
    NoCallable,
    /// The world finished and its value was handed out by an earlier wait.
    ResultAlreadyRetrieved,
    /// The callable broke off; the text says why.
    Failed(String),
    /// The world was stopped before it delivered a result.
    Stopped,
    /// The value is not of the type that was asked for.
    TypeMismatch,
}

impl WorldError {
    /// The error written out as a sentence. `Failed` is written as its
    /// reason alone.
    pub open spec fn text(self) -> Seq<char> {
        match self {
            WorldError::NotFound(id) => "World with ID '"@ + id@ + "' not found."@,
            WorldError::DuplicateId(id) => "World with ID '"@ + id@ + "' already exists."@,
            WorldError::AlreadyRunning => "World is already running."@,
            WorldError::AlreadyCompleted =>
                "World has already completed or failed and cannot be restarted."@,
            WorldError::NotRunning => "World is not running or already stopped."@,
            WorldError::StillRunning(id) => "Cannot delete running World with ID '"@ + id@
                + "'. Stop it first."@,
            WorldError::NoCallable => "No process defined for this World."@,
            WorldError::ResultAlreadyRetrieved => "World result already retrieved."@,
            WorldError::Failed(reason) => reason@,
            WorldError::Stopped => "World was stopped before completion."@,
            WorldError::TypeMismatch => "World result is not of the requested type."@,
        }
    }

    /// Two errors are alike when they are the same variant and carry the
    /// same text.
    pub open spec fn alike(self, other: WorldError) -> bool {
        match (self, other) {
            (WorldError::NotFound(a), WorldError::NotFound(b)) => a@ == b@,
            (WorldError::DuplicateId(a), WorldError::DuplicateId(b)) => a@ == b@,
            (WorldError::AlreadyRunning, WorldError::AlreadyRunning) => true,
            (WorldError::AlreadyCompleted, WorldError::AlreadyCompleted) => true,
            (WorldError::NotRunning, WorldError::NotRunning) => true,
            (WorldError::StillRunning(a), WorldError::StillRunning(b)) => a@ == b@,
            (WorldError::NoCallable, WorldError::NoCallable) => true,
            (WorldError::ResultAlreadyRetrieved, WorldError::ResultAlreadyRetrieved) => true,
            (WorldError::Failed(a), WorldError::Failed(b)) => a@ == b@,
            (WorldError::Stopped, WorldError::Stopped) => true,
            (WorldError::TypeMismatch, WorldError::TypeMismatch) => true,
            _ => false,
        }
    }

    /// Renders the error as text.
    pub fn to_string(&self) -> (out: String)
        ensures
            out@ == self.text(),
    {
        match self {
            WorldError::NotFound(id) => String::from_str("World with ID '").concat(
                id.as_str(),
            ).concat("' not found."),
            WorldError::DuplicateId(id) => String::from_str("World with ID '").concat(
                id.as_str(),
            ).concat("' already exists."),
            WorldError::AlreadyRunning => String::from_str("World is already running."),
            WorldError::AlreadyCompleted => String::from_str(
                "World has already completed or failed and cannot be restarted.",
            ),
            WorldError::NotRunning => String::from_str("World is not running or already stopped."),
            WorldError::StillRunning(id) => String::from_str(
                "Cannot delete running World with ID '",
            ).concat(id.as_str()).concat("'. Stop it first."),
            WorldError::NoCallable => String::from_str("No process defined for this World."),
            WorldError::ResultAlreadyRetrieved => String::from_str("World result already retrieved."),
            WorldError::Failed(reason) => reason.clone(),
            WorldError::Stopped => String::from_str("World was stopped before completion."),
            WorldError::TypeMismatch => String::from_str(
                "World result is not of the requested type.",
            ),
        }
    }
}

impl PartialEq for WorldError {
    fn eq(&self, other: &WorldError) -> (same: bool) {
        match (self, other) {
            (WorldError::NotFound(a), WorldError::NotFound(b)) => *a == *b,
            (WorldError::DuplicateId(a), WorldError::DuplicateId(b)) => *a == *b,
            (WorldError::AlreadyRunning, WorldError::AlreadyRunning) => true,
            (WorldError::AlreadyCompleted, WorldError::AlreadyCompleted) => true,
            (WorldError::NotRunning, WorldError::NotRunning) => true,
            (WorldError::StillRunning(a), WorldError::StillRunning(b)) => *a == *b,
            (WorldError::NoCallable, WorldError::NoCallable) => true,
            (WorldError::ResultAlreadyRetrieved, WorldError::ResultAlreadyRetrieved) => true,
            (WorldError::Failed(a), WorldError::Failed(b)) => *a == *b,
            (WorldError::Stopped, WorldError::Stopped) => true,
            (WorldError::TypeMismatch, WorldError::TypeMismatch) => true,
            _ => false,
        }
    }
}

impl PartialEqSpecImpl for WorldError {
    open spec fn obeys_eq_spec() -> bool {
        true
    }

    open spec fn eq_spec(&self, other: &WorldError) -> bool {
        self.alike(*other)
    }
}

} // verus!
