//! The lifecycle status of a world.

use vstd::prelude::*;
use vstd::std_specs::cmp::PartialEqSpecImpl;

verus! {

/// Where a world stands in its lifecycle.
///
/// A world is created `Ready`, becomes `Running` when it is started and
/// leaves `Running` exactly once: to `Finished` when its callable returned,
/// to `Failed` when the callable broke off, or to `Stopped` when it was told
/// to stop first. No status is ever left for `Ready` or `Running` again.
#[derive(Debug)]
pub enum WorldStatus {
    /// Created and not yet started.
    Ready,
    /// Started; the callable has not reported an outcome yet.
    Running,
    /// The callable returned a value.
    Finished,
    /// The callable broke off; the text says why.
    Failed(String),
    /// Stopped from outside while it was running.
    Stopped,
}

impl WorldStatus {
    /// `Finished` and `Failed` are the completed states.
    pub open spec fn is_completed(self) -> bool {
        self is Finished || self is Failed
    }

    /// The lifecycle's edges: a status stays, or goes from `Ready` to
    /// `Running`, or from `Running` to `Finished`, `Failed` or `Stopped`.
    pub open spec fn leads_to(self, after: WorldStatus) -> bool {
        ||| after == self
        ||| self is Ready && after is Running
        ||| self is Running && (after is Finished || after is Failed || after is Stopped)
    }

    /// The status written out: the variant's name, and for `Failed` the
    /// reason behind `"Failed: "`.
    pub open spec fn text(self) -> Seq<char> {
        match self {
            WorldStatus::Ready => "Ready"@,
            WorldStatus::Running => "Running"@,
            WorldStatus::Finished => "Finished"@,
            WorldStatus::Failed(reason) => "Failed: "@ + reason@,
            WorldStatus::Stopped => "Stopped"@,
        }
    }

    /// Two statuses are alike when they are the same variant and, for
    /// `Failed`, carry the same text.
    pub open spec fn alike(self, other: WorldStatus) -> bool {
        match (self, other) {
            (WorldStatus::Ready, WorldStatus::Ready) => true,
            (WorldStatus::Running, WorldStatus::Running) => true,
            (WorldStatus::Finished, WorldStatus::Finished) => true,
            (WorldStatus::Failed(a), WorldStatus::Failed(b)) => a@ == b@,
            (WorldStatus::Stopped, WorldStatus::Stopped) => true,
            _ => false,
        }
    }

    /// Renders the status as text.
    pub fn to_string(&self) -> (out: String)
        ensures
            out@ == self.text(),
    {
        match self {
            WorldStatus::Ready => String::from_str("Ready"),
            WorldStatus::Running => String::from_str("Running"),
            WorldStatus::Finished => String::from_str("Finished"),
            WorldStatus::Failed(reason) => String::from_str("Failed: ").concat(reason.as_str()),
            WorldStatus::Stopped => String::from_str("Stopped"),
        }
    }
}

impl Clone for WorldStatus {
    fn clone(&self) -> (out: Self)
        ensures
            out == *self,
    {
        match self {
            WorldStatus::Ready => WorldStatus::Ready,
            WorldStatus::Running => WorldStatus::Running,
            WorldStatus::Finished => WorldStatus::Finished,
            WorldStatus::Failed(reason) => WorldStatus::Failed(reason.clone()),
            WorldStatus::Stopped => WorldStatus::Stopped,
        }
    }
}

impl PartialEq for WorldStatus {
    fn eq(&self, other: &WorldStatus) -> (same: bool) {
        match (self, other) {
            (WorldStatus::Ready, WorldStatus::Ready) => true,
            (WorldStatus::Running, WorldStatus::Running) => true,
            (WorldStatus::Finished, WorldStatus::Finished) => true,
            (WorldStatus::Failed(a), WorldStatus::Failed(b)) => *a == *b,
            (WorldStatus::Stopped, WorldStatus::Stopped) => true,
            _ => false,
        }
    }
}

impl PartialEqSpecImpl for WorldStatus {
    open spec fn obeys_eq_spec() -> bool {
        true
    }

    open spec fn eq_spec(&self, other: &WorldStatus) -> bool {
        self.alike(*other)
    }
}

} // verus!
