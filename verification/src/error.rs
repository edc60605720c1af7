use vstd::prelude::*;

verus! {

/// Errors surfaced by node construction, wait-set operations and the
/// executor's dispatch cycle.
///
/// A timeout while waiting is not an error: it is reported as an empty
/// readiness result. Take errors carry the handle of the endpoint they
/// belong to, so a caller can tell which endpoint misbehaved.
#[derive(Clone, Copy, PartialEq, Eq, Structural, Debug)]
pub enum RclrsError {
    /// The provider could not allocate a wait-set structure of the
    /// required size.
    WaitSetInitFailed,
    /// The wait set was sized without room for the handle being added.
    WaitSetFull,
    /// The same handle was registered twice in one wait-set build.
    AlreadyAdded,
    /// The provider reported an error while waiting that was not a timeout.
    WaitSetWaitFailed,
    /// Taking from a ready subscription failed with a provider error.
    SubscriptionTakeFailed { node: usize, id: u64 },
    /// Taking from a ready client failed with a provider error.
    ClientTakeFailed { node: usize, id: u64 },
    /// Taking from a ready service failed with a provider error.
    ServiceTakeFailed { node: usize, id: u64 },
    /// The context was already shut down when the operation needed it.
    InvalidContext,
}

} // verus!
