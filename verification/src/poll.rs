use vstd::prelude::*;

verus! {

/// What one `advance` call on a suspendable computation reports: either the
/// computation finished with an outcome, or it cannot make progress right
/// now and has recorded internally what it is waiting for.
#[derive(Clone, Copy, Debug, PartialEq, Eq)]
pub enum Poll<T> {
    /// The computation cannot progress now.
    Pending,
    /// The computation finished with this outcome.
    Ready(T),
}

} // verus!
