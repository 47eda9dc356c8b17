use vstd::prelude::*;

verus! {

/// Where an intent stands in its lifecycle. `Completed` and `Cancelled` are
/// terminal: no operation moves an intent out of them.
#[derive(Clone, Copy, Debug, PartialEq, Eq, Structural)]
pub enum IntentStatus {
    Created,
    Approved,
    Disputed,
    Completed,
    Cancelled,
}

} // verus!
