//! The interface of a replicated data type, and the requests a store answers.

use vstd::prelude::*;

verus! {

/// A conflict-free replicated data type: every replica applies its own operations
/// and the operations it receives, and keeps a clock of what it has seen.
pub trait Crdt {
    type Clock: PartialEq;

    type Operation: Eq;

    /// Whether a local operation can be recorded without a counter overflowing.
    spec fn local_op_allowed(&self) -> bool;

    /// The clock of this replica.
    fn get_clock(&self) -> &Self::Clock;

    /// Takes in what `other` has seen.
    fn update_clock(&mut self, other: &Self::Clock);

    /// Applies an operation received from another replica, stamped with `op_clock`.
    fn recv_op(&mut self, op: &Self::Operation, op_clock: &Self::Clock);

    /// Applies an operation issued at this replica.
    fn local_op(&mut self, op: &Self::Operation)
        requires
            old(self).local_op_allowed(),
    ;
}

/// A request to a store.
#[derive(Debug)]
pub enum Message<Op: Eq> {
    Get(Op),
    Add(Op),
    GetAll,
    Restart,
}

/// The answer to a request.
#[derive(Debug)]
pub enum Response<Op: Eq> {
    Committed,
    Abort,
    Read(Op, bool),
    Error,
}

} // verus!
