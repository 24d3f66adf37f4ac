//! Transactions: the only way in which the prevailed data changes.
use vstd::prelude::*;

verus! {

/// A modification of a `Target`.
///
/// What a transaction does may depend on nothing but the transaction and the
/// target: a log holds transactions, and the state that it stands for is what
/// executing them again in order leaves behind. `after` and `output` name what
/// one execution leaves in the target and what it returns. An implementation that
/// is itself verified says what they are; another need not mention them.
pub trait Transaction<Target>: Sized {
    type Output;

    /// What `self` leaves of `target`.
    closed spec fn after(self, target: Target) -> Target {
        arbitrary()
    }

    /// What `self` returns when it is executed on `target`.
    closed spec fn output(self, target: Target) -> Self::Output {
        arbitrary()
    }

    fn execute(self, target: &mut Target) -> (result: Self::Output)
        ensures
            *final(target) == self.after(*old(target)),
            result == self.output(*old(target)),
    ;
}

} // verus!
