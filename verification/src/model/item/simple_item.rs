use vstd::prelude::*;

verus! {

/// The ways an operation on plain item stacks can be refused.
#[derive(Debug, PartialEq, Eq, Clone, Copy, Structural)]
pub enum ItemError {
    /// A split asked for more than the stack holds.
    InsufficientAmountToSplit,
    /// The container holds less of the item than was asked for.
    InsufficientTotalAmount,
}

} // verus!
