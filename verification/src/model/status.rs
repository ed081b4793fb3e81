use vstd::prelude::*;

verus! {

/// The signal that a bounded status gives when a change drives it onto
/// one of its limits.
#[derive(Debug, PartialEq, Eq, Clone, Copy, Structural)]
pub enum StatusError {
    /// The value fell to its minimum (a hit point total reached zero).
    MinLimitReached,
    /// The value rose to its maximum (fully recovered).
    MaxLimitReached,
}

} // verus!
