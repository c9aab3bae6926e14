//! Wires: indices into a circuit's value store.

use vstd::prelude::*;

verus! {

/// An index into a circuit's value store.
///
/// Index 0 is the constant FALSE and index 1 the constant TRUE. The largest
/// index is the void wire, which stands for "no wire".
#[derive(Debug, Clone, Copy, PartialEq, Eq, PartialOrd, Ord, Structural)]
pub struct Wire(pub usize);

impl Wire {
    /// The wire that always reads FALSE.
    pub open spec fn spec_zero() -> Wire {
        Wire(0)
    }

    /// The wire that always reads TRUE.
    pub open spec fn spec_one() -> Wire {
        Wire(1)
    }

    /// The wire that stands for a discarded slot.
    pub open spec fn spec_void() -> Wire {
        Wire(usize::MAX)
    }

    /// Whether this wire is the void wire.
    pub fn is_void(self) -> (b: bool)
        ensures
            b == (self == Self::spec_void()),
    {
        self.0 == usize::MAX
    }
}

} // verus!
