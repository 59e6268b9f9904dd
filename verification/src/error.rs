//! Why a verification run did not end in success.
use vstd::prelude::*;
use crate::ship::ShipType;

verus! {

/// The ways in which checking a board against an inventory can fail. Each
/// one ends the run: nothing is retried.
#[derive(Clone, Copy, PartialEq, Eq, Structural, Debug)]
pub enum VerificationError {
    /// A variable could not be allocated in the constraint system.
    AllocationFailure,
    /// A lifted value could not be read back, a cell value is neither 0
    /// nor 1, or a ship size lies outside `1..=FIELD_SIZE`.
    AssignmentMissing,
    /// The board does not hold what the inventory claims. `ship` is the
    /// first inventory entry whose count differs from what was found on the
    /// board; it is `None` where the constraint system is unsatisfied and
    /// every count agrees.
    ConstraintViolation { ship: Option<ShipType> },
}

} // verus!
