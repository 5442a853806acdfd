use vstd::prelude::*;

verus! {

/// The ways in which a request can violate what the library relies on.
#[derive(Copy, Clone, Debug, PartialEq, Eq, Structural)]
pub enum Error {
    /// Some node of the position is not connected to the ground, or the
    /// ground itself is missing.
    InvalidPosition,
    /// A construction handed to the value table has no equal among the
    /// values, even after another generation: it is not numeric, or names an
    /// identity that the table lacks. The search never meets it.
    ArenaInvariantViolation,
    /// The edge to be cut is not an edge of the position.
    InvalidMove,
}

} // verus!
