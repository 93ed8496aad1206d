//! The kinds of failure the engine reports.

use vstd::prelude::*;

verus! {

/// Why an operation gave no result.
#[derive(Clone, Copy, Debug, PartialEq, Eq, Structural)]
pub enum ErrorKind {
    /// No territory has the given id.
    UnknownTerritory,
    /// The input geometry is degenerate.
    BadGeometry,
    /// A structural guarantee of the engine did not hold.
    InvariantViolation,
}

} // verus!
