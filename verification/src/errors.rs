//! The error kinds of the core.

use vstd::prelude::*;

verus! {

/// Everything that a core operation can report.
///
/// `DimensionMismatch`: a vector was built from the wrong number of
/// components. `InvalidRadius`: a body was given a radius that is not
/// positive. `DegenerateContact`: a collision of two bodies whose centers
/// coincide cannot be resolved. `Overflow`: an exact rational result left
/// the machine range; the machine word forces this kind, which ideal
/// rational arithmetic would not need.
#[derive(Clone, Copy, Debug, PartialEq, Eq, Structural)]
pub enum SimError {
    DimensionMismatch,
    InvalidRadius,
    DegenerateContact,
    Overflow,
}

} // verus!
