use vstd::prelude::*;

verus! {

/// The ways an operation of the machine can be refused.
#[derive(Debug, Clone, Copy, PartialEq, Eq, Structural)]
pub enum EnigmaError {
    /// A component could not be built from the values given: an odd contact
    /// count, a wiring that is not a bijection, sizes that do not agree, or a
    /// rotation state of the wrong shape.
    ConstructionError,
    /// An index at or beyond the contact count.
    RangeError,
}

} // verus!
