use vstd::prelude::*;

verus! {

/// Why a derivation run failed.
#[derive(Clone, Copy, Debug, PartialEq, Eq, Structural)]
pub enum PinError {
    /// The serial number of a reader could not be obtained.
    IdentifierUnavailable,
    /// The pseudo-random buffer ran out of acceptable bytes.
    Exhausted,
    /// A PIN index at or beyond the number of PINs was requested.
    IndexOutOfRange,
    /// An algorithm selector outside the known set was requested.
    UnsupportedAlgorithm,
}

} // verus!
