//! Why an encoding failed.
use vstd::prelude::*;

verus! {

/// Why no symbol was produced.
#[derive(Clone, Copy, PartialEq, Eq, Structural, Debug)]
pub enum EncodeError {
    /// The data is longer than the largest version holds in its mode at the
    /// level asked for, or than its character count can say.
    CapacityExceeded,
    /// The data is longer than the version asked for holds in its mode at
    /// the level asked for.
    InvalidVersionHint,
    /// The tables or the placement disagree among themselves.
    InternalConsistency,
}

} // verus!
