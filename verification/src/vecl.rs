//! Error correction levels.
use vstd::prelude::*;

verus! {

/// How much of a symbol is given to error correction, from the least (`L`)
/// to the most (`H`).
#[derive(Clone, Copy, PartialEq, Eq, Structural, Debug)]
pub enum ECL {
    /// Recovers about 7% of the codewords.
    L,
    /// Recovers about 15% of the codewords.
    M,
    /// Recovers about 25% of the codewords.
    Q,
    /// Recovers about 30% of the codewords.
    H,
}

impl ECL {
    /// Position of the level in the order of increasing redundancy.
    pub open spec fn spec_ordinal(self) -> int {
        match self {
            ECL::L => 0,
            ECL::M => 1,
            ECL::Q => 2,
            ECL::H => 3,
        }
    }

    /// Position of the level in the order of increasing redundancy.
    pub fn ordinal(&self) -> (n: usize)
        ensures
            n == self.spec_ordinal(),
    {
        match self {
            ECL::L => 0,
            ECL::M => 1,
            ECL::Q => 2,
            ECL::H => 3,
        }
    }

    /// The two bits that stand for the level in the format information.
    pub open spec fn spec_format_bits(self) -> int {
        match self {
            ECL::L => 1,
            ECL::M => 0,
            ECL::Q => 3,
            ECL::H => 2,
        }
    }

    /// The two bits that stand for the level in the format information.
    pub fn format_bits(&self) -> (n: u16)
        ensures
            n == self.spec_format_bits(),
    {
        match self {
            ECL::L => 1,
            ECL::M => 0,
            ECL::Q => 3,
            ECL::H => 2,
        }
    }
}

} // verus!
