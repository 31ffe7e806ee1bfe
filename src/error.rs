use vstd::prelude::*;

verus! {

/// Why a cipher, a register or a seed could not be set up.
#[derive(Clone, Copy, Debug, PartialEq, Eq, Structural)]
pub enum ConfigError {
    /// No feedback polynomial is registered for the `(p, size)` pair.
    UnregisteredTaps,
    /// The registered tap vector does not hold `size + 1` coefficients.
    TapCount,
    /// A tap coefficient is not below `p`.
    TapOutOfRange,
    /// A seed does not hold exactly `size` values.
    SeedLength,
    /// A seed value is not below `p`.
    SeedOutOfRange,
    /// The S-box does not hold exactly `p` entries.
    SboxLength,
    /// The mixing matrix is not `a x a`.
    MatrixShape,
    /// A mixing-matrix entry is not below `p`.
    MatrixEntryOutOfRange,
    /// The filter mask is not `a x a`.
    FilterShape,
    /// The filter mask does not select exactly `r` cells.
    FilterCount,
    /// The master key is not exactly 16 bytes long.
    MasterKeyLength,
    /// The hash output ran out before enough values were accepted.
    SampleExhausted,
}

} // verus!
