//! The input check of root-mean-square normalization.
use vstd::prelude::*;

verus! {

/// Things that can go wrong applying RMSNorm.
#[derive(Debug, Clone, Copy, PartialEq, Eq, Structural)]
pub enum RmsNormError {
    /// The input length did not match the configured dimension.
    DimMismatch {
        /// Configured dimension (gain length).
        expected: usize,
        /// Observed input length.
        got: usize,
    },
}

/// An input of length `got` may be normalized by a normalizer of dimension
/// `dim` exactly when the two agree.
pub fn check_input(dim: usize, got: usize) -> (r: Result<(), RmsNormError>)
    ensures
        r == (if got == dim {
            Ok::<(), RmsNormError>(())
        } else {
            Err(RmsNormError::DimMismatch { expected: dim, got })
        }),
{
    if got != dim {
        return Err(RmsNormError::DimMismatch { expected: dim, got });
    }
    Ok(())
}

} // verus!
