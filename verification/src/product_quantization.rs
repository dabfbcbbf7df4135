//! The shape checks of product quantization: which training sets and vectors
//! a quantizer accepts, and the seed each subspace's clustering runs with.
use vstd::prelude::*;

verus! {

/// Errors training or using a quantizer.
#[derive(Debug, Clone, Copy, PartialEq, Eq, Structural)]
pub enum PqError {
    /// The vector dimension is not divisible by the number of subspaces.
    NotDivisible {
        /// Vector dimension.
        dim: usize,
        /// Requested subspaces.
        m: usize,
    },
    /// `k` (centroids per subspace) must be in `1..=256` so a code fits in a byte.
    BadK(usize),
    /// Not enough training vectors, empty input, or ragged dimensions.
    BadTraining,
    /// A vector handed to encode/decode had the wrong dimension.
    BadDimension {
        /// Expected dimension.
        expected: usize,
        /// Actual dimension.
        got: usize,
    },
}

/// The error training with vectors of lengths `dims`, `m` subspaces and `k`
/// centroids per subspace reports, checked in this order; `None` when
/// training may proceed.
pub open spec fn training_error(dims: Seq<usize>, m: usize, k: usize) -> Option<PqError> {
    if !(1 <= k <= 256) {
        Some(PqError::BadK(k))
    } else if dims.len() == 0 || dims[0] == 0 {
        Some(PqError::BadTraining)
    } else if exists|i: int| 0 <= i < dims.len() && #[trigger] dims[i] != dims[0] {
        Some(PqError::BadTraining)
    } else if m == 0 || dims[0] % m != 0 {
        Some(PqError::NotDivisible { dim: dims[0], m })
    } else if dims.len() < k {
        Some(PqError::BadTraining)
    } else {
        None
    }
}

/// Check a training set given by the lengths of its vectors; on success, the
/// dimension of each subspace.
pub fn check_training(dims: &[usize], m: usize, k: usize) -> (r: Result<usize, PqError>)
    ensures
        match training_error(dims@, m, k) {
            Some(e) => r == Err::<usize, PqError>(e),
            None => r == Ok::<usize, PqError>(dims@[0] / m),
        },
{
    if !(1 <= k && k <= 256) {
        return Err(PqError::BadK(k));
    }
    if dims.len() == 0 || dims[0] == 0 {
        return Err(PqError::BadTraining);
    }
    let dim = dims[0];
    let mut i: usize = 0;
    while i < dims.len()
        invariant
            i <= dims@.len(),
            1 <= k <= 256,
            dims@.len() > 0,
            dim == dims@[0],
            dim != 0,
            forall|j: int| 0 <= j < i ==> dims@[j] == dim,
        decreases dims@.len() - i,
    {
        if dims[i] != dim {
            assert(dims@[i as int] != dims@[0]);
            return Err(PqError::BadTraining);
        }
        i += 1;
    }
    if m == 0 || dim % m != 0 {
        return Err(PqError::NotDivisible { dim, m });
    }
    if dims.len() < k {
        return Err(PqError::BadTraining);
    }
    Ok(dim / m)
}

/// A vector handed to a quantizer of dimension `expected` must have that length.
pub fn check_dim(expected: usize, got: usize) -> (r: Result<(), PqError>)
    ensures
        r == (if got == expected {
            Ok::<(), PqError>(())
        } else {
            Err(PqError::BadDimension { expected, got })
        }),
{
    if got != expected {
        return Err(PqError::BadDimension { expected, got });
    }
    Ok(())
}

/// The seed the clustering of subspace `s` runs with: distinct per subspace
/// and fixed by the quantizer's seed.
pub fn subspace_seed(seed: u64, s: u64) -> (r: u64)
    requires
        s * 0x9E37 <= u64::MAX,
    ensures
        r == (seed + s * 0x9E37) % 0x1_0000_0000_0000_0000,
{
    seed.wrapping_add(s * 0x9E37)
}

} // verus!
