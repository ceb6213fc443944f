use vstd::prelude::*;

verus! {

/// The ways an engine operation can fail.
///
/// Every error is terminal for the invocation that raised it: no partial
/// output is produced alongside one.
#[derive(Clone, Copy, Debug, PartialEq, Eq, Structural)]
pub enum NirustError {
    /// An affine matrix could not be inverted (its determinant is zero).
    SingularMatrix,
    /// An enumerated parameter was given a value outside its legal set,
    /// such as a hemisphere side that is neither "left" nor "right".
    InvalidArgument,
    /// An operation that needs a grid of one specific rank (for example the
    /// temporal-SNR map, which needs a time axis) was handed another rank.
    RankMismatch,
    /// A region of a parcellation had no member voxels, so its mean is
    /// undefined.
    EmptyRegion,
    /// An exact rational value left the range the engine can represent.
    ArithmeticOverflow,
}

} // verus!
