pub mod arith;
pub mod tiles;
pub mod strides;
pub mod meta_shape;
pub mod meta;
pub mod tensor;
pub mod perm_map;
pub mod tile_split;
pub mod transpose;
pub mod slice;
pub mod restructure;
pub mod concat;
pub mod laws;
pub mod logical;

use vstd::prelude::*;

verus! {

/// Structural precondition violations that a transform reports.
///
/// Every error marks caller misuse of the layout algebra (a mismatched
/// tile product, an invalid axis index), never a data-dependent run-time
/// condition.
#[derive(Clone, Copy, PartialEq, Eq, Structural, Debug)]
pub enum TransformError {
    /// A product or extent does not match the extent it must reproduce.
    ShapeMismatch,
    /// An axis index reaches the sentinel axis or lies beyond it.
    AxisOutOfRange,
    /// A permutation names the same destination axis twice.
    DuplicateAxis,
    /// Replacement dimension groups do not sum to the tile rank.
    GroupSumMismatch,
    /// A descriptor list does not cover exactly the non-sentinel axes.
    RankMismatch,
}

} // verus!
