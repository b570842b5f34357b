//! Compile-time spatial dimensions supported by the library.
use vstd::prelude::*;

verus! {

/// Marker for the compile-time spatial dimension `D`.
pub struct Dim<const D: usize>;

/// Implemented exactly for the supported spatial dimensions one, two and three.
///
/// A value generic over `D` with the bound `Dim<D>: SupportedDimension<D>` can only
/// be named for `D` in `1..=3`; the proof method makes that range available to
/// proofs inside such generic code.
pub trait SupportedDimension<const D: usize> {
    proof fn lemma_supported()
        ensures
            1 <= D <= 3,
    ;
}

impl SupportedDimension<1> for Dim<1> {
    proof fn lemma_supported() {
    }
}

impl SupportedDimension<2> for Dim<2> {
    proof fn lemma_supported() {
    }
}

impl SupportedDimension<3> for Dim<3> {
    proof fn lemma_supported() {
    }
}

} // verus!
