//! Geological orientation metadata: polarity, the angular fields that
//! conversions validate, and planar and linear orientations holding a signed
//! unit direction whose components are binary64 bit patterns.
use vstd::prelude::*;

use crate::binary64::{binary64_negated, negated_bits};
use crate::dimension::{Dim, SupportedDimension};

verus! {

/// Marker implemented by dimensions with geological orientation semantics:
/// exactly two and three.
pub trait SupportedOrientationDimension<const D: usize>: SupportedDimension<D> {
    proof fn lemma_orientation_supported()
        ensures
            2 <= D <= 3,
    ;
}

impl SupportedOrientationDimension<2> for Dim<2> {
    proof fn lemma_orientation_supported() {
    }
}

impl SupportedOrientationDimension<3> for Dim<3> {
    proof fn lemma_orientation_supported() {
    }
}

/// Sign relationship between a reported orientation and its stored direction.
#[derive(Clone, Copy, Debug, PartialEq, Eq, Structural, Hash)]
pub enum OrientationPolarity {
    /// Keep the reported or convention-derived reference direction.
    Positive,
    /// Store the antipode of the reported or convention-derived direction.
    Negative,
    /// Keep a deterministic representative but treat its sign as unknown.
    Unknown,
}

impl OrientationPolarity {
    /// Whether the orientation is axial: its sign is unknown.
    pub open spec fn spec_is_axial(self) -> bool {
        self == OrientationPolarity::Unknown
    }

    /// Returns whether the orientation is axial and invariant under sign.
    pub fn is_axial(self) -> (axial: bool)
        ensures
            axial == self.spec_is_axial(),
    {
        match self {
            OrientationPolarity::Unknown => true,
            _ => false,
        }
    }
}

/// Angular field being validated by an orientation conversion.
#[derive(Clone, Copy, Debug, PartialEq, Eq, Structural, Hash)]
pub enum OrientationAngleField {
    /// Signed dip in a two-dimensional vertical section.
    SignedDip,
    /// Right-hand-rule strike azimuth.
    Strike,
    /// Down-dip azimuth.
    DipDirection,
    /// Unsigned plane dip from horizontal.
    Dip,
    /// Lineation azimuth.
    Azimuth,
    /// Signed lineation plunge, positive downward.
    Plunge,
}

/// The components stored for a reported direction under a polarity: negated
/// for a negative polarity, kept otherwise.
pub open spec fn spec_signed_components<const D: usize>(
    components: [u64; D],
    polarity: OrientationPolarity,
) -> Seq<u64> {
    if polarity == OrientationPolarity::Negative {
        components@.map_values(|component: u64| binary64_negated(component))
    } else {
        components@
    }
}

/// Applies a polarity to reported direction components: a negative
/// polarity stores the antipode, exactly, by negating every component.
pub fn signed_components<const D: usize>(components: [u64; D], polarity: OrientationPolarity) -> (signed: [u64; D])
    ensures
        signed@ == spec_signed_components(components, polarity),
{
    match polarity {
        OrientationPolarity::Negative => {
            let mut signed = components;
            let mut axis: usize = 0;
            while axis < D
                invariant
                    axis <= D,
                    signed@.len() == D,
                    forall|i: int| 0 <= i < axis ==> signed@[i] == binary64_negated(components@[i]),
                    forall|i: int| axis <= i < D ==> signed@[i] == components@[i],
                decreases D - axis,
            {
                signed[axis] = negated_bits(components[axis]);
                axis += 1;
            }
            assert(signed@ =~= components@.map_values(|component: u64| binary64_negated(component)));
            signed
        },
        _ => components,
    }
}

/// Applying a negative polarity twice gives the reported components back.
pub proof fn lemma_negative_polarity_involution<const D: usize>(components: [u64; D], twice: [u64; D])
    requires
        twice@ == spec_signed_components(components, OrientationPolarity::Negative),
    ensures
        spec_signed_components(twice, OrientationPolarity::Negative) == components@,
{
    assert(spec_signed_components(twice, OrientationPolarity::Negative) =~= components@);
}

/// A plane orientation as a signed unit normal with polarity metadata.
#[derive(Clone, Copy, Debug)]
pub struct PlanarOrientation<const D: usize> {
    normal: [u64; D],
    polarity: OrientationPolarity,
}

impl<const D: usize> PlanarOrientation<D> {
    /// The stored signed unit normal.
    pub closed spec fn spec_normal(self) -> [u64; D] {
        self.normal
    }

    /// The preserved polarity metadata.
    pub closed spec fn spec_polarity(self) -> OrientationPolarity {
        self.polarity
    }

    /// Holds a signed unit normal (already normalized, with `polarity`
    /// applied) together with its polarity.
    pub fn from_signed_unit_normal(normal: [u64; D], polarity: OrientationPolarity) -> (orientation: Self)
        ensures
            orientation.spec_normal() == normal,
            orientation.spec_polarity() == polarity,
    {
        PlanarOrientation { normal, polarity }
    }

    /// Borrows the signed unit normal.
    pub fn normal(&self) -> (normal: &[u64; D])
        ensures
            *normal == self.spec_normal(),
    {
        &self.normal
    }

    /// Returns the signed unit normal.
    pub fn into_normal(self) -> (normal: [u64; D])
        ensures
            normal == self.spec_normal(),
    {
        self.normal
    }

    /// Returns the preserved polarity metadata.
    pub fn polarity(&self) -> (polarity: OrientationPolarity)
        ensures
            polarity == self.spec_polarity(),
    {
        self.polarity
    }

    /// Returns whether the normal sign is unknown.
    pub fn is_axial(&self) -> (axial: bool)
        ensures
            axial == self.spec_polarity().spec_is_axial(),
    {
        self.polarity.is_axial()
    }
}

/// A lineation as a signed unit direction with polarity metadata.
#[derive(Clone, Copy, Debug)]
pub struct LinearOrientation<const D: usize> {
    direction: [u64; D],
    polarity: OrientationPolarity,
}

impl<const D: usize> LinearOrientation<D> {
    /// The stored signed unit direction.
    pub closed spec fn spec_direction(self) -> [u64; D] {
        self.direction
    }

    /// The preserved polarity metadata.
    pub closed spec fn spec_polarity(self) -> OrientationPolarity {
        self.polarity
    }

    /// Holds a signed unit direction (already normalized, with `polarity`
    /// applied) together with its polarity.
    pub fn from_signed_unit_direction(direction: [u64; D], polarity: OrientationPolarity) -> (orientation: Self)
        ensures
            orientation.spec_direction() == direction,
            orientation.spec_polarity() == polarity,
    {
        LinearOrientation { direction, polarity }
    }

    /// Borrows the signed unit direction.
    pub fn direction(&self) -> (direction: &[u64; D])
        ensures
            *direction == self.spec_direction(),
    {
        &self.direction
    }

    /// Returns the signed unit direction.
    pub fn into_direction(self) -> (direction: [u64; D])
        ensures
            direction == self.spec_direction(),
    {
        self.direction
    }

    /// Returns the preserved polarity metadata.
    pub fn polarity(&self) -> (polarity: OrientationPolarity)
        ensures
            polarity == self.spec_polarity(),
    {
        self.polarity
    }

    /// Returns whether the direction sign is unknown.
    pub fn is_axial(&self) -> (axial: bool)
        ensures
            axial == self.spec_polarity().spec_is_axial(),
    {
        self.polarity.is_axial()
    }
}

} // verus!
