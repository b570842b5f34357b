//! Radial jets: finite radial derivatives (binary64 bit patterns) through
//! third order, their stable expansion coefficients, and the exact sign
//! changes that center-argument derivatives apply to spatial tensors.
use vstd::prelude::*;

use crate::binary64::{binary64_is_finite, binary64_negated, is_finite_bits, negated_bits};
use crate::kernel_calculus::{KernelArgument, RadialDerivativeOrder, RadialExpansionCoefficient, RadialJetLocation};

verus! {

/// Error returned by radial kernel derivative validation; values are
/// binary64 bit patterns.
#[derive(Clone, Copy, Debug, PartialEq, Eq, Structural, Hash)]
#[non_exhaustive]
pub enum KernelCalculusError {
    /// A radial value or derivative is NaN or infinite.
    NonFiniteRadialDerivative {
        /// Rejected derivative order.
        order: RadialDerivativeOrder,
        /// Rejected value.
        value: u64,
    },
    /// A stable radial expansion coefficient is NaN or infinite.
    NonFiniteRadialExpansionCoefficient {
        /// Rejected coefficient.
        coefficient: RadialExpansionCoefficient,
        /// Rejected value.
        value: u64,
    },
    /// D=2 or D=3 expansion was requested without stable radial coefficients.
    MissingRadialExpansionCoefficients {
        /// Spatial dimension that requires the coefficients.
        dimension: usize,
    },
    /// Subtracting query and center coordinates produced a non-finite value.
    NonFiniteDisplacementComponent {
        /// Coordinate axis of the failed subtraction.
        axis: usize,
    },
    /// The Euclidean radius is larger than the finite `f64` domain.
    NonRepresentableRadius,
    /// A center jet was paired with distinct points or an away jet with a center.
    JetLocationMismatch {
        /// Location determined from the point separation.
        separation: RadialJetLocation,
        /// Location declared by the radial jet.
        jet: RadialJetLocation,
    },
}

/// The radial derivative order at position `index` of a jet.
pub open spec fn order_at(index: int) -> RadialDerivativeOrder {
    if index == 0 {
        RadialDerivativeOrder::Value
    } else if index == 1 {
        RadialDerivativeOrder::First
    } else if index == 2 {
        RadialDerivativeOrder::Second
    } else {
        RadialDerivativeOrder::Third
    }
}

/// The outcome of validating radial derivatives in order: the first
/// non-finite one is reported.
pub open spec fn derivatives_check(derivatives: Seq<u64>) -> Result<(), KernelCalculusError> {
    if exists|index: int| 0 <= index < derivatives.len() && !binary64_is_finite(#[trigger] derivatives[index]) {
        let index = choose|index: int|
            0 <= index < derivatives.len() && !binary64_is_finite(#[trigger] derivatives[index]) && forall|
                earlier: int,
            | 0 <= earlier < index ==> binary64_is_finite(derivatives[earlier]);
        Err(KernelCalculusError::NonFiniteRadialDerivative { order: order_at(index), value: derivatives[index] })
    } else {
        Ok(())
    }
}

/// Checks that one radial derivative is finite.
pub fn validate_radial_derivative(order: RadialDerivativeOrder, value: u64) -> (result: Result<(), KernelCalculusError>)
    ensures
        binary64_is_finite(value) ==> result is Ok,
        !binary64_is_finite(value) ==> result == Err::<(), KernelCalculusError>(
            KernelCalculusError::NonFiniteRadialDerivative { order, value },
        ),
{
    if is_finite_bits(value) {
        Ok(())
    } else {
        Err(KernelCalculusError::NonFiniteRadialDerivative { order, value })
    }
}

/// Checks that one expansion coefficient is finite.
pub fn validate_radial_expansion_coefficient(coefficient: RadialExpansionCoefficient, value: u64) -> (result: Result<
    (),
    KernelCalculusError,
>)
    ensures
        binary64_is_finite(value) ==> result is Ok,
        !binary64_is_finite(value) ==> result == Err::<(), KernelCalculusError>(
            KernelCalculusError::NonFiniteRadialExpansionCoefficient { coefficient, value },
        ),
{
    if is_finite_bits(value) {
        Ok(())
    } else {
        Err(KernelCalculusError::NonFiniteRadialExpansionCoefficient { coefficient, value })
    }
}

/// Checks radial value and derivatives in order zero through three.
pub fn validate_radial_derivatives(derivatives: &[u64; 4]) -> (result: Result<(), KernelCalculusError>)
    ensures
        result == derivatives_check(derivatives@),
{
    let mut index: usize = 0;
    while index < 4
        invariant
            index <= 4,
            forall|earlier: int| 0 <= earlier < index ==> binary64_is_finite(#[trigger] derivatives@[earlier]),
        decreases 4 - index,
    {
        let order = if index == 0 {
            RadialDerivativeOrder::Value
        } else if index == 1 {
            RadialDerivativeOrder::First
        } else if index == 2 {
            RadialDerivativeOrder::Second
        } else {
            RadialDerivativeOrder::Third
        };
        let value = derivatives[index];
        if !is_finite_bits(value) {
            proof {
                let chosen = choose|i: int|
                    0 <= i < derivatives@.len() && !binary64_is_finite(#[trigger] derivatives@[i]) && forall|
                        earlier: int,
                    | 0 <= earlier < i ==> binary64_is_finite(derivatives@[earlier]);
                assert(0 <= index < derivatives@.len() && !binary64_is_finite(derivatives@[index as int])
                    && forall|earlier: int| 0 <= earlier < index ==> binary64_is_finite(derivatives@[earlier]));
                if chosen < index {
                    assert(binary64_is_finite(derivatives@[chosen]));
                } else if chosen > index {
                    assert(binary64_is_finite(derivatives@[index as int]));
                }
            }
            return Err(KernelCalculusError::NonFiniteRadialDerivative { order, value });
        }
        index += 1;
    }
    Ok(())
}

/// Finite away-from-center expansion coefficients `phi'(r)/r` and
/// `(phi''(r) - phi'(r)/r)/r`, as binary64 bits.
#[derive(Clone, Copy, Debug, PartialEq, Eq, Structural, Hash)]
pub struct RadialExpansionCoefficients {
    first_over_radius: u64,
    second_remainder_over_radius: u64,
}

impl RadialExpansionCoefficients {
    /// The coefficient `phi'(r) / r`.
    pub closed spec fn spec_first_over_radius(self) -> u64 {
        self.first_over_radius
    }

    /// The coefficient `(phi''(r) - phi'(r) / r) / r`.
    pub closed spec fn spec_second_remainder_over_radius(self) -> u64 {
        self.second_remainder_over_radius
    }

    /// Constructs finite coefficients, reporting the first non-finite one.
    pub fn try_new(first_over_radius: u64, second_remainder_over_radius: u64) -> (result: Result<
        Self,
        KernelCalculusError,
    >)
        ensures
            !binary64_is_finite(first_over_radius) ==> result == Err::<Self, KernelCalculusError>(
                KernelCalculusError::NonFiniteRadialExpansionCoefficient {
                    coefficient: RadialExpansionCoefficient::FirstOverRadius,
                    value: first_over_radius,
                },
            ),
            binary64_is_finite(first_over_radius) && !binary64_is_finite(second_remainder_over_radius)
                ==> result == Err::<Self, KernelCalculusError>(
                KernelCalculusError::NonFiniteRadialExpansionCoefficient {
                    coefficient: RadialExpansionCoefficient::SecondRemainderOverRadius,
                    value: second_remainder_over_radius,
                },
            ),
            binary64_is_finite(first_over_radius) && binary64_is_finite(second_remainder_over_radius) ==> (
            result matches Ok(coefficients) && coefficients.spec_first_over_radius() == first_over_radius
                && coefficients.spec_second_remainder_over_radius() == second_remainder_over_radius),
    {
        validate_radial_expansion_coefficient(RadialExpansionCoefficient::FirstOverRadius, first_over_radius)?;
        validate_radial_expansion_coefficient(
            RadialExpansionCoefficient::SecondRemainderOverRadius,
            second_remainder_over_radius,
        )?;
        Ok(RadialExpansionCoefficients { first_over_radius, second_remainder_over_radius })
    }

    /// Returns `phi'(r) / r`.
    pub fn first_over_radius(&self) -> (value: u64)
        ensures
            value == self.spec_first_over_radius(),
    {
        self.first_over_radius
    }

    /// Returns `(phi''(r) - phi'(r) / r) / r`.
    pub fn second_remainder_over_radius(&self) -> (value: u64)
        ensures
            value == self.spec_second_remainder_over_radius(),
    {
        self.second_remainder_over_radius
    }
}

/// Finite radial values required for zero-through-third spatial
/// derivatives; a center jet has zero first and third derivatives.
#[derive(Clone, Copy, Debug, PartialEq, Eq, Hash)]
pub struct RadialJet {
    location: RadialJetLocation,
    derivatives: [u64; 4],
    expansion_coefficients: Option<RadialExpansionCoefficients>,
}

impl RadialJet {
    /// Where the jet was taken.
    pub closed spec fn spec_location(self) -> RadialJetLocation {
        self.location
    }

    /// `phi(r)` through `phi'''(r)`, as binary64 bits.
    pub closed spec fn spec_derivatives(self) -> Seq<u64> {
        self.derivatives@
    }

    /// The stable expansion coefficients of an away jet, if supplied.
    pub closed spec fn spec_expansion_coefficients(self) -> Option<RadialExpansionCoefficients> {
        self.expansion_coefficients
    }

    /// Constructs an away-from-center jet from finite radial derivatives,
    /// reporting the first non-finite one in order zero through three.
    pub fn try_away(value: u64, first: u64, second: u64, third: u64) -> (result: Result<Self, KernelCalculusError>)
        ensures
            derivatives_check(seq![value, first, second, third]) is Err ==> result == Err::<Self, KernelCalculusError>(
                derivatives_check(seq![value, first, second, third])->Err_0,
            ),
            derivatives_check(seq![value, first, second, third]) is Ok ==> (result matches Ok(jet)
                && jet.spec_location() == RadialJetLocation::AwayFromCenter && jet.spec_derivatives() == seq![
                value,
                first,
                second,
                third,
            ] && jet.spec_expansion_coefficients() is None),
    {
        let derivatives = [value, first, second, third];
        proof {
            assert(derivatives@ =~= seq![value, first, second, third]);
        }
        validate_radial_derivatives(&derivatives)?;
        Ok(RadialJet { location: RadialJetLocation::AwayFromCenter, derivatives, expansion_coefficients: None })
    }

    /// Constructs an away jet with stable two- and three-dimensional
    /// expansion coefficients.
    pub fn try_away_with_expansion(
        value: u64,
        first: u64,
        second: u64,
        third: u64,
        expansion_coefficients: RadialExpansionCoefficients,
    ) -> (result: Result<Self, KernelCalculusError>)
        ensures
            derivatives_check(seq![value, first, second, third]) is Err ==> result == Err::<Self, KernelCalculusError>(
                derivatives_check(seq![value, first, second, third])->Err_0,
            ),
            derivatives_check(seq![value, first, second, third]) is Ok ==> (result matches Ok(jet)
                && jet.spec_location() == RadialJetLocation::AwayFromCenter && jet.spec_derivatives() == seq![
                value,
                first,
                second,
                third,
            ] && jet.spec_expansion_coefficients() == Some(expansion_coefficients)),
    {
        let derivatives = [value, first, second, third];
        proof {
            assert(derivatives@ =~= seq![value, first, second, third]);
        }
        validate_radial_derivatives(&derivatives)?;
        Ok(
            RadialJet {
                location: RadialJetLocation::AwayFromCenter,
                derivatives,
                expansion_coefficients: Some(expansion_coefficients),
            },
        )
    }

    /// Constructs an analytic smooth-center jet with zero first and third
    /// derivatives; reports a non-finite value, then a non-finite second
    /// derivative.
    pub fn try_center(value: u64, second: u64) -> (result: Result<Self, KernelCalculusError>)
        ensures
            !binary64_is_finite(value) ==> result == Err::<Self, KernelCalculusError>(
                KernelCalculusError::NonFiniteRadialDerivative { order: RadialDerivativeOrder::Value, value },
            ),
            binary64_is_finite(value) && !binary64_is_finite(second) ==> result == Err::<Self, KernelCalculusError>(
                KernelCalculusError::NonFiniteRadialDerivative {
                    order: RadialDerivativeOrder::Second,
                    value: second,
                },
            ),
            binary64_is_finite(value) && binary64_is_finite(second) ==> (result matches Ok(jet)
                && jet.spec_location() == RadialJetLocation::Center && jet.spec_derivatives() == seq![
                value,
                0u64,
                second,
                0u64,
            ] && jet.spec_expansion_coefficients() is None),
    {
        validate_radial_derivative(RadialDerivativeOrder::Value, value)?;
        validate_radial_derivative(RadialDerivativeOrder::Second, second)?;
        let derivatives = [value, 0, second, 0];
        proof {
            assert(derivatives@ =~= seq![value, 0u64, second, 0u64]);
        }
        Ok(RadialJet { location: RadialJetLocation::Center, derivatives, expansion_coefficients: None })
    }

    /// Returns whether this is a center or positive-radius jet.
    pub fn location(&self) -> (location: RadialJetLocation)
        ensures
            location == self.spec_location(),
    {
        self.location
    }

    /// Returns `phi(r)`.
    pub fn value(&self) -> (value: u64)
        ensures
            value == self.spec_derivatives()[0],
    {
        self.derivatives[0]
    }

    /// Returns `phi'(r)`, which is zero for a smooth-center jet.
    pub fn first_derivative(&self) -> (value: u64)
        ensures
            value == self.spec_derivatives()[1],
    {
        self.derivatives[1]
    }

    /// Returns `phi''(r)`.
    pub fn second_derivative(&self) -> (value: u64)
        ensures
            value == self.spec_derivatives()[2],
    {
        self.derivatives[2]
    }

    /// Returns `phi'''(r)`, which is zero for a smooth-center jet.
    pub fn third_derivative(&self) -> (value: u64)
        ensures
            value == self.spec_derivatives()[3],
    {
        self.derivatives[3]
    }

    /// Returns the stable expansion coefficients of an away jet.
    pub fn expansion_coefficients(&self) -> (coefficients: Option<&RadialExpansionCoefficients>)
        ensures
            match coefficients {
                Some(c) => self.spec_expansion_coefficients() == Some(*c),
                None => self.spec_expansion_coefficients() is None,
            },
    {
        match &self.expansion_coefficients {
            Some(coefficients) => Some(coefficients),
            None => None,
        }
    }
}

/// Every entry negated, exactly.
pub open spec fn negated_entries(values: Seq<u64>) -> Seq<u64> {
    values.map_values(|value: u64| binary64_negated(value))
}

/// Negates every entry of a vector.
fn negate_vector<const D: usize>(values: [u64; D]) -> (negated: [u64; D])
    ensures
        negated@ == negated_entries(values@),
{
    let mut negated = values;
    let mut index: usize = 0;
    while index < D
        invariant
            index <= D,
            negated@.len() == D,
            forall|i: int| 0 <= i < index ==> negated@[i] == binary64_negated(values@[i]),
            forall|i: int| index <= i < D ==> negated@[i] == values@[i],
        decreases D - index,
    {
        negated[index] = negated_bits(values[index]);
        index += 1;
    }
    assert(negated@ =~= negated_entries(values@));
    negated
}

/// A first spatial derivative with respect to `argument`: the displacement
/// derivative, negated for the center argument.
pub fn apply_first_sign<const D: usize>(tensor: [u64; D], argument: KernelArgument) -> (signed: [u64; D])
    ensures
        signed@ == if argument == KernelArgument::Query {
            tensor@
        } else {
            negated_entries(tensor@)
        },
{
    match argument {
        KernelArgument::Query => tensor,
        KernelArgument::Center => negate_vector(tensor),
    }
}

/// A second spatial derivative, every entry negated when `negative`.
pub fn apply_second_sign<const D: usize>(tensor: [[u64; D]; D], negative: bool) -> (signed: [[u64; D]; D])
    ensures
        forall|row: int|
            0 <= row < D ==> (#[trigger] signed@[row])@ == if negative {
                negated_entries(tensor@[row]@)
            } else {
                tensor@[row]@
            },
{
    if !negative {
        return tensor;
    }
    let mut signed = tensor;
    let mut row: usize = 0;
    while row < D
        invariant
            row <= D,
            signed@.len() == D,
            forall|r: int| 0 <= r < row ==> (#[trigger] signed@[r])@ == negated_entries(tensor@[r]@),
        decreases D - row,
    {
        signed[row] = negate_vector(tensor[row]);
        row += 1;
    }
    signed
}

/// A third spatial derivative, every entry negated when `negative`.
pub fn apply_third_sign<const D: usize>(tensor: [[[u64; D]; D]; D], negative: bool) -> (signed: [[[u64; D]; D]; D])
    ensures
        forall|first: int, second: int|
            0 <= first < D && 0 <= second < D ==> (#[trigger] signed@[first]@[second])@ == if negative {
                negated_entries(tensor@[first]@[second]@)
            } else {
                tensor@[first]@[second]@
            },
{
    if !negative {
        return tensor;
    }
    let mut signed = tensor;
    let mut first: usize = 0;
    while first < D
        invariant
            first <= D,
            signed@.len() == D,
            forall|f: int, s: int|
                0 <= f < first && 0 <= s < D ==> (#[trigger] signed@[f]@[s])@ == negated_entries(
                    tensor@[f]@[s]@,
                ),
        decreases D - first,
    {
        signed[first] = apply_second_sign(tensor[first], true);
        first += 1;
    }
    signed
}

/// Negating twice gives every entry back.
pub proof fn lemma_negated_entries_involution(values: Seq<u64>)
    ensures
        negated_entries(negated_entries(values)) == values,
{
    assert(negated_entries(negated_entries(values)) =~= values);
}

} // verus!
