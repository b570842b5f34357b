//! Sparse affine expressions over canonical variables: finite nonzero
//! coefficients (binary64 bit patterns) at strictly increasing indices.
use vstd::prelude::*;

use crate::binary64::{binary64_is_finite, binary64_is_zero, is_finite_bits, is_zero_bits};
use crate::problem_ir::ProblemIrError;

verus! {

/// A finite nonzero sparse coefficient for one canonical variable.
#[derive(Debug, PartialEq, Eq, Structural, Hash)]
pub struct AffineTerm {
    variable: usize,
    coefficient: u64,
}

impl AffineTerm {
    #[verifier::type_invariant]
    spec fn inv(self) -> bool {
        binary64_is_finite(self.coefficient) && !binary64_is_zero(self.coefficient)
    }

    /// The zero-based canonical variable index.
    pub closed spec fn spec_variable(self) -> usize {
        self.variable
    }

    /// The coefficient, as binary64 bits.
    pub closed spec fn spec_coefficient(self) -> u64 {
        self.coefficient
    }

    /// Validates and constructs a sparse affine term: rejects a non-finite
    /// coefficient, then a zero one.
    pub fn try_new(variable: usize, coefficient: u64) -> (result: Result<Self, ProblemIrError>)
        ensures
            !binary64_is_finite(coefficient) ==> result == Err::<Self, ProblemIrError>(
                ProblemIrError::NonFiniteAffineCoefficient { variable, value: coefficient },
            ),
            binary64_is_finite(coefficient) && binary64_is_zero(coefficient) ==> result == Err::<
                Self,
                ProblemIrError,
            >(ProblemIrError::ZeroAffineCoefficient { variable }),
            binary64_is_finite(coefficient) && !binary64_is_zero(coefficient) ==> (result matches Ok(term)
                && term.spec_variable() == variable && term.spec_coefficient() == coefficient),
    {
        if !is_finite_bits(coefficient) {
            return Err(ProblemIrError::NonFiniteAffineCoefficient { variable, value: coefficient });
        }
        if is_zero_bits(coefficient) {
            return Err(ProblemIrError::ZeroAffineCoefficient { variable });
        }
        Ok(AffineTerm { variable, coefficient })
    }

    /// Returns the zero-based canonical variable index.
    pub fn variable(self) -> (variable: usize)
        ensures
            variable == self.spec_variable(),
    {
        self.variable
    }

    /// Returns the finite nonzero coefficient.
    pub fn coefficient(self) -> (coefficient: u64)
        ensures
            coefficient == self.spec_coefficient(),
            binary64_is_finite(coefficient),
            !binary64_is_zero(coefficient),
    {
        proof {
            use_type_invariant(&self);
        }
        self.coefficient
    }
}

impl Clone for AffineTerm {
    fn clone(&self) -> (copy: Self)
        ensures
            copy == *self,
    {
        *self
    }
}

impl Copy for AffineTerm {

}

/// The variable indices of the terms strictly increase.
pub open spec fn strictly_increasing(terms: Seq<AffineTerm>) -> bool {
    forall|j: int, k: int|
        0 <= j < k < terms.len() ==> (#[trigger] terms[j]).spec_variable() < (#[trigger] terms[k]).spec_variable()
}

/// `index` is the first position whose variable does not exceed the one before.
pub open spec fn first_non_increasing(terms: Seq<AffineTerm>, index: int) -> bool {
    &&& 1 <= index < terms.len()
    &&& terms[index - 1].spec_variable() >= terms[index].spec_variable()
    &&& strictly_increasing(terms.take(index))
}

/// A deterministic sparse affine expression `a^T z + constant`.
#[derive(Debug, PartialEq, Eq)]
pub struct AffineExpression {
    terms: Vec<AffineTerm>,
    constant: u64,
}

impl AffineExpression {
    #[verifier::type_invariant]
    spec fn inv(self) -> bool {
        binary64_is_finite(self.constant) && strictly_increasing(self.terms@)
    }

    /// The sparse terms, in strictly increasing variable order.
    pub closed spec fn spec_terms(self) -> Seq<AffineTerm> {
        self.terms@
    }

    /// The constant, as binary64 bits.
    pub closed spec fn spec_constant(self) -> u64 {
        self.constant
    }

    /// Constructs an affine expression with strictly increasing variable
    /// indices: rejects a non-finite constant, then the first pair of
    /// neighbouring terms whose indices do not increase.
    pub fn try_new(terms: Vec<AffineTerm>, constant: u64) -> (result: Result<Self, ProblemIrError>)
        ensures
            !binary64_is_finite(constant) ==> result == Err::<Self, ProblemIrError>(
                ProblemIrError::NonFiniteAffineConstant { value: constant },
            ),
            binary64_is_finite(constant) ==> (result is Ok <==> strictly_increasing(terms@)),
            result matches Ok(expression) ==> expression.spec_terms() == terms@
                && expression.spec_constant() == constant,
            (result matches Err(ProblemIrError::NonIncreasingAffineIndices { previous, current }) ==> (
            binary64_is_finite(constant) && exists|index: int|
                #[trigger] first_non_increasing(terms@, index) && previous == terms@[index
                    - 1].spec_variable() && current == terms@[index].spec_variable())),
    {
        if !is_finite_bits(constant) {
            return Err(ProblemIrError::NonFiniteAffineConstant { value: constant });
        }
        let len = terms.len();
        let mut index: usize = 1;
        while index < len
            invariant
                binary64_is_finite(constant),
                len == terms@.len(),
                1 <= index,
                index <= len || len == 0,
                len > 0 ==> strictly_increasing(terms@.take(index as int)),
            decreases len - index,
        {
            let previous = terms[index - 1].variable();
            let current = terms[index].variable();
            if previous >= current {
                proof {
                    assert(first_non_increasing(terms@, index as int));
                }
                return Err(ProblemIrError::NonIncreasingAffineIndices { previous, current });
            }
            proof {
                let next = terms@.take(index as int + 1);
                assert forall|j: int, k: int| 0 <= j < k < next.len() implies (#[trigger] next[j]).spec_variable()
                    < (#[trigger] next[k]).spec_variable() by {
                    if k < index {
                        assert(terms@.take(index as int)[j] == next[j]);
                        assert(terms@.take(index as int)[k] == next[k]);
                    } else if j < index - 1 {
                        assert(terms@.take(index as int)[j] == next[j]);
                        assert(terms@.take(index as int)[index - 1] == next[index - 1]);
                    }
                }
            }
            index += 1;
        }
        proof {
            if len > 0 {
                assert(terms@.take(index as int) =~= terms@);
            }
        }
        Ok(AffineExpression { terms, constant })
    }

    /// Borrows sparse terms in strictly increasing variable order.
    pub fn terms(&self) -> (terms: &[AffineTerm])
        ensures
            terms@ == self.spec_terms(),
            strictly_increasing(terms@),
    {
        proof {
            use_type_invariant(self);
        }
        self.terms.as_slice()
    }

    /// Returns the finite affine constant.
    pub fn constant(&self) -> (constant: u64)
        ensures
            constant == self.spec_constant(),
            binary64_is_finite(constant),
    {
        proof {
            use_type_invariant(self);
        }
        self.constant
    }

    /// Rejects an expression that names a variable outside a space of
    /// `count` variables, reporting the first such term.
    pub fn validate_variable_count(&self, count: usize) -> (result: Result<(), ProblemIrError>)
        ensures
            result is Ok <==> forall|index: int|
                0 <= index < self.spec_terms().len() ==> (#[trigger] self.spec_terms()[index]).spec_variable()
                    < count,
            (result matches Err(error) ==> exists|index: int|
                0 <= index < self.spec_terms().len() && (#[trigger] self.spec_terms()[index]).spec_variable()
                    >= count && (forall|earlier: int|
                    0 <= earlier < index ==> self.spec_terms()[earlier].spec_variable() < count) && error
                    == ProblemIrError::AffineVariableOutOfRange {
                    variable: self.spec_terms()[index].spec_variable(),
                    variable_count: count,
                }),
    {
        assert(self.spec_terms() == self.terms@);
        let mut index: usize = 0;
        while index < self.terms.len()
            invariant
                self.spec_terms() == self.terms@,
                index <= self.terms@.len(),
                forall|earlier: int| 0 <= earlier < index ==> self.terms@[earlier].spec_variable() < count,
            decreases self.terms@.len() - index,
        {
            let variable = self.terms[index].variable();
            if variable >= count {
                assert(self.spec_terms()[index as int].spec_variable() >= count);
                return Err(ProblemIrError::AffineVariableOutOfRange { variable, variable_count: count });
            }
            index += 1;
        }
        Ok(())
    }

    /// The same terms with another finite constant.
    pub fn with_constant(self, constant: u64) -> (expression: Self)
        requires
            binary64_is_finite(constant),
        ensures
            expression.spec_terms() == self.spec_terms(),
            expression.spec_constant() == constant,
    {
        proof {
            use_type_invariant(&self);
        }
        AffineExpression { terms: self.terms, constant }
    }

    /// The same terms with a zero constant.
    pub fn without_constant(self) -> (expression: Self)
        ensures
            expression.spec_terms() == self.spec_terms(),
            expression.spec_constant() == 0,
    {
        proof {
            use_type_invariant(&self);
        }
        AffineExpression { terms: self.terms, constant: 0 }
    }
}

} // verus!
