//! Complete polynomial spaces for conditionally positive-definite kernels.
//!
//! A CPD kernel of order `m` requires every monomial whose total degree is at
//! most `m - 1`. Terms are ordered first by increasing total degree and then,
//! within one degree, lexicographically from the first axis with larger
//! exponents first. For example, the two-dimensional degree-two terms are
//! `[2, 0]`, `[1, 1]`, `[0, 2]`.
use vstd::prelude::*;

pub mod combinatorics;
pub mod terms;

use crate::dimension::{Dim, SupportedDimension};
use crate::kernel::CpdOrder;
use combinatorics::{binomial, checked_binomial};
use terms::{complete_terms, descending_blocks, exact_degree_terms, exponent_sum, graded_before};

verus! {

/// A nonnegative Cartesian multi-index in a supported spatial dimension.
#[derive(Clone, Copy, Debug)]
pub struct MultiIndex<const D: usize> where Dim<D>: SupportedDimension<D> {
    exponents: [usize; D],
    total_degree: usize,
}

impl<const D: usize> MultiIndex<D> where Dim<D>: SupportedDimension<D> {
    /// The exponents in Cartesian axis order.
    pub closed spec fn spec_exponents(self) -> Seq<usize> {
        self.exponents@
    }

    #[verifier::type_invariant]
    spec fn inv(self) -> bool {
        exponent_sum(self.exponents@) == self.total_degree
    }

    /// Constructs a multi-index; fails with `DegreeOverflow` exactly when the
    /// exponent sum exceeds `usize::MAX`.
    pub fn try_new(exponents: [usize; D]) -> (result: Result<Self, PolynomialSpaceError>)
        ensures
            exponent_sum(exponents@) > usize::MAX ==> result == Err::<Self, PolynomialSpaceError>(
                PolynomialSpaceError::DegreeOverflow,
            ),
            exponent_sum(exponents@) <= usize::MAX ==> (result matches Ok(index)
                && index.spec_exponents() == exponents@),
    {
        match checked_total_degree(&exponents) {
            Ok(total_degree) => Ok(Self { exponents, total_degree }),
            Err(error) => Err(error),
        }
    }

    /// Borrows the exponents in Cartesian axis order.
    pub fn exponents(&self) -> (exponents: &[usize; D])
        ensures
            exponents@ == self.spec_exponents(),
    {
        &self.exponents
    }

    /// Returns the sum of all exponents.
    pub fn total_degree(&self) -> (degree: usize)
        ensures
            degree == exponent_sum(self.spec_exponents()),
    {
        proof {
            use_type_invariant(self);
        }
        self.total_degree
    }
}

/// Caller-provided polynomial output whose length was invalid.
#[derive(Clone, Copy, Debug, PartialEq, Eq, Structural, Hash)]
pub enum PolynomialOutput {
    /// One monomial value per basis term.
    Values,
    /// One Cartesian gradient per basis term.
    Gradients,
}

/// Error returned while constructing or evaluating a complete polynomial space.
#[derive(Clone, Copy, Debug, PartialEq, Eq)]
#[non_exhaustive]
pub enum PolynomialSpaceError {
    /// CPD order zero has no polynomial-side-space meaning.
    ZeroOrder,
    /// A multi-index total degree overflowed the platform index type.
    DegreeOverflow,
    /// The exact complete-space term count is not representable.
    TermCountOverflow {
        /// Requested positive CPD order.
        order: usize,
        /// Compile-time spatial dimension.
        dimension: usize,
    },
    /// Storage for the exact term count could not be reserved.
    AllocationFailed {
        /// Exact number of terms that was requested.
        term_count: usize,
    },
    /// Caller-provided output storage has the wrong length.
    OutputLengthMismatch {
        /// Kind of output storage.
        output: PolynomialOutput,
        /// Required number of entries.
        expected: usize,
        /// Supplied number of entries.
        actual: usize,
    },
    /// A monomial value or derivative is not finitely representable.
    NonFiniteEvaluation {
        /// Zero-based basis-term index in deterministic order.
        term_index: usize,
        /// Cartesian derivative axis, or `None` for a value.
        derivative_axis: Option<usize>,
    },
}

/// Exponent vectors of a sequence of multi-indices.
pub open spec fn term_exponents<const D: usize>(terms: Seq<MultiIndex<D>>) -> Seq<Seq<usize>>
    where Dim<D>: SupportedDimension<D>
{
    terms.map_values(|term: MultiIndex<D>| term.spec_exponents())
}

/// The complete monomial space required by a positive CPD order.
///
/// Construction generates exactly `binomial(D + m - 1, D)` terms for CPD
/// order `m`, in the order of [`complete_terms`].
#[derive(Debug)]
pub struct PolynomialSpace<const D: usize> where Dim<D>: SupportedDimension<D> {
    cpd_order: CpdOrder,
    terms: Vec<MultiIndex<D>>,
}

impl<const D: usize> PolynomialSpace<D> where Dim<D>: SupportedDimension<D> {
    /// The positive CPD order `m`.
    pub closed spec fn spec_cpd_order(self) -> nat {
        self.cpd_order.spec_order()
    }

    /// Exponent vectors of the basis terms in deterministic order.
    pub closed spec fn spec_terms(self) -> Seq<Seq<usize>> {
        term_exponents(self.terms@)
    }

    #[verifier::type_invariant]
    spec fn inv(self) -> bool {
        &&& self.cpd_order.spec_order() > 0
        &&& term_exponents(self.terms@) == complete_terms(
            D as nat,
            (self.cpd_order.spec_order() - 1) as nat,
        )
    }

    /// Generates the complete polynomial space for the supplied CPD order.
    ///
    /// Fails with `ZeroOrder` for order zero, with `TermCountOverflow` when
    /// `D + m - 1` or the exact count `binomial(D + m - 1, D)` is not
    /// representable, and otherwise either succeeds with every monomial of
    /// total degree at most `m - 1` or reports that the allocator could not
    /// reserve storage for exactly that many terms.
    pub fn try_new(order: usize) -> (result: Result<Self, PolynomialSpaceError>)
        ensures
            order == 0 ==> result == Err::<Self, PolynomialSpaceError>(
                PolynomialSpaceError::ZeroOrder,
            ),
            order > 0 && (order + D - 1 > usize::MAX || binomial((order + D - 1) as nat, D as nat)
                > usize::MAX) ==> result == Err::<Self, PolynomialSpaceError>(
                PolynomialSpaceError::TermCountOverflow { order, dimension: D },
            ),
            order > 0 && order + D - 1 <= usize::MAX && binomial((order + D - 1) as nat, D as nat)
                <= usize::MAX ==> match result {
                Ok(space) => space.spec_cpd_order() == order && space.spec_terms()
                    == complete_terms(D as nat, (order - 1) as nat),
                Err(error) => error == (PolynomialSpaceError::AllocationFailed {
                    term_count: binomial((order + D - 1) as nat, D as nat) as usize,
                }),
            },
    {
        proof {
            <Dim<D> as SupportedDimension<D>>::lemma_supported();
        }
        let cpd_order = match CpdOrder::try_new(order) {
            Ok(cpd_order) => cpd_order,
            Err(_) => {
                return Err(PolynomialSpaceError::ZeroOrder);
            },
        };
        let term_count = match complete_term_count(order, D) {
            Ok(count) => count,
            Err(error) => {
                return Err(error);
            },
        };
        let mut terms: Vec<MultiIndex<D>> = Vec::new();
        if terms.try_reserve(term_count).is_err() {
            return Err(PolynomialSpaceError::AllocationFailed { term_count });
        }
        let maximum_degree = cpd_order.maximum_polynomial_degree();
        let mut exponents: [usize; D] = [0; D];
        let mut degree: usize = 0;
        proof {
            assert(term_exponents(terms@) =~= Seq::<Seq<usize>>::empty());
            terms::lemma_terms_below_zero(D as nat);
        }
        while degree <= maximum_degree
            invariant
                1 <= D <= 3,
                maximum_degree == order - 1,
                degree <= maximum_degree + 1,
                term_exponents(terms@) == terms::terms_below_degree(D as nat, degree as nat),
            decreases maximum_degree + 1 - degree,
        {
            proof {
                assert(exponents@.take(0) =~= Seq::<usize>::empty());
                terms::lemma_exponent_sum_empty();
            }
            append_exact_degree(0, degree, degree, &mut exponents, &mut terms);
            proof {
                let prefix = Seq::<usize>::empty();
                let block = exact_degree_terms(D as nat, degree as nat);
                assert(block.map_values(|t: Seq<usize>| prefix + t) =~= block) by {
                    assert forall|i: int| 0 <= i < block.len() implies #[trigger] (prefix
                        + block[i]) == block[i] by {
                        assert(prefix + block[i] =~= block[i]);
                    }
                }
            }
            degree = degree + 1;
        }
        proof {
            assert(term_exponents(terms@) == complete_terms(D as nat, (order - 1) as nat));
        }
        Ok(Self { cpd_order, terms })
    }

    /// Returns the positive CPD order represented by this space.
    pub fn cpd_order(&self) -> (order: CpdOrder)
        ensures
            order.spec_order() == self.spec_cpd_order(),
    {
        self.cpd_order
    }

    /// Returns the maximum total polynomial degree, namely `m - 1`.
    pub fn maximum_degree(&self) -> (degree: usize)
        ensures
            degree == self.spec_cpd_order() - 1,
    {
        proof {
            use_type_invariant(self);
        }
        self.cpd_order.maximum_polynomial_degree()
    }

    /// Returns the exact number of basis terms, `binomial(D + m - 1, D)`.
    pub fn term_count(&self) -> (count: usize)
        ensures
            count == self.spec_terms().len(),
            count == binomial((D + self.spec_cpd_order() - 1) as nat, D as nat),
    {
        proof {
            use_type_invariant(self);
            <Dim<D> as SupportedDimension<D>>::lemma_supported();
            terms::lemma_complete_terms_len(D as nat, (self.spec_cpd_order() - 1) as nat);
        }
        self.terms.len()
    }

    /// Checks that caller-provided output storage holds exactly one entry per
    /// basis term.
    pub fn validate_output_length(&self, output: PolynomialOutput, actual: usize) -> (result:
        Result<(), PolynomialSpaceError>)
        ensures
            actual == self.spec_terms().len() ==> result == Ok::<(), PolynomialSpaceError>(()),
            actual != self.spec_terms().len() ==> result == Err::<(), PolynomialSpaceError>(
                PolynomialSpaceError::OutputLengthMismatch {
                    output,
                    expected: self.spec_terms().len() as usize,
                    actual,
                },
            ),
    {
        let expected = self.terms.len();
        if actual == expected {
            Ok(())
        } else {
            Err(PolynomialSpaceError::OutputLengthMismatch { output, expected, actual })
        }
    }

    /// Borrows all basis multi-indices in deterministic order.
    pub fn terms(&self) -> (terms: &[MultiIndex<D>])
        ensures
            term_exponents(terms@) == self.spec_terms(),
    {
        self.terms.as_slice()
    }
}

/// Every space is complete: its basis holds exactly the exponent vectors of
/// length `D` whose total degree is at most `m - 1`, and it has
/// `binomial(D + m - 1, D)` of them.
pub proof fn lemma_space_is_complete<const D: usize>(
    space: PolynomialSpace<D>,
    exponents: Seq<usize>,
)
    where Dim<D>: SupportedDimension<D>
    requires
        space.spec_cpd_order() > 0,
        space.spec_terms() == complete_terms(D as nat, (space.spec_cpd_order() - 1) as nat),
    ensures
        space.spec_terms().contains(exponents) <==> (exponents.len() == D && exponent_sum(
            exponents,
        ) < space.spec_cpd_order()),
        space.spec_terms().len() == binomial((D + space.spec_cpd_order() - 1) as nat, D as nat),
{
    <Dim<D> as SupportedDimension<D>>::lemma_supported();
    space.cpd_order.lemma_order_bounded();
    let maximum_degree = (space.spec_cpd_order() - 1) as nat;
    terms::lemma_complete_terms_len(D as nat, maximum_degree);
    terms::lemma_complete_terms_membership(D as nat, maximum_degree, exponents);
}

/// No exponent vector occurs twice among the terms of a space.
pub proof fn lemma_terms_distinct<const D: usize>(space: PolynomialSpace<D>)
    where Dim<D>: SupportedDimension<D>
    requires
        space.spec_cpd_order() > 0,
        space.spec_terms() == complete_terms(D as nat, (space.spec_cpd_order() - 1) as nat),
    ensures
        forall|i: int, j: int|
            0 <= i < j < space.spec_terms().len() ==> #[trigger] space.spec_terms()[i] != #[trigger] space.spec_terms()[j],
{
    space.cpd_order.lemma_order_bounded();
    terms::lemma_terms_below_degree_no_duplicates(D as nat, space.spec_cpd_order());
}

/// The terms come in graded order: by increasing total degree and, within
/// one degree, lexicographically with larger exponents on earlier axes
/// first.
pub proof fn lemma_terms_graded_order<const D: usize>(space: PolynomialSpace<D>)
    where Dim<D>: SupportedDimension<D>
    requires
        space.spec_cpd_order() > 0,
        space.spec_terms() == complete_terms(D as nat, (space.spec_cpd_order() - 1) as nat),
    ensures
        forall|i: int, j: int|
            0 <= i < j < space.spec_terms().len() ==> graded_before(
                #[trigger] space.spec_terms()[i],
                #[trigger] space.spec_terms()[j],
            ),
{
    space.cpd_order.lemma_order_bounded();
    terms::lemma_terms_below_degree_graded(D as nat, space.spec_cpd_order());
}

/// The maximum degree `m - 1` is the largest total degree among the terms:
/// every term's degree is at most it, and some term has exactly it.
pub proof fn lemma_maximum_degree_attained<const D: usize>(space: PolynomialSpace<D>)
    where Dim<D>: SupportedDimension<D>
    requires
        space.spec_cpd_order() > 0,
        space.spec_terms() == complete_terms(D as nat, (space.spec_cpd_order() - 1) as nat),
    ensures
        forall|i: int|
            0 <= i < space.spec_terms().len() ==> exponent_sum(#[trigger] space.spec_terms()[i]) <= space.spec_cpd_order()
                - 1,
        exists|i: int|
            0 <= i < space.spec_terms().len() && exponent_sum(#[trigger] space.spec_terms()[i]) == space.spec_cpd_order()
                - 1,
{
    <Dim<D> as SupportedDimension<D>>::lemma_supported();
    space.cpd_order.lemma_order_bounded();
    let maximum = (space.spec_cpd_order() - 1) as nat;
    assert forall|i: int| 0 <= i < space.spec_terms().len() implies exponent_sum(#[trigger] space.spec_terms()[i])
        <= space.spec_cpd_order() - 1 by {
        terms::lemma_complete_terms_membership(D as nat, maximum, space.spec_terms()[i]);
        assert(space.spec_terms().contains(space.spec_terms()[i]));
    }
    let witness = terms::first_axis_term(D as nat, maximum);
    terms::lemma_first_axis_term(D as nat, maximum);
    terms::lemma_complete_terms_membership(D as nat, maximum, witness);
    let i = choose|i: int| 0 <= i < space.spec_terms().len() && space.spec_terms()[i] == witness;
    assert(exponent_sum(space.spec_terms()[i]) == maximum);
}

impl<const D: usize> Clone for PolynomialSpace<D> where Dim<D>: SupportedDimension<D> {
    /// Copies the order and every basis term.
    fn clone(&self) -> (copy: Self)
        ensures
            copy.spec_cpd_order() == self.spec_cpd_order(),
            copy.spec_terms() == self.spec_terms(),
    {
        proof {
            use_type_invariant(self);
        }
        let mut terms: Vec<MultiIndex<D>> = Vec::new();
        let mut index: usize = 0;
        while index < self.terms.len()
            invariant
                index <= self.terms@.len(),
                terms@ == self.terms@.take(index as int),
            decreases self.terms@.len() - index,
        {
            terms.push(self.terms[index]);
            proof {
                assert(self.terms@.take(index as int).push(self.terms@[index as int])
                    =~= self.terms@.take(index + 1));
            }
            index = index + 1;
        }
        proof {
            assert(self.terms@.take(index as int) =~= self.terms@);
        }
        Self { cpd_order: self.cpd_order, terms }
    }
}

/// Sums the exponents, failing with `DegreeOverflow` exactly when the sum is
/// not representable.
fn checked_total_degree<const D: usize>(exponents: &[usize; D]) -> (result: Result<
    usize,
    PolynomialSpaceError,
>)
    ensures
        exponent_sum(exponents@) <= usize::MAX ==> result == Ok::<usize, PolynomialSpaceError>(
            exponent_sum(exponents@) as usize,
        ),
        exponent_sum(exponents@) > usize::MAX ==> result == Err::<usize, PolynomialSpaceError>(
            PolynomialSpaceError::DegreeOverflow,
        ),
{
    let mut degree: usize = 0;
    let mut index: usize = 0;
    proof {
        assert(exponents@.take(0) =~= Seq::<usize>::empty());
        terms::lemma_exponent_sum_empty();
    }
    while index < D
        invariant
            index <= D,
            exponents@.len() == D,
            degree == exponent_sum(exponents@.take(index as int)),
        decreases D - index,
    {
        proof {
            terms::lemma_exponent_sum_take_step(exponents@, index as int);
        }
        match degree.checked_add(exponents[index]) {
            Some(next) => {
                degree = next;
            },
            None => {
                proof {
                    terms::lemma_exponent_sum_prefix_bound(exponents@, (index + 1) as int);
                }
                return Err(PolynomialSpaceError::DegreeOverflow);
            },
        }
        index = index + 1;
    }
    proof {
        assert(exponents@.take(D as int) =~= exponents@);
    }
    Ok(degree)
}

/// Exact number `binomial(order + dimension - 1, dimension)` of monomials of
/// total degree below `order`, or `TermCountOverflow` when it (or
/// `order + dimension - 1`) is not representable.
fn complete_term_count(order: usize, dimension: usize) -> (result: Result<
    usize,
    PolynomialSpaceError,
>)
    requires
        order > 0,
        1 <= dimension <= 3,
    ensures
        order + dimension - 1 > usize::MAX || binomial(
            (order + dimension - 1) as nat,
            dimension as nat,
        ) > usize::MAX ==> result == Err::<usize, PolynomialSpaceError>(
            PolynomialSpaceError::TermCountOverflow { order, dimension },
        ),
        order + dimension - 1 <= usize::MAX && binomial(
            (order + dimension - 1) as nat,
            dimension as nat,
        ) <= usize::MAX ==> result == Ok::<usize, PolynomialSpaceError>(
            binomial((order + dimension - 1) as nat, dimension as nat) as usize,
        ),
{
    let n = match order.checked_add(dimension - 1) {
        Some(n) => n,
        None => {
            return Err(PolynomialSpaceError::TermCountOverflow { order, dimension });
        },
    };
    match checked_binomial(n, dimension) {
        Some(count) => Ok(count),
        None => Err(PolynomialSpaceError::TermCountOverflow { order, dimension }),
    }
}

/// Appends every multi-index whose axes before `axis` equal the current
/// prefix of `exponents` and whose remaining axes sum to `remaining_degree`,
/// with axis `axis` running from `remaining_degree` down to zero.
fn append_exact_degree<const D: usize>(
    axis: usize,
    total_degree: usize,
    remaining_degree: usize,
    exponents: &mut [usize; D],
    terms: &mut Vec<MultiIndex<D>>,
) where Dim<D>: SupportedDimension<D>
    requires
        axis < D,
        exponent_sum(old(exponents)@.take(axis as int)) + remaining_degree == total_degree,
    ensures
        final(exponents)@.take(axis as int) == old(exponents)@.take(axis as int),
        term_exponents(final(terms)@) == term_exponents(old(terms)@) + exact_degree_terms(
            (D - axis) as nat,
            remaining_degree as nat,
        ).map_values(|t: Seq<usize>| old(exponents)@.take(axis as int) + t),
    decreases D - axis,
{
    let ghost prefix = exponents@.take(axis as int);
    let ghost start = term_exponents(terms@);
    if axis + 1 == D {
        exponents[axis] = remaining_degree;
        proof {
            assert(exponents@.take(axis as int) =~= prefix);
            terms::lemma_exponent_sum_take_step(exponents@, axis as int);
            assert(exponents@.take(D as int) =~= exponents@);
            terms::lemma_exact_single_axis(remaining_degree as nat);
        }
        terms.push(MultiIndex { exponents: *exponents, total_degree });
        proof {
            let appended = exact_degree_terms(1, remaining_degree as nat).map_values(
                |t: Seq<usize>| prefix + t,
            );
            assert(exponents@ =~= prefix + seq![remaining_degree]);
            assert(appended =~= seq![exponents@]);
            assert(term_exponents(terms@) =~= start + appended);
        }
        return;
    }
    let mut step: usize = 0;
    loop
        invariant_except_break
            axis + 1 < D,
            step <= remaining_degree,
            exponent_sum(prefix) + remaining_degree == total_degree,
            exponents@.take(axis as int) == prefix,
            term_exponents(terms@) == start + descending_blocks(
                (D - axis) as nat,
                remaining_degree as nat,
                step as nat,
            ).map_values(|t: Seq<usize>| prefix + t),
        ensures
            exponents@.take(axis as int) == prefix,
            term_exponents(terms@) == start + descending_blocks(
                (D - axis) as nat,
                remaining_degree as nat,
                (remaining_degree + 1) as nat,
            ).map_values(|t: Seq<usize>| prefix + t),
        decreases remaining_degree - step,
    {
        let exponent = remaining_degree - step;
        exponents[axis] = exponent;
        let ghost at_call = exponents@;
        proof {
            assert(exponents@.take(axis as int) =~= prefix);
            terms::lemma_exponent_sum_take_step(exponents@, axis as int);
            assert(at_call.take((axis + 1) as int) =~= prefix.push(exponent));
        }
        append_exact_degree(axis + 1, total_degree, step, exponents, terms);
        proof {
            assert(exponents@.take(axis as int) =~= exponents@.take((axis + 1) as int).take(
                axis as int,
            ));
            assert(at_call.take((axis + 1) as int).take(axis as int) =~= prefix);
            terms::lemma_block_prefix_shift(
                (D - axis) as nat,
                remaining_degree as nat,
                step as nat,
                prefix,
            );
        }
        if step == remaining_degree {
            break;
        }
        step = step + 1;
    }
    proof {
        terms::lemma_exact_is_descending((D - axis) as nat, remaining_degree as nat);
    }
}

} // verus!
