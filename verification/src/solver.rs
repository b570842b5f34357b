//! Dense equality-solve policy: the factorization and storage vocabulary,
//! the checked peak-memory estimate enforced before any allocation, and the
//! rank classification drawn from the rank-revealing reviews.
use vstd::prelude::*;

use crate::performance::SCALAR_BYTES;
use crate::problem_ir::NonZeroCount;
use crate::binary64::{
    binary64_is_finite, binary64_is_zero, binary64_order_key, binary64_positive_finite, is_finite_bits,
    is_positive_finite_bits, is_zero_bits, order_key,
};

pub mod exact_dot;

verus! {

/// Matrix buffers alive at the peak of a solve.
pub const PEAK_MATRIX_BUFFERS: usize = 6;

/// Vector buffers alive at the peak of a solve.
pub const PEAK_VECTOR_BUFFERS: usize = 32;

/// Index-pair buffers alive at the peak of a solve.
pub const PEAK_INDEX_PAIR_BUFFERS: usize = 2;

/// Explicit dense factorization used for a square equality system.
#[derive(Clone, Copy, Debug, PartialEq, Eq, Structural, Hash)]
pub enum DenseFactorization {
    /// Checked Cholesky for a caller-asserted symmetric positive-definite system.
    Cholesky,
    /// Symmetric-pivoted Bunch--Kaufman LBLT for an indefinite system.
    PivotedLblt,
}

/// Solver-owned allocation role used by structured errors.
#[derive(Clone, Copy, Debug, PartialEq, Eq, Structural, Hash)]
pub enum DenseSolverStorage {
    /// Copied field matrix.
    InputMatrix,
    /// Copied field right-hand side.
    InputRightHandSide,
    /// Effective regularized matrix.
    EffectiveMatrix,
    /// Equilibrated rank-review matrix.
    RankReviewMatrix,
    /// Rank-review row scales.
    RankRowScales,
    /// Rank-review column scales.
    RankColumnScales,
    /// RRQR diagonal evidence.
    RrqrDiagonal,
    /// SVD singular-value evidence.
    SingularValues,
    /// Symmetric factorization scales.
    FactorizationScales,
    /// Symmetrically scaled matrix.
    ScaledMatrix,
    /// Scaled right-hand side.
    ScaledRightHandSide,
    /// Solution or refinement vector.
    Solution,
    /// Residual vector.
    Residual,
}

/// Complete RRQR/SVD rank classification.
#[derive(Clone, Copy, Debug, PartialEq, Eq, Structural, Hash)]
pub enum DenseRankDecision {
    /// Both reviews agree that every column is independent.
    FullRank,
    /// Both reviews identify rank deficiency away from the threshold guard band.
    Deficient,
    /// Reviews disagree or a singular value lies in the closed ambiguity band.
    Ambiguous,
}

/// Whether the solve also holds a copy of the field system it came from.
#[derive(Clone, Copy, Debug, PartialEq, Eq, Structural, Hash)]
pub enum SolveMemoryContext {
    /// The solver owns the only copy of the system.
    OwnedSystem,
    /// The assembled field system stays alive beside the solver's copy.
    FieldSystem,
}

/// Memory failures of a dense solve decided before any allocation.
#[derive(Clone, Copy, Debug, PartialEq, Eq, Structural, Hash)]
pub enum DenseSolveError {
    /// The byte arithmetic of the estimate overflowed.
    MemoryEstimateOverflow {
        /// Square matrix dimension.
        dimension: usize,
    },
    /// The estimated peak exceeds the explicit limit.
    MemoryLimitExceeded {
        /// Estimated peak working set.
        estimated_peak_bytes: usize,
        /// Explicit limit.
        limit_bytes: usize,
    },
}

/// Sizes, in bytes, of the fixed diagnostic records a solve keeps.
#[derive(Clone, Copy, Debug, PartialEq, Eq, Structural, Hash)]
pub struct SolveRecordSizes {
    /// One rank review record (two are kept).
    pub rank_diagnostics: usize,
    /// The solve diagnostics record.
    pub solve_diagnostics: usize,
    /// The exact dot-product accumulator.
    pub accumulator: usize,
}

/// The peak working set of a direct solve of dimension `d`: six matrix
/// buffers, thirty-two vectors, two index-pair buffers, the fixed records,
/// and for a field system its own matrix and right-hand side.
pub open spec fn solve_peak_bytes(
    dimension: nat,
    context: SolveMemoryContext,
    pair_bytes: nat,
    records: SolveRecordSizes,
) -> nat {
    let matrix_bytes = dimension * dimension * SCALAR_BYTES as nat;
    let vector_bytes = dimension * SCALAR_BYTES as nat;
    let source: nat = match context {
        SolveMemoryContext::OwnedSystem => 0,
        SolveMemoryContext::FieldSystem => matrix_bytes + vector_bytes,
    };
    let fixed = records.rank_diagnostics as nat * 2 + records.solve_diagnostics as nat
        + records.accumulator as nat;
    matrix_bytes * PEAK_MATRIX_BUFFERS as nat + vector_bytes * PEAK_VECTOR_BUFFERS as nat + dimension
        * pair_bytes * PEAK_INDEX_PAIR_BUFFERS as nat + fixed + source
}

/// The checked conservative peak-working-set estimate for a direct solve;
/// fails with `MemoryEstimateOverflow` exactly when it exceeds `usize::MAX`.
pub fn estimate_peak_memory_bytes(dimension: usize, context: SolveMemoryContext, records: SolveRecordSizes) -> (result: Result<
    usize,
    DenseSolveError,
>)
    ensures
        ({
            let total = solve_peak_bytes(
                dimension as nat,
                context,
                vstd::layout::size_of::<(usize, usize)>(),
                records,
            );
            &&& total <= usize::MAX ==> result == Ok::<usize, DenseSolveError>(total as usize)
            &&& total > usize::MAX ==> result == Err::<usize, DenseSolveError>(
                DenseSolveError::MemoryEstimateOverflow { dimension },
            )
        }),
{
    let pair_bytes = core::mem::size_of::<(usize, usize)>();
    let ghost total = solve_peak_bytes(dimension as nat, context, pair_bytes as nat, records);
    let ghost d = dimension as nat;
    let ghost matrix_spec = d * d * 8;
    let ghost vector_spec = d * 8;
    proof {
        assert(d * d * 8 * 6 >= d * d * 8) by (nonlinear_arith);
        assert(d * d * 8 >= d * d) by (nonlinear_arith);
        assert(d * 8 * 32 >= d * 8) by (nonlinear_arith);
        assert(d * pair_bytes * 2 >= d * pair_bytes) by (nonlinear_arith);
        assert(total >= matrix_spec * 6 + vector_spec * 32 + d * pair_bytes * 2);
    }
    let overflow = DenseSolveError::MemoryEstimateOverflow { dimension };
    let entries = match dimension.checked_mul(dimension) {
        Some(value) => value,
        None => {
            return Err(overflow);
        },
    };
    let matrix_bytes = match entries.checked_mul(SCALAR_BYTES) {
        Some(value) => value,
        None => {
            return Err(overflow);
        },
    };
    let vector_bytes = match dimension.checked_mul(SCALAR_BYTES) {
        Some(value) => value,
        None => {
            return Err(overflow);
        },
    };
    let matrix_payload = match matrix_bytes.checked_mul(PEAK_MATRIX_BUFFERS) {
        Some(value) => value,
        None => {
            return Err(overflow);
        },
    };
    let vector_payload = match vector_bytes.checked_mul(PEAK_VECTOR_BUFFERS) {
        Some(value) => value,
        None => {
            return Err(overflow);
        },
    };
    let index_payload = match dimension.checked_mul(pair_bytes) {
        Some(bytes) => match bytes.checked_mul(PEAK_INDEX_PAIR_BUFFERS) {
            Some(value) => value,
            None => {
                return Err(overflow);
            },
        },
        None => {
            return Err(overflow);
        },
    };
    let fixed_payload = match records.rank_diagnostics.checked_mul(2) {
        Some(doubled) => match doubled.checked_add(records.solve_diagnostics) {
            Some(partial) => match partial.checked_add(records.accumulator) {
                Some(value) => value,
                None => {
                    return Err(overflow);
                },
            },
            None => {
                return Err(overflow);
            },
        },
        None => {
            return Err(overflow);
        },
    };
    let field_source_payload = match context {
        SolveMemoryContext::OwnedSystem => 0,
        SolveMemoryContext::FieldSystem => match matrix_bytes.checked_add(vector_bytes) {
            Some(value) => value,
            None => {
                return Err(overflow);
            },
        },
    };
    let sum = match matrix_payload.checked_add(vector_payload) {
        Some(a) => match a.checked_add(index_payload) {
            Some(b) => match b.checked_add(fixed_payload) {
                Some(c) => c.checked_add(field_source_payload),
                None => None,
            },
            None => None,
        },
        None => None,
    };
    match sum {
        Some(value) => Ok(value),
        None => Err(overflow),
    }
}

/// Rejects a solve whose estimated peak exceeds the explicit limit.
pub fn enforce_memory_limit(estimated_peak_bytes: usize, memory_limit_bytes: NonZeroCount) -> (result: Result<
    (),
    DenseSolveError,
>)
    ensures
        estimated_peak_bytes <= memory_limit_bytes.spec_get() ==> result == Ok::<(), DenseSolveError>(()),
        estimated_peak_bytes > memory_limit_bytes.spec_get() ==> result == Err::<(), DenseSolveError>(
            DenseSolveError::MemoryLimitExceeded {
                estimated_peak_bytes,
                limit_bytes: memory_limit_bytes.spec_get() as usize,
            },
        ),
{
    let limit_bytes = memory_limit_bytes.get();
    if estimated_peak_bytes > limit_bytes {
        return Err(DenseSolveError::MemoryLimitExceeded { estimated_peak_bytes, limit_bytes });
    }
    Ok(())
}

/// Classifies the rank of a square matrix of dimension `dimension` from the
/// strict RRQR and SVD ranks and whether a singular value lies in the closed
/// ambiguity band around the threshold: ambiguous when the band is touched
/// or the reviews disagree, full rank when every column is independent,
/// deficient otherwise.
pub fn classify_rank(dimension: usize, rrqr_rank: usize, svd_rank: usize, threshold_adjacent: bool) -> (decision:
    DenseRankDecision)
    ensures
        decision == if threshold_adjacent || rrqr_rank != svd_rank {
            DenseRankDecision::Ambiguous
        } else if svd_rank == dimension {
            DenseRankDecision::FullRank
        } else {
            DenseRankDecision::Deficient
        },
{
    if threshold_adjacent || rrqr_rank != svd_rank {
        DenseRankDecision::Ambiguous
    } else if svd_rank == dimension {
        DenseRankDecision::FullRank
    } else {
        DenseRankDecision::Deficient
    }
}

/// Whether two binary64 entries are exactly equal as numbers: the same bit
/// pattern, or zeros of either sign.
pub open spec fn entries_match(first: u64, second: u64) -> bool {
    first == second || (binary64_is_zero(first) && binary64_is_zero(second))
}

/// Two finite entries match exactly when they are equal as numbers: the
/// same value, with both zeros counting as one. In particular a nonzero
/// entry never matches its negation.
pub proof fn lemma_entries_match_numeric(first: u64, second: u64)
    requires
        binary64_is_finite(first),
        binary64_is_finite(second),
    ensures
        entries_match(first, second) <==> binary64_order_key(first) == binary64_order_key(second),
        !binary64_is_zero(first) ==> !entries_match(first, crate::binary64::binary64_negated(first)),
{
    let half: int = 0x8000_0000_0000_0000;
    if first < 0x8000_0000_0000_0000 {
        vstd::arithmetic::div_mod::lemma_small_mod(first as nat, half as nat);
    } else {
        vstd::arithmetic::div_mod::lemma_fundamental_div_mod_converse(first as int, half, 1, first - half);
    }
    if second < 0x8000_0000_0000_0000 {
        vstd::arithmetic::div_mod::lemma_small_mod(second as nat, half as nat);
    } else {
        vstd::arithmetic::div_mod::lemma_fundamental_div_mod_converse(second as int, half, 1, second - half);
    }
    let negated = crate::binary64::binary64_negated(first);
    if negated < 0x8000_0000_0000_0000 {
        vstd::arithmetic::div_mod::lemma_small_mod(negated as nat, half as nat);
    } else {
        vstd::arithmetic::div_mod::lemma_fundamental_div_mod_converse(negated as int, half, 1, negated - half);
    }
}

/// A matrix whose mirrored entries are equal as numbers.
pub open spec fn numerically_symmetric(matrix: Seq<u64>, dimension: int) -> bool {
    forall|r: int, c: int|
        0 <= r < dimension && 0 <= c < dimension ==> binary64_order_key(#[trigger] matrix[r * dimension + c])
            == binary64_order_key(#[trigger] matrix[c * dimension + r])
}

/// Whether row-major position `(row, column)` precedes `(other_row, other_column)`.
pub open spec fn pair_precedes(row: int, column: int, other_row: int, other_column: int) -> bool {
    row < other_row || (row == other_row && column < other_column)
}

/// The upper-triangle entry `(row, column)` differs from its mirror.
pub open spec fn asymmetric_at(matrix: Seq<u64>, dimension: int, row: int, column: int) -> bool {
    0 <= row < column < dimension && !entries_match(
        matrix[row * dimension + column],
        matrix[column * dimension + row],
    )
}

/// `(row, column)` is the first asymmetric upper-triangle entry in row-major order.
pub open spec fn first_asymmetry(matrix: Seq<u64>, dimension: int, row: int, column: int) -> bool {
    asymmetric_at(matrix, dimension, row, column) && forall|r: int, c: int|
        #![trigger asymmetric_at(matrix, dimension, r, c)]
        pair_precedes(r, c, row, column) ==> !asymmetric_at(matrix, dimension, r, c)
}

/// The square matrix is exactly symmetric.
pub open spec fn exactly_symmetric(matrix: Seq<u64>, dimension: int) -> bool {
    forall|r: int, c: int| !#[trigger] asymmetric_at(matrix, dimension, r, c)
}

/// Every entry is finite.
pub open spec fn all_finite(values: Seq<u64>) -> bool {
    forall|i: int| 0 <= i < values.len() ==> binary64_is_finite(#[trigger] values[i])
}

/// Entry `index` is the first nonfinite entry.
pub open spec fn first_nonfinite(values: Seq<u64>, index: int) -> bool {
    0 <= index < values.len() && !binary64_is_finite(values[index]) && all_finite(values.take(index))
}

/// Invalid dense equality system input.
#[derive(Clone, Copy, Debug, PartialEq, Eq, Structural)]
pub enum DenseEqualitySystemError {
    /// A zero-dimensional system was supplied.
    Empty,
    /// The square entry count overflowed.
    ShapeOverflow {
        /// Requested dimension.
        dimension: usize,
    },
    /// Matrix or right-hand-side length does not match the dimension.
    ShapeMismatch {
        /// Requested dimension.
        dimension: usize,
        /// Supplied matrix entries.
        matrix_entries: usize,
        /// Supplied right-hand-side entries.
        rhs_entries: usize,
    },
    /// A matrix entry is nonfinite.
    NonFiniteMatrix {
        /// Row-major entry index.
        index: usize,
        /// Rejected value, as binary64 bits.
        value: u64,
    },
    /// A right-hand-side entry is nonfinite.
    NonFiniteRightHandSide {
        /// Entry index.
        index: usize,
        /// Rejected value, as binary64 bits.
        value: u64,
    },
    /// The matrix is not exactly symmetric.
    NotSymmetric {
        /// Row index.
        row: usize,
        /// Column index.
        column: usize,
        /// Entry at `(row, column)`, as binary64 bits.
        upper: u64,
        /// Entry at `(column, row)`, as binary64 bits.
        lower: u64,
    },
    /// A solver-owned input allocation failed.
    AllocationFailed {
        /// Storage role.
        storage: DenseSolverStorage,
        /// Requested entries.
        requested: usize,
    },
}

/// A finite, exactly symmetric, square equality system, its entries held as
/// binary64 bit patterns in row-major order.
#[derive(Clone, Debug)]
pub struct DenseEqualitySystem {
    dimension: usize,
    matrix: Vec<u64>,
    rhs: Vec<u64>,
}

/// Row-major index arithmetic stays inside a square matrix.
proof fn lemma_square_index(row: int, column: int, dimension: int)
    requires
        0 <= row < dimension,
        0 <= column < dimension,
    ensures
        0 <= row * dimension + column < dimension * dimension,
{
    assert(0 <= row * dimension + column < dimension * dimension) by (nonlinear_arith)
        requires
            0 <= row < dimension,
            0 <= column < dimension,
    ;
}

/// The index of the first nonfinite entry, if any.
fn find_nonfinite(values: &Vec<u64>) -> (found: Option<usize>)
    ensures
        found is None <==> all_finite(values@),
        found matches Some(index) ==> first_nonfinite(values@, index as int),
{
    let mut index: usize = 0;
    while index < values.len()
        invariant
            index <= values.len(),
            all_finite(values@.take(index as int)),
        decreases values.len() - index,
    {
        if !is_finite_bits(values[index]) {
            return Some(index);
        }
        proof {
            assert(values@.take(index as int + 1) =~= values@.take(index as int).push(values@[index as int]));
        }
        index += 1;
    }
    proof {
        assert(values@.take(index as int) =~= values@);
    }
    None
}

/// The first asymmetric upper-triangle entry of a square matrix in
/// row-major order, if any.
fn find_asymmetry(matrix: &Vec<u64>, dimension: usize) -> (found: Option<(usize, usize)>)
    requires
        matrix@.len() == dimension * dimension,
        dimension * dimension <= usize::MAX,
    ensures
        found is None <==> exactly_symmetric(matrix@, dimension as int),
        found matches Some(pair) ==> first_asymmetry(matrix@, dimension as int, pair.0 as int, pair.1 as int),
{
    let mut row: usize = 0;
    while row < dimension
        invariant
            row <= dimension,
            matrix@.len() == dimension * dimension,
            dimension * dimension <= usize::MAX,
            forall|r: int, c: int|
                #![trigger asymmetric_at(matrix@, dimension as int, r, c)]
                r < row ==> !asymmetric_at(matrix@, dimension as int, r, c),
        decreases dimension - row,
    {
        let mut column: usize = row + 1;
        while column < dimension
            invariant
                row < dimension,
                row + 1 <= column <= dimension,
                matrix@.len() == dimension * dimension,
                dimension * dimension <= usize::MAX,
                forall|r: int, c: int|
                    #![trigger asymmetric_at(matrix@, dimension as int, r, c)]
                    pair_precedes(r, c, row as int, column as int) ==> !asymmetric_at(
                        matrix@,
                        dimension as int,
                        r,
                        c,
                    ),
            decreases dimension - column,
        {
            proof {
                lemma_square_index(row as int, column as int, dimension as int);
                lemma_square_index(column as int, row as int, dimension as int);
            }
            let upper = matrix[row * dimension + column];
            let lower = matrix[column * dimension + row];
            if upper != lower && !(is_zero_bits(upper) && is_zero_bits(lower)) {
                assert(asymmetric_at(matrix@, dimension as int, row as int, column as int));
                return Some((row, column));
            }
            column += 1;
        }
        row += 1;
    }
    None
}

impl DenseEqualitySystem {
    /// Validates a nonempty finite symmetric row-major matrix and right-hand
    /// side, given as binary64 bit patterns. The checks run in order: an empty
    /// system, an overflowing entry count, mismatched lengths, the first
    /// nonfinite matrix entry, the first nonfinite right-hand-side entry, and
    /// the first asymmetric entry in row-major order.
    pub fn try_from_row_major(dimension: usize, matrix: Vec<u64>, rhs: Vec<u64>) -> (result: Result<
        Self,
        DenseEqualitySystemError,
    >)
        ensures
            dimension == 0 ==> result == Err::<Self, _>(DenseEqualitySystemError::Empty),
            dimension > 0 && dimension * dimension > usize::MAX ==> result == Err::<Self, _>(
                DenseEqualitySystemError::ShapeOverflow { dimension },
            ),
            dimension > 0 && dimension * dimension <= usize::MAX && (matrix@.len() != dimension
                * dimension || rhs@.len() != dimension) ==> result == Err::<Self, _>(
                DenseEqualitySystemError::ShapeMismatch {
                    dimension,
                    matrix_entries: matrix@.len() as usize,
                    rhs_entries: rhs@.len() as usize,
                },
            ),
            (result matches Err(DenseEqualitySystemError::NonFiniteMatrix { index, value }) ==> (
            first_nonfinite(matrix@, index as int) && value == matrix@[index as int])),
            (result matches Err(DenseEqualitySystemError::NonFiniteRightHandSide { index, value }) ==> (
            all_finite(matrix@) && first_nonfinite(rhs@, index as int) && value == rhs@[index as int])),
            (result matches Err(DenseEqualitySystemError::NotSymmetric { row, column, upper, lower })
                ==> (all_finite(matrix@) && all_finite(rhs@) && first_asymmetry(
                matrix@,
                dimension as int,
                row as int,
                column as int,
            ) && upper == matrix@[row * dimension + column] && lower == matrix@[column * dimension
                + row])),
            dimension > 0 && matrix@.len() == dimension * dimension && rhs@.len() == dimension ==> (
            result is Ok <==> (all_finite(matrix@) && all_finite(rhs@) && exactly_symmetric(
                matrix@,
                dimension as int,
            ))),
            dimension > 0 && matrix@.len() == dimension * dimension && rhs@.len() == dimension && !all_finite(
                matrix@,
            ) ==> result is Err && (result matches Err(DenseEqualitySystemError::NonFiniteMatrix {
                ..
            })),
            dimension > 0 && matrix@.len() == dimension * dimension && rhs@.len() == dimension && all_finite(
                matrix@,
            ) && !all_finite(rhs@) ==> (result matches Err(
                DenseEqualitySystemError::NonFiniteRightHandSide { .. },
            )),
            dimension > 0 && matrix@.len() == dimension * dimension && rhs@.len() == dimension && all_finite(
                matrix@,
            ) && all_finite(rhs@) && !exactly_symmetric(matrix@, dimension as int) ==> (result matches Err(
                DenseEqualitySystemError::NotSymmetric { .. },
            )),
            result is Ok ==> numerically_symmetric(matrix@, dimension as int),
            (result matches Err(DenseEqualitySystemError::NotSymmetric { upper, lower, .. }) ==> binary64_order_key(upper)
                != binary64_order_key(lower)),
            result matches Ok(system) ==> system.spec_dimension() == dimension && system.spec_matrix()
                == matrix@ && system.spec_rhs() == rhs@,
    {
        let matrix_entries = matrix.len();
        let rhs_entries = rhs.len();
        if dimension == 0 {
            return Err(DenseEqualitySystemError::Empty);
        }
        let entries = match dimension.checked_mul(dimension) {
            Some(entries) => entries,
            None => {
                return Err(DenseEqualitySystemError::ShapeOverflow { dimension });
            },
        };
        if matrix_entries != entries || rhs_entries != dimension {
            return Err(
                DenseEqualitySystemError::ShapeMismatch { dimension, matrix_entries, rhs_entries },
            );
        }
        if let Some(index) = find_nonfinite(&matrix) {
            return Err(DenseEqualitySystemError::NonFiniteMatrix { index, value: matrix[index] });
        }
        if let Some(index) = find_nonfinite(&rhs) {
            return Err(DenseEqualitySystemError::NonFiniteRightHandSide { index, value: rhs[index] });
        }
        if let Some((row, column)) = find_asymmetry(&matrix, dimension) {
            proof {
                lemma_square_index(row as int, column as int, dimension as int);
                lemma_square_index(column as int, row as int, dimension as int);
                lemma_entries_match_numeric(matrix@[row * dimension + column], matrix@[column * dimension + row]);
            }
            return Err(
                DenseEqualitySystemError::NotSymmetric {
                    row,
                    column,
                    upper: matrix[row * dimension + column],
                    lower: matrix[column * dimension + row],
                },
            );
        }
        proof {
            let d = dimension as int;
            assert forall|r: int, c: int| 0 <= r < d && 0 <= c < d implies binary64_order_key(
                #[trigger] matrix@[r * d + c],
            ) == binary64_order_key(#[trigger] matrix@[c * d + r]) by {
                lemma_square_index(r, c, d);
                lemma_square_index(c, r, d);
                if r < c {
                    assert(!asymmetric_at(matrix@, d, r, c));
                    lemma_entries_match_numeric(matrix@[r * d + c], matrix@[c * d + r]);
                } else if c < r {
                    assert(!asymmetric_at(matrix@, d, c, r));
                    lemma_entries_match_numeric(matrix@[c * d + r], matrix@[r * d + c]);
                }
            }
        }
        Ok(DenseEqualitySystem { dimension, matrix, rhs })
    }

    /// The equal row and column count.
    pub closed spec fn spec_dimension(&self) -> usize {
        self.dimension
    }

    /// The row-major matrix entries.
    pub closed spec fn spec_matrix(&self) -> Seq<u64> {
        self.matrix@
    }

    /// The right-hand-side entries.
    pub closed spec fn spec_rhs(&self) -> Seq<u64> {
        self.rhs@
    }

    /// Returns the equal row and column count.
    pub fn dimension(&self) -> (dimension: usize)
        ensures
            dimension == self.spec_dimension(),
    {
        self.dimension
    }

    /// Borrows the row-major matrix.
    pub fn matrix(&self) -> (matrix: &[u64])
        ensures
            matrix@ == self.spec_matrix(),
    {
        self.matrix.as_slice()
    }

    /// Borrows the right-hand side.
    pub fn rhs(&self) -> (rhs: &[u64])
        ensures
            rhs@ == self.spec_rhs(),
    {
        self.rhs.as_slice()
    }

    /// The checked conservative peak-working-set estimate for a direct solve
    /// of this system, which owns its only copy.
    pub fn try_estimated_peak_memory_bytes(&self, records: SolveRecordSizes) -> (result: Result<
        usize,
        DenseSolveError,
    >)
        ensures
            ({
                let total = solve_peak_bytes(
                    self.spec_dimension() as nat,
                    SolveMemoryContext::OwnedSystem,
                    vstd::layout::size_of::<(usize, usize)>(),
                    records,
                );
                &&& total <= usize::MAX ==> result == Ok::<usize, DenseSolveError>(total as usize)
                &&& total > usize::MAX ==> result == Err::<usize, DenseSolveError>(
                    DenseSolveError::MemoryEstimateOverflow { dimension: self.spec_dimension() },
                )
            }),
    {
        estimate_peak_memory_bytes(self.dimension, SolveMemoryContext::OwnedSystem, records)
    }
}

/// Largest accepted number of iterative-refinement steps.
pub const MAX_REFINEMENT_STEPS: usize = 8;

/// The bit pattern of the binary64 value one.
pub const ONE_BITS: u64 = 0x3ff0_0000_0000_0000;

/// The bit pattern of `1 / sqrt(f64::EPSILON)`, which is exactly `2^26`.
pub const DEFAULT_CONDITION_WARNING_BITS: u64 = 0x4190_0000_0000_0000;

/// Explicit diagonal regularization policy; amounts are binary64 bits.
#[derive(Clone, Copy, Debug, PartialEq, Eq, Structural, Hash)]
pub enum Regularization {
    /// Preserve the input matrix exactly (no regularization).
    Disabled,
    /// Add this positive finite value to every diagonal entry.
    Explicit(u64),
}

impl Regularization {
    /// The value added to every diagonal entry: zero, or the explicit amount.
    pub fn amount(self) -> (amount: u64)
        ensures
            amount == match self {
                Regularization::Disabled => 0u64,
                Regularization::Explicit(value) => value,
            },
    {
        match self {
            Regularization::Disabled => 0,
            Regularization::Explicit(value) => value,
        }
    }
}

/// Invalid user-supplied dense-solver policy; scalars are binary64 bits.
#[derive(Clone, Copy, Debug, PartialEq, Eq, Structural, Hash)]
pub enum DenseSolverConfigurationError {
    /// The condition warning threshold is not finite and at least one.
    InvalidConditionWarning {
        /// Rejected value.
        value: u64,
    },
    /// The condition error threshold is not finite and above the warning threshold.
    InvalidConditionError {
        /// Accepted warning threshold.
        warning: u64,
        /// Rejected error threshold.
        value: u64,
    },
    /// The explicit diagonal regularization is not positive and finite.
    InvalidRegularization {
        /// Rejected value.
        value: u64,
    },
    /// The refinement count exceeds the fixed public bound.
    TooManyRefinementSteps {
        /// Requested count.
        requested: usize,
        /// Maximum accepted count.
        maximum: usize,
    },
}

/// Dimensionless condition-warning and rejection thresholds.
#[derive(Clone, Copy, Debug, PartialEq, Eq, Structural, Hash)]
pub struct ConditionPolicy {
    warning_threshold: u64,
    error_threshold: Option<u64>,
}

/// A warning threshold is finite and at least one.
pub open spec fn warning_accepted(warning: u64) -> bool {
    binary64_is_finite(warning) && binary64_order_key(warning) >= binary64_order_key(ONE_BITS)
}

/// An error threshold is finite and strictly above the warning threshold.
pub open spec fn error_accepted(warning: u64, error: u64) -> bool {
    binary64_is_finite(error) && binary64_order_key(error) > binary64_order_key(warning)
}

impl ConditionPolicy {
    /// The warning threshold, as binary64 bits.
    pub closed spec fn spec_warning_threshold(self) -> u64 {
        self.warning_threshold
    }

    /// The optional rejection threshold, as binary64 bits.
    pub closed spec fn spec_error_threshold(self) -> Option<u64> {
        self.error_threshold
    }

    /// Constructs a policy with a mandatory warning threshold and optional
    /// error threshold: the warning must be finite and at least one, and the
    /// error threshold, if any, finite and strictly greater than the warning.
    pub fn try_new(warning_threshold: u64, error_threshold: Option<u64>) -> (result: Result<
        Self,
        DenseSolverConfigurationError,
    >)
        ensures
            !warning_accepted(warning_threshold) ==> result == Err::<Self, DenseSolverConfigurationError>(
                DenseSolverConfigurationError::InvalidConditionWarning { value: warning_threshold },
            ),
            warning_accepted(warning_threshold) && (error_threshold matches Some(error) && !error_accepted(
                warning_threshold,
                error,
            )) ==> result == Err::<Self, DenseSolverConfigurationError>(
                DenseSolverConfigurationError::InvalidConditionError {
                    warning: warning_threshold,
                    value: error_threshold->Some_0,
                },
            ),
            warning_accepted(warning_threshold) && !(error_threshold matches Some(error) && !error_accepted(
                warning_threshold,
                error,
            )) ==> (result matches Ok(policy) && policy.spec_warning_threshold() == warning_threshold
                && policy.spec_error_threshold() == error_threshold),
    {
        if !is_finite_bits(warning_threshold) || order_key(warning_threshold) < order_key(ONE_BITS) {
            return Err(DenseSolverConfigurationError::InvalidConditionWarning { value: warning_threshold });
        }
        if let Some(error) = error_threshold {
            if !is_finite_bits(error) || order_key(error) <= order_key(warning_threshold) {
                return Err(
                    DenseSolverConfigurationError::InvalidConditionError {
                        warning: warning_threshold,
                        value: error,
                    },
                );
            }
        }
        Ok(ConditionPolicy { warning_threshold, error_threshold })
    }

    /// Returns the dimensionless warning threshold.
    pub fn warning_threshold(self) -> (warning: u64)
        ensures
            warning == self.spec_warning_threshold(),
    {
        self.warning_threshold
    }

    /// Returns the optional dimensionless rejection threshold.
    pub fn error_threshold(self) -> (error: Option<u64>)
        ensures
            error == self.spec_error_threshold(),
    {
        self.error_threshold
    }
}

impl Default for ConditionPolicy {
    /// Warns above `1 / sqrt(f64::EPSILON)` and rejects nothing.
    fn default() -> (policy: Self)
        ensures
            policy.spec_warning_threshold() == DEFAULT_CONDITION_WARNING_BITS,
            policy.spec_error_threshold() is None,
    {
        ConditionPolicy { warning_threshold: DEFAULT_CONDITION_WARNING_BITS, error_threshold: None }
    }
}

/// Complete explicit policy for one dense solve.
#[derive(Clone, Copy, Debug, PartialEq, Eq, Hash)]
pub struct DenseSolveOptions {
    factorization: DenseFactorization,
    regularization: Regularization,
    condition_policy: ConditionPolicy,
    maximum_refinement_steps: usize,
    memory_limit_bytes: NonZeroCount,
}

/// An explicit regularization amount is positive and finite.
pub open spec fn regularization_accepted(regularization: Regularization) -> bool {
    match regularization {
        Regularization::Disabled => true,
        Regularization::Explicit(value) => binary64_positive_finite(value),
    }
}

impl DenseSolveOptions {
    /// The requested factorization.
    pub closed spec fn spec_factorization(self) -> DenseFactorization {
        self.factorization
    }

    /// The regularization policy.
    pub closed spec fn spec_regularization(self) -> Regularization {
        self.regularization
    }

    /// The condition policy.
    pub closed spec fn spec_condition_policy(self) -> ConditionPolicy {
        self.condition_policy
    }

    /// The refinement-step bound.
    pub closed spec fn spec_maximum_refinement_steps(self) -> usize {
        self.maximum_refinement_steps
    }

    /// The peak-working-set limit.
    pub closed spec fn spec_memory_limit_bytes(self) -> NonZeroCount {
        self.memory_limit_bytes
    }

    /// Constructs checked solve options: rejects a nonpositive or nonfinite
    /// explicit regularization amount, then an unbounded refinement count.
    pub fn try_new(
        factorization: DenseFactorization,
        regularization: Regularization,
        condition_policy: ConditionPolicy,
        maximum_refinement_steps: usize,
        memory_limit_bytes: NonZeroCount,
    ) -> (result: Result<Self, DenseSolverConfigurationError>)
        ensures
            !regularization_accepted(regularization) ==> result == Err::<Self, DenseSolverConfigurationError>(
                DenseSolverConfigurationError::InvalidRegularization { value: regularization->Explicit_0 },
            ),
            regularization_accepted(regularization) && maximum_refinement_steps > MAX_REFINEMENT_STEPS
                ==> result == Err::<Self, DenseSolverConfigurationError>(
                DenseSolverConfigurationError::TooManyRefinementSteps {
                    requested: maximum_refinement_steps,
                    maximum: MAX_REFINEMENT_STEPS,
                },
            ),
            regularization_accepted(regularization) && maximum_refinement_steps <= MAX_REFINEMENT_STEPS
                ==> (result matches Ok(options) && options.spec_factorization() == factorization
                && options.spec_regularization() == regularization && options.spec_condition_policy()
                == condition_policy && options.spec_maximum_refinement_steps() == maximum_refinement_steps
                && options.spec_memory_limit_bytes() == memory_limit_bytes),
    {
        if let Regularization::Explicit(value) = regularization {
            if !is_positive_finite_bits(value) {
                return Err(DenseSolverConfigurationError::InvalidRegularization { value });
            }
        }
        if maximum_refinement_steps > MAX_REFINEMENT_STEPS {
            return Err(
                DenseSolverConfigurationError::TooManyRefinementSteps {
                    requested: maximum_refinement_steps,
                    maximum: MAX_REFINEMENT_STEPS,
                },
            );
        }
        Ok(
            DenseSolveOptions {
                factorization,
                regularization,
                condition_policy,
                maximum_refinement_steps,
                memory_limit_bytes,
            },
        )
    }

    /// Returns the explicitly requested factorization.
    pub fn factorization(self) -> (factorization: DenseFactorization)
        ensures
            factorization == self.spec_factorization(),
    {
        self.factorization
    }

    /// Returns the explicit regularization policy.
    pub fn regularization(self) -> (regularization: Regularization)
        ensures
            regularization == self.spec_regularization(),
    {
        self.regularization
    }

    /// Returns the condition policy.
    pub fn condition_policy(self) -> (policy: ConditionPolicy)
        ensures
            policy == self.spec_condition_policy(),
    {
        self.condition_policy
    }

    /// Returns the bounded refinement-step count.
    pub fn maximum_refinement_steps(self) -> (steps: usize)
        ensures
            steps == self.spec_maximum_refinement_steps(),
    {
        self.maximum_refinement_steps
    }

    /// Returns the explicit peak-working-set limit in bytes.
    pub fn memory_limit_bytes(self) -> (limit: NonZeroCount)
        ensures
            limit == self.spec_memory_limit_bytes(),
    {
        self.memory_limit_bytes
    }

    /// The same options under another memory limit.
    pub fn with_memory_limit_bytes(self, memory_limit_bytes: NonZeroCount) -> (options: Self)
        ensures
            options.spec_memory_limit_bytes() == memory_limit_bytes,
            options.spec_factorization() == self.spec_factorization(),
            options.spec_regularization() == self.spec_regularization(),
            options.spec_condition_policy() == self.spec_condition_policy(),
            options.spec_maximum_refinement_steps() == self.spec_maximum_refinement_steps(),
    {
        DenseSolveOptions { memory_limit_bytes, ..self }
    }
}

} // verus!
