//! Compilation of a validated level problem into canonical rows: one
//! equality per membership and per fixed level, one lower-bounded
//! difference per order edge, and one soft objective per prior, over the
//! caller's field variables followed by one variable per level.
use vstd::prelude::*;

use crate::binary64::{binary64_negated, negated_bits};
use crate::dimension::{Dim, SupportedDimension};
use crate::levels::problem::{field_total, graph_ok, level_position, LevelProblem};
use crate::levels::records::{definition_ids, find_level, names};
use crate::levels::{LevelDefinition, LevelId, LevelMembership, LevelOrder, LevelPrior, LevelValue};
use crate::problem_ir::{
    blocks_total, first_unplaceable, repeats_earlier_name, AffineExpression, AffineTerm, NonZeroCount, ProblemIrError,
    SemanticProvenance, SoftLoss, VariableBlock, VariableSpace,
};

verus! {

/// The bit pattern of the binary64 value one.
pub const ONE_BITS: u64 = 0x3ff0_0000_0000_0000;

/// The bit pattern of the binary64 value minus one.
pub const NEGATIVE_ONE_BITS: u64 = 0xbff0_0000_0000_0000;

/// A sparse term as its variable and coefficient bits.
pub open spec fn term_view(term: AffineTerm) -> (usize, u64) {
    (term.spec_variable(), term.spec_coefficient())
}

/// The sparse terms of an expression as variables and coefficient bits.
pub open spec fn terms_view(terms: Seq<AffineTerm>) -> Seq<(usize, u64)> {
    terms.map_values(|term: AffineTerm| term_view(term))
}

/// One canonical equality `row = rhs`.
#[derive(Debug)]
pub struct LevelEqualityRow {
    /// The affine row.
    pub row: AffineExpression,
    /// The right-hand side, as binary64 bits.
    pub rhs: u64,
    /// The source of the row.
    pub provenance: SemanticProvenance,
}

/// One canonical lower bound `lower <= row`.
#[derive(Debug)]
pub struct LevelBoundRow {
    /// The affine row.
    pub row: AffineExpression,
    /// The lower bound, as binary64 bits.
    pub lower: u64,
    /// The source of the row.
    pub provenance: SemanticProvenance,
}

/// One soft objective: an equality with a residual scale and a loss.
#[derive(Debug)]
pub struct LevelSoftObjective {
    /// The softly enforced equality.
    pub relation: LevelEqualityRow,
    /// The residual scale, as binary64 bits.
    pub scale: u64,
    /// The loss family.
    pub loss: SoftLoss,
}

/// One explicit canonical soft-prior term.
#[derive(Debug)]
pub struct CanonicalLevelPrior {
    level_id: LevelId,
    variable: usize,
    prior: LevelPrior,
    provenance: SemanticProvenance,
}

impl CanonicalLevelPrior {
    /// The level identifier.
    pub closed spec fn spec_level_id(&self) -> LevelId {
        self.level_id
    }

    /// The canonical variable.
    pub closed spec fn spec_variable(&self) -> usize {
        self.variable
    }

    /// The prior parameters.
    pub closed spec fn spec_prior(&self) -> LevelPrior {
        self.prior
    }

    /// The prior's provenance.
    pub closed spec fn spec_provenance(&self) -> SemanticProvenance {
        self.provenance
    }

    /// Returns the level identifier.
    pub fn level_id(&self) -> (id: LevelId)
        ensures
            id == self.spec_level_id(),
    {
        self.level_id
    }

    /// Returns the zero-based canonical variable index.
    pub fn variable(&self) -> (variable: usize)
        ensures
            variable == self.spec_variable(),
    {
        self.variable
    }

    /// Returns the explicit prior parameters.
    pub fn prior(&self) -> (prior: LevelPrior)
        ensures
            prior == self.spec_prior(),
    {
        self.prior
    }

    /// Borrows complete prior provenance.
    pub fn provenance(&self) -> (provenance: &SemanticProvenance)
        ensures
            *provenance == self.spec_provenance(),
    {
        &self.provenance
    }
}

/// Whether `row` is the unit row `1 * z[variable]` with constant zero.
pub open spec fn unit_row(row: AffineExpression, variable: int) -> bool {
    &&& terms_view(row.spec_terms()) == seq![(variable as usize, ONE_BITS)]
    &&& row.spec_constant() == 0
}

/// Whether `row` is a membership's equality: its field terms followed by
/// `-1` on the level variable, constant zero, and the negated field
/// constant on the right.
pub open spec fn membership_row(
    row: LevelEqualityRow,
    field: AffineExpression,
    level_variable: int,
    provenance: SemanticProvenance,
) -> bool {
    &&& terms_view(row.row.spec_terms()) == terms_view(field.spec_terms()).push(
        (level_variable as usize, NEGATIVE_ONE_BITS),
    )
    &&& row.row.spec_constant() == 0
    &&& row.rhs == binary64_negated(field.spec_constant())
    &&& row.provenance == provenance
}

/// Whether `row` is an order edge's bound: `z[upper] - z[lower]` with its
/// terms in variable order, bounded below by the minimum gap.
pub open spec fn order_row(row: LevelBoundRow, lower_variable: int, upper_variable: int, order: LevelOrder) -> bool {
    &&& terms_view(row.row.spec_terms()) == if lower_variable < upper_variable {
        seq![(lower_variable as usize, NEGATIVE_ONE_BITS), (upper_variable as usize, ONE_BITS)]
    } else {
        seq![(upper_variable as usize, ONE_BITS), (lower_variable as usize, NEGATIVE_ONE_BITS)]
    }
    &&& row.row.spec_constant() == 0
    &&& row.lower == order.spec_minimum_gap()
    &&& row.provenance == order.spec_provenance()
}

/// The positions of the fixed levels among the first `count`, in order.
pub open spec fn fixed_positions(levels: Seq<LevelDefinition>, count: int) -> Seq<int>
    decreases count,
{
    if count <= 0 {
        seq![]
    } else if levels[count - 1].value is Fixed {
        fixed_positions(levels, count - 1).push(count - 1)
    } else {
        fixed_positions(levels, count - 1)
    }
}

/// The positions of the levels with a prior among the first `count`, in order.
pub open spec fn prior_positions(levels: Seq<LevelDefinition>, count: int) -> Seq<int>
    decreases count,
{
    if count <= 0 {
        seq![]
    } else if levels[count - 1].value is Prior {
        prior_positions(levels, count - 1).push(count - 1)
    } else {
        prior_positions(levels, count - 1)
    }
}

/// A unit row on `variable`; it is always built.
fn unit_expression(variable: usize) -> (result: Result<AffineExpression, ProblemIrError>)
    ensures
        result matches Ok(row) && unit_row(row, variable as int),
{
    let term = AffineTerm::try_new(variable, ONE_BITS)?;
    let mut terms: Vec<AffineTerm> = Vec::new();
    terms.push(term);
    let row = AffineExpression::try_new(terms, 0)?;
    proof {
        assert(terms_view(row.spec_terms()) =~= seq![(variable as usize, ONE_BITS)]);
    }
    Ok(row)
}

/// A membership's row: the field terms followed by `-1` on the level
/// variable, with constant zero; fails only when the term count overflows.
fn membership_expression(field: &AffineExpression, level_variable: usize, field_count: usize) -> (result: Result<
    AffineExpression,
    ProblemIrError,
>)
    requires
        forall|i: int|
            0 <= i < field.spec_terms().len() ==> (#[trigger] field.spec_terms()[i]).spec_variable() < field_count,
        field_count <= level_variable,
    ensures
        field.spec_terms().len() < usize::MAX ==> (result matches Ok(row) && terms_view(row.spec_terms())
            == terms_view(field.spec_terms()).push((level_variable, NEGATIVE_ONE_BITS)) && row.spec_constant()
            == 0),
        field.spec_terms().len() == usize::MAX ==> result == Err::<AffineExpression, ProblemIrError>(
            ProblemIrError::MemoryEstimateOverflow,
        ),
{
    let field_terms = field.terms();
    if field_terms.len() == usize::MAX {
        return Err(ProblemIrError::MemoryEstimateOverflow);
    }
    let mut terms: Vec<AffineTerm> = Vec::new();
    let mut index: usize = 0;
    while index < field_terms.len()
        invariant
            index <= field_terms@.len(),
            field_terms@ == field.spec_terms(),
            terms@ == field_terms@.take(index as int),
        decreases field_terms@.len() - index,
    {
        terms.push(field_terms[index]);
        proof {
            assert(terms@ =~= field_terms@.take(index as int + 1));
        }
        index += 1;
    }
    let level_term = AffineTerm::try_new(level_variable, NEGATIVE_ONE_BITS)?;
    let ghost prefix = terms@;
    terms.push(level_term);
    proof {
        assert(prefix =~= field_terms@);
        assert forall|j: int, k: int|
            0 <= j < k < terms@.len() implies (#[trigger] terms@[j]).spec_variable() < (#[trigger] terms@[k]).spec_variable() by {
            if k < prefix.len() {
                assert(terms@[j] == prefix[j]);
                assert(terms@[k] == prefix[k]);
            } else {
                assert(terms@[j] == field_terms@[j]);
                assert(field_terms@[j].spec_variable() < field_count);
            }
        }
    }
    let row = AffineExpression::try_new(terms, 0)?;
    proof {
        assert(terms_view(row.spec_terms()) =~= terms_view(field.spec_terms()).push(
            (level_variable, NEGATIVE_ONE_BITS),
        ));
    }
    Ok(row)
}

/// An order edge's row: `z[upper] - z[lower]` with its terms in variable
/// order; two equal variables are refused as non-increasing indices.
fn order_expression(lower_variable: usize, upper_variable: usize) -> (result: Result<AffineExpression, ProblemIrError>)
    ensures
        lower_variable != upper_variable ==> (result matches Ok(row) && terms_view(row.spec_terms()) == if lower_variable
            < upper_variable {
            seq![(lower_variable, NEGATIVE_ONE_BITS), (upper_variable, ONE_BITS)]
        } else {
            seq![(upper_variable, ONE_BITS), (lower_variable, NEGATIVE_ONE_BITS)]
        } && row.spec_constant() == 0),
        lower_variable == upper_variable ==> result is Err,
{
    let lower_term = AffineTerm::try_new(lower_variable, NEGATIVE_ONE_BITS)?;
    let upper_term = AffineTerm::try_new(upper_variable, ONE_BITS)?;
    let mut terms: Vec<AffineTerm> = Vec::new();
    if lower_variable < upper_variable {
        terms.push(lower_term);
        terms.push(upper_term);
    } else {
        terms.push(upper_term);
        terms.push(lower_term);
    }
    let row = AffineExpression::try_new(terms, 0)?;
    proof {
        if lower_variable < upper_variable {
            assert(terms_view(row.spec_terms()) =~= seq![(lower_variable, NEGATIVE_ONE_BITS), (upper_variable, ONE_BITS)]);
        } else {
            assert(terms_view(row.spec_terms()) =~= seq![(upper_variable, ONE_BITS), (lower_variable, NEGATIVE_ONE_BITS)]);
        }
    }
    Ok(row)
}

/// The name of the block of level variables.
pub open spec fn level_block_name() -> Seq<char> {
    seq!['l', 'e', 'v', 'e', 'l', 's']
}

/// Why a level problem could not be compiled.
#[derive(Debug)]
pub enum LevelCanonicalizationError<E> {
    /// No field variable block was supplied.
    EmptyFieldVariableSpace,
    /// The validated problem unexpectedly had no levels.
    EmptyLevelVariableSpace,
    /// Semantic or canonical IR validation failed.
    Ir(ProblemIrError),
    /// The caller field linearizer failed.
    Linearization {
        /// Membership insertion index.
        membership_index: usize,
        /// Stable observation identifier.
        observation_id: crate::problem_ir::ObservationId,
        /// Caller diagnostic.
        source: E,
    },
    /// The caller referenced a variable outside the field blocks.
    InvalidLinearization {
        /// Membership insertion index.
        membership_index: usize,
        /// Stable observation identifier.
        observation_id: crate::problem_ir::ObservationId,
        /// Affine validation diagnostic.
        source: ProblemIrError,
    },
    /// An invariant of an already validated problem was violated.
    InvalidValidatedState,
}

/// Canonical rows of a compiled level problem, with a stable view of the
/// level variables.
#[derive(Debug)]
pub struct CompiledLevelProblem {
    variable_space: VariableSpace,
    equalities: Vec<LevelEqualityRow>,
    linear_bounds: Vec<LevelBoundRow>,
    soft_objectives: Vec<LevelSoftObjective>,
    priors: Vec<CanonicalLevelPrior>,
    level_ids: Vec<LevelId>,
    level_variable_offset: usize,
}

/// Whether a linearized field functional succeeded and names only field variables.
pub open spec fn linearization_ok<E>(item: Result<AffineExpression, E>, field_count: nat) -> bool {
    item matches Ok(affine) && forall|i: int|
        0 <= i < affine.spec_terms().len() ==> (#[trigger] affine.spec_terms()[i]).spec_variable() < field_count
}

/// Membership `index` is the first whose linearization failed or named a
/// variable outside the field blocks.
pub open spec fn first_bad_linearization<E>(linearized: Seq<Result<AffineExpression, E>>, field_count: nat, index: int) -> bool {
    &&& 0 <= index < linearized.len()
    &&& !linearization_ok(linearized[index], field_count)
    &&& forall|earlier: int| 0 <= earlier < index ==> linearization_ok(#[trigger] linearized[earlier], field_count)
}

impl CompiledLevelProblem {
    #[verifier::type_invariant]
    spec fn inv(self) -> bool {
        self.level_variable_offset + self.level_ids@.len() <= usize::MAX
    }

    /// The variable blocks: the field blocks, then the level block.
    pub closed spec fn spec_variable_blocks(&self) -> Seq<VariableBlock> {
        self.variable_space.spec_blocks()
    }

    /// The equality rows: memberships, then fixed levels.
    pub closed spec fn spec_equalities(&self) -> Seq<LevelEqualityRow> {
        self.equalities@
    }

    /// The lower-bound rows, one per order edge.
    pub closed spec fn spec_linear_bounds(&self) -> Seq<LevelBoundRow> {
        self.linear_bounds@
    }

    /// The soft objectives, one per prior.
    pub closed spec fn spec_soft_objectives(&self) -> Seq<LevelSoftObjective> {
        self.soft_objectives@
    }

    /// The priors in level insertion order.
    pub closed spec fn spec_priors(&self) -> Seq<CanonicalLevelPrior> {
        self.priors@
    }

    /// The level identifiers in insertion order.
    pub closed spec fn spec_level_ids(&self) -> Seq<LevelId> {
        self.level_ids@
    }

    /// The first level variable.
    pub closed spec fn spec_level_variable_offset(&self) -> usize {
        self.level_variable_offset
    }

    /// Borrows the variable blocks.
    pub fn variable_blocks(&self) -> (blocks: &[VariableBlock])
        ensures
            blocks@ == self.spec_variable_blocks(),
    {
        self.variable_space.blocks()
    }

    /// Borrows the equality rows.
    pub fn equalities(&self) -> (rows: &[LevelEqualityRow])
        ensures
            rows@ == self.spec_equalities(),
    {
        self.equalities.as_slice()
    }

    /// Borrows the lower-bound rows.
    pub fn linear_bounds(&self) -> (rows: &[LevelBoundRow])
        ensures
            rows@ == self.spec_linear_bounds(),
    {
        self.linear_bounds.as_slice()
    }

    /// Borrows the soft objectives.
    pub fn soft_objectives(&self) -> (objectives: &[LevelSoftObjective])
        ensures
            objectives@ == self.spec_soft_objectives(),
    {
        self.soft_objectives.as_slice()
    }

    /// Borrows explicit soft priors in level insertion order.
    pub fn priors(&self) -> (priors: &[CanonicalLevelPrior])
        ensures
            priors@ == self.spec_priors(),
    {
        self.priors.as_slice()
    }

    /// Returns the canonical variable assigned to a stable level identifier.
    pub fn level_variable(&self, level_id: LevelId) -> (variable: Option<usize>)
        ensures
            !self.spec_level_ids().contains(level_id) ==> variable is None,
            self.spec_level_ids().contains(level_id) ==> variable is Some,
            variable matches Some(v) ==> exists|index: int|
                0 <= index < self.spec_level_ids().len() && self.spec_level_ids()[index] == level_id && (forall|
                    earlier: int,
                | 0 <= earlier < index ==> self.spec_level_ids()[earlier] != level_id) && v == self.spec_level_variable_offset()
                    + index,
    {
        proof {
            use_type_invariant(self);
        }
        let mut index: usize = 0;
        while index < self.level_ids.len()
            invariant
                index <= self.level_ids@.len(),
                self.level_variable_offset + self.level_ids@.len() <= usize::MAX,
                forall|earlier: int| 0 <= earlier < index ==> self.level_ids@[earlier] != level_id,
            decreases self.level_ids@.len() - index,
        {
            if self.level_ids[index] == level_id {
                assert(self.spec_level_ids() == self.level_ids@);
                assert(self.spec_level_ids()[index as int] == level_id);
                return self.level_variable_offset.checked_add(index);
            }
            index += 1;
        }
        None
    }
}

/// Strictly increasing variables below a bound are no more than the bound.
proof fn lemma_increasing_bounded_len(terms: Seq<AffineTerm>, bound: nat)
    requires
        crate::problem_ir::affine::strictly_increasing(terms),
        forall|i: int| 0 <= i < terms.len() ==> (#[trigger] terms[i]).spec_variable() < bound,
    ensures
        terms.len() <= bound,
{
    assert forall|i: int| 0 <= i < terms.len() implies (#[trigger] terms[i]).spec_variable() >= i by {
        lemma_increasing_at_least_index(terms, i);
    }
    if terms.len() > 0 {
        assert(terms[terms.len() - 1].spec_variable() >= terms.len() - 1);
    }
}

/// In strictly increasing variables, the one at position `i` is at least `i`.
proof fn lemma_increasing_at_least_index(terms: Seq<AffineTerm>, i: int)
    requires
        crate::problem_ir::affine::strictly_increasing(terms),
        0 <= i < terms.len(),
    ensures
        terms[i].spec_variable() >= i,
    decreases i,
{
    if i > 0 {
        lemma_increasing_at_least_index(terms, i - 1);
        assert(terms[i - 1].spec_variable() < terms[i].spec_variable());
    }
}

/// An order graph with a topological order has no self edge.
proof fn lemma_no_self_edge(edges: Seq<(usize, usize)>, count: nat, k: int)
    requires
        crate::levels::order_graph::acyclic(edges, count),
        0 <= k < edges.len(),
    ensures
        edges[k].0 != edges[k].1,
{
    let order = choose|order: Seq<usize>| #[trigger] crate::levels::order_graph::is_topological(edges, count, order);
    assert(crate::levels::order_graph::placed_before(order, edges[k]));
    let (i, j) = choose|i: int, j: int|
        0 <= i < j < order.len() && #[trigger] order[i] == edges[k].0 && #[trigger] order[j] == edges[k].1;
    assert(order[i] != order[j]);
}

/// The compiled rows of a level problem, given its records, the caller's
/// field blocks (holding `field_count` variables) and the linearized
/// membership functionals.
pub open spec fn compiled_rows<const D: usize, E>(
    levels: Seq<LevelDefinition>,
    memberships: Seq<LevelMembership<D>>,
    orders: Seq<LevelOrder>,
    blocks: Seq<VariableBlock>,
    linearized: Seq<Result<AffineExpression, E>>,
    field_count: nat,
    compiled: CompiledLevelProblem,
) -> bool where Dim<D>: SupportedDimension<D> {
    let m_count = memberships.len();
    let fixed = fixed_positions(levels, levels.len() as int);
    let priors = prior_positions(levels, levels.len() as int);
    let equalities = compiled.spec_equalities();
    let bounds = compiled.spec_linear_bounds();
    let objectives = compiled.spec_soft_objectives();
    let prior_terms = compiled.spec_priors();
    &&& compiled.spec_level_variable_offset() == field_count
    &&& compiled.spec_variable_blocks().len() == blocks.len() + 1
    &&& compiled.spec_variable_blocks().take(blocks.len() as int) == blocks
    &&& compiled.spec_variable_blocks()[blocks.len() as int].spec_name() == level_block_name()
    &&& compiled.spec_variable_blocks()[blocks.len() as int].spec_len().spec_get() == levels.len()
    &&& compiled.spec_level_ids() == definition_ids(levels)
    &&& equalities.len() == m_count + fixed.len()
    &&& forall|m: int|
        0 <= m < m_count ==> #[trigger] membership_row(
            equalities[m],
            linearized[m]->Ok_0,
            field_count + level_position(levels, memberships[m].spec_level_id()),
            memberships[m].spec_provenance(),
        )
    &&& forall|j: int|
        0 <= j < fixed.len() ==> #[trigger] unit_row(equalities[m_count + j].row, field_count + fixed[j])
            && equalities[m_count + j].rhs == levels[fixed[j]].value->Fixed_0 && equalities[m_count
            + j].provenance == levels[fixed[j]].provenance
    &&& bounds.len() == orders.len()
    &&& forall|k: int|
        0 <= k < orders.len() ==> #[trigger] order_row(
            bounds[k],
            field_count + level_position(levels, orders[k].spec_lower()),
            field_count + level_position(levels, orders[k].spec_upper()),
            orders[k],
        )
    &&& objectives.len() == priors.len()
    &&& prior_terms.len() == priors.len()
    &&& forall|j: int|
        0 <= j < priors.len() ==> {
            let prior = levels[priors[j]].value->Prior_0;
            &&& #[trigger] prior_terms[j].spec_level_id() == levels[priors[j]].level_id
            &&& prior_terms[j].spec_variable() == field_count + priors[j]
            &&& prior_terms[j].spec_prior() == prior
            &&& prior_terms[j].spec_provenance() == levels[priors[j]].provenance
            &&& unit_row(objectives[j].relation.row, field_count + priors[j])
            &&& objectives[j].relation.rhs == prior.spec_mean()
            &&& objectives[j].relation.provenance == levels[priors[j]].provenance
            &&& objectives[j].scale == prior.spec_scale()
            &&& objectives[j].loss == prior.spec_loss()
        }
}

/// A report of a term whose variable lies outside `field_count` variables.
pub open spec fn variable_out_of_range(source: ProblemIrError, field_count: usize) -> bool {
    source matches ProblemIrError::AffineVariableOutOfRange { variable, variable_count } && variable_count
        == field_count && variable >= field_count
}

/// The equality row of every membership, in order, or the first failure:
/// a failed or invalid linearization, an overflowing level variable, or an
/// overflowing term count.
pub(crate) fn membership_rows<const D: usize, E>(
    levels: &Vec<LevelDefinition>,
    memberships: &Vec<LevelMembership<D>>,
    linearized: Vec<Result<AffineExpression, E>>,
    field_count: usize,
) -> (result: Result<Vec<LevelEqualityRow>, LevelCanonicalizationError<E>>) where Dim<D>: SupportedDimension<D>
    requires
        linearized@.len() == memberships@.len(),
        levels@.len() >= 2,
        crate::levels::records::all_distinct(definition_ids(levels@)),
        forall|m: int| 0 <= m < memberships@.len() ==> definition_ids(levels@).contains(#[trigger] memberships@[m].spec_level_id()),
    ensures
        result matches Ok(rows) ==> rows@.len() == memberships@.len() && (forall|m: int|
            0 <= m < memberships@.len() ==> linearization_ok(#[trigger] linearized@[m], field_count as nat))
            && (forall|m: int|
            0 <= m < memberships@.len() ==> #[trigger] membership_row(
                rows@[m],
                linearized@[m]->Ok_0,
                field_count + level_position(levels@, memberships@[m].spec_level_id()),
                memberships@[m].spec_provenance(),
            ) && field_count + level_position(levels@, memberships@[m].spec_level_id()) <= usize::MAX),
        field_count + levels@.len() <= usize::MAX + 1 ==> ((result is Ok <==> forall|m: int|
            0 <= m < memberships@.len() ==> linearization_ok(#[trigger] linearized@[m], field_count as nat))
            && forall|m: int|
            #[trigger] first_bad_linearization(linearized@, field_count as nat, m) ==> match linearized@[m] {
                Err(source) => result == Err::<Vec<LevelEqualityRow>, LevelCanonicalizationError<E>>(
                    LevelCanonicalizationError::Linearization {
                        membership_index: m as usize,
                        observation_id: memberships@[m].spec_provenance().spec_observation_id(),
                        source,
                    },
                ),
                Ok(_) => (result matches Err(
                    LevelCanonicalizationError::InvalidLinearization { membership_index, observation_id, source },
                ) && membership_index == m && observation_id == memberships@[m].spec_provenance().spec_observation_id()
                    && variable_out_of_range(source, field_count)),
            }),
{
    let mut rows: Vec<LevelEqualityRow> = Vec::new();
    let mut index: usize = 0;
    while index < memberships.len()
        invariant
            index <= memberships@.len(),
            linearized@.len() == memberships@.len(),
            levels@.len() >= 2,
            crate::levels::records::all_distinct(definition_ids(levels@)),
            forall|m: int| 0 <= m < memberships@.len() ==> definition_ids(levels@).contains(#[trigger] memberships@[m].spec_level_id()),
            rows@.len() == index,
            forall|m: int| 0 <= m < index ==> linearization_ok(#[trigger] linearized@[m], field_count as nat),
            forall|m: int|
                0 <= m < index ==> #[trigger] membership_row(
                    rows@[m],
                    linearized@[m]->Ok_0,
                    field_count + level_position(levels@, memberships@[m].spec_level_id()),
                    memberships@[m].spec_provenance(),
                ) && field_count + level_position(levels@, memberships@[m].spec_level_id()) <= usize::MAX,
        decreases memberships@.len() - index,
    {
        let membership = &memberships[index];
        let observation_id = membership.provenance().observation_id();
        if linearized[index].is_err() {
            let mut remaining = linearized;
            let item = remaining.remove(index);
            match item {
                Err(source) => {
                    proof {
                        assert(first_bad_linearization(linearized@, field_count as nat, index as int));
                    }
                    return Err(
                        LevelCanonicalizationError::Linearization { membership_index: index, observation_id, source },
                    );
                },
                Ok(_) => {
                    proof {
                        assert(false);
                    }
                    return Err(LevelCanonicalizationError::InvalidValidatedState);
                },
            }
        }
        let affine = match &linearized[index] {
            Ok(affine) => affine,
            Err(_) => {
                return Err(LevelCanonicalizationError::InvalidValidatedState);
            },
        };
        if let Err(source) = affine.validate_variable_count(field_count) {
            proof {
                assert(!linearization_ok(linearized@[index as int], field_count as nat));
                assert(first_bad_linearization(linearized@, field_count as nat, index as int));
            }
            return Err(
                LevelCanonicalizationError::InvalidLinearization { membership_index: index, observation_id, source },
            );
        }
        let level_index = match find_level(levels, membership.level_id()) {
            Some(position) => position,
            None => {
                return Err(LevelCanonicalizationError::InvalidValidatedState);
            },
        };
        proof {
            assert(names(levels@, level_index as int, memberships@[index as int].spec_level_id()));
            crate::levels::problem::lemma_unique_position(
                levels@,
                level_index as int,
                memberships@[index as int].spec_level_id(),
            );
        }
        let level_variable = match field_count.checked_add(level_index) {
            Some(variable) => variable,
            None => {
                return Err(LevelCanonicalizationError::Ir(ProblemIrError::VariableCountOverflow));
            },
        };
        let field_terms = affine.terms();
        proof {
            lemma_increasing_bounded_len(field_terms@, field_count as nat);
        }
        let row = match membership_expression(affine, level_variable, field_count) {
            Ok(row) => row,
            Err(error) => {
                return Err(LevelCanonicalizationError::Ir(error));
            },
        };
        let rhs = negated_bits(affine.constant());
        let provenance = membership.provenance().clone_for_canonical();
        rows.push(LevelEqualityRow { row, rhs, provenance });
        index += 1;
    }
    Ok(rows)
}

/// The fixed positions are exactly the fixed levels among the first
/// `count`, in increasing order.
pub(crate) proof fn lemma_fixed_positions(levels: Seq<LevelDefinition>, count: int)
    requires
        0 <= count <= levels.len(),
    ensures
        forall|j: int|
            0 <= j < fixed_positions(levels, count).len() ==> 0 <= #[trigger] fixed_positions(levels, count)[j]
                < count && levels[fixed_positions(levels, count)[j]].value is Fixed,
        forall|i: int| 0 <= i < count && levels[i].value is Fixed ==> fixed_positions(levels, count).contains(i),
        fixed_positions(levels, count).len() <= count,
    decreases count,
{
    if count > 0 {
        lemma_fixed_positions(levels, count - 1);
        let before = fixed_positions(levels, count - 1);
        assert forall|i: int| 0 <= i < count && levels[i].value is Fixed implies fixed_positions(
            levels,
            count,
        ).contains(i) by {
            if i < count - 1 {
                assert(before.contains(i));
                let j = choose|j: int| 0 <= j < before.len() && before[j] == i;
                assert(fixed_positions(levels, count)[j] == i);
            } else {
                assert(fixed_positions(levels, count)[before.len() as int] == i);
            }
        }
    }
}

/// The prior positions are exactly the levels with a prior among the first
/// `count`, in increasing order.
pub(crate) proof fn lemma_prior_positions(levels: Seq<LevelDefinition>, count: int)
    requires
        0 <= count <= levels.len(),
    ensures
        forall|j: int|
            0 <= j < prior_positions(levels, count).len() ==> 0 <= #[trigger] prior_positions(levels, count)[j]
                < count && levels[prior_positions(levels, count)[j]].value is Prior,
        forall|i: int| 0 <= i < count && levels[i].value is Prior ==> prior_positions(levels, count).contains(i),
        prior_positions(levels, count).len() <= count,
    decreases count,
{
    if count > 0 {
        lemma_prior_positions(levels, count - 1);
        let before = prior_positions(levels, count - 1);
        assert forall|i: int| 0 <= i < count && levels[i].value is Prior implies prior_positions(
            levels,
            count,
        ).contains(i) by {
            if i < count - 1 {
                assert(before.contains(i));
                let j = choose|j: int| 0 <= j < before.len() && before[j] == i;
                assert(prior_positions(levels, count)[j] == i);
            } else {
                assert(prior_positions(levels, count)[before.len() as int] == i);
            }
        }
    }
}

/// The equality row of every fixed level, in level order.
pub(crate) fn fixed_rows<E>(levels: &Vec<LevelDefinition>, field_count: usize) -> (result: Result<
    Vec<LevelEqualityRow>,
    LevelCanonicalizationError<E>,
>)
    ensures
        field_count + levels@.len() <= usize::MAX + 1 ==> result is Ok,
        result matches Ok(rows) ==> ({
            let fixed = fixed_positions(levels@, levels@.len() as int);
            &&& rows@.len() == fixed.len()
            &&& forall|j: int|
                0 <= j < fixed.len() ==> #[trigger] unit_row(rows@[j].row, field_count + fixed[j]) && rows@[j].rhs
                    == levels@[fixed[j]].value->Fixed_0 && rows@[j].provenance == levels@[fixed[j]].provenance
                    && field_count + fixed[j] <= usize::MAX
        }),
{
    let mut rows: Vec<LevelEqualityRow> = Vec::new();
    let mut index: usize = 0;
    while index < levels.len()
        invariant
            index <= levels@.len(),
            rows@.len() == fixed_positions(levels@, index as int).len(),
            forall|j: int|
                0 <= j < fixed_positions(levels@, index as int).len() ==> #[trigger] unit_row(
                    rows@[j].row,
                    field_count + fixed_positions(levels@, index as int)[j],
                ) && rows@[j].rhs == levels@[fixed_positions(levels@, index as int)[j]].value->Fixed_0
                    && rows@[j].provenance == levels@[fixed_positions(levels@, index as int)[j]].provenance
                    && field_count + fixed_positions(levels@, index as int)[j] <= usize::MAX,
            field_count + levels@.len() <= usize::MAX + 1 ==> field_count + index <= usize::MAX + 1,
        decreases levels@.len() - index,
    {
        let level = &levels[index];
        if let LevelValue::Fixed(value) = level.value {
            let variable = match field_count.checked_add(index) {
                Some(variable) => variable,
                None => {
                    return Err(LevelCanonicalizationError::Ir(ProblemIrError::VariableCountOverflow));
                },
            };
            let row = match unit_expression(variable) {
                Ok(row) => row,
                Err(error) => {
                    return Err(LevelCanonicalizationError::Ir(error));
                },
            };
            let provenance = level.provenance.clone_for_canonical();
            rows.push(LevelEqualityRow { row, rhs: value, provenance });
        }
        proof {
            let next = fixed_positions(levels@, index as int + 1);
            let before = fixed_positions(levels@, index as int);
            if levels@[index as int].value is Fixed {
                assert(next == before.push(index as int));
            } else {
                assert(next == before);
            }
        }
        index += 1;
    }
    proof {
        let fixed = fixed_positions(levels@, levels@.len() as int);
        assert(fixed == fixed_positions(levels@, index as int));
        assert forall|j: int| 0 <= j < fixed.len() implies #[trigger] unit_row(rows@[j].row, field_count + fixed[j])
            && rows@[j].rhs == levels@[fixed[j]].value->Fixed_0 && rows@[j].provenance == levels@[fixed[j]].provenance
            && field_count + fixed[j] <= usize::MAX by {
            assert(unit_row(rows@[j].row, field_count + fixed_positions(levels@, index as int)[j]));
        }
    }
    Ok(rows)
}

/// The equality row and prior record of every level with a prior, in level order.
pub(crate) fn prior_rows<E>(levels: &Vec<LevelDefinition>, field_count: usize) -> (result: Result<
    (Vec<LevelSoftObjective>, Vec<CanonicalLevelPrior>),
    LevelCanonicalizationError<E>,
>)
    ensures
        field_count + levels@.len() <= usize::MAX + 1 ==> result is Ok,
        result matches Ok(parts) ==> ({
            let priors = prior_positions(levels@, levels@.len() as int);
            let objectives = parts.0@;
            let prior_terms = parts.1@;
            &&& objectives.len() == priors.len()
            &&& prior_terms.len() == priors.len()
            &&& forall|j: int|
                0 <= j < priors.len() ==> {
                    let prior = levels@[priors[j]].value->Prior_0;
                    &&& #[trigger] prior_terms[j].spec_level_id() == levels@[priors[j]].level_id
                    &&& prior_terms[j].spec_variable() == field_count + priors[j]
                    &&& prior_terms[j].spec_prior() == prior
                    &&& prior_terms[j].spec_provenance() == levels@[priors[j]].provenance
                    &&& unit_row(objectives[j].relation.row, field_count + priors[j])
                    &&& objectives[j].relation.rhs == prior.spec_mean()
                    &&& objectives[j].relation.provenance == levels@[priors[j]].provenance
                    &&& objectives[j].scale == prior.spec_scale()
                    &&& objectives[j].loss == prior.spec_loss()
                }
        }),
{
    let mut objectives: Vec<LevelSoftObjective> = Vec::new();
    let mut prior_terms: Vec<CanonicalLevelPrior> = Vec::new();
    let mut index: usize = 0;
    while index < levels.len()
        invariant
            index <= levels@.len(),
            objectives@.len() == prior_positions(levels@, index as int).len(),
            prior_terms@.len() == prior_positions(levels@, index as int).len(),
            forall|j: int|
                0 <= j < prior_positions(levels@, index as int).len() ==> {
                    let position = prior_positions(levels@, index as int)[j];
                    let prior = levels@[position].value->Prior_0;
                    &&& #[trigger] prior_terms@[j].spec_level_id() == levels@[position].level_id
                    &&& prior_terms@[j].spec_variable() == field_count + position
                    &&& prior_terms@[j].spec_prior() == prior
                    &&& prior_terms@[j].spec_provenance() == levels@[position].provenance
                    &&& unit_row(objectives@[j].relation.row, field_count + position)
                    &&& objectives@[j].relation.rhs == prior.spec_mean()
                    &&& objectives@[j].relation.provenance == levels@[position].provenance
                    &&& objectives@[j].scale == prior.spec_scale()
                    &&& objectives@[j].loss == prior.spec_loss()
                },
            field_count + levels@.len() <= usize::MAX + 1 ==> field_count + index <= usize::MAX + 1,
        decreases levels@.len() - index,
    {
        let level = &levels[index];
        if let LevelValue::Prior(prior) = level.value {
            let variable = match field_count.checked_add(index) {
                Some(variable) => variable,
                None => {
                    return Err(LevelCanonicalizationError::Ir(ProblemIrError::VariableCountOverflow));
                },
            };
            let objective_row = match unit_expression(variable) {
                Ok(row) => row,
                Err(error) => {
                    return Err(LevelCanonicalizationError::Ir(error));
                },
            };
            let relation = LevelEqualityRow {
                row: objective_row,
                rhs: prior.mean(),
                provenance: level.provenance.clone_for_canonical(),
            };
            objectives.push(LevelSoftObjective { relation, scale: prior.scale(), loss: prior.loss() });
            prior_terms.push(
                CanonicalLevelPrior {
                    level_id: level.level_id,
                    variable,
                    prior,
                    provenance: level.provenance.clone_for_canonical(),
                },
            );
        }
        proof {
            let next = prior_positions(levels@, index as int + 1);
            let before = prior_positions(levels@, index as int);
            if levels@[index as int].value is Prior {
                assert(next == before.push(index as int));
            } else {
                assert(next == before);
            }
        }
        index += 1;
    }
    Ok((objectives, prior_terms))
}

/// The lower-bound row of every order edge, in order.
pub(crate) fn order_rows<E>(levels: &Vec<LevelDefinition>, orders: &Vec<LevelOrder>, field_count: usize) -> (result: Result<
    Vec<LevelBoundRow>,
    LevelCanonicalizationError<E>,
>)
    requires
        crate::levels::records::all_distinct(definition_ids(levels@)),
        forall|k: int| 0 <= k < orders@.len() ==> !#[trigger] crate::levels::records::order_reference_missing(levels@, orders@, k),
        crate::levels::order_graph::acyclic(crate::levels::problem::resolved_orders(levels@, orders@), levels@.len() as nat),
    ensures
        field_count + levels@.len() <= usize::MAX + 1 ==> result is Ok,
        result matches Ok(rows) ==> rows@.len() == orders@.len() && forall|k: int|
            0 <= k < orders@.len() ==> #[trigger] order_row(
                rows@[k],
                field_count + level_position(levels@, orders@[k].spec_lower()),
                field_count + level_position(levels@, orders@[k].spec_upper()),
                orders@[k],
            ) && field_count + level_position(levels@, orders@[k].spec_lower()) <= usize::MAX && field_count
                + level_position(levels@, orders@[k].spec_upper()) <= usize::MAX,
{
    let mut rows: Vec<LevelBoundRow> = Vec::new();
    let mut index: usize = 0;
    while index < orders.len()
        invariant
            index <= orders@.len(),
            crate::levels::records::all_distinct(definition_ids(levels@)),
            forall|k: int| 0 <= k < orders@.len() ==> !#[trigger] crate::levels::records::order_reference_missing(levels@, orders@, k),
            crate::levels::order_graph::acyclic(crate::levels::problem::resolved_orders(levels@, orders@), levels@.len() as nat),
            rows@.len() == index,
            forall|k: int|
                0 <= k < index ==> #[trigger] order_row(
                    rows@[k],
                    field_count + level_position(levels@, orders@[k].spec_lower()),
                    field_count + level_position(levels@, orders@[k].spec_upper()),
                    orders@[k],
                ) && field_count + level_position(levels@, orders@[k].spec_lower()) <= usize::MAX && field_count
                    + level_position(levels@, orders@[k].spec_upper()) <= usize::MAX,
        decreases orders@.len() - index,
    {
        let order = &orders[index];
        let lower_index = match find_level(levels, order.lower()) {
            Some(position) => position,
            None => {
                proof {
                    assert(!crate::levels::records::order_reference_missing(levels@, orders@, index as int));
                }
                return Err(LevelCanonicalizationError::InvalidValidatedState);
            },
        };
        let upper_index = match find_level(levels, order.upper()) {
            Some(position) => position,
            None => {
                proof {
                    assert(!crate::levels::records::order_reference_missing(levels@, orders@, index as int));
                }
                return Err(LevelCanonicalizationError::InvalidValidatedState);
            },
        };
        proof {
            crate::levels::problem::lemma_unique_position(levels@, lower_index as int, orders@[index as int].spec_lower());
            crate::levels::problem::lemma_unique_position(levels@, upper_index as int, orders@[index as int].spec_upper());
            let edges = crate::levels::problem::resolved_orders(levels@, orders@);
            lemma_no_self_edge(edges, levels@.len() as nat, index as int);
            assert(edges[index as int] == (lower_index, upper_index));
        }
        let lower_variable = match field_count.checked_add(lower_index) {
            Some(variable) => variable,
            None => {
                return Err(LevelCanonicalizationError::Ir(ProblemIrError::VariableCountOverflow));
            },
        };
        let upper_variable = match field_count.checked_add(upper_index) {
            Some(variable) => variable,
            None => {
                return Err(LevelCanonicalizationError::Ir(ProblemIrError::VariableCountOverflow));
            },
        };
        let row = match order_expression(lower_variable, upper_variable) {
            Ok(row) => row,
            Err(error) => {
                return Err(LevelCanonicalizationError::Ir(error));
            },
        };
        let provenance = order.provenance().clone_for_canonical();
        rows.push(LevelBoundRow { row, lower: order.minimum_gap(), provenance });
        index += 1;
    }
    Ok(rows)
}

/// The number of variables in the field blocks, if it fits in `usize`.
pub(crate) fn field_variable_count(blocks: &Vec<VariableBlock>) -> (count: Option<usize>)
    ensures
        count is None <==> blocks_total(blocks@, blocks@.len() as int) > usize::MAX,
        count matches Some(total) ==> total == blocks_total(blocks@, blocks@.len() as int),
{
    let mut total: usize = 0;
    let mut index: usize = 0;
    while index < blocks.len()
        invariant
            index <= blocks@.len(),
            total == blocks_total(blocks@, index as int),
        decreases blocks@.len() - index,
    {
        match total.checked_add(blocks[index].len().get()) {
            Some(next) => {
                total = next;
            },
            None => {
                proof {
                    crate::problem_ir::lemma_blocks_total_monotone(blocks@, index as int + 1, blocks@.len() as int);
                }
                return None;
            },
        }
        index += 1;
    }
    Some(total)
}

/// The number of fixed levels.
pub(crate) fn count_fixed(levels: &Vec<LevelDefinition>) -> (count: usize)
    ensures
        count == fixed_positions(levels@, levels@.len() as int).len(),
{
    let mut count: usize = 0;
    let mut index: usize = 0;
    while index < levels.len()
        invariant
            index <= levels@.len(),
            count == fixed_positions(levels@, index as int).len(),
            count <= index,
        decreases levels@.len() - index,
    {
        if let LevelValue::Fixed(_) = levels[index].value {
            count += 1;
        }
        index += 1;
    }
    count
}

/// The identifiers of the levels, in order.
pub(crate) fn collect_level_ids(levels: &Vec<LevelDefinition>) -> (ids: Vec<LevelId>)
    ensures
        ids@ == definition_ids(levels@),
{
    let mut ids: Vec<LevelId> = Vec::new();
    let mut index: usize = 0;
    while index < levels.len()
        invariant
            index <= levels@.len(),
            ids@ == definition_ids(levels@).take(index as int),
        decreases levels@.len() - index,
    {
        ids.push(levels[index].level_id);
        proof {
            assert(ids@ =~= definition_ids(levels@).take(index as int + 1));
        }
        index += 1;
    }
    proof {
        assert(definition_ids(levels@).take(index as int) =~= definition_ids(levels@));
    }
    ids
}

/// The block of level variables.
pub(crate) fn level_block(level_count: NonZeroCount) -> (result: Result<VariableBlock, ProblemIrError>)
    ensures
        result matches Ok(block) && block.spec_name() == level_block_name() && block.spec_len() == level_count,
{
    let name = "levels".to_owned();
    proof {
        reveal_strlit("levels");
        assert(name@ == level_block_name());
        assert(!crate::problem_ir::is_white_space('l'));
        assert(!crate::problem_ir::is_blank(name@));
    }
    VariableBlock::try_new(name, level_count)
}

/// Whether the field blocks have distinct names, none of them the level
/// block's.
pub open spec fn field_names_distinct(blocks: Seq<VariableBlock>) -> bool {
    &&& forall|index: int| 0 <= index < blocks.len() ==> !#[trigger] repeats_earlier_name(blocks, index)
    &&& forall|index: int| 0 <= index < blocks.len() ==> #[trigger] blocks[index].spec_name() != level_block_name()
}

/// Field block `index` is the first that repeats an earlier name.
pub open spec fn first_field_repeat(blocks: Seq<VariableBlock>, index: int) -> bool {
    &&& 0 <= index < blocks.len()
    &&& repeats_earlier_name(blocks, index)
    &&& forall|earlier: int| 0 <= earlier < index ==> !#[trigger] repeats_earlier_name(blocks, earlier)
}

/// The name reported as repeated in the field blocks followed by the level
/// block: the first field block that repeats an earlier name, else the
/// level block's name.
pub open spec fn repeated_block_name(blocks: Seq<VariableBlock>, name: Seq<char>) -> bool {
    if exists|index: int| #[trigger] first_field_repeat(blocks, index) {
        exists|index: int| #[trigger] first_field_repeat(blocks, index) && name == blocks[index].spec_name()
    } else {
        name == level_block_name()
    }
}

/// Blocks that agree on a prefix hold as many variables in it.
proof fn lemma_blocks_total_prefix(first: Seq<VariableBlock>, second: Seq<VariableBlock>, count: int)
    requires
        0 <= count <= first.len(),
        count <= second.len(),
        forall|index: int| 0 <= index < count ==> first[index] == second[index],
    ensures
        blocks_total(first, count) == blocks_total(second, count),
    decreases count,
{
    if count > 0 {
        lemma_blocks_total_prefix(first, second, count - 1);
    }
}

/// Lays out the field blocks followed by the level block; fails on a
/// repeated name (the first field block that repeats one, else the level
/// block) or when the variables do not fit in `usize`.
pub(crate) fn level_variable_space(
    blocks: Vec<VariableBlock>,
    Ghost(field_blocks): Ghost<Seq<VariableBlock>>,
    Ghost(level_count): Ghost<nat>,
) -> (result: Result<
    VariableSpace,
    ProblemIrError,
>)
    requires
        blocks@.len() == field_blocks.len() + 1,
        blocks@.take(field_blocks.len() as int) == field_blocks,
        blocks@[field_blocks.len() as int].spec_name() == level_block_name(),
        blocks@[field_blocks.len() as int].spec_len().spec_get() == level_count,
    ensures
        result is Ok <==> field_names_distinct(field_blocks) && field_total(field_blocks) + level_count
            <= usize::MAX,
        result matches Ok(space) ==> space.spec_blocks() == blocks@,
        field_total(field_blocks) + level_count <= usize::MAX && result is Err ==> (result matches Err(
            ProblemIrError::DuplicateVariableBlockName { name },
        ) && repeated_block_name(field_blocks, name@)),
{
    let ghost all = blocks@;
    let ghost n = field_blocks.len() as int;
    proof {
        assert forall|index: int| 0 <= index < n implies all[index] == field_blocks[index] by {
            assert(all.take(n)[index] == all[index]);
        }
        lemma_blocks_total_prefix(all, field_blocks, n);
        assert forall|index: int| 0 <= index < n implies repeats_earlier_name(all, index) == repeats_earlier_name(
            field_blocks,
            index,
        ) by {
            if repeats_earlier_name(all, index) {
                let earlier = choose|earlier: int| 0 <= earlier < index && #[trigger] all[earlier].spec_name()
                    == all[index].spec_name();
                assert(field_blocks[earlier].spec_name() == field_blocks[index].spec_name());
            }
            if repeats_earlier_name(field_blocks, index) {
                let earlier = choose|earlier: int| 0 <= earlier < index && #[trigger] field_blocks[earlier].spec_name()
                    == field_blocks[index].spec_name();
                assert(all[earlier].spec_name() == all[index].spec_name());
            }
        }
        if field_names_distinct(field_blocks) {
            assert(!repeats_earlier_name(all, n)) by {
                if repeats_earlier_name(all, n) {
                    let earlier = choose|earlier: int| 0 <= earlier < n && #[trigger] all[earlier].spec_name()
                        == all[n].spec_name();
                    assert(field_blocks[earlier].spec_name() == level_block_name());
                }
            }
        } else {
            if forall|index: int| 0 <= index < n ==> !#[trigger] repeats_earlier_name(field_blocks, index) {
                let index = choose|index: int| 0 <= index < n && #[trigger] field_blocks[index].spec_name()
                    == level_block_name();
                assert(all[index].spec_name() == all[n].spec_name());
                assert(repeats_earlier_name(all, n));
            }
        }
    }
    let result = VariableSpace::try_new(blocks);
    proof {
        if field_total(field_blocks) + level_count <= usize::MAX {
            if result is Err {
                let error = result->Err_0;
                if error is DuplicateVariableBlockName {
                    let name = error->DuplicateVariableBlockName_name;
                    let index = choose|index: int| #[trigger] first_unplaceable(all, index) && repeats_earlier_name(
                        all,
                        index,
                    ) && name@ == all[index].spec_name();
                    if index < n {
                        assert(first_field_repeat(field_blocks, index));
                    } else {
                        assert forall|other: int| !#[trigger] first_field_repeat(field_blocks, other) by {
                            if first_field_repeat(field_blocks, other) {
                                assert(!repeats_earlier_name(all, other));
                            }
                        }
                    }
                } else {
                    assert(error == ProblemIrError::VariableCountOverflow);
                    let index = choose|index: int| #[trigger] first_unplaceable(all, index) && !repeats_earlier_name(
                        all,
                        index,
                    );
                    crate::problem_ir::lemma_blocks_total_monotone(all, index + 1, n + 1);
                    assert(false);
                }
            }
        }
    }
    result
}

impl CompiledLevelProblem {
    /// Assembles compiled rows.
    pub(crate) fn from_parts(
        variable_space: VariableSpace,
        equalities: Vec<LevelEqualityRow>,
        linear_bounds: Vec<LevelBoundRow>,
        soft_objectives: Vec<LevelSoftObjective>,
        priors: Vec<CanonicalLevelPrior>,
        level_ids: Vec<LevelId>,
        level_variable_offset: usize,
    ) -> (compiled: Self)
        requires
            level_variable_offset + level_ids@.len() <= usize::MAX,
        ensures
            compiled.spec_variable_blocks() == variable_space.spec_blocks(),
            compiled.spec_equalities() == equalities@,
            compiled.spec_linear_bounds() == linear_bounds@,
            compiled.spec_soft_objectives() == soft_objectives@,
            compiled.spec_priors() == priors@,
            compiled.spec_level_ids() == level_ids@,
            compiled.spec_level_variable_offset() == level_variable_offset,
    {
        CompiledLevelProblem {
            variable_space,
            equalities,
            linear_bounds,
            soft_objectives,
            priors,
            level_ids,
            level_variable_offset,
        }
    }
}

} // verus!
