//! Provenance records, execution metadata and canonical variable blocks of the
//! semantic and solver-neutral problem representations.
use vstd::prelude::*;
use vstd::string::StrSliceExecFns;

use crate::binary64::{binary64_positive_finite, is_positive_finite_bits};

pub mod affine;
pub mod canonical;
pub mod canonicalization;
pub mod semantic;

pub use affine::{AffineExpression, AffineTerm};
pub use canonical::{
    CanonicalEquality, CanonicalLinearBound, CanonicalProblem, CanonicalScaling, CanonicalSecondOrderCone,
    CanonicalizationError,
};
pub use semantic::{SemanticConstraint, SemanticExpression, SemanticProblemIr, SemanticRelation};

verus! {

/// Stable observation identifier used by semantic diagnostics.
#[derive(Clone, Copy, Debug, PartialEq, Eq, Structural, Hash, PartialOrd, Ord)]
pub struct ObservationId(u64);

impl ObservationId {
    /// The caller-controlled value.
    pub closed spec fn spec_identifier(self) -> u64 {
        self.0
    }

    /// Constructs an identifier from a caller-controlled stable value.
    pub fn new(identifier: u64) -> (id: Self)
        ensures
            id.spec_identifier() == identifier,
    {
        ObservationId(identifier)
    }

    /// Returns the caller-controlled value.
    pub fn identifier(self) -> (identifier: u64)
        ensures
            identifier == self.spec_identifier(),
    {
        self.0
    }

    /// Two identifiers are equal exactly when their values are.
    pub proof fn lemma_identifier_injective(self, other: Self)
        ensures
            (self == other) <==> (self.spec_identifier() == other.spec_identifier()),
    {
    }
}

/// A count or size that is never zero.
#[derive(Debug, PartialEq, Eq, Structural, Hash)]
pub struct NonZeroCount(usize);

impl NonZeroCount {
    #[verifier::type_invariant]
    spec fn inv(self) -> bool {
        self.0 > 0
    }

    /// The count as an unbounded integer.
    pub closed spec fn spec_get(self) -> nat {
        self.0 as nat
    }

    /// Accepts exactly the positive values.
    pub fn new(value: usize) -> (count: Option<Self>)
        ensures
            value == 0 <==> count is None,
            count matches Some(c) ==> c.spec_get() == value,
    {
        if value == 0 {
            None
        } else {
            Some(NonZeroCount(value))
        }
    }

    /// Returns the positive value.
    pub fn get(self) -> (value: usize)
        ensures
            value == self.spec_get(),
            value > 0,
    {
        proof {
            use_type_invariant(&self);
        }
        self.0
    }
}

impl Clone for NonZeroCount {
    fn clone(&self) -> (copy: Self)
        ensures
            copy == *self,
    {
        *self
    }
}

impl Copy for NonZeroCount {

}

/// Whether `c` has the Unicode `White_Space` property, as tested by
/// `char::is_whitespace`.
pub open spec fn is_white_space(c: char) -> bool {
    let code = c as u32;
    ||| 0x9 <= code <= 0xd
    ||| code == 0x20
    ||| code == 0x85
    ||| code == 0xa0
    ||| code == 0x1680
    ||| 0x2000 <= code <= 0x200a
    ||| code == 0x2028
    ||| code == 0x2029
    ||| code == 0x202f
    ||| code == 0x205f
    ||| code == 0x3000
}

/// Whether a text is empty or consists of white space only, i.e. whether it
/// is empty once trimmed.
pub open spec fn is_blank(text: Seq<char>) -> bool {
    forall|i: int| 0 <= i < text.len() ==> #[trigger] is_white_space(text[i])
}

/// Tests the Unicode `White_Space` property.
pub fn white_space(c: char) -> (result: bool)
    ensures
        result == is_white_space(c),
{
    let code = c as u32;
    (0x9 <= code && code <= 0xd) || code == 0x20 || code == 0x85 || code == 0xa0 || code
        == 0x1680 || (0x2000 <= code && code <= 0x200a) || code == 0x2028 || code == 0x2029
        || code == 0x202f || code == 0x205f || code == 0x3000
}

/// Rejects metadata that is empty or white space only.
pub fn validate_text(value: &str, field: SemanticMetadataField) -> (result: Result<(), ProblemIrError>)
    ensures
        is_blank(value@) ==> result == Err::<(), ProblemIrError>(
            ProblemIrError::EmptyMetadata { field },
        ),
        !is_blank(value@) ==> result == Ok::<(), ProblemIrError>(()),
{
    let length = value.unicode_len();
    let mut index: usize = 0;
    while index < length
        invariant
            length == value@.len(),
            index <= length,
            forall|i: int| 0 <= i < index ==> #[trigger] is_white_space(value@[i]),
        decreases length - index,
    {
        if !white_space(value.get_char(index)) {
            return Ok(());
        }
        index = index + 1;
    }
    Err(ProblemIrError::EmptyMetadata { field })
}

/// One-based source location for a semantic observation.
#[derive(Clone, Debug, PartialEq, Eq, Hash)]
pub struct SourceLocation {
    path: String,
    line: NonZeroCount,
}

impl SourceLocation {
    /// The source path exactly as supplied.
    pub closed spec fn spec_path(self) -> Seq<char> {
        self.path@
    }

    /// The one-based line.
    pub closed spec fn spec_line(self) -> NonZeroCount {
        self.line
    }

    /// Validates and constructs a source location; fails with
    /// `EmptyMetadata { field: SourcePath }` exactly for a blank path.
    pub fn try_new(path: String, line: NonZeroCount) -> (result: Result<Self, ProblemIrError>)
        ensures
            is_blank(path@) ==> result == Err::<Self, ProblemIrError>(
                ProblemIrError::EmptyMetadata { field: SemanticMetadataField::SourcePath },
            ),
            !is_blank(path@) ==> (result matches Ok(location) && location.spec_path() == path@
                && location.spec_line() == line),
    {
        match validate_text(path.as_str(), SemanticMetadataField::SourcePath) {
            Ok(()) => Ok(SourceLocation { path, line }),
            Err(error) => Err(error),
        }
    }

    /// Borrows the source path exactly as supplied.
    pub fn path(&self) -> (path: &str)
        ensures
            path@ == self.spec_path(),
    {
        self.path.as_str()
    }

    /// Returns the one-based source line.
    pub fn line(&self) -> (line: NonZeroCount)
        ensures
            line == self.spec_line(),
    {
        self.line
    }
}

/// Complete source provenance retained for one semantic constraint.
#[derive(Clone, Debug, PartialEq, Eq, Hash)]
pub struct SemanticProvenance {
    observation_id: ObservationId,
    source: SourceLocation,
    original_units: String,
    field_path: String,
    constraint_group: Option<String>,
}

/// The view of an optional owned text.
pub open spec fn optional_text(text: Option<String>) -> Option<Seq<char>> {
    match text {
        Some(value) => Some(value@),
        None => None,
    }
}

impl SemanticProvenance {
    /// The stable observation identifier.
    pub closed spec fn spec_observation_id(self) -> ObservationId {
        self.observation_id
    }

    /// The source location.
    pub closed spec fn spec_source(self) -> SourceLocation {
        self.source
    }

    /// The original unit label.
    pub closed spec fn spec_original_units(self) -> Seq<char> {
        self.original_units@
    }

    /// The semantic field path.
    pub closed spec fn spec_field_path(self) -> Seq<char> {
        self.field_path@
    }

    /// The optional constraint group.
    pub closed spec fn spec_constraint_group(self) -> Option<Seq<char>> {
        optional_text(self.constraint_group)
    }

    /// Validates and constructs semantic provenance.
    ///
    /// The unit label is checked first, then the field path, then a supplied
    /// constraint group; the first blank one is reported as `EmptyMetadata`.
    pub fn try_new(
        observation_id: ObservationId,
        source: SourceLocation,
        original_units: String,
        field_path: String,
        constraint_group: Option<String>,
    ) -> (result: Result<Self, ProblemIrError>)
        ensures
            is_blank(original_units@) ==> result == Err::<Self, ProblemIrError>(
                ProblemIrError::EmptyMetadata { field: SemanticMetadataField::OriginalUnits },
            ),
            !is_blank(original_units@) && is_blank(field_path@) ==> result == Err::<
                Self,
                ProblemIrError,
            >(ProblemIrError::EmptyMetadata { field: SemanticMetadataField::FieldPath }),
            !is_blank(original_units@) && !is_blank(field_path@) && (constraint_group matches Some(
                group,
            ) && is_blank(group@)) ==> result == Err::<Self, ProblemIrError>(
                ProblemIrError::EmptyMetadata { field: SemanticMetadataField::ConstraintGroup },
            ),
            !is_blank(original_units@) && !is_blank(field_path@) && !(constraint_group matches Some(
                group,
            ) && is_blank(group@)) ==> (result matches Ok(provenance)
                && provenance.spec_observation_id() == observation_id
                && provenance.spec_source() == source && provenance.spec_original_units()
                == original_units@ && provenance.spec_field_path() == field_path@
                && provenance.spec_constraint_group() == optional_text(constraint_group)),
    {
        if let Err(error) = validate_text(
            original_units.as_str(),
            SemanticMetadataField::OriginalUnits,
        ) {
            return Err(error);
        }
        if let Err(error) = validate_text(field_path.as_str(), SemanticMetadataField::FieldPath) {
            return Err(error);
        }
        if let Some(group) = &constraint_group {
            if let Err(error) = validate_text(
                group.as_str(),
                SemanticMetadataField::ConstraintGroup,
            ) {
                return Err(error);
            }
        }
        Ok(SemanticProvenance {
            observation_id,
            source,
            original_units,
            field_path,
            constraint_group,
        })
    }

    /// Returns the stable observation identifier.
    pub fn observation_id(&self) -> (id: ObservationId)
        ensures
            id == self.spec_observation_id(),
    {
        self.observation_id
    }

    /// Borrows the source location.
    pub fn source(&self) -> (source: &SourceLocation)
        ensures
            *source == self.spec_source(),
    {
        &self.source
    }

    /// Borrows the original unit label.
    pub fn original_units(&self) -> (units: &str)
        ensures
            units@ == self.spec_original_units(),
    {
        self.original_units.as_str()
    }

    /// Borrows the semantic field path.
    pub fn field_path(&self) -> (path: &str)
        ensures
            path@ == self.spec_field_path(),
    {
        self.field_path.as_str()
    }

    /// Borrows the optional constraint group.
    pub fn constraint_group(&self) -> (group: Option<&str>)
        ensures
            match group {
                Some(text) => self.spec_constraint_group() == Some(text@),
                None => self.spec_constraint_group() is None,
            },
    {
        match &self.constraint_group {
            Some(group) => Some(group.as_str()),
            None => None,
        }
    }

    /// An owned copy for a canonical record.
    pub fn clone_for_canonical(&self) -> (copy: Self)
        ensures
            copy == *self,
    {
        let group = match &self.constraint_group {
            Some(group) => Some(group.clone()),
            None => None,
        };
        SemanticProvenance {
            observation_id: self.observation_id,
            source: SourceLocation { path: self.source.path.clone(), line: self.source.line },
            original_units: self.original_units.clone(),
            field_path: self.field_path.clone(),
            constraint_group: group,
        }
    }
}

/// Semantic metadata field rejected during validation.
#[derive(Clone, Copy, Debug, PartialEq, Eq, Structural, Hash)]
pub enum SemanticMetadataField {
    /// Source path.
    SourcePath,
    /// Original unit label.
    OriginalUnits,
    /// Field path.
    FieldPath,
    /// Constraint group.
    ConstraintGroup,
    /// Canonical variable-block name.
    VariableBlockName,
}

/// Explicit execution metadata retained with a semantic problem.
#[derive(Clone, Copy, Debug, PartialEq, Eq, Hash)]
pub struct ExecutionOptions {
    deterministic: bool,
    thread_count: Option<NonZeroCount>,
    memory_limit_bytes: Option<NonZeroCount>,
}

impl ExecutionOptions {
    /// Whether deterministic execution was requested.
    pub closed spec fn spec_deterministic(self) -> bool {
        self.deterministic
    }

    /// The explicit thread count, if any.
    pub closed spec fn spec_thread_count(self) -> Option<NonZeroCount> {
        self.thread_count
    }

    /// The explicit memory limit, if any.
    pub closed spec fn spec_memory_limit_bytes(self) -> Option<NonZeroCount> {
        self.memory_limit_bytes
    }

    /// Constructs execution metadata without selecting a runtime or solver.
    pub fn new(
        deterministic: bool,
        thread_count: Option<NonZeroCount>,
        memory_limit_bytes: Option<NonZeroCount>,
    ) -> (options: Self)
        ensures
            options.spec_deterministic() == deterministic,
            options.spec_thread_count() == thread_count,
            options.spec_memory_limit_bytes() == memory_limit_bytes,
    {
        ExecutionOptions { deterministic, thread_count, memory_limit_bytes }
    }

    /// Returns whether deterministic execution was requested.
    pub fn deterministic(self) -> (deterministic: bool)
        ensures
            deterministic == self.spec_deterministic(),
    {
        self.deterministic
    }

    /// Returns the explicit thread count, if any.
    pub fn thread_count(self) -> (count: Option<NonZeroCount>)
        ensures
            count == self.spec_thread_count(),
    {
        self.thread_count
    }

    /// Returns the explicit memory limit, if any.
    pub fn memory_limit_bytes(self) -> (limit: Option<NonZeroCount>)
        ensures
            limit == self.spec_memory_limit_bytes(),
    {
        self.memory_limit_bytes
    }
}

impl Default for ExecutionOptions {
    /// Deterministic execution with no explicit thread count or memory limit.
    fn default() -> (options: Self)
        ensures
            options.spec_deterministic(),
            options.spec_thread_count() is None,
            options.spec_memory_limit_bytes() is None,
    {
        ExecutionOptions::new(true, None, None)
    }
}

/// A named nonempty block of canonical solver variables.
#[derive(Clone, Debug, PartialEq, Eq, Hash)]
pub struct VariableBlock {
    name: String,
    len: NonZeroCount,
}

impl VariableBlock {
    /// The stable block name.
    pub closed spec fn spec_name(self) -> Seq<char> {
        self.name@
    }

    /// The nonzero block length.
    pub closed spec fn spec_len(self) -> NonZeroCount {
        self.len
    }

    /// Validates and constructs a variable block; fails with
    /// `EmptyMetadata { field: VariableBlockName }` exactly for a blank name.
    pub fn try_new(name: String, len: NonZeroCount) -> (result: Result<Self, ProblemIrError>)
        ensures
            is_blank(name@) ==> result == Err::<Self, ProblemIrError>(
                ProblemIrError::EmptyMetadata { field: SemanticMetadataField::VariableBlockName },
            ),
            !is_blank(name@) ==> (result matches Ok(block) && block.spec_name() == name@
                && block.spec_len() == len),
    {
        match validate_text(name.as_str(), SemanticMetadataField::VariableBlockName) {
            Ok(()) => Ok(VariableBlock { name, len }),
            Err(error) => Err(error),
        }
    }

    /// Borrows the stable block name.
    pub fn name(&self) -> (name: &str)
        ensures
            name@ == self.spec_name(),
    {
        self.name.as_str()
    }

    /// Returns the nonzero block length.
    pub fn len(&self) -> (len: NonZeroCount)
        ensures
            len == self.spec_len(),
    {
        self.len
    }

    /// Returns `false`; canonical blocks cannot be empty.
    pub fn is_empty(&self) -> (empty: bool)
        ensures
            !empty,
            self.spec_len().spec_get() > 0,
    {
        let _positive = self.len.get();
        false
    }
}

/// Total length of the first `count` blocks.
pub open spec fn blocks_total(blocks: Seq<VariableBlock>, count: int) -> nat
    decreases count,
{
    if count <= 0 {
        0
    } else {
        blocks_total(blocks, count - 1) + blocks[count - 1].spec_len().spec_get()
    }
}

/// Longer prefixes of blocks never hold fewer variables.
pub proof fn lemma_blocks_total_monotone(blocks: Seq<VariableBlock>, shorter: int, longer: int)
    requires
        0 <= shorter <= longer,
    ensures
        blocks_total(blocks, shorter) <= blocks_total(blocks, longer),
    decreases longer - shorter,
{
    if shorter < longer {
        lemma_blocks_total_monotone(blocks, shorter, longer - 1);
    }
}

/// Whether block `index` reuses the name of an earlier block.
pub open spec fn repeats_earlier_name(blocks: Seq<VariableBlock>, index: int) -> bool {
    exists|earlier: int| 0 <= earlier < index && #[trigger] blocks[earlier].spec_name()
        == blocks[index].spec_name()
}

/// Whether block `index` is the first one that cannot be placed: it repeats
/// a name, or it ends beyond `usize::MAX`, while every earlier block could be
/// placed.
pub open spec fn first_unplaceable(blocks: Seq<VariableBlock>, index: int) -> bool {
    &&& 0 <= index < blocks.len()
    &&& repeats_earlier_name(blocks, index) || blocks_total(blocks, index + 1) > usize::MAX
    &&& forall|earlier: int|
        0 <= earlier < index ==> !#[trigger] repeats_earlier_name(blocks, earlier)
            && blocks_total(blocks, earlier + 1) <= usize::MAX
}

/// Variable blocks laid out one after the other in insertion order.
#[derive(Clone, Debug, PartialEq, Eq, Hash)]
pub struct VariableSpace {
    blocks: Vec<VariableBlock>,
    offsets: Vec<usize>,
    variable_count: usize,
}

impl VariableSpace {
    /// The blocks in insertion order.
    pub closed spec fn spec_blocks(self) -> Seq<VariableBlock> {
        self.blocks@
    }

    /// The first variable index of each block.
    pub closed spec fn spec_offsets(self) -> Seq<usize> {
        self.offsets@
    }

    /// The total number of variables.
    pub closed spec fn spec_variable_count(self) -> nat {
        self.variable_count as nat
    }

    /// Lays out nonempty, uniquely named blocks contiguously.
    ///
    /// Fails with `EmptyVariableSpace` for no blocks; otherwise the first
    /// block that repeats a name reports `DuplicateVariableBlockName`, and the
    /// first block whose end exceeds `usize::MAX` reports
    /// `VariableCountOverflow`.
    pub fn try_new(blocks: Vec<VariableBlock>) -> (result: Result<Self, ProblemIrError>)
        ensures
            blocks@.len() == 0 ==> result == Err::<Self, ProblemIrError>(
                ProblemIrError::EmptyVariableSpace,
            ),
            blocks@.len() > 0 ==> result != Err::<Self, ProblemIrError>(ProblemIrError::EmptyVariableSpace),
            result is Ok <==> blocks@.len() > 0 && (forall|index: int|
                0 <= index < blocks@.len() ==> !#[trigger] repeats_earlier_name(blocks@, index))
                && blocks_total(blocks@, blocks@.len() as int) <= usize::MAX,
            result matches Ok(space) ==> space.spec_blocks() == blocks@
                && space.spec_variable_count() == blocks_total(blocks@, blocks@.len() as int)
                && space.spec_offsets().len() == blocks@.len() && (forall|index: int|
                0 <= index < blocks@.len() ==> #[trigger] space.spec_offsets()[index]
                    == blocks_total(blocks@, index)),
            result matches Err(ProblemIrError::DuplicateVariableBlockName { name }) ==> exists|
                index: int,
            |
                #[trigger] first_unplaceable(blocks@, index) && repeats_earlier_name(
                    blocks@,
                    index,
                ) && name@ == blocks@[index].spec_name(),
            result == Err::<Self, ProblemIrError>(ProblemIrError::VariableCountOverflow)
                ==> exists|index: int|
                #[trigger] first_unplaceable(blocks@, index) && !repeats_earlier_name(
                    blocks@,
                    index,
                ),
            result matches Err(error) ==> error == ProblemIrError::EmptyVariableSpace
                || error == ProblemIrError::VariableCountOverflow
                || error is DuplicateVariableBlockName,
    {
        if blocks.len() == 0 {
            return Err(ProblemIrError::EmptyVariableSpace);
        }
        let mut offsets: Vec<usize> = Vec::new();
        let mut offset: usize = 0;
        let mut index: usize = 0;
        while index < blocks.len()
            invariant
                index <= blocks@.len(),
                offset == blocks_total(blocks@, index as int),
                offsets@.len() == index,
                forall|i: int| 0 <= i < index ==> #[trigger] offsets@[i] == blocks_total(blocks@, i),
                forall|i: int|
                    0 <= i < index ==> !#[trigger] repeats_earlier_name(blocks@, i)
                        && blocks_total(blocks@, i + 1) <= usize::MAX,
            decreases blocks@.len() - index,
        {
            let mut earlier: usize = 0;
            while earlier < index
                invariant
                    index < blocks@.len(),
                    earlier <= index,
                    forall|j: int|
                        0 <= j < earlier ==> blocks@[j].spec_name() != blocks@[index as int].spec_name(),
                    forall|i: int|
                        0 <= i < index ==> !#[trigger] repeats_earlier_name(blocks@, i)
                            && blocks_total(blocks@, i + 1) <= usize::MAX,
                decreases index - earlier,
            {
                if blocks[earlier].name == blocks[index].name {
                    proof {
                        assert(blocks@[earlier as int].spec_name() == blocks@[index as int].spec_name());
                        assert(repeats_earlier_name(blocks@, index as int));
                        assert(first_unplaceable(blocks@, index as int));
                    }
                    return Err(
                        ProblemIrError::DuplicateVariableBlockName { name: blocks[index].name.clone() },
                    );
                }
                earlier = earlier + 1;
            }
            proof {
                assert(!repeats_earlier_name(blocks@, index as int));
            }
            let length = blocks[index].len.get();
            match offset.checked_add(length) {
                Some(next) => {
                    offsets.push(offset);
                    offset = next;
                },
                None => {
                    proof {
                        assert(first_unplaceable(blocks@, index as int));
                        lemma_blocks_total_monotone(
                            blocks@,
                            index + 1,
                            blocks@.len() as int,
                        );
                    }
                    return Err(ProblemIrError::VariableCountOverflow);
                },
            }
            index = index + 1;
        }
        Ok(VariableSpace { blocks, offsets, variable_count: offset })
    }

    /// Returns the total canonical variable count.
    pub fn variable_count(&self) -> (count: usize)
        ensures
            count == self.spec_variable_count(),
    {
        self.variable_count
    }

    /// Borrows the blocks in insertion order.
    pub fn blocks(&self) -> (blocks: &[VariableBlock])
        ensures
            blocks@ == self.spec_blocks(),
    {
        self.blocks.as_slice()
    }

    /// Borrows the first variable index of each block.
    pub fn offsets(&self) -> (offsets: &[usize])
        ensures
            offsets@ == self.spec_offsets(),
    {
        self.offsets.as_slice()
    }
}

/// Canonical constraint families present in a problem.
#[derive(Clone, Copy, Debug, PartialEq, Eq, Structural, Hash)]
pub struct CanonicalCapabilities {
    /// Whether at least one equality row exists.
    pub has_equalities: bool,
    /// Whether at least one linear-bound row exists.
    pub has_linear_bounds: bool,
    /// Whether at least one second-order cone exists.
    pub has_second_order_cones: bool,
}

/// Checked numeric-storage estimate for a canonical problem.
#[derive(Clone, Copy, Debug, PartialEq, Eq, Structural, Hash)]
pub struct CanonicalMemoryEstimate {
    /// Total stored sparse coefficients.
    pub coefficient_count: usize,
    /// Bytes occupied by coefficient/index pairs and finite scalar values.
    pub numeric_bytes: usize,
}

impl CanonicalCapabilities {
    /// Classifies a problem by which constraint families have rows.
    pub fn from_row_counts(equalities: usize, linear_bounds: usize, cones: usize) -> (capabilities:
        Self)
        ensures
            capabilities.has_equalities == (equalities > 0),
            capabilities.has_linear_bounds == (linear_bounds > 0),
            capabilities.has_second_order_cones == (cones > 0),
    {
        CanonicalCapabilities {
            has_equalities: equalities != 0,
            has_linear_bounds: linear_bounds != 0,
            has_second_order_cones: cones != 0,
        }
    }
}

/// Sum of a sequence of counts.
pub open spec fn count_sum(counts: Seq<usize>) -> nat
    decreases counts.len(),
{
    if counts.len() == 0 {
        0
    } else {
        count_sum(counts.drop_last()) + counts.last() as nat
    }
}

/// Sum of the term counts of every expression of every cone.
pub open spec fn cone_term_sum(cones: Seq<Seq<usize>>) -> nat
    decreases cones.len(),
{
    if cones.len() == 0 {
        0
    } else {
        cone_term_sum(cones.drop_last()) + count_sum(cones.last())
    }
}

/// Number of expressions over all cones.
pub open spec fn cone_expression_total(cones: Seq<Seq<usize>>) -> nat
    decreases cones.len(),
{
    if cones.len() == 0 {
        0
    } else {
        cone_expression_total(cones.drop_last()) + cones.last().len()
    }
}

/// Stored sparse coefficients over all rows and cone expressions, from the
/// term counts of the equality rows, the linear-bound rows and each cone's
/// expressions.
pub open spec fn shape_coefficient_total(
    equality_terms: Seq<usize>,
    linear_bound_terms: Seq<usize>,
    cone_terms: Seq<Seq<usize>>,
) -> nat {
    count_sum(equality_terms) + count_sum(linear_bound_terms) + cone_term_sum(cone_terms)
}

/// One constant per equality row, linear-bound row and cone expression.
pub open spec fn shape_expression_constant_total(
    equality_terms: Seq<usize>,
    linear_bound_terms: Seq<usize>,
    cone_terms: Seq<Seq<usize>>,
) -> nat {
    equality_terms.len() + linear_bound_terms.len() + cone_expression_total(cone_terms)
}

/// One right-hand side per equality and two bounds per linear-bound row.
pub open spec fn shape_relation_scalar_total(equality_terms: Seq<usize>, linear_bound_terms: Seq<usize>) -> nat {
    equality_terms.len() + 2 * linear_bound_terms.len()
}

/// One unit scale per variable, equality, linear bound and cone.
pub open spec fn shape_scaling_scalar_total(
    variable_count: nat,
    equality_terms: Seq<usize>,
    linear_bound_terms: Seq<usize>,
    cone_terms: Seq<Seq<usize>>,
) -> nat {
    variable_count + equality_terms.len() + linear_bound_terms.len() + cone_terms.len()
}

/// All stored finite scalars.
pub open spec fn shape_scalar_total(
    variable_count: nat,
    equality_terms: Seq<usize>,
    linear_bound_terms: Seq<usize>,
    cone_terms: Seq<Seq<usize>>,
) -> nat {
    shape_expression_constant_total(equality_terms, linear_bound_terms, cone_terms)
        + shape_relation_scalar_total(equality_terms, linear_bound_terms) + shape_scaling_scalar_total(
        variable_count,
        equality_terms,
        linear_bound_terms,
        cone_terms,
    )
}

/// Whether every partial count of the storage estimate fits in `usize`.
pub open spec fn shape_estimate_fits(
    variable_count: nat,
    equality_terms: Seq<usize>,
    linear_bound_terms: Seq<usize>,
    cone_terms: Seq<Seq<usize>>,
    term_bytes: nat,
    scalar_bytes: nat,
) -> bool {
    let coefficients = shape_coefficient_total(equality_terms, linear_bound_terms, cone_terms);
    let scalars = shape_scalar_total(variable_count, equality_terms, linear_bound_terms, cone_terms);
    &&& coefficients <= usize::MAX
    &&& shape_expression_constant_total(equality_terms, linear_bound_terms, cone_terms) <= usize::MAX
    &&& shape_relation_scalar_total(equality_terms, linear_bound_terms) <= usize::MAX
    &&& shape_scaling_scalar_total(variable_count, equality_terms, linear_bound_terms, cone_terms)
        <= usize::MAX
    &&& scalars <= usize::MAX
    &&& coefficients * term_bytes <= usize::MAX
    &&& scalars * scalar_bytes <= usize::MAX
    &&& scalars * scalar_bytes + coefficients * term_bytes <= usize::MAX
}

/// The storage estimate: `term_bytes` per stored coefficient and
/// `scalar_bytes` per finite scalar.
pub open spec fn shape_estimate(
    variable_count: nat,
    equality_terms: Seq<usize>,
    linear_bound_terms: Seq<usize>,
    cone_terms: Seq<Seq<usize>>,
    term_bytes: nat,
    scalar_bytes: nat,
) -> CanonicalMemoryEstimate {
    let coefficients = shape_coefficient_total(equality_terms, linear_bound_terms, cone_terms);
    let scalars = shape_scalar_total(variable_count, equality_terms, linear_bound_terms, cone_terms);
    CanonicalMemoryEstimate {
        coefficient_count: coefficients as usize,
        numeric_bytes: (scalars * scalar_bytes + coefficients * term_bytes) as usize,
    }
}

/// Row and coefficient counts of a canonical problem, from which its
/// storage is estimated. Each cone lists the term counts of its left-hand
/// expressions followed by that of its right-hand expression.
pub struct CanonicalShape {
    /// Total variable count.
    pub variable_count: usize,
    /// Term count of each equality row.
    pub equality_terms: Vec<usize>,
    /// Term count of each linear-bound row.
    pub linear_bound_terms: Vec<usize>,
    /// Term counts of the expressions of each cone.
    pub cone_terms: Vec<Vec<usize>>,
}

impl CanonicalShape {
    /// Term counts of the cone expressions, as sequences.
    pub open spec fn spec_cone_terms(self) -> Seq<Seq<usize>> {
        self.cone_terms@.map_values(|cone: Vec<usize>| cone@)
    }

    /// Stored sparse coefficients over all rows and cone expressions.
    pub open spec fn coefficient_total(self) -> nat {
        shape_coefficient_total(self.equality_terms@, self.linear_bound_terms@, self.spec_cone_terms())
    }

    /// One constant per equality row, linear-bound row and cone expression.
    pub open spec fn expression_constant_total(self) -> nat {
        shape_expression_constant_total(self.equality_terms@, self.linear_bound_terms@, self.spec_cone_terms())
    }

    /// One right-hand side per equality and two bounds per linear-bound row.
    pub open spec fn relation_scalar_total(self) -> nat {
        shape_relation_scalar_total(self.equality_terms@, self.linear_bound_terms@)
    }

    /// One unit scale per variable, equality, linear bound and cone.
    pub open spec fn scaling_scalar_total(self) -> nat {
        shape_scaling_scalar_total(
            self.variable_count as nat,
            self.equality_terms@,
            self.linear_bound_terms@,
            self.spec_cone_terms(),
        )
    }

    /// All stored finite scalars.
    pub open spec fn scalar_total(self) -> nat {
        shape_scalar_total(
            self.variable_count as nat,
            self.equality_terms@,
            self.linear_bound_terms@,
            self.spec_cone_terms(),
        )
    }

    /// Whether every partial count of the estimate fits in `usize`.
    pub open spec fn estimate_fits(self, term_bytes: nat, scalar_bytes: nat) -> bool {
        shape_estimate_fits(
            self.variable_count as nat,
            self.equality_terms@,
            self.linear_bound_terms@,
            self.spec_cone_terms(),
            term_bytes,
            scalar_bytes,
        )
    }

    /// Checked storage estimate: `term_bytes` per stored coefficient and
    /// `scalar_bytes` per finite scalar. Fails with `MemoryEstimateOverflow`
    /// exactly when a partial count does not fit in `usize`.
    pub fn try_memory_estimate(&self, term_bytes: usize, scalar_bytes: usize) -> (result: Result<
        CanonicalMemoryEstimate,
        ProblemIrError,
    >)
        ensures
            self.estimate_fits(term_bytes as nat, scalar_bytes as nat) ==> result == Ok::<
                CanonicalMemoryEstimate,
                ProblemIrError,
            >(
                CanonicalMemoryEstimate {
                    coefficient_count: self.coefficient_total() as usize,
                    numeric_bytes: (self.scalar_total() * scalar_bytes + self.coefficient_total()
                        * term_bytes) as usize,
                },
            ),
            !self.estimate_fits(term_bytes as nat, scalar_bytes as nat) ==> result == Err::<
                CanonicalMemoryEstimate,
                ProblemIrError,
            >(ProblemIrError::MemoryEstimateOverflow),
    {
        let overflow = ProblemIrError::MemoryEstimateOverflow;
        let equality_sum = match checked_count_sum(&self.equality_terms, 0) {
            Some(sum) => sum,
            None => {
                return Err(overflow);
            },
        };
        let bound_sum = match checked_count_sum(&self.linear_bound_terms, equality_sum) {
            Some(sum) => sum,
            None => {
                return Err(overflow);
            },
        };
        let coefficient_count = match self.checked_cone_terms(bound_sum) {
            Some(sum) => sum,
            None => {
                return Err(overflow);
            },
        };
        let cone_expressions = match self.checked_cone_expressions() {
            Some(count) => count,
            None => {
                proof {
                    assert(self.expression_constant_total() > usize::MAX);
                }
                return Err(overflow);
            },
        };
        let equalities = self.equality_terms.len();
        let bounds = self.linear_bound_terms.len();
        let cones = self.cone_terms.len();
        let expression_constants = match equalities.checked_add(bounds) {
            Some(count) => match count.checked_add(cone_expressions) {
                Some(total) => total,
                None => {
                    return Err(overflow);
                },
            },
            None => {
                return Err(overflow);
            },
        };
        let relation_scalars = match bounds.checked_mul(2) {
            Some(doubled) => match equalities.checked_add(doubled) {
                Some(total) => total,
                None => {
                    return Err(overflow);
                },
            },
            None => {
                return Err(overflow);
            },
        };
        let scaling_scalars = match self.variable_count.checked_add(equalities) {
            Some(a) => match a.checked_add(bounds) {
                Some(b) => match b.checked_add(cones) {
                    Some(c) => c,
                    None => {
                        return Err(overflow);
                    },
                },
                None => {
                    return Err(overflow);
                },
            },
            None => {
                return Err(overflow);
            },
        };
        let scalar_count = match expression_constants.checked_add(relation_scalars) {
            Some(a) => match a.checked_add(scaling_scalars) {
                Some(total) => total,
                None => {
                    return Err(overflow);
                },
            },
            None => {
                return Err(overflow);
            },
        };
        let coefficient_bytes = match coefficient_count.checked_mul(term_bytes) {
            Some(bytes) => bytes,
            None => {
                return Err(overflow);
            },
        };
        let numeric_bytes = match scalar_count.checked_mul(scalar_bytes) {
            Some(bytes) => match bytes.checked_add(coefficient_bytes) {
                Some(total) => total,
                None => {
                    return Err(overflow);
                },
            },
            None => {
                return Err(overflow);
            },
        };
        Ok(CanonicalMemoryEstimate { coefficient_count, numeric_bytes })
    }

    /// Adds every cone term count to `start`, or `None` on overflow.
    fn checked_cone_terms(&self, start: usize) -> (result: Option<usize>)
        ensures
            start + cone_term_sum(self.spec_cone_terms()) <= usize::MAX ==> result == Some(
                (start + cone_term_sum(self.spec_cone_terms())) as usize,
            ),
            start + cone_term_sum(self.spec_cone_terms()) > usize::MAX ==> result is None,
    {
        let ghost cones = self.spec_cone_terms();
        let mut total: usize = start;
        let mut index: usize = 0;
        while index < self.cone_terms.len()
            invariant
                cones == self.spec_cone_terms(),
                index <= cones.len(),
                cones.len() == self.cone_terms@.len(),
                total == start + cone_term_sum(cones.take(index as int)),
            decreases cones.len() - index,
        {
            proof {
                assert(cones.take(index + 1).drop_last() =~= cones.take(index as int));
                assert(cones[index as int] == self.cone_terms@[index as int]@);
            }
            match checked_count_sum(&self.cone_terms[index], total) {
                Some(next) => {
                    total = next;
                },
                None => {
                    proof {
                        lemma_cone_term_sum_prefix(cones, index + 1);
                    }
                    return None;
                },
            }
            index = index + 1;
        }
        proof {
            assert(cones.take(index as int) =~= cones);
        }
        Some(total)
    }

    /// Counts the expressions of every cone, or `None` on overflow.
    fn checked_cone_expressions(&self) -> (result: Option<usize>)
        ensures
            cone_expression_total(self.spec_cone_terms()) <= usize::MAX ==> result == Some(
                cone_expression_total(self.spec_cone_terms()) as usize,
            ),
            cone_expression_total(self.spec_cone_terms()) > usize::MAX ==> result is None,
    {
        let ghost cones = self.spec_cone_terms();
        let mut total: usize = 0;
        let mut index: usize = 0;
        while index < self.cone_terms.len()
            invariant
                cones == self.spec_cone_terms(),
                index <= cones.len(),
                cones.len() == self.cone_terms@.len(),
                total == cone_expression_total(cones.take(index as int)),
            decreases cones.len() - index,
        {
            proof {
                assert(cones.take(index + 1).drop_last() =~= cones.take(index as int));
                assert(cones[index as int] == self.cone_terms@[index as int]@);
            }
            match total.checked_add(self.cone_terms[index].len()) {
                Some(next) => {
                    total = next;
                },
                None => {
                    proof {
                        lemma_cone_expression_total_prefix(cones, index + 1);
                    }
                    return None;
                },
            }
            index = index + 1;
        }
        proof {
            assert(cones.take(index as int) =~= cones);
        }
        Some(total)
    }
}

/// A prefix of the counts never sums to more than the whole.
pub proof fn lemma_count_sum_prefix(counts: Seq<usize>, length: int)
    requires
        0 <= length <= counts.len(),
    ensures
        count_sum(counts.take(length)) <= count_sum(counts),
    decreases counts.len(),
{
    if length < counts.len() {
        assert(counts.drop_last().take(length) =~= counts.take(length));
        lemma_count_sum_prefix(counts.drop_last(), length);
    } else {
        assert(counts.take(length) =~= counts);
    }
}

/// A prefix of the cones never holds more terms than all of them.
pub proof fn lemma_cone_term_sum_prefix(cones: Seq<Seq<usize>>, length: int)
    requires
        0 <= length <= cones.len(),
    ensures
        cone_term_sum(cones.take(length)) <= cone_term_sum(cones),
    decreases cones.len(),
{
    if length < cones.len() {
        assert(cones.drop_last().take(length) =~= cones.take(length));
        lemma_cone_term_sum_prefix(cones.drop_last(), length);
    } else {
        assert(cones.take(length) =~= cones);
    }
}

/// A prefix of the cones never holds more expressions than all of them.
pub proof fn lemma_cone_expression_total_prefix(cones: Seq<Seq<usize>>, length: int)
    requires
        0 <= length <= cones.len(),
    ensures
        cone_expression_total(cones.take(length)) <= cone_expression_total(cones),
    decreases cones.len(),
{
    if length < cones.len() {
        assert(cones.drop_last().take(length) =~= cones.take(length));
        lemma_cone_expression_total_prefix(cones.drop_last(), length);
    } else {
        assert(cones.take(length) =~= cones);
    }
}

/// Adds every count to `start`, or `None` when the sum exceeds `usize::MAX`.
fn checked_count_sum(counts: &Vec<usize>, start: usize) -> (result: Option<usize>)
    ensures
        start + count_sum(counts@) <= usize::MAX ==> result == Some(
            (start + count_sum(counts@)) as usize,
        ),
        start + count_sum(counts@) > usize::MAX ==> result is None,
{
    let mut total: usize = start;
    let mut index: usize = 0;
    while index < counts.len()
        invariant
            index <= counts@.len(),
            total == start + count_sum(counts@.take(index as int)),
        decreases counts@.len() - index,
    {
        proof {
            assert(counts@.take(index + 1).drop_last() =~= counts@.take(index as int));
        }
        match total.checked_add(counts[index]) {
            Some(next) => {
                total = next;
            },
            None => {
                proof {
                    lemma_count_sum_prefix(counts@, index + 1);
                }
                return None;
            },
        }
        index = index + 1;
    }
    proof {
        assert(counts@.take(index as int) =~= counts@);
    }
    Some(total)
}

/// Storage category used by allocation diagnostics.
#[derive(Clone, Copy, Debug, PartialEq, Eq, Structural, Hash)]
pub enum ProblemIrStorage {
    /// Semantic constraints.
    SemanticConstraints,
    /// Canonical variable blocks.
    VariableBlocks,
    /// Sparse affine terms.
    AffineTerms,
    /// Canonical equality rows.
    CanonicalEqualities,
    /// Canonical linear-bound rows.
    CanonicalLinearBounds,
    /// Canonical cones.
    CanonicalCones,
    /// Rows within one canonical cone.
    CanonicalConeRows,
    /// Owned semantic provenance copied into canonical rows and cones.
    CanonicalProvenance,
    /// Explicit identity scaling vectors.
    Scaling,
}

/// Error returned while constructing semantic or canonical IR values.
#[derive(Clone, Debug, PartialEq, Eq)]
#[non_exhaustive]
pub enum ProblemIrError {
    /// A required metadata string was empty or whitespace-only.
    EmptyMetadata {
        /// Rejected field.
        field: SemanticMetadataField,
    },
    /// A semantic problem contained no constraints.
    EmptySemanticProblem,
    /// Two constraints used one stable observation identifier.
    DuplicateObservationId {
        /// Duplicated identifier.
        identifier: ObservationId,
    },
    /// A linear-bound relation supplied neither bound.
    MissingLinearBound,
    /// A second-order cone had no left-hand component.
    EmptyConeLeftHandSide,
    /// No canonical variable block was supplied.
    EmptyVariableSpace,
    /// Two variable blocks used one name.
    DuplicateVariableBlockName {
        /// Duplicated name.
        name: String,
    },
    /// Summing variable-block lengths overflowed `usize`.
    VariableCountOverflow,
    /// A sparse affine coefficient was zero.
    ZeroAffineCoefficient {
        /// Variable index.
        variable: usize,
    },
    /// Sparse variable indices were not strictly increasing.
    NonIncreasingAffineIndices {
        /// Previous index.
        previous: usize,
        /// Current index.
        current: usize,
    },
    /// A sparse variable index exceeded the declared variable space.
    AffineVariableOutOfRange {
        /// Rejected index.
        variable: usize,
        /// Declared variable count.
        variable_count: usize,
    },
    /// Storage could not be reserved.
    AllocationFailed {
        /// Storage category.
        storage: ProblemIrStorage,
        /// Exact or minimum entry count requested.
        requested: usize,
    },
    /// A checked canonical memory estimate overflowed.
    MemoryEstimateOverflow,
    /// A soft residual scale was not finite and positive.
    InvalidSoftScale {
        /// Rejected scale, as binary64 bits.
        value: u64,
    },
    /// A Huber transition value was not finite and positive.
    InvalidHuberDelta {
        /// Rejected delta, as binary64 bits.
        value: u64,
    },
    /// A semantic relation scalar was NaN or infinite.
    NonFiniteSemanticScalar {
        /// Rejected value, as binary64 bits.
        value: u64,
    },
    /// A linear-bound relation had `lower > upper`.
    ReversedLinearBounds {
        /// Lower bound, as binary64 bits.
        lower: u64,
        /// Upper bound, as binary64 bits.
        upper: u64,
    },
    /// A sparse affine coefficient was NaN or infinite.
    NonFiniteAffineCoefficient {
        /// Variable index.
        variable: usize,
        /// Rejected value, as binary64 bits.
        value: u64,
    },
    /// A sparse affine constant was NaN or infinite.
    NonFiniteAffineConstant {
        /// Rejected value, as binary64 bits.
        value: u64,
    },
}

/// Explicit soft-loss family retained in semantic IR.
#[derive(Clone, Copy, Debug, PartialEq, Eq, Structural, Hash)]
pub enum SoftLoss {
    /// Squared L2 loss.
    SquaredL2,
    /// Absolute L1 loss.
    AbsoluteL1,
    /// Huber loss with a positive transition value.
    Huber {
        /// Positive Huber transition value, as binary64 bits.
        delta: u64,
    },
}

/// Hard feasibility or an explicit soft penalty.
#[derive(Clone, Copy, Debug, PartialEq, Eq, Structural, Hash)]
pub enum Enforcement {
    /// Preserve the relation as a hard feasibility condition.
    Hard,
    /// Retain an explicit soft scale and loss for a later objective compiler.
    Soft {
        /// Positive residual scale, as binary64 bits.
        scale: u64,
        /// Explicit loss family.
        loss: SoftLoss,
    },
}

impl Enforcement {
    /// The outcome of validation: the soft scale must be finite and positive,
    /// then a Huber delta must be too.
    pub open spec fn spec_validate(self) -> Result<(), ProblemIrError> {
        match self {
            Enforcement::Hard => Ok(()),
            Enforcement::Soft { scale, loss } => if !binary64_positive_finite(scale) {
                Err(ProblemIrError::InvalidSoftScale { value: scale })
            } else {
                match loss {
                    SoftLoss::Huber { delta } => if !binary64_positive_finite(delta) {
                        Err(ProblemIrError::InvalidHuberDelta { value: delta })
                    } else {
                        Ok(())
                    },
                    _ => Ok(()),
                }
            },
        }
    }

    /// Whether the enforcement metadata is valid.
    pub open spec fn spec_valid(self) -> bool {
        self.spec_validate() is Ok
    }

    /// Checks the soft scale first, then the Huber delta.
    pub fn validate(self) -> (result: Result<(), ProblemIrError>)
        ensures
            result == self.spec_validate(),
    {
        match self {
            Enforcement::Hard => Ok(()),
            Enforcement::Soft { scale, loss } => {
                if !is_positive_finite_bits(scale) {
                    return Err(ProblemIrError::InvalidSoftScale { value: scale });
                }
                if let SoftLoss::Huber { delta } = loss {
                    if !is_positive_finite_bits(delta) {
                        return Err(ProblemIrError::InvalidHuberDelta { value: delta });
                    }
                }
                Ok(())
            },
        }
    }
}

} // verus!
