//! Assembly of a validated level problem in two stages: the records and the
//! graphs they define, then gauge and contrast.
use vstd::prelude::*;

use crate::binary64::binary64_positive_finite;
use crate::dimension::{Dim, SupportedDimension};
use crate::levels::anchoring::{
    contrast_partner, count_ungauged, gauge_links, has_contrast, missing_contrast, ungauged_count,
};
use crate::levels::conflicts::{
    first_fixed_conflict, first_order_conflict, fixed_conflict, fixed_conflict_sources, fixed_membership_conflict,
    membership_order_conflict, order_conflict, order_conflict_reported, order_ids,
};
use crate::levels::forest::equality_chain;
use crate::levels::membership::{membership_chain, point_views, MembershipEquality};
use crate::levels::order_graph::{
    acyclic, edges_in_range, is_topological, smallest_ready_chain, stuck, topological_order,
    unresolved_cycle_edges,
};
use crate::levels::records::{
    all_distinct, collect_record_ids, definition_ids, duplicate_level_id, duplicate_observation_id,
    first_repeat, invalid_membership_functional, isolated, isolated_level, membership_level_indices,
    names, nonfinite_fixed, nonfinite_fixed_value, order_level_indices, order_missing_level,
    order_reference_missing, record_ids,
};
use crate::levels::compile::{
    collect_level_ids, compiled_rows, count_fixed, field_variable_count, first_bad_linearization,
    field_names_distinct, fixed_rows, lemma_fixed_positions, lemma_prior_positions, level_block,
    level_variable_space, linearization_ok, repeated_block_name,
    membership_rows, order_rows, prior_rows, variable_out_of_range, CompiledLevelProblem,
    LevelCanonicalizationError,
};
use crate::levels::{
    FixedOrderConflict, LevelDefinition, LevelId, LevelMembership, LevelOrder, LevelProblemDiagnostics,
    LevelProblemError,
};
use crate::problem_ir::{blocks_total, AffineExpression, NonZeroCount, ProblemIrError, VariableBlock};

verus! {

/// The position of the definition with identifier `id`.
pub open spec fn level_position(levels: Seq<LevelDefinition>, id: LevelId) -> int {
    choose|i: int| names(levels, i, id)
}

/// The level position of each membership.
pub open spec fn resolved_membership_levels<const D: usize>(levels: Seq<LevelDefinition>, memberships: Seq<LevelMembership<D>>) -> Seq<
    usize,
> where Dim<D>: SupportedDimension<D> {
    memberships.map_values(|membership: LevelMembership<D>| level_position(levels, membership.spec_level_id()) as usize)
}

/// The lower and upper level positions of each order edge.
pub open spec fn resolved_orders(levels: Seq<LevelDefinition>, orders: Seq<LevelOrder>) -> Seq<(usize, usize)> {
    orders.map_values(
        |order: LevelOrder|
            (level_position(levels, order.spec_lower()) as usize, level_position(levels, order.spec_upper()) as usize),
    )
}

/// Whether each order edge has a positive minimum gap.
pub open spec fn gap_flags(orders: Seq<LevelOrder>) -> Seq<bool> {
    orders.map_values(|order: LevelOrder| binary64_positive_finite(order.spec_minimum_gap()))
}

/// The evaluation point of each membership.
pub open spec fn membership_points<const D: usize>(memberships: Seq<LevelMembership<D>>) -> Seq<Seq<u64>> where
    Dim<D>: SupportedDimension<D>,
 {
    memberships.map_values(|membership: LevelMembership<D>| membership.spec_functional().point@)
}

/// Whether every record is valid on its own and every reference resolves:
/// at least two levels and one membership, unique level identifiers, finite
/// fixed values, unique observation identifiers, unit value memberships,
/// defined levels, and no isolated unknown level.
pub open spec fn records_ok<const D: usize>(
    levels: Seq<LevelDefinition>,
    memberships: Seq<LevelMembership<D>>,
    orders: Seq<LevelOrder>,
) -> bool where Dim<D>: SupportedDimension<D> {
    &&& levels.len() >= 2
    &&& memberships.len() > 0
    &&& all_distinct(definition_ids(levels))
    &&& forall|i: int| 0 <= i < levels.len() ==> !#[trigger] nonfinite_fixed(levels, i)
    &&& levels.len() + memberships.len() + orders.len() <= usize::MAX
    &&& all_distinct(record_ids(levels, memberships, orders))
    &&& forall|m: int| 0 <= m < memberships.len() ==> (#[trigger] memberships[m]).spec_functional().unit_value
    &&& forall|m: int| 0 <= m < memberships.len() ==> definition_ids(levels).contains(#[trigger] memberships[m].spec_level_id())
    &&& forall|k: int| 0 <= k < orders.len() ==> !#[trigger] order_reference_missing(levels, orders, k)
    &&& forall|i: int|
        0 <= i < levels.len() ==> !#[trigger] isolated(
            levels,
            resolved_membership_levels(levels, memberships),
            resolved_orders(levels, orders),
            i,
        )
}

/// Whether the records are valid and the graphs they define are consistent:
/// no fixed-value conflict under membership equality, order edges without a
/// cycle, and no positive order path between equal levels.
pub open spec fn graph_ok<const D: usize>(
    levels: Seq<LevelDefinition>,
    memberships: Seq<LevelMembership<D>>,
    orders: Seq<LevelOrder>,
) -> bool where Dim<D>: SupportedDimension<D> {
    let membership_levels = resolved_membership_levels(levels, memberships);
    let points = membership_points(memberships);
    let edges = resolved_orders(levels, orders);
    &&& records_ok(levels, memberships, orders)
    &&& forall|a: int, b: int| !#[trigger] fixed_conflict(levels, membership_levels, points, a, b)
    &&& acyclic(edges, levels.len() as nat)
    &&& forall|s: int, t: int| !#[trigger] order_conflict(membership_levels, points, edges, gap_flags(orders), s, t)
}

/// With unique identifiers, a definition with the identifier is the one at
/// its position.
pub(crate) proof fn lemma_unique_position(levels: Seq<LevelDefinition>, index: int, id: LevelId)
    requires
        all_distinct(definition_ids(levels)),
        names(levels, index, id),
    ensures
        level_position(levels, id) == index,
{
    let p = level_position(levels, id);
    let ids = definition_ids(levels);
    assert(ids[p] == id && ids[index] == id);
    if p < index {
        assert(ids[p] != ids[index]);
    } else if index < p {
        assert(ids[index] != ids[p]);
    }
}

/// A level problem whose records, references, membership equality and order
/// graph are valid; what remains is checked by [`LevelGraph::try_into_problem`].
pub struct LevelGraph<const D: usize> where Dim<D>: SupportedDimension<D> {
    levels: Vec<LevelDefinition>,
    memberships: Vec<LevelMembership<D>>,
    orders: Vec<LevelOrder>,
    membership_levels: Vec<usize>,
    order_indices: Vec<(usize, usize)>,
    positive_gap: Vec<bool>,
    topological: Vec<usize>,
    equality: MembershipEquality,
}

impl<const D: usize> LevelGraph<D> where Dim<D>: SupportedDimension<D> {
    #[verifier::type_invariant]
    spec fn inv(self) -> bool {
        &&& graph_ok(self.levels@, self.memberships@, self.orders@)
        &&& self.membership_levels@ == resolved_membership_levels(self.levels@, self.memberships@)
        &&& self.order_indices@ == resolved_orders(self.levels@, self.orders@)
        &&& self.positive_gap@ == gap_flags(self.orders@)
        &&& is_topological(self.order_indices@, self.levels@.len() as nat, self.topological@)
        &&& smallest_ready_chain(self.order_indices@, self.levels@.len() as nat, self.topological@)
        &&& self.equality.wf(self.levels@.len() as nat, self.membership_levels@, membership_points(self.memberships@))
        &&& forall|m: int|
            0 <= m < self.membership_levels@.len() ==> #[trigger] self.membership_levels@[m] < self.levels@.len()
        &&& edges_in_range(self.order_indices@, self.levels@.len() as nat)
    }

    /// The level definitions.
    pub closed spec fn spec_levels(self) -> Seq<LevelDefinition> {
        self.levels@
    }

    /// The memberships.
    pub closed spec fn spec_memberships(self) -> Seq<LevelMembership<D>> {
        self.memberships@
    }

    /// The order edges.
    pub closed spec fn spec_orders(self) -> Seq<LevelOrder> {
        self.orders@
    }

    /// The deterministic topological order of level positions.
    pub closed spec fn spec_topological(self) -> Seq<usize> {
        self.topological@
    }

    /// Validates definitions, memberships, references, membership equality
    /// and order topology, reporting the first failing check.
    pub fn try_new(levels: Vec<LevelDefinition>, memberships: Vec<LevelMembership<D>>, orders: Vec<LevelOrder>) -> (result: Result<
        Self,
        LevelProblemError,
    >)
        ensures
            levels@.len() < 2 ==> result == Err::<Self, LevelProblemError>(
                LevelProblemError::InsufficientLevels { count: levels@.len() as usize },
            ),
            levels@.len() >= 2 && memberships@.len() == 0 ==> result == Err::<Self, LevelProblemError>(
                LevelProblemError::EmptyMemberships,
            ),
            levels@.len() >= 2 && memberships@.len() > 0 && !all_distinct(definition_ids(levels@)) ==> exists|j: int|
                #[trigger] first_repeat(definition_ids(levels@), j) && result == Err::<Self, LevelProblemError>(
                    LevelProblemError::DuplicateLevelId { level_id: definition_ids(levels@)[j] },
                ),
            levels@.len() >= 2 && memberships@.len() > 0 && all_distinct(definition_ids(levels@)) && (exists|i: int|
                0 <= i < levels@.len() && #[trigger] nonfinite_fixed(levels@, i)) ==> exists|i: int|
                0 <= i < levels@.len() && #[trigger] nonfinite_fixed(levels@, i) && (forall|e: int| 0 <= e < i ==> !nonfinite_fixed(levels@, e))
                    && result == Err::<Self, LevelProblemError>(
                    LevelProblemError::NonFiniteFixedValue { value: levels@[i].value->Fixed_0 },
                ),
            result is Ok <==> graph_ok(levels@, memberships@, orders@),
            result matches Ok(graph) ==> graph.spec_levels() == levels@ && graph.spec_memberships() == memberships@
                && graph.spec_orders() == orders@ && is_topological(
                resolved_orders(levels@, orders@),
                levels@.len() as nat,
                graph.spec_topological(),
            ) && smallest_ready_chain(resolved_orders(levels@, orders@), levels@.len() as nat, graph.spec_topological()),
            result matches Err(error) ==> later_check_failure(levels@, memberships@, orders@, error),
    {
        let ghost level_seq = levels@;
        let ghost membership_seq = memberships@;
        let ghost order_seq = orders@;
        if levels.len() < 2 {
            return Err(LevelProblemError::InsufficientLevels { count: levels.len() });
        }
        if memberships.len() == 0 {
            return Err(LevelProblemError::EmptyMemberships);
        }
        if let Some(level_id) = duplicate_level_id(&levels) {
            return Err(LevelProblemError::DuplicateLevelId { level_id });
        }
        if let Some(value) = nonfinite_fixed_value(&levels) {
            proof {
                let i = choose|i: int|
                    0 <= i < levels@.len() && #[trigger] nonfinite_fixed(levels@, i) && levels@[i].value == crate::levels::LevelValue::Fixed(value)
                        && forall|earlier: int| 0 <= earlier < i ==> !nonfinite_fixed(levels@, earlier);
                assert(levels@[i].value->Fixed_0 == value);
            }
            return Err(LevelProblemError::NonFiniteFixedValue { value });
        }
        let ids = match collect_record_ids(&levels, &memberships, &orders) {
            Some(ids) => ids,
            None => {
                return Err(LevelProblemError::CountOverflow);
            },
        };
        if let Some(observation_id) = duplicate_observation_id(&ids) {
            return Err(LevelProblemError::DuplicateObservationId { observation_id });
        }
        if let Some(observation_id) = invalid_membership_functional(&memberships) {
            return Err(LevelProblemError::InvalidMembershipFunctional { observation_id });
        }
        let membership_levels = match membership_level_indices(&levels, &memberships) {
            Ok(indices) => indices,
            Err((level_id, observation_id)) => {
                return Err(LevelProblemError::UndefinedLevel { level_id, observation_id });
            },
        };
        let order_indices = match order_level_indices(&levels, &orders) {
            Ok(indices) => indices,
            Err((level_id, observation_id)) => {
                return Err(LevelProblemError::UndefinedLevel { level_id, observation_id });
            },
        };
        proof {
            assert(membership_levels@ =~= resolved_membership_levels(levels@, memberships@)) by {
                assert forall|m: int| 0 <= m < memberships@.len() implies #[trigger] membership_levels@[m]
                    == resolved_membership_levels(levels@, memberships@)[m] by {
                    assert(names(levels@, membership_levels@[m] as int, memberships@[m].spec_level_id()));
                    lemma_unique_position(levels@, membership_levels@[m] as int, memberships@[m].spec_level_id());
                }
            }
            assert(order_indices@ =~= resolved_orders(levels@, orders@)) by {
                assert forall|k: int| 0 <= k < orders@.len() implies #[trigger] order_indices@[k] == resolved_orders(levels@, orders@)[k] by {
                    assert(names(levels@, order_indices@[k].0 as int, orders@[k].spec_lower()));
                    assert(names(levels@, order_indices@[k].1 as int, orders@[k].spec_upper()));
                    lemma_unique_position(levels@, order_indices@[k].0 as int, orders@[k].spec_lower());
                    lemma_unique_position(levels@, order_indices@[k].1 as int, orders@[k].spec_upper());
                }
            }
        }
        if let Some(level_id) = isolated_level(&levels, &membership_levels, &order_indices) {
            return Err(LevelProblemError::IsolatedUnknownLevel { level_id });
        }
        let mut points: Vec<[u64; D]> = Vec::new();
        let mut positive_gap: Vec<bool> = Vec::new();
        let mut m: usize = 0;
        while m < memberships.len()
            invariant
                m <= memberships@.len(),
                points@.len() == m,
                point_views(points@) == membership_points(memberships@).take(m as int),
            decreases memberships@.len() - m,
        {
            let point = memberships[m].functional().point;
            let ghost before = points@;
            points.push(point);
            proof {
                assert(points@ == before.push(point));
                assert(point_views(before).len() == before.len());
                assert(before.len() == m);
                assert(points@.len() == m + 1);
                assert(points@[m as int] == point);
                assert(point_views(points@)[m as int] == points@[m as int]@);
                assert(point_views(points@)[m as int] == point@);
                assert(membership_points(memberships@)[m as int] == memberships@[m as int].spec_functional().point@);
                assert(point_views(points@) =~= membership_points(memberships@).take(m + 1));
            }
            m = m + 1;
        }
        let mut k: usize = 0;
        while k < orders.len()
            invariant
                k <= orders@.len(),
                positive_gap@ == gap_flags(orders@).take(k as int),
            decreases orders@.len() - k,
        {
            positive_gap.push(orders[k].has_positive_gap());
            proof {
                assert(positive_gap@ =~= gap_flags(orders@).take(k + 1));
            }
            k = k + 1;
        }
        proof {
            assert(point_views(points@) =~= membership_points(memberships@));
            assert(positive_gap@ =~= gap_flags(orders@));
            assert forall|m: int| 0 <= m < membership_levels@.len() implies #[trigger] membership_levels@[m] < levels@.len() by {
                assert(names(levels@, membership_levels@[m] as int, memberships@[m].spec_level_id()));
            }
            assert forall|k: int| 0 <= k < order_indices@.len() implies (#[trigger] order_indices@[k]).0 < levels@.len()
                && order_indices@[k].1 < levels@.len() by {
                assert(names(levels@, order_indices@[k].0 as int, orders@[k].spec_lower()));
                assert(names(levels@, order_indices@[k].1 as int, orders@[k].spec_upper()));
            }
        }
        let ghost point_seq = membership_points(memberships@);
        let equality = MembershipEquality::new(levels.len(), &membership_levels, &points);
        if let Some((first, second, sources)) = fixed_membership_conflict(
            &levels,
            &memberships,
            &equality,
            Ghost(membership_levels@),
            Ghost(point_seq),
        ) {
            return Err(
                LevelProblemError::FixedMembershipConflict {
                    first_level: levels[first].level_id,
                    second_level: levels[second].level_id,
                    sources,
                },
            );
        }
        let topological = match topological_order(levels.len(), &order_indices) {
            Ok(order) => order,
            Err(cycle) => {
                proof {
                    let done = choose|done: Seq<usize>|
                        #[trigger] smallest_ready_chain(order_indices@, levels@.len() as nat, done) && done.len() < levels@.len() && stuck(
                            order_indices@,
                            levels@.len() as nat,
                            done,
                        ) && cycle@ == unresolved_cycle_edges(order_indices@, done, order_indices@.len() as int);
                    crate::levels::order_graph::lemma_unresolved_cycle_edges_bound(order_indices@, done, order_indices@.len() as int);
                }
                let mut sources = Vec::new();
                let mut index: usize = 0;
                while index < cycle.len()
                    invariant
                        index <= cycle@.len(),
                        forall|i: int| 0 <= i < cycle@.len() ==> #[trigger] cycle@[i] < orders@.len(),
                        sources@ == order_ids(orders@, cycle@.take(index as int)),
                    decreases cycle@.len() - index,
                {
                    sources.push(orders[cycle[index]].provenance().observation_id());
                    proof {
                        assert(order_ids(orders@, cycle@.take(index + 1)) =~= order_ids(orders@, cycle@.take(index as int)).push(
                            orders@[cycle@[index as int] as int].spec_provenance().spec_observation_id(),
                        ));
                    }
                    index = index + 1;
                }
                proof {
                    assert(cycle@.take(index as int) =~= cycle@);
                }
                return Err(LevelProblemError::OrderCycle { sources });
            },
        };
        if let Some((source, target, sources)) = membership_order_conflict(
            &memberships,
            &orders,
            &membership_levels,
            &order_indices,
            &positive_gap,
            &topological,
            &equality,
            levels.len(),
            Ghost(point_seq),
        ) {
            return Err(
                LevelProblemError::MembershipOrderConflict {
                    lower: levels[source].level_id,
                    upper: levels[target].level_id,
                    sources,
                },
            );
        }
        Ok(
            LevelGraph {
                levels,
                memberships,
                orders,
                membership_levels,
                order_indices,
                positive_gap,
                topological,
                equality,
            },
        )
    }
}

/// The error that the first failing check after the finite fixed values
/// reports: checked in turn are the record count, unique observation
/// identifiers, membership functionals, the levels that memberships and
/// then order edges refer to, isolated unknown levels, fixed-value
/// conflicts, order cycles, and membership-order conflicts. The evidence of
/// a conflict follows the equality chain between the two levels through the
/// merging forest and, for an order conflict, the order path recorded by
/// the reachability pass.
pub open spec fn later_check_failure<const D: usize>(
    levels: Seq<LevelDefinition>,
    memberships: Seq<LevelMembership<D>>,
    orders: Seq<LevelOrder>,
    error: LevelProblemError,
) -> bool where Dim<D>: SupportedDimension<D> {
    let ids = record_ids(levels, memberships, orders);
    let membership_levels = resolved_membership_levels(levels, memberships);
    let points = membership_points(memberships);
    let edges = resolved_orders(levels, orders);
    let counted = levels.len() >= 2 && memberships.len() > 0 && all_distinct(definition_ids(levels)) && (forall|i: int|
        0 <= i < levels.len() ==> !#[trigger] nonfinite_fixed(levels, i));
    let sized = counted && levels.len() + memberships.len() + orders.len() <= usize::MAX;
    let unique = sized && all_distinct(ids);
    let functional = unique && (forall|m: int| 0 <= m < memberships.len() ==> (#[trigger] memberships[m]).spec_functional().unit_value);
    let referenced = functional && (forall|m: int|
        0 <= m < memberships.len() ==> definition_ids(levels).contains(#[trigger] memberships[m].spec_level_id()));
    let ordered = referenced && (forall|k: int| 0 <= k < orders.len() ==> !#[trigger] order_reference_missing(levels, orders, k));
    let settled = records_ok(levels, memberships, orders);
    let unconflicted = settled && (forall|a: int, b: int| !#[trigger] fixed_conflict(levels, membership_levels, points, a, b));
    let acyclic_graph = unconflicted && acyclic(edges, levels.len() as nat);
    &&& counted && !sized ==> error == LevelProblemError::CountOverflow
    &&& sized && !all_distinct(ids) ==> exists|j: int|
        #[trigger] first_repeat(ids, j) && error == (LevelProblemError::DuplicateObservationId { observation_id: ids[j] })
    &&& unique && !functional ==> exists|m: int|
        0 <= m < memberships.len() && !(#[trigger] memberships[m]).spec_functional().unit_value && (forall|e: int|
            0 <= e < m ==> memberships[e].spec_functional().unit_value) && error == (LevelProblemError::InvalidMembershipFunctional {
            observation_id: memberships[m].spec_provenance().spec_observation_id(),
        })
    &&& functional && !referenced ==> exists|m: int|
        0 <= m < memberships.len() && !definition_ids(levels).contains(#[trigger] memberships[m].spec_level_id()) && (forall|e: int|
            0 <= e < m ==> definition_ids(levels).contains(memberships[e].spec_level_id())) && error == (LevelProblemError::UndefinedLevel {
            level_id: memberships[m].spec_level_id(),
            observation_id: memberships[m].spec_provenance().spec_observation_id(),
        })
    &&& referenced && !ordered ==> exists|k: int|
        0 <= k < orders.len() && #[trigger] order_reference_missing(levels, orders, k) && (forall|e: int|
            0 <= e < k ==> !order_reference_missing(levels, orders, e)) && error == (LevelProblemError::UndefinedLevel {
            level_id: order_missing_level(levels, orders, k),
            observation_id: orders[k].spec_provenance().spec_observation_id(),
        })
    &&& ordered && !settled ==> exists|i: int|
        0 <= i < levels.len() && #[trigger] isolated(levels, membership_levels, edges, i) && (forall|e: int|
            0 <= e < i ==> !isolated(levels, membership_levels, edges, e)) && error == (LevelProblemError::IsolatedUnknownLevel {
            level_id: levels[i].level_id,
        })
    &&& settled && !unconflicted ==> exists|a: int, b: int|
        #[trigger] first_fixed_conflict(levels, membership_levels, points, a, b) && membership_chain(
            membership_levels,
            points,
            equality_chain(membership_levels, points, a, b),
            a,
            b,
        ) && (error matches LevelProblemError::FixedMembershipConflict { first_level, second_level, sources } && first_level
            == levels[a].level_id && second_level == levels[b].level_id && sources@ == fixed_conflict_sources(
            levels,
            memberships,
            equality_chain(membership_levels, points, a, b),
            a,
            b,
        ))
    &&& unconflicted && !acyclic_graph ==> exists|done: Seq<usize>|
        #[trigger] smallest_ready_chain(edges, levels.len() as nat, done) && done.len() < levels.len() && stuck(
            edges,
            levels.len() as nat,
            done,
        ) && (error matches LevelProblemError::OrderCycle { sources } && sources@ == order_ids(
            orders,
            unresolved_cycle_edges(edges, done, edges.len() as int),
        ))
    &&& acyclic_graph && !graph_ok(levels, memberships, orders) ==> exists|s: int, t: int|
        #[trigger] first_order_conflict(membership_levels, points, edges, gap_flags(orders), s, t) && (
        error matches LevelProblemError::MembershipOrderConflict { lower, upper, sources } && lower == levels[s].level_id && upper
            == levels[t].level_id && order_conflict_reported(
            membership_levels,
            points,
            edges,
            gap_flags(orders),
            levels.len() as nat,
            memberships,
            orders,
            s,
            t,
            sources@,
        ))
}


/// Number of levels below `upto` that are fixed or carry a prior.
pub open spec fn anchor_count(levels: Seq<LevelDefinition>, upto: int) -> nat
    decreases upto,
{
    if upto <= 0 {
        0
    } else {
        anchor_count(levels, upto - 1) + if levels[upto - 1].value.anchors_gauge() {
            1nat
        } else {
            0nat
        }
    }
}

/// The identifiers of the levels at the given positions.
pub open spec fn ids_at(levels: Seq<LevelDefinition>, positions: Seq<usize>) -> Seq<LevelId> {
    positions.map_values(|index: usize| levels[index as int].level_id)
}

/// A validated immutable level problem.
pub struct LevelProblem<const D: usize> where Dim<D>: SupportedDimension<D> {
    levels: Vec<LevelDefinition>,
    memberships: Vec<LevelMembership<D>>,
    orders: Vec<LevelOrder>,
    diagnostics: LevelProblemDiagnostics,
}

impl<const D: usize> LevelProblem<D> where Dim<D>: SupportedDimension<D> {
    #[verifier::type_invariant]
    spec fn inv(self) -> bool {
        graph_ok(self.levels@, self.memberships@, self.orders@)
    }
}

impl<const D: usize> LevelGraph<D> where Dim<D>: SupportedDimension<D> {
    /// Borrows the level definitions in insertion order.
    pub fn levels(&self) -> (levels: &[LevelDefinition])
        ensures
            levels@ == self.spec_levels(),
    {
        self.levels.as_slice()
    }

    /// Borrows the order edges in insertion order.
    pub fn orders(&self) -> (orders: &[LevelOrder])
        ensures
            orders@ == self.spec_orders(),
    {
        self.orders.as_slice()
    }

    /// Borrows the lower and upper level positions of every order edge.
    pub fn order_indices(&self) -> (indices: &[(usize, usize)])
        ensures
            indices@ == resolved_orders(self.spec_levels(), self.spec_orders()),
    {
        proof {
            use_type_invariant(self);
        }
        self.order_indices.as_slice()
    }

    /// Borrows the deterministic topological order of level positions.
    pub fn topological_indices(&self) -> (order: &[usize])
        ensures
            order@ == self.spec_topological(),
            is_topological(resolved_orders(self.spec_levels(), self.spec_orders()), self.spec_levels().len() as nat, order@),
    {
        proof {
            use_type_invariant(self);
        }
        self.topological.as_slice()
    }

    /// Completes validation. `fixed_order_conflict` is the outcome of the
    /// fixed-order path check on this graph, which sums order gaps as
    /// binary64 magnitudes and is reported first; then every gauge component
    /// must have an anchor and the system must impose a nonzero contrast.
    /// Records the topological order of
    /// level identifiers and the number of anchors.
    pub fn try_into_problem(self, fixed_order_conflict: Option<FixedOrderConflict>) -> (result: Result<
        LevelProblem<D>,
        LevelProblemError,
    >)
        ensures
            fixed_order_conflict matches Some(conflict) ==> result == Err::<LevelProblem<D>, LevelProblemError>(
                LevelProblemError::FixedOrderConflict {
                    lower: conflict.lower,
                    upper: conflict.upper,
                    required_gap: conflict.required_gap,
                    fixed_gap: conflict.fixed_gap,
                    sources: conflict.sources,
                },
            ),
            fixed_order_conflict is None ==> ({
                let levels = self.spec_levels();
                let memberships = self.spec_memberships();
                let orders = self.spec_orders();
                let membership_levels = resolved_membership_levels(levels, memberships);
                let edges = resolved_orders(levels, orders);
                let links = gauge_links(membership_levels, edges, levels.len() as int);
                let ungauged = ungauged_count(links, levels, levels.len() as int);
                let contrast = has_contrast(levels, membership_levels, membership_points(memberships), edges, gap_flags(orders));
                &&& levels.len() == usize::MAX ==> result == Err::<LevelProblem<D>, LevelProblemError>(
                    LevelProblemError::CountOverflow,
                )
                &&& levels.len() < usize::MAX && ungauged > 0 ==> result == Err::<LevelProblem<D>, LevelProblemError>(
                    LevelProblemError::MissingGauge { ungauged_components: ungauged as usize },
                )
                &&& levels.len() < usize::MAX && ungauged == 0 && !contrast ==> exists|partner: Option<int>|
                    #[trigger] contrast_partner(links, membership_levels, levels.len() as int, partner) && result == Err::<
                        LevelProblem<D>,
                        LevelProblemError,
                    >(
                        LevelProblemError::MissingContrast {
                            first_level: levels[membership_levels[0] as int].level_id,
                            second_level: match partner {
                                Some(index) => Some(levels[index].level_id),
                                None => None::<LevelId>,
                            },
                        },
                    )
                &&& levels.len() < usize::MAX && ungauged == 0 && contrast ==> (result matches Ok(problem)
                    && problem.spec_levels() == levels && problem.spec_memberships() == memberships
                    && problem.spec_orders() == orders && problem.spec_diagnostics().spec_topological_order() == ids_at(
                    levels,
                    self.spec_topological(),
                ) && problem.spec_diagnostics().spec_gauge_anchor_count() == anchor_count(levels, levels.len() as int))
            }),
    {
        proof {
            use_type_invariant(&self);
        }
        if let Some(conflict) = fixed_order_conflict {
            return Err(
                LevelProblemError::FixedOrderConflict {
                    lower: conflict.lower,
                    upper: conflict.upper,
                    required_gap: conflict.required_gap,
                    fixed_gap: conflict.fixed_gap,
                    sources: conflict.sources,
                },
            );
        }
        let n = self.levels.len();
        if n == usize::MAX {
            return Err(LevelProblemError::CountOverflow);
        }
        let ungauged = count_ungauged(&self.levels, &self.membership_levels, &self.order_indices);
        if ungauged > 0 {
            return Err(LevelProblemError::MissingGauge { ungauged_components: ungauged });
        }
        if let Some((first_level, second_level)) = missing_contrast(
            &self.levels,
            &self.membership_levels,
            &self.order_indices,
            &self.positive_gap,
            &self.topological,
            &self.equality,
            Ghost(membership_points(self.memberships@)),
        ) {
            return Err(LevelProblemError::MissingContrast { first_level, second_level });
        }
        let mut topological_order: Vec<LevelId> = Vec::new();
        let mut index: usize = 0;
        while index < self.topological.len()
            invariant
                index <= self.topological@.len(),
                is_topological(self.order_indices@, self.levels@.len() as nat, self.topological@),
                topological_order@ == ids_at(self.levels@, self.topological@.take(index as int)),
            decreases self.topological@.len() - index,
        {
            let position = self.topological[index];
            proof {
                assert(self.topological@[index as int] < self.levels@.len());
            }
            topological_order.push(self.levels[position].level_id);
            proof {
                assert(topological_order@ =~= ids_at(self.levels@, self.topological@.take(index + 1)));
            }
            index = index + 1;
        }
        proof {
            assert(self.topological@.take(index as int) =~= self.topological@);
        }
        let mut anchors: usize = 0;
        let mut index: usize = 0;
        while index < n
            invariant
                n == self.levels@.len(),
                index <= n,
                anchors == anchor_count(self.levels@, index as int),
                anchors <= index,
            decreases n - index,
        {
            if self.levels[index].value.is_anchor() {
                anchors = anchors + 1;
            }
            index = index + 1;
        }
        let LevelGraph { levels, memberships, orders, .. } = self;
        Ok(
            LevelProblem {
                levels,
                memberships,
                orders,
                diagnostics: LevelProblemDiagnostics { topological_order, gauge_anchor_count: anchors },
            },
        )
    }
}

impl<const D: usize> LevelProblem<D> where Dim<D>: SupportedDimension<D> {
    /// The level definitions.
    pub closed spec fn spec_levels(self) -> Seq<LevelDefinition> {
        self.levels@
    }

    /// The memberships.
    pub closed spec fn spec_memberships(self) -> Seq<LevelMembership<D>> {
        self.memberships@
    }

    /// The order edges.
    pub closed spec fn spec_orders(self) -> Seq<LevelOrder> {
        self.orders@
    }

    /// The validation diagnostics.
    pub closed spec fn spec_diagnostics(self) -> LevelProblemDiagnostics {
        self.diagnostics
    }

    /// Borrows level definitions in deterministic insertion order.
    pub fn levels(&self) -> (levels: &[LevelDefinition])
        ensures
            levels@ == self.spec_levels(),
    {
        self.levels.as_slice()
    }

    /// Borrows membership equalities in deterministic insertion order.
    pub fn memberships(&self) -> (memberships: &[LevelMembership<D>])
        ensures
            memberships@ == self.spec_memberships(),
    {
        self.memberships.as_slice()
    }

    /// Borrows order edges in deterministic insertion order.
    pub fn orders(&self) -> (orders: &[LevelOrder])
        ensures
            orders@ == self.spec_orders(),
    {
        self.orders.as_slice()
    }

    /// Borrows validation diagnostics.
    pub fn diagnostics(&self) -> (diagnostics: &LevelProblemDiagnostics)
        ensures
            *diagnostics == self.spec_diagnostics(),
    {
        &self.diagnostics
    }
}

impl<const D: usize> LevelProblem<D> where Dim<D>: SupportedDimension<D> {
    /// The checks compilation makes before any membership is linearized:
    /// field blocks are supplied, their variables fit in `usize`, the level
    /// block can be formed and the equality rows can be counted. Returns the
    /// number of field variables.
    pub fn try_prepare_compile<E>(&self, field_variable_blocks: &Vec<VariableBlock>) -> (result: Result<
        usize,
        LevelCanonicalizationError<E>,
    >)
        ensures
            field_variable_blocks@.len() == 0 ==> (result matches Err(LevelCanonicalizationError::EmptyFieldVariableSpace)),
            field_variable_blocks@.len() > 0 && field_total(field_variable_blocks@) > usize::MAX ==> (result matches Err(
                LevelCanonicalizationError::Ir(ProblemIrError::VariableCountOverflow),
            )),
            field_variable_blocks@.len() > 0 && field_total(field_variable_blocks@) <= usize::MAX ==> (result
                matches Ok(count) && count == field_total(field_variable_blocks@)),
    {
        proof {
            use_type_invariant(self);
        }
        if field_variable_blocks.len() == 0 {
            return Err(LevelCanonicalizationError::EmptyFieldVariableSpace);
        }
        let field_count = match field_variable_count(field_variable_blocks) {
            Some(count) => count,
            None => {
                return Err(LevelCanonicalizationError::Ir(ProblemIrError::VariableCountOverflow));
            },
        };
        let level_count = match NonZeroCount::new(self.levels.len()) {
            Some(count) => count,
            None => {
                return Err(LevelCanonicalizationError::EmptyLevelVariableSpace);
            },
        };
        if let Err(error) = level_block(level_count) {
            return Err(LevelCanonicalizationError::Ir(error));
        }
        let fixed_count = count_fixed(&self.levels);
        proof {
            lemma_fixed_positions(self.levels@, self.levels@.len() as int);
        }
        if self.memberships.len().checked_add(fixed_count).is_none() {
            return Err(LevelCanonicalizationError::Ir(ProblemIrError::MemoryEstimateOverflow));
        }
        Ok(field_count)
    }

    /// The checks compilation makes on the linearization of membership
    /// `index`, in order: the caller's failure, a variable outside the
    /// `field_count` field variables, an overflowing level variable, an
    /// overflowing term count. Hands an accepted linearization back.
    pub fn check_linearization<E>(&self, index: usize, linearized: Result<AffineExpression, E>, field_count: usize) -> (result:
        Result<AffineExpression, LevelCanonicalizationError<E>>)
        requires
            index < self.spec_memberships().len(),
        ensures
            ({
                let membership = self.spec_memberships()[index as int];
                let observation_id = membership.spec_provenance().spec_observation_id();
                let level_variable = field_count + level_position(self.spec_levels(), membership.spec_level_id());
                match linearized {
                    Err(source) => result == Err::<AffineExpression, LevelCanonicalizationError<E>>(
                        LevelCanonicalizationError::Linearization { membership_index: index, observation_id, source },
                    ),
                    Ok(affine) => if !linearization_ok(linearized, field_count as nat) {
                        result matches Err(
                            LevelCanonicalizationError::InvalidLinearization {
                                membership_index,
                                observation_id: id,
                                source,
                            },
                        ) && membership_index == index && id == observation_id && variable_out_of_range(source, field_count)
                    } else if level_variable > usize::MAX {
                        result matches Err(LevelCanonicalizationError::Ir(ProblemIrError::VariableCountOverflow))
                    } else if affine.spec_terms().len() == usize::MAX {
                        result matches Err(LevelCanonicalizationError::Ir(ProblemIrError::MemoryEstimateOverflow))
                    } else {
                        result == Ok::<AffineExpression, LevelCanonicalizationError<E>>(affine)
                    },
                }
            }),
    {
        proof {
            use_type_invariant(self);
        }
        let membership = &self.memberships[index];
        let observation_id = membership.provenance().observation_id();
        let affine = match linearized {
            Ok(affine) => affine,
            Err(source) => {
                return Err(LevelCanonicalizationError::Linearization { membership_index: index, observation_id, source });
            },
        };
        if let Err(source) = affine.validate_variable_count(field_count) {
            return Err(LevelCanonicalizationError::InvalidLinearization { membership_index: index, observation_id, source });
        }
        let level_index = match crate::levels::records::find_level(&self.levels, membership.level_id()) {
            Some(position) => position,
            None => {
                return Err(LevelCanonicalizationError::InvalidValidatedState);
            },
        };
        proof {
            assert(names(self.levels@, level_index as int, self.memberships@[index as int].spec_level_id()));
            lemma_unique_position(self.levels@, level_index as int, self.memberships@[index as int].spec_level_id());
        }
        if field_count.checked_add(level_index).is_none() {
            return Err(LevelCanonicalizationError::Ir(ProblemIrError::VariableCountOverflow));
        }
        if affine.terms().len() == usize::MAX {
            return Err(LevelCanonicalizationError::Ir(ProblemIrError::MemoryEstimateOverflow));
        }
        Ok(affine)
    }

    /// Compiles the problem into canonical rows over the caller's field
    /// variables followed by one variable per level. `linearized` holds, for
    /// each membership in order, the caller's linearization of its field
    /// functional (or the caller's failure). The first failure is reported:
    /// an empty or overflowing field space, then memberships in order (a
    /// failed linearization, a variable outside the field blocks, an
    /// overflowing level variable), then fixed levels, order edges and priors,
    /// and last the variable layout: a block name repeated among the field
    /// blocks and the level block (named `levels`), or more variables than
    /// `usize` can index.
    #[verifier::rlimit(40)]
    pub fn try_compile<E>(&self, field_variable_blocks: Vec<VariableBlock>, linearized: Vec<Result<AffineExpression, E>>) -> (result:
        Result<CompiledLevelProblem, LevelCanonicalizationError<E>>)
        requires
            linearized@.len() == self.spec_memberships().len(),
        ensures
            field_variable_blocks@.len() == 0 ==> (result matches Err(LevelCanonicalizationError::EmptyFieldVariableSpace)),
            field_variable_blocks@.len() > 0 && field_total(field_variable_blocks@) > usize::MAX ==> (result matches Err(
                LevelCanonicalizationError::Ir(ProblemIrError::VariableCountOverflow),
            )),
            field_variable_blocks@.len() > 0 && field_total(field_variable_blocks@) + self.spec_levels().len()
                <= usize::MAX ==> (result is Ok <==> (forall|m: int|
                0 <= m < self.spec_memberships().len() ==> linearization_ok(
                    #[trigger] linearized@[m],
                    field_total(field_variable_blocks@),
                )) && field_names_distinct(field_variable_blocks@)),
            field_variable_blocks@.len() > 0 && field_total(field_variable_blocks@) + self.spec_levels().len()
                <= usize::MAX + 1 ==> forall|m: int|
                #[trigger] first_bad_linearization(linearized@, field_total(field_variable_blocks@), m)
                    ==> match linearized@[m] {
                    Err(source) => result == Err::<CompiledLevelProblem, LevelCanonicalizationError<E>>(
                        LevelCanonicalizationError::Linearization {
                            membership_index: m as usize,
                            observation_id: self.spec_memberships()[m].spec_provenance().spec_observation_id(),
                            source,
                        },
                    ),
                    Ok(_) => (result matches Err(
                        LevelCanonicalizationError::InvalidLinearization { membership_index, observation_id, source },
                    ) && membership_index == m && observation_id
                        == self.spec_memberships()[m].spec_provenance().spec_observation_id()
                        && variable_out_of_range(source, field_total(field_variable_blocks@) as usize)),
                },
            field_variable_blocks@.len() > 0 && field_total(field_variable_blocks@) + self.spec_levels().len()
                <= usize::MAX && (forall|m: int|
                0 <= m < self.spec_memberships().len() ==> linearization_ok(
                    #[trigger] linearized@[m],
                    field_total(field_variable_blocks@),
                )) && !field_names_distinct(field_variable_blocks@) ==> (result matches Err(
                LevelCanonicalizationError::Ir(ProblemIrError::DuplicateVariableBlockName { name }),
            ) && repeated_block_name(field_variable_blocks@, name@)),
            field_total(field_variable_blocks@) + self.spec_levels().len() > usize::MAX ==> result is Err,
            result matches Ok(compiled) ==> compiled_rows(
                self.spec_levels(),
                self.spec_memberships(),
                self.spec_orders(),
                field_variable_blocks@,
                linearized@,
                field_total(field_variable_blocks@),
                compiled,
            ),
    {
        proof {
            use_type_invariant(self);
        }
        let ghost blocks_in = field_variable_blocks@;
        let ghost linearized_in = linearized@;
        let mut blocks = field_variable_blocks;
        if blocks.len() == 0 {
            return Err(LevelCanonicalizationError::EmptyFieldVariableSpace);
        }
        let field_count = match field_variable_count(&blocks) {
            Some(count) => count,
            None => {
                return Err(LevelCanonicalizationError::Ir(ProblemIrError::VariableCountOverflow));
            },
        };
        let level_count = match NonZeroCount::new(self.levels.len()) {
            Some(count) => count,
            None => {
                return Err(LevelCanonicalizationError::EmptyLevelVariableSpace);
            },
        };
        let block = match level_block(level_count) {
            Ok(block) => block,
            Err(error) => {
                return Err(LevelCanonicalizationError::Ir(error));
            },
        };
        blocks.push(block);
        let fixed_count = count_fixed(&self.levels);
        proof {
            lemma_fixed_positions(self.levels@, self.levels@.len() as int);
        }
        if self.memberships.len().checked_add(fixed_count).is_none() {
            return Err(LevelCanonicalizationError::Ir(ProblemIrError::MemoryEstimateOverflow));
        }
        let mut equalities = membership_rows(&self.levels, &self.memberships, linearized, field_count)?;
        let mut fixed = fixed_rows(&self.levels, field_count)?;
        let ghost membership_part = equalities@;
        let ghost fixed_part = fixed@;
        equalities.append(&mut fixed);
        let linear_bounds = order_rows(&self.levels, &self.orders, field_count)?;
        let (soft_objectives, priors) = prior_rows(&self.levels, field_count)?;
        let level_ids = collect_level_ids(&self.levels);
        proof {
            assert(blocks@.take(blocks_in.len() as int) =~= blocks_in);
            assert(equalities@ == membership_part + fixed_part);
            lemma_last_level_used(self.levels@, self.memberships@, self.orders@);
            lemma_prior_positions(self.levels@, self.levels@.len() as int);
            let n = self.levels@.len() as int;
            let last = n - 1;
            if self.levels@[last].value is Fixed {
                let fixed_seq = crate::levels::compile::fixed_positions(self.levels@, n);
                assert(fixed_seq.contains(last));
                let j = choose|j: int| 0 <= j < fixed_seq.len() && fixed_seq[j] == last;
                assert(crate::levels::compile::unit_row(fixed_part[j].row, field_count + fixed_seq[j]));
                assert(field_count + fixed_seq[j] <= usize::MAX);
            } else if self.levels@[last].value is Prior {
                let prior_seq = crate::levels::compile::prior_positions(self.levels@, n);
                assert(prior_seq.contains(last));
                let j = choose|j: int| 0 <= j < prior_seq.len() && prior_seq[j] == last;
                assert(priors@[j].spec_level_id() == self.levels@[prior_seq[j]].level_id);
                assert(priors@[j].spec_variable() == field_count + prior_seq[j]);
            } else if exists|m: int|
                0 <= m < self.memberships@.len() && #[trigger] level_position(
                    self.levels@,
                    self.memberships@[m].spec_level_id(),
                ) == last {
                let m = choose|m: int|
                    0 <= m < self.memberships@.len() && #[trigger] level_position(
                        self.levels@,
                        self.memberships@[m].spec_level_id(),
                    ) == last;
                assert(crate::levels::compile::membership_row(
                    membership_part[m],
                    linearized_in[m]->Ok_0,
                    field_count + level_position(self.levels@, self.memberships@[m].spec_level_id()),
                    self.memberships@[m].spec_provenance(),
                ));
            } else {
                let k = choose|k: int|
                    0 <= k < self.orders@.len() && (level_position(self.levels@, (#[trigger] self.orders@[k]).spec_lower())
                        == last || level_position(self.levels@, self.orders@[k].spec_upper()) == last);
                assert(crate::levels::compile::order_row(
                    linear_bounds@[k],
                    field_count + level_position(self.levels@, self.orders@[k].spec_lower()),
                    field_count + level_position(self.levels@, self.orders@[k].spec_upper()),
                    self.orders@[k],
                ));
            }
            assert(field_count + last <= usize::MAX);
        }
        let ghost all_blocks = blocks@;
        let space = match level_variable_space(blocks, Ghost(blocks_in), Ghost(self.levels@.len())) {
            Ok(space) => space,
            Err(error) => {
                return Err(LevelCanonicalizationError::Ir(error));
            },
        };
        proof {
            assert(level_ids@.len() == self.levels@.len());
        }
        let compiled = CompiledLevelProblem::from_parts(
            space,
            equalities,
            linear_bounds,
            soft_objectives,
            priors,
            level_ids,
            field_count,
        );
        proof {
            assert(compiled.spec_variable_blocks() == all_blocks);
            assert(all_blocks.take(blocks_in.len() as int) == blocks_in);
            assert(all_blocks[blocks_in.len() as int].spec_name() == crate::levels::compile::level_block_name());
            assert(compiled_rows(
                self.levels@,
                self.memberships@,
                self.orders@,
                blocks_in,
                linearized_in,
                field_total(blocks_in),
                compiled,
            ));
        }
        Ok(compiled)
    }
}

/// The number of variables in a sequence of blocks.
pub open spec fn field_total(blocks: Seq<VariableBlock>) -> nat {
    blocks_total(blocks, blocks.len() as int)
}

/// In a valid problem, the last level is fixed, has a prior, or is the
/// level of a membership or an end of an order edge.
proof fn lemma_last_level_used<const D: usize>(
    levels: Seq<LevelDefinition>,
    memberships: Seq<LevelMembership<D>>,
    orders: Seq<LevelOrder>,
) where Dim<D>: SupportedDimension<D>
    requires
        graph_ok(levels, memberships, orders),
    ensures
        ({
            let last = levels.len() - 1;
            ||| levels[last].value is Fixed
            ||| levels[last].value is Prior
            ||| exists|m: int|
                0 <= m < memberships.len() && #[trigger] level_position(levels, memberships[m].spec_level_id()) == last
            ||| exists|k: int|
                0 <= k < orders.len() && (level_position(levels, (#[trigger] orders[k]).spec_lower()) == last
                    || level_position(levels, orders[k].spec_upper()) == last)
        }),
{
    let last = levels.len() - 1;
    let membership_levels = resolved_membership_levels(levels, memberships);
    let edges = resolved_orders(levels, orders);
    assert(!isolated(levels, membership_levels, edges, last));
    if levels[last].value is Unknown {
        if membership_levels.contains(last as usize) {
            let m = choose|m: int| 0 <= m < membership_levels.len() && membership_levels[m] == last as usize;
            let id = memberships[m].spec_level_id();
            assert(definition_ids(levels).contains(id));
            let i = choose|i: int| 0 <= i < definition_ids(levels).len() && definition_ids(levels)[i] == id;
            assert(names(levels, i, id));
            assert(names(levels, level_position(levels, id), id));
            assert(level_position(levels, memberships[m].spec_level_id()) == last);
        } else {
            let k = choose|k: int|
                0 <= k < edges.len() && ((#[trigger] edges[k]).0 == last || edges[k].1 == last);
            assert(!order_reference_missing(levels, orders, k));
            let lower = orders[k].spec_lower();
            let upper = orders[k].spec_upper();
            let i = choose|i: int| 0 <= i < definition_ids(levels).len() && definition_ids(levels)[i] == lower;
            assert(names(levels, i, lower));
            let j = choose|j: int| 0 <= j < definition_ids(levels).len() && definition_ids(levels)[j] == upper;
            assert(names(levels, j, upper));
            assert(names(levels, level_position(levels, lower), lower));
            assert(names(levels, level_position(levels, upper), upper));
        }
    }
}

} // verus!
