//! Conflicts between membership equality, fixed values and order edges, and
//! the evidence reported for each.
use vstd::prelude::*;

use crate::dimension::{Dim, SupportedDimension};
use crate::levels::forest::equality_chain;
use crate::levels::membership::{membership_chain, point_coupled, MembershipEquality};
use crate::levels::order_graph::{
    edges_in_range, has_positive_edge, int_path, is_edge_path, is_topological, lemma_dag_path_simple,
    lemma_smallest_ready_order, order_path, positive_flags, positive_reachability, reach_flags, simple_path,
    smallest_ready_chain,
    positively_reaches, recorded_path, reach_facts,
};
use crate::levels::{key_of, value_key, LevelDefinition, LevelMembership, LevelOrder, LevelValue};
use crate::problem_ir::ObservationId;

verus! {

/// Whether levels `a < b` are fixed to different values although membership
/// equality makes them equal.
pub open spec fn fixed_conflict(
    levels: Seq<LevelDefinition>,
    membership_levels: Seq<usize>,
    points: Seq<Seq<u64>>,
    a: int,
    b: int,
) -> bool {
    &&& 0 <= a < b < levels.len()
    &&& levels[a].value is Fixed
    &&& levels[b].value is Fixed
    &&& value_key(levels[a].value->Fixed_0) != value_key(levels[b].value->Fixed_0)
    &&& point_coupled(membership_levels, points, a, b)
}

/// Whether `(a, b)` is the first conflicting pair in lexicographic order.
pub open spec fn first_fixed_conflict(
    levels: Seq<LevelDefinition>,
    membership_levels: Seq<usize>,
    points: Seq<Seq<u64>>,
    a: int,
    b: int,
) -> bool {
    &&& fixed_conflict(levels, membership_levels, points, a, b)
    &&& forall|c: int, d: int|
        (c < a || (c == a && d < b)) ==> !#[trigger] fixed_conflict(levels, membership_levels, points, c, d)
}

/// Observation identifiers of the given memberships.
pub open spec fn membership_ids<const D: usize>(memberships: Seq<LevelMembership<D>>, chosen: Seq<usize>) -> Seq<
    ObservationId,
> where Dim<D>: SupportedDimension<D> {
    chosen.map_values(|m: usize| memberships[m as int].spec_provenance().spec_observation_id())
}

/// Observation identifiers of the given order edges.
pub open spec fn order_ids(orders: Seq<LevelOrder>, chosen: Seq<usize>) -> Seq<ObservationId> {
    chosen.map_values(|k: usize| orders[k as int].spec_provenance().spec_observation_id())
}

/// Evidence of a fixed-value conflict: the first level, the chain of
/// memberships but its last, the second level, the last membership.
pub open spec fn fixed_conflict_sources<const D: usize>(
    levels: Seq<LevelDefinition>,
    memberships: Seq<LevelMembership<D>>,
    chain: Seq<usize>,
    a: int,
    b: int,
) -> Seq<ObservationId> where Dim<D>: SupportedDimension<D> {
    seq![levels[a].provenance.spec_observation_id()] + membership_ids(memberships, chain.drop_last()) + seq![
        levels[b].provenance.spec_observation_id(),
    ] + seq![memberships[chain.last() as int].spec_provenance().spec_observation_id()]
}

/// Appends the observation identifiers of the given memberships.
fn push_membership_ids<const D: usize>(
    sources: &mut Vec<ObservationId>,
    memberships: &Vec<LevelMembership<D>>,
    chosen: &Vec<usize>,
    count: usize,
) where Dim<D>: SupportedDimension<D>
    requires
        count <= chosen@.len(),
        forall|i: int| 0 <= i < chosen@.len() ==> #[trigger] chosen@[i] < memberships@.len(),
    ensures
        final(sources)@ == old(sources)@ + membership_ids(memberships@, chosen@.take(count as int)),
{
    let ghost start = sources@;
    let mut index: usize = 0;
    while index < count
        invariant
            index <= count,
            count <= chosen@.len(),
            forall|i: int| 0 <= i < chosen@.len() ==> #[trigger] chosen@[i] < memberships@.len(),
            sources@ == start + membership_ids(memberships@, chosen@.take(index as int)),
        decreases count - index,
    {
        sources.push(memberships[chosen[index]].provenance().observation_id());
        proof {
            assert(membership_ids(memberships@, chosen@.take(index + 1)) =~= membership_ids(
                memberships@,
                chosen@.take(index as int),
            ).push(memberships@[chosen@[index as int] as int].spec_provenance().spec_observation_id()));
        }
        index = index + 1;
    }
}

/// Appends the observation identifiers of the given order edges.
fn push_order_ids(sources: &mut Vec<ObservationId>, orders: &Vec<LevelOrder>, chosen: &Vec<usize>)
    requires
        forall|i: int| 0 <= i < chosen@.len() ==> #[trigger] chosen@[i] < orders@.len(),
    ensures
        final(sources)@ == old(sources)@ + order_ids(orders@, chosen@),
{
    let ghost start = sources@;
    let mut index: usize = 0;
    while index < chosen.len()
        invariant
            index <= chosen@.len(),
            forall|i: int| 0 <= i < chosen@.len() ==> #[trigger] chosen@[i] < orders@.len(),
            sources@ == start + order_ids(orders@, chosen@.take(index as int)),
        decreases chosen@.len() - index,
    {
        sources.push(orders[chosen[index]].provenance().observation_id());
        proof {
            assert(order_ids(orders@, chosen@.take(index + 1)) =~= order_ids(orders@, chosen@.take(index as int)).push(
                orders@[chosen@[index as int] as int].spec_provenance().spec_observation_id(),
            ));
        }
        index = index + 1;
    }
    proof {
        assert(chosen@.take(index as int) =~= chosen@);
    }
}

/// `(a, b)` is the first fixed-value conflict and `sources` its evidence
/// along the equality chain of distinct memberships from `a` to `b`.
pub open spec fn fixed_conflict_reported<const D: usize>(
    levels: Seq<LevelDefinition>,
    memberships: Seq<LevelMembership<D>>,
    membership_levels: Seq<usize>,
    points: Seq<Seq<u64>>,
    a: int,
    b: int,
    sources: Seq<ObservationId>,
) -> bool where Dim<D>: SupportedDimension<D> {
    let chain = equality_chain(membership_levels, points, a, b);
    &&& first_fixed_conflict(levels, membership_levels, points, a, b)
    &&& membership_chain(membership_levels, points, chain, a, b)
    &&& sources == fixed_conflict_sources(levels, memberships, chain, a, b)
}

/// Finds the first pair of fixed levels with different values that
/// membership equality makes equal, with a chain of memberships as evidence.
#[verifier::rlimit(40)]
pub(crate) fn fixed_membership_conflict<const D: usize>(
    levels: &Vec<LevelDefinition>,
    memberships: &Vec<LevelMembership<D>>,
    equality: &MembershipEquality,
    Ghost(membership_levels): Ghost<Seq<usize>>,
    Ghost(points): Ghost<Seq<Seq<u64>>>,
) -> (conflict: Option<(usize, usize, Vec<ObservationId>)>) where Dim<D>: SupportedDimension<D>
    requires
        equality.wf(levels@.len() as nat, membership_levels, points),
        membership_levels.len() == memberships@.len(),
        forall|m: int| 0 <= m < membership_levels.len() ==> #[trigger] membership_levels[m] < levels@.len(),
    ensures
        conflict is None <==> forall|a: int, b: int| !#[trigger] fixed_conflict(levels@, membership_levels, points, a, b),
        conflict matches Some((a, b, sources)) ==> fixed_conflict_reported(
            levels@,
            memberships@,
            membership_levels,
            points,
            a as int,
            b as int,
            sources@,
        ),
{
    let count = levels.len();
    let mut first: usize = 0;
    while first < count
        invariant
            count == levels@.len(),
            equality.wf(levels@.len() as nat, membership_levels, points),
            membership_levels.len() == memberships@.len(),
            forall|m: int| 0 <= m < membership_levels.len() ==> #[trigger] membership_levels[m] < levels@.len(),
            first <= count,
            forall|c: int, d: int| c < first ==> !#[trigger] fixed_conflict(levels@, membership_levels, points, c, d),
        decreases count - first,
    {
        if let LevelValue::Fixed(first_bits) = levels[first].value {
            let first_key = key_of(first_bits);
            let mut second: usize = first + 1;
            while second < count
                invariant
                    count == levels@.len(),
                    equality.wf(levels@.len() as nat, membership_levels, points),
                    membership_levels.len() == memberships@.len(),
                    forall|m: int| 0 <= m < membership_levels.len() ==> #[trigger] membership_levels[m] < levels@.len(),
                    first < count,
                    first + 1 <= second <= count,
                    levels@[first as int].value == LevelValue::Fixed(first_bits),
                    first_key == value_key(first_bits),
                    forall|c: int, d: int| c < first ==> !#[trigger] fixed_conflict(levels@, membership_levels, points, c, d),
                    forall|d: int| d < second ==> !#[trigger] fixed_conflict(levels@, membership_levels, points, first as int, d),
                decreases count - second,
            {
                if let LevelValue::Fixed(second_bits) = levels[second].value {
                    if key_of(second_bits) != first_key && equality.same_component(
                        first,
                        second,
                        Ghost(levels@.len() as nat),
                        Ghost(membership_levels),
                        Ghost(points),
                    ) {
                        let chain = equality.path_memberships(
                            first,
                            second,
                            Ghost(levels@.len() as nat),
                            Ghost(membership_levels),
                            Ghost(points),
                        ).unwrap();
                        let last = chain.len() - 1;
                        let mut sources: Vec<ObservationId> = Vec::new();
                        sources.push(levels[first].provenance.observation_id());
                        push_membership_ids(&mut sources, memberships, &chain, last);
                        sources.push(levels[second].provenance.observation_id());
                        sources.push(memberships[chain[last]].provenance().observation_id());
                        proof {
                            assert(fixed_conflict(levels@, membership_levels, points, first as int, second as int));
                            assert(chain@.take(last as int) =~= chain@.drop_last());
                            assert(sources@ =~= fixed_conflict_sources(levels@, memberships@, chain@, first as int, second as int));
                            assert(membership_chain(membership_levels, points, chain@, first as int, second as int));
                            assert forall|c: int, d: int| (c < first || (c == first && d < second)) implies !#[trigger] fixed_conflict(
                                levels@,
                                membership_levels,
                                points,
                                c,
                                d,
                            ) by {}
                            assert(first_fixed_conflict(levels@, membership_levels, points, first as int, second as int));
                            assert(fixed_conflict_reported(
                                levels@,
                                memberships@,
                                membership_levels,
                                points,
                                first as int,
                                second as int,
                                sources@,
                            ));
                        }
                        return Some((first, second, sources));
                    }
                }
                second = second + 1;
            }
            proof {
                assert forall|d: int| !#[trigger] fixed_conflict(levels@, membership_levels, points, first as int, d) by {
                    if d >= second {
                        assert(d >= count);
                    }
                }
            }
        }
        first = first + 1;
    }
    None
}

/// Whether levels `s` and `t` both hold memberships, membership equality
/// makes them equal, and yet a path of order edges with a positive gap
/// leads from `s` to `t`.
pub open spec fn order_conflict(
    membership_levels: Seq<usize>,
    points: Seq<Seq<u64>>,
    edges: Seq<(usize, usize)>,
    positive_gap: Seq<bool>,
    s: int,
    t: int,
) -> bool {
    &&& s != t
    &&& membership_levels.contains(s as usize)
    &&& membership_levels.contains(t as usize)
    &&& positively_reaches(edges, positive_gap, s, t)
    &&& point_coupled(membership_levels, points, s, t)
}

/// Whether `(s, t)` is the first such pair in lexicographic order.
pub open spec fn first_order_conflict(
    membership_levels: Seq<usize>,
    points: Seq<Seq<u64>>,
    edges: Seq<(usize, usize)>,
    positive_gap: Seq<bool>,
    s: int,
    t: int,
) -> bool {
    &&& order_conflict(membership_levels, points, edges, positive_gap, s, t)
    &&& forall|c: int, d: int|
        (c < s || (c == s && d < t)) ==> !#[trigger] order_conflict(membership_levels, points, edges, positive_gap, c, d)
}

/// Evidence of a membership-order conflict: the chain of memberships but
/// its last, the order edges of the path, the last membership.
pub open spec fn order_conflict_sources<const D: usize>(
    memberships: Seq<LevelMembership<D>>,
    orders: Seq<LevelOrder>,
    chain: Seq<usize>,
    path: Seq<usize>,
) -> Seq<ObservationId> where Dim<D>: SupportedDimension<D> {
    membership_ids(memberships, chain.drop_last()) + order_ids(orders, path) + seq![
        memberships[chain.last() as int].spec_provenance().spec_observation_id(),
    ]
}

/// `sources` is the evidence of a membership-order conflict between `s` and
/// `t` among `count` levels: the equality chain of distinct memberships from
/// `s` to `t`, and the order path from `s` to `t`, a simple path of order
/// edges with a positive gap.
pub open spec fn order_conflict_evidence<const D: usize>(
    membership_levels: Seq<usize>,
    points: Seq<Seq<u64>>,
    edges: Seq<(usize, usize)>,
    positive_gap: Seq<bool>,
    count: nat,
    memberships: Seq<LevelMembership<D>>,
    orders: Seq<LevelOrder>,
    s: int,
    t: int,
    chain: Seq<usize>,
    path: Seq<usize>,
    sources: Seq<ObservationId>,
) -> bool where Dim<D>: SupportedDimension<D> {
    &&& chain == equality_chain(membership_levels, points, s, t)
    &&& membership_chain(membership_levels, points, chain, s, t)
    &&& path == order_path(edges, positive_gap, count, s, t)
    &&& is_edge_path(edges, int_path(path), s, t)
    &&& simple_path(edges, int_path(path))
    &&& has_positive_edge(positive_gap, int_path(path))
    &&& forall|i: int| 0 <= i < path.len() ==> #[trigger] path[i] < orders.len()
    &&& sources == order_conflict_sources(memberships, orders, chain, path)
}

/// `(s, t)` is the first membership-order conflict and `sources` valid
/// evidence of it.
pub open spec fn order_conflict_reported<const D: usize>(
    membership_levels: Seq<usize>,
    points: Seq<Seq<u64>>,
    edges: Seq<(usize, usize)>,
    positive_gap: Seq<bool>,
    count: nat,
    memberships: Seq<LevelMembership<D>>,
    orders: Seq<LevelOrder>,
    s: int,
    t: int,
    sources: Seq<ObservationId>,
) -> bool where Dim<D>: SupportedDimension<D> {
    &&& first_order_conflict(membership_levels, points, edges, positive_gap, s, t)
    &&& exists|chain: Seq<usize>, path: Seq<usize>|
        #[trigger] order_conflict_evidence(
            membership_levels,
            points,
            edges,
            positive_gap,
            count,
            memberships,
            orders,
            s,
            t,
            chain,
            path,
            sources,
        )
}

/// Marks every level that holds a membership.
pub fn membership_flags(level_count: usize, membership_levels: &Vec<usize>) -> (flags: Vec<bool>)
    requires
        forall|m: int| 0 <= m < membership_levels@.len() ==> #[trigger] membership_levels@[m] < level_count,
    ensures
        flags@.len() == level_count,
        forall|x: int| 0 <= x < level_count ==> #[trigger] flags@[x] == membership_levels@.contains(x as usize),
{
    let mut flags: Vec<bool> = Vec::new();
    let mut fill: usize = 0;
    while fill < level_count
        invariant
            fill <= level_count,
            flags@.len() == fill,
            forall|i: int| 0 <= i < fill ==> !#[trigger] flags@[i],
        decreases level_count - fill,
    {
        flags.push(false);
        fill = fill + 1;
    }
    let mut m: usize = 0;
    while m < membership_levels.len()
        invariant
            m <= membership_levels@.len(),
            flags@.len() == level_count,
            forall|i: int| 0 <= i < membership_levels@.len() ==> #[trigger] membership_levels@[i] < level_count,
            forall|x: int| 0 <= x < level_count ==> #[trigger] flags@[x] == membership_levels@.take(m as int).contains(x as usize),
        decreases membership_levels@.len() - m,
    {
        let level = membership_levels[m];
        flags.set(level, true);
        proof {
            let grown = membership_levels@.take(m + 1);
            assert forall|x: int| 0 <= x < level_count implies #[trigger] flags@[x] == grown.contains(x as usize) by {
                if x == level {
                    assert(grown[m as int] == level);
                } else {
                    if membership_levels@.take(m as int).contains(x as usize) {
                        let i = choose|i: int| 0 <= i < m && membership_levels@.take(m as int)[i] == x as usize;
                        assert(grown[i] == x as usize);
                    }
                    if grown.contains(x as usize) {
                        let i = choose|i: int| 0 <= i < m + 1 && grown[i] == x as usize;
                        assert(i < m);
                        assert(membership_levels@.take(m as int)[i] == x as usize);
                    }
                }
            }
        }
        m = m + 1;
    }
    proof {
        assert(membership_levels@.take(m as int) =~= membership_levels@);
    }
    flags
}

/// Finds the first pair of levels with memberships that membership equality
/// makes equal while a positive order path separates them, with the chain
/// of memberships and the order path as evidence.
pub(crate) fn membership_order_conflict<const D: usize>(
    memberships: &Vec<LevelMembership<D>>,
    orders: &Vec<LevelOrder>,
    membership_levels: &Vec<usize>,
    order_indices: &Vec<(usize, usize)>,
    positive_gap: &Vec<bool>,
    topological: &Vec<usize>,
    equality: &MembershipEquality,
    level_count: usize,
    Ghost(points): Ghost<Seq<Seq<u64>>>,
) -> (conflict: Option<(usize, usize, Vec<ObservationId>)>) where Dim<D>: SupportedDimension<D>
    requires
        equality.wf(level_count as nat, membership_levels@, points),
        membership_levels@.len() == memberships@.len(),
        forall|m: int| 0 <= m < membership_levels@.len() ==> #[trigger] membership_levels@[m] < level_count,
        order_indices@.len() == orders@.len(),
        positive_gap@.len() == orders@.len(),
        edges_in_range(order_indices@, level_count as nat),
        is_topological(order_indices@, level_count as nat, topological@),
        smallest_ready_chain(order_indices@, level_count as nat, topological@),
    ensures
        conflict is None <==> forall|s: int, t: int|
            !#[trigger] order_conflict(membership_levels@, points, order_indices@, positive_gap@, s, t),
        conflict matches Some((s, t, sources)) ==> order_conflict_reported(
            membership_levels@,
            points,
            order_indices@,
            positive_gap@,
            level_count as nat,
            memberships@,
            orders@,
            s as int,
            t as int,
            sources@,
        ),
{
    let flags = membership_flags(level_count, membership_levels);
    let mut source: usize = 0;
    while source < level_count
        invariant
            equality.wf(level_count as nat, membership_levels@, points),
            membership_levels@.len() == memberships@.len(),
            forall|m: int| 0 <= m < membership_levels@.len() ==> #[trigger] membership_levels@[m] < level_count,
            order_indices@.len() == orders@.len(),
            positive_gap@.len() == orders@.len(),
            edges_in_range(order_indices@, level_count as nat),
            is_topological(order_indices@, level_count as nat, topological@),
            smallest_ready_chain(order_indices@, level_count as nat, topological@),
            flags@.len() == level_count,
            forall|x: int| 0 <= x < level_count ==> #[trigger] flags@[x] == membership_levels@.contains(x as usize),
            source <= level_count,
            forall|c: int, d: int| c < source ==> !#[trigger] order_conflict(membership_levels@, points, order_indices@, positive_gap@, c, d),
        decreases level_count - source,
    {
        if flags[source] {
            let (reachable, positive, parent) = positive_reachability(source, level_count, order_indices, positive_gap, topological);
            let mut target: usize = 0;
            while target < level_count
                invariant
                    equality.wf(level_count as nat, membership_levels@, points),
                    membership_levels@.len() == memberships@.len(),
                    forall|m: int| 0 <= m < membership_levels@.len() ==> #[trigger] membership_levels@[m] < level_count,
                    order_indices@.len() == orders@.len(),
                    positive_gap@.len() == orders@.len(),
                    edges_in_range(order_indices@, level_count as nat),
                    is_topological(order_indices@, level_count as nat, topological@),
                    smallest_ready_chain(order_indices@, level_count as nat, topological@),
                    flags@.len() == level_count,
                    forall|x: int| 0 <= x < level_count ==> #[trigger] flags@[x] == membership_levels@.contains(x as usize),
                    source < level_count,
                    flags@[source as int],
                    reach_facts(order_indices@, positive_gap@, level_count as nat, topological@, source as int, reachable@, positive@, parent@),
                    target <= level_count,
                    forall|c: int, d: int| c < source ==> !#[trigger] order_conflict(membership_levels@, points, order_indices@, positive_gap@, c, d),
                    forall|d: int| d < target ==> !#[trigger] order_conflict(membership_levels@, points, order_indices@, positive_gap@, source as int, d),
                decreases level_count - target,
            {
                if target != source && flags[target] && positive[target] && equality.same_component(
                    source,
                    target,
                    Ghost(level_count as nat),
                    Ghost(membership_levels@),
                    Ghost(points),
                ) {
                    let chain = equality.path_memberships(
                        source,
                        target,
                        Ghost(level_count as nat),
                        Ghost(membership_levels@),
                        Ghost(points),
                    ).unwrap();
                    proof {
                        assert(reachable@[target as int]);
                    }
                    let path = recorded_path(
                        source,
                        target,
                        level_count,
                        order_indices,
                        positive_gap,
                        topological,
                        &reachable,
                        &positive,
                        &parent,
                    );
                    let last = chain.len() - 1;
                    proof {
                        assert forall|i: int| 0 <= i < path@.len() implies #[trigger] path@[i] < orders@.len() by {
                            assert(int_path(path@)[i] == path@[i] as int);
                        }
                    }
                    let mut sources: Vec<ObservationId> = Vec::new();
                    push_membership_ids(&mut sources, memberships, &chain, last);
                    push_order_ids(&mut sources, orders, &path);
                    sources.push(memberships[chain[last]].provenance().observation_id());
                    proof {
                        assert(order_conflict(membership_levels@, points, order_indices@, positive_gap@, source as int, target as int));
                        assert(chain@.take(last as int) =~= chain@.drop_last());
                        assert(sources@ =~= order_conflict_sources(memberships@, orders@, chain@, path@));
                        assert(membership_chain(membership_levels@, points, chain@, source as int, target as int));
                        lemma_smallest_ready_order(order_indices@, level_count as nat, topological@);
                        assert(reachable@ =~= reach_flags(order_indices@, source as int, level_count as nat));
                        assert(positive@ =~= positive_flags(order_indices@, positive_gap@, source as int, level_count as nat));
                        assert(path@ == order_path(order_indices@, positive_gap@, level_count as nat, source as int, target as int));
                        lemma_dag_path_simple(
                            order_indices@,
                            level_count as nat,
                            topological@,
                            int_path(path@),
                            source as int,
                            target as int,
                        );
                        assert forall|c: int, d: int| (c < source || (c == source && d < target)) implies !#[trigger] order_conflict(
                            membership_levels@,
                            points,
                            order_indices@,
                            positive_gap@,
                            c,
                            d,
                        ) by {}
                        assert(first_order_conflict(membership_levels@, points, order_indices@, positive_gap@, source as int, target as int));
                        assert(order_conflict_evidence(
                            membership_levels@,
                            points,
                            order_indices@,
                            positive_gap@,
                            level_count as nat,
                            memberships@,
                            orders@,
                            source as int,
                            target as int,
                            chain@,
                            path@,
                            sources@,
                        ));
                    }
                    proof {
                        assert(order_conflict_reported(
                            membership_levels@,
                            points,
                            order_indices@,
                            positive_gap@,
                            level_count as nat,
                            memberships@,
                            orders@,
                            source as int,
                            target as int,
                            sources@,
                        ));
                    }
                    return Some((source, target, sources));
                }
                target = target + 1;
            }
            proof {
                assert forall|d: int| !#[trigger] order_conflict(membership_levels@, points, order_indices@, positive_gap@, source as int, d) by {
                    if d >= target && order_conflict(membership_levels@, points, order_indices@, positive_gap@, source as int, d) {
                        let path = choose|path: Seq<int>| #[trigger] is_edge_path(order_indices@, path, source as int, d) && has_positive_edge(positive_gap@, path);
                        crate::levels::order_graph::lemma_path_end_in_range(order_indices@, level_count as nat, path, source as int, d);
                    }
                }
            }
        } else {
            proof {
                assert forall|d: int| !#[trigger] order_conflict(membership_levels@, points, order_indices@, positive_gap@, source as int, d) by {
                    assert(!membership_levels@.contains(source));
                }
            }
        }
        source = source + 1;
    }
    None
}

} // verus!
