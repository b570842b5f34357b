//! Membership equality: two levels are equal when memberships of them share
//! one field value, and equality closes transitively. The components are
//! kept in a disjoint-set forest together with the edges that merged them,
//! so that a chain of memberships can be produced as evidence.
use vstd::prelude::*;

use crate::levels::forest::{
    edges_before, equality_chain, equality_edges, lemma_edges_before_acyclic, lemma_forest_route_named, merge_step,
};
use crate::levels::order_graph::{count_false, lemma_count_false_bound, lemma_count_false_set};
use crate::levels::union_find::{
    find_root, lemma_root_bounds, lemma_root_iff_linked, lemma_union_represents, linked,
    links_in_range, parent_wf, represents, respects, singletons, uf_root, union,
};

verus! {

/// A labelling of levels that gives the levels of two memberships at one
/// point the same label.
pub open spec fn respects_points(label: spec_fn(int) -> int, levels: Seq<usize>, points: Seq<Seq<u64>>) -> bool {
    forall|first: int, second: int|
        0 <= first < levels.len() && 0 <= second < levels.len() && points[first] == points[second] ==> label(
            #[trigger] levels[first] as int,
        ) == label(#[trigger] levels[second] as int)
}

/// Whether levels `a` and `b` are equal by membership equality: every
/// labelling that gives levels sharing a membership point the same label
/// labels them alike.
pub open spec fn point_coupled(levels: Seq<usize>, points: Seq<Seq<u64>>, a: int, b: int) -> bool {
    forall|label: spec_fn(int) -> int| #[trigger] respects_points(label, levels, points) ==> label(a) == label(b)
}

/// The coordinates of each point.
pub open spec fn point_views<const D: usize>(points: Seq<[u64; D]>) -> Seq<Seq<u64>> {
    points.map_values(|point: [u64; D]| point@)
}

/// Whether two points have the same coordinates.
pub fn same_point<const D: usize>(first: &[u64; D], second: &[u64; D]) -> (same: bool)
    ensures
        same == (first@ == second@),
{
    let mut axis: usize = 0;
    while axis < D
        invariant
            axis <= D,
            first@.len() == D,
            second@.len() == D,
            forall|i: int| 0 <= i < axis ==> first@[i] == second@[i],
        decreases D - axis,
    {
        if first[axis] != second[axis] {
            return false;
        }
        axis = axis + 1;
    }
    proof {
        assert(first@ =~= second@);
    }
    true
}

/// One merge of two components: memberships at one point whose levels lay
/// in different components.
#[derive(Clone, Copy, Debug)]
pub struct MembershipEqualityEdge {
    /// Level of the first membership.
    pub first_level: usize,
    /// Level of the second membership.
    pub second_level: usize,
    /// Index of the first membership.
    pub first_membership: usize,
    /// Index of the second membership.
    pub second_membership: usize,
}

/// The level pairs joined by the edges.
pub open spec fn forest_links(edges: Seq<MembershipEqualityEdge>) -> Seq<(int, int)> {
    edges.map_values(|edge: MembershipEqualityEdge| (edge.first_level as int, edge.second_level as int))
}

/// Every edge joins the levels of two memberships at one point.
pub open spec fn edges_valid(edges: Seq<MembershipEqualityEdge>, levels: Seq<usize>, points: Seq<Seq<u64>>) -> bool {
    forall|k: int|
        0 <= k < edges.len() ==> {
            let edge = #[trigger] edges[k];
            &&& edge.first_membership < levels.len()
            &&& edge.second_membership < levels.len()
            &&& levels[edge.first_membership as int] == edge.first_level
            &&& levels[edge.second_membership as int] == edge.second_level
            &&& points[edge.first_membership as int] == points[edge.second_membership as int]
        }
}

/// Whether edge `edge` joins levels `a` and `b`, in either direction.
pub open spec fn joins(edge: MembershipEqualityEdge, a: int, b: int) -> bool {
    (edge.first_level == a && edge.second_level == b) || (edge.second_level == a && edge.first_level == b)
}

/// Whether `chain` lists memberships leading from level `a` to level `b`:
/// it starts at a membership of `a`, ends at a membership of `b`, each
/// membership shares its point or its level with the next one, and no
/// membership occurs twice.
pub open spec fn membership_chain(levels: Seq<usize>, points: Seq<Seq<u64>>, chain: Seq<usize>, a: int, b: int) -> bool {
    &&& chain.len() >= 1
    &&& forall|i: int, j: int| 0 <= i < j < chain.len() ==> #[trigger] chain[i] != #[trigger] chain[j]
    &&& forall|i: int| 0 <= i < chain.len() ==> #[trigger] chain[i] < levels.len()
    &&& levels[chain[0] as int] == a
    &&& levels[chain.last() as int] == b
    &&& forall|i: int, j: int|
        0 <= i && j == i + 1 && j < chain.len() ==> points[#[trigger] chain[i] as int] == points[#[trigger] chain[j] as int]
            || levels[chain[i] as int] == levels[chain[j] as int]
}

/// The memberships met along the first `count` edges of `route` through the
/// equality forest, which passes through the levels `stops`: for each edge,
/// its membership at the current level, then its membership at the next
/// level, each skipped when it is already the last one listed.
pub open spec fn route_chain(
    edges: Seq<MembershipEqualityEdge>,
    route: Seq<usize>,
    stops: Seq<int>,
    count: int,
) -> Seq<usize>
    decreases count,
{
    if count <= 0 {
        Seq::empty()
    } else {
        let before = route_chain(edges, route, stops, count - 1);
        let edge = edges[route[count - 1] as int];
        let near = if edge.first_level == stops[count - 1] {
            edge.first_membership
        } else {
            edge.second_membership
        };
        let far = if edge.first_level == stops[count - 1] {
            edge.second_membership
        } else {
            edge.first_membership
        };
        let with_near = if before.len() > 0 && before.last() == near {
            before
        } else {
            before.push(near)
        };
        if with_near.last() == far {
            with_near
        } else {
            with_near.push(far)
        }
    }
}

/// `route` leads through the equality forest from `source` to `target`
/// along the distinct levels `stops`.
pub open spec fn route_through_forest(
    edges: Seq<MembershipEqualityEdge>,
    route: Seq<usize>,
    stops: Seq<int>,
    source: int,
    target: int,
) -> bool {
    &&& stops.len() == route.len() + 1
    &&& stops[0] == source
    &&& stops.last() == target
    &&& forall|i: int| 0 <= i < route.len() ==> #[trigger] route[i] < edges.len() && joins(edges[route[i] as int], stops[i], stops[i + 1])
    &&& forall|i: int, j: int| 0 <= i < j < stops.len() ==> #[trigger] stops[i] != #[trigger] stops[j]
}

/// Components of membership equality over `level_count` levels.
pub struct MembershipEquality {
    pub parent: Vec<usize>,
    pub edges: Vec<MembershipEqualityEdge>,
}

impl MembershipEquality {
    /// The forest's components are exactly membership equality, and its
    /// edges merged them.
    pub open spec fn wf(self, level_count: nat, levels: Seq<usize>, points: Seq<Seq<u64>>) -> bool {
        &&& self.parent@.len() == level_count
        &&& represents(self.parent@, forest_links(self.edges@))
        &&& edges_valid(self.edges@, levels, points)
        &&& self.edges@ == equality_edges(levels, points)
        &&& forall|a: int, b: int|
            0 <= a < level_count && 0 <= b < level_count ==> (#[trigger] uf_root(self.parent@, a) == #[trigger] uf_root(
                self.parent@,
                b,
            ) <==> point_coupled(levels, points, a, b))
    }

    /// Merges the levels of every two memberships that share one point.
    pub fn new<const D: usize>(level_count: usize, levels: &Vec<usize>, point_list: &Vec<[u64; D]>) -> (equality: Self)
        requires
            levels@.len() == point_list@.len(),
            forall|m: int| 0 <= m < levels@.len() ==> #[trigger] levels@[m] < level_count,
        ensures
            equality.wf(level_count as nat, levels@, point_views(point_list@)),
    {
        let ghost points = point_views(point_list@);
        let mut parent = singletons(level_count);
        let mut edges: Vec<MembershipEqualityEdge> = Vec::new();
        let count = levels.len();
        proof {
            assert(forest_links(edges@) =~= Seq::<(int, int)>::empty());
        }
        let mut first: usize = 0;
        while first < count
            invariant
                count == levels@.len(),
                levels@.len() == point_list@.len(),
                points == point_views(point_list@),
                forall|m: int| 0 <= m < levels@.len() ==> #[trigger] levels@[m] < level_count,
                first <= count,
                parent@.len() == level_count,
                edges@ == edges_before(levels@, points, first as nat, (first + 1) as nat),
                represents(parent@, forest_links(edges@)),
                edges_valid(edges@, levels@, points),
                forall|m1: int, m2: int|
                    0 <= m1 < first && m1 < m2 < count && points[m1] == points[m2] ==> uf_root(
                        parent@,
                        #[trigger] levels@[m1] as int,
                    ) == uf_root(parent@, #[trigger] levels@[m2] as int),
            decreases count - first,
        {
            let mut second: usize = first + 1;
            while second < count
                invariant
                    count == levels@.len(),
                    levels@.len() == point_list@.len(),
                    points == point_views(point_list@),
                    forall|m: int| 0 <= m < levels@.len() ==> #[trigger] levels@[m] < level_count,
                    first < count,
                    first + 1 <= second <= count,
                    parent@.len() == level_count,
                    edges@ == edges_before(levels@, points, first as nat, second as nat),
                    represents(parent@, forest_links(edges@)),
                    edges_valid(edges@, levels@, points),
                    forall|m1: int, m2: int|
                        (0 <= m1 < first && m1 < m2 < count || m1 == first && first < m2 < second)
                            && points[m1] == points[m2] ==> uf_root(parent@, #[trigger] levels@[m1] as int)
                            == uf_root(parent@, #[trigger] levels@[m2] as int),
                decreases count - second,
            {
                let first_level = levels[first];
                let second_level = levels[second];
                proof {
                    lemma_root_iff_linked(parent@, forest_links(edges@), first_level as int, second_level as int);
                    assert(edges_before(levels@, points, first as nat, (second + 1) as nat) == merge_step(
                        edges@,
                        levels@,
                        points,
                        first as int,
                        second as int,
                    ));
                }
                if first_level != second_level && same_point(&point_list[first], &point_list[second]) && find_root(&parent, first_level)
                    != find_root(&parent, second_level) {
                    let ghost before = parent@;
                    let ghost links = forest_links(edges@);
                    union(&mut parent, first_level, second_level);
                    let edge = MembershipEqualityEdge {
                        first_level,
                        second_level,
                        first_membership: first,
                        second_membership: second,
                    };
                    let ghost before_edges = edges@;
                    edges.push(edge);
                    proof {
                        assert(edges@ == merge_step(before_edges, levels@, points, first as int, second as int));
                        lemma_union_represents(before, parent@, links, first_level as int, second_level as int);
                        assert(forest_links(edges@) =~= links.push((first_level as int, second_level as int)));
                        assert forall|k: int| 0 <= k < edges@.len() implies {
                            let e = #[trigger] edges@[k];
                            &&& e.first_membership < levels@.len()
                            &&& e.second_membership < levels@.len()
                            &&& levels@[e.first_membership as int] == e.first_level
                            &&& levels@[e.second_membership as int] == e.second_level
                            &&& points[e.first_membership as int] == points[e.second_membership as int]
                        } by {
                            if k < before_edges.len() {
                                assert(edges@[k] == before_edges[k]);
                            }
                        }
                        assert forall|m1: int, m2: int|
                            (0 <= m1 < first && m1 < m2 < count || m1 == first && first < m2 < second + 1)
                                && points[m1] == points[m2] implies uf_root(parent@, #[trigger] levels@[m1] as int)
                                == uf_root(parent@, #[trigger] levels@[m2] as int) by {
                            if !(m1 == first && m2 == second) {
                                assert(uf_root(before, levels@[m1] as int) == uf_root(before, levels@[m2] as int));
                            }
                        }
                    }
                } else {
                    proof {
                        assert(point_list@[first as int]@ == points[first as int]);
                        assert(point_list@[second as int]@ == points[second as int]);
                        assert(edges@ == merge_step(edges@, levels@, points, first as int, second as int));
                        if first_level != second_level && points[first as int] == points[second as int] {
                            assert(uf_root(parent@, first_level as int) == uf_root(parent@, second_level as int));
                        }
                    }
                }
                second = second + 1;
            }
            proof {
                assert(edges_before(levels@, points, (first + 1) as nat, (first + 2) as nat) == edges_before(
                    levels@,
                    points,
                    first as nat,
                    count as nat,
                ));
            }
            first = first + 1;
        }
        let equality = MembershipEquality { parent, edges };
        proof {
            let links = forest_links(equality.edges@);
            assert forall|a: int, b: int|
                0 <= a < level_count && 0 <= b < level_count implies (#[trigger] uf_root(equality.parent@, a)
                == #[trigger] uf_root(equality.parent@, b) <==> point_coupled(levels@, points, a, b)) by {
                lemma_root_iff_linked(equality.parent@, links, a, b);
                if linked(links, a, b) {
                    assert forall|label: spec_fn(int) -> int| #[trigger] respects_points(label, levels@, points) implies label(a)
                        == label(b) by {
                        assert(respects(label, links)) by {
                            assert forall|k: int| 0 <= k < links.len() implies label(#[trigger] links[k].0) == label(links[k].1) by {
                                let e = equality.edges@[k];
                                assert(levels@[e.first_membership as int] == e.first_level);
                                assert(levels@[e.second_membership as int] == e.second_level);
                            }
                        }
                    }
                }
                if point_coupled(levels@, points, a, b) {
                    let label = |node: int| uf_root(equality.parent@, node);
                    assert(respects_points(label, levels@, points)) by {
                        assert forall|m1: int, m2: int|
                            0 <= m1 < levels@.len() && 0 <= m2 < levels@.len() && points[m1] == points[m2] implies label(
                                #[trigger] levels@[m1] as int,
                            ) == label(#[trigger] levels@[m2] as int) by {
                            if m1 < m2 {
                                assert(uf_root(equality.parent@, levels@[m1] as int) == uf_root(
                                    equality.parent@,
                                    levels@[m2] as int,
                                ));
                            } else if m2 < m1 {
                                assert(uf_root(equality.parent@, levels@[m2] as int) == uf_root(
                                    equality.parent@,
                                    levels@[m1] as int,
                                ));
                            }
                        }
                    }
                    assert(label(a) == label(b));
                }
            }
        }
        equality
    }

    /// Whether two levels are equal by membership equality.
    pub(crate) fn same_component(&self, first: usize, second: usize, Ghost(level_count): Ghost<nat>, Ghost(levels): Ghost<Seq<usize>>, Ghost(points): Ghost<Seq<Seq<u64>>>) -> (same: bool)
        requires
            self.wf(level_count, levels, points),
            first < level_count,
            second < level_count,
        ensures
            same == point_coupled(levels, points, first as int, second as int),
    {
        find_root(&self.parent, first) == find_root(&self.parent, second)
    }

    /// A chain of memberships that witnesses the equality of two levels:
    /// `None` when the levels are not equal, an empty chain when they are the
    /// same level, and otherwise the memberships along the merging edges that
    /// join them.
    pub(crate) fn path_memberships(
        &self,
        source: usize,
        target: usize,
        Ghost(level_count): Ghost<nat>,
        Ghost(levels): Ghost<Seq<usize>>,
        Ghost(points): Ghost<Seq<Seq<u64>>>,
    ) -> (path: Option<Vec<usize>>)
        requires
            self.wf(level_count, levels, points),
            source < level_count,
            target < level_count,
        ensures
            path is None <==> !point_coupled(levels, points, source as int, target as int),
            path matches Some(chain) ==> (source == target ==> chain@.len() == 0) && (source != target ==> membership_chain(
                levels,
                points,
                chain@,
                source as int,
                target as int,
            ) && exists|route: Seq<usize>, stops: Seq<int>|
                #[trigger] route_through_forest(self.edges@, route, stops, source as int, target as int) && chain@ == route_chain(
                    self.edges@,
                    route,
                    stops,
                    route.len() as int,
                ) && chain@ == equality_chain(levels, points, source as int, target as int)),
    {
        if source == target {
            return Some(Vec::new());
        }
        if !self.same_component(source, target, Ghost(level_count), Ghost(levels), Ghost(points)) {
            return None;
        }
        let stops = self.forest_route(source, target, Ghost(level_count), Ghost(levels), Ghost(points));
        let (route, Ghost(route_stops)) = stops;
        let mut chain: Vec<usize> = Vec::new();
        let ghost mut tags: Seq<int> = Seq::empty();
        let mut step: usize = 0;
        let mut cursor = source;
        while step < route.len()
            invariant
                cursor as int == route_stops[step as int],
                forall|i: int, j: int|
                    0 <= i < j < route_stops.len() ==> #[trigger] route_stops[i] != #[trigger] route_stops[j],
                tags.len() == chain@.len(),
                chain@ == route_chain(self.edges@, route@, route_stops, step as int),
                forall|a: int|
                    0 <= a < chain@.len() ==> 0 <= #[trigger] tags[a] <= step && levels[chain@[a] as int]
                        == route_stops[tags[a]],
                forall|a: int| 0 <= a < chain@.len() - 1 ==> #[trigger] tags[a] < step,
                self.wf(level_count, levels, points),
                route_stops.len() == route@.len() + 1,
                route_stops[0] == source,
                route_stops.last() == target,
                forall|i: int| 0 <= i < route@.len() ==> #[trigger] route@[i] < self.edges@.len() && joins(
                    self.edges@[route@[i] as int],
                    route_stops[i],
                    route_stops[i + 1],
                ),
                route@.len() >= 1,
                step <= route@.len(),
                step == 0 ==> chain@.len() == 0,
                step > 0 ==> membership_chain(levels, points, chain@, source as int, route_stops[step as int]),
            decreases route@.len() - step,
        {
            let edge = self.edges[route[step]];
            proof {
                assert(joins(self.edges@[route@[step as int] as int], route_stops[step as int], route_stops[step + 1]));
                let e = self.edges@[route@[step as int] as int];
                assert(edges_valid(self.edges@, levels, points));
                assert(e.first_membership < levels.len());
            }
            let (near, far, reached) = if edge.first_level == cursor {
                (edge.first_membership, edge.second_membership, edge.second_level)
            } else {
                (edge.second_membership, edge.first_membership, edge.first_level)
            };
            proof {
                let e = self.edges@[route@[step as int] as int];
                assert(levels[near as int] == cursor);
                assert(levels[far as int] == route_stops[step + 1]);
                assert(reached == route_stops[step + 1]);
                assert(points[near as int] == points[far as int]);
            }
            let ghost before = chain@;
            let ghost before_tags = tags;
            let near_is_last = chain.len() > 0 && chain[chain.len() - 1] == near;
            if !near_is_last {
                chain.push(near);
                proof {
                    tags = tags.push(step as int);
                }
            }
            let ghost middle = chain@;
            let ghost middle_tags = tags;
            proof {
                assert forall|a: int, b: int| 0 <= a < b < middle.len() implies #[trigger] middle[a] != #[trigger] middle[b] by {
                    if b == middle.len() - 1 && !near_is_last {
                        assert(middle[a] == before[a]);
                        if a < before.len() - 1 {
                            assert(before_tags[a] < step);
                            assert(route_stops[before_tags[a]] != route_stops[step as int]);
                        }
                    } else {
                        assert(middle[a] == before[a]);
                        assert(middle[b] == before[b]);
                    }
                }
                assert forall|a: int| 0 <= a < middle.len() implies 0 <= #[trigger] middle_tags[a] <= step && levels[middle[a] as int]
                    == route_stops[middle_tags[a]] by {
                    if a < before.len() {
                        assert(middle[a] == before[a]);
                        assert(middle_tags[a] == before_tags[a]);
                    }
                }
            }
            let far_is_last = chain[chain.len() - 1] == far;
            if !far_is_last {
                chain.push(far);
                proof {
                    tags = tags.push(step + 1);
                }
            }
            proof {
                assert(middle.len() >= 1);
                assert(levels[middle.last() as int] == cursor);
                assert(far != middle.last());
                assert forall|a: int, b: int| 0 <= a < b < chain@.len() implies #[trigger] chain@[a] != #[trigger] chain@[b] by {
                    if b == chain@.len() - 1 {
                        assert(chain@[a] == middle[a]);
                        assert(chain@[b] == far);
                        assert(middle_tags[a] <= step);
                        assert(route_stops[middle_tags[a]] != route_stops[step + 1]);
                    } else {
                        assert(chain@[a] == middle[a]);
                        assert(chain@[b] == middle[b]);
                    }
                }
                assert forall|a: int| 0 <= a < chain@.len() implies 0 <= #[trigger] tags[a] <= step + 1 && levels[chain@[a] as int]
                    == route_stops[tags[a]] by {
                    if a < middle.len() {
                        assert(chain@[a] == middle[a]);
                        assert(tags[a] == middle_tags[a]);
                    }
                }
                assert forall|a: int| 0 <= a < chain@.len() - 1 implies #[trigger] tags[a] < step + 1 by {
                    assert(chain@[a] == middle[a]);
                    assert(tags[a] == middle_tags[a]);
                }
                assert(chain@.len() >= 1);
                assert(chain@[0] as int >= 0);
                if step == 0 {
                    assert(chain@[0] == near);
                } else {
                    assert(chain@[0] == before[0]);
                }
                assert(levels[chain@.last() as int] == route_stops[step + 1]);
                assert forall|i: int| 0 <= i < chain@.len() implies #[trigger] chain@[i] < levels.len() by {
                    if i < before.len() {
                        assert(chain@[i] == before[i]);
                    }
                }
                assert forall|i: int, j: int|
                    0 <= i && j == i + 1 && j < chain@.len() implies points[#[trigger] chain@[i] as int] == points[#[trigger] chain@[j] as int]
                        || levels[chain@[i] as int] == levels[chain@[j] as int] by {
                    if j < before.len() {
                        assert(chain@[i] == before[i]);
                        assert(chain@[j] == before[j]);
                    } else if j == before.len() {
                        assert(chain@[i] == before.last());
                        assert(levels[before.last() as int] == cursor);
                    } else {
                        assert(chain@[j] == far);
                        assert(chain@[i] == near);
                    }
                }
            }
            proof {
                let e = self.edges@[route@[step as int] as int];
                assert(route_chain(self.edges@, route@, route_stops, step + 1) == {
                    let with_near = if before.len() > 0 && before.last() == near {
                        before
                    } else {
                        before.push(near)
                    };
                    if with_near.last() == far {
                        with_near
                    } else {
                        with_near.push(far)
                    }
                });
            }
            cursor = reached;
            step = step + 1;
        }
        proof {
            assert(route_through_forest(self.edges@, route@, route_stops, source as int, target as int));
            lemma_edges_before_acyclic(levels, points, levels.len(), levels.len() + 1);
            lemma_forest_route_named(self.edges@, route@, route_stops, source as int, target as int);
        }
        Some(chain)
    }

    /// A route of merging edges from `source` to `target` found by
    /// breadth-first search, with the levels it passes through.
    fn forest_route(
        &self,
        source: usize,
        target: usize,
        Ghost(level_count): Ghost<nat>,
        Ghost(levels): Ghost<Seq<usize>>,
        Ghost(points): Ghost<Seq<Seq<u64>>>,
    ) -> (route: (Vec<usize>, Ghost<Seq<int>>))
        requires
            self.wf(level_count, levels, points),
            source < level_count,
            target < level_count,
            source != target,
            point_coupled(levels, points, source as int, target as int),
        ensures
            route.1@.len() == route.0@.len() + 1,
            route.1@[0] == source,
            route.1@.last() == target,
            route.0@.len() >= 1,
            forall|i: int| 0 <= i < route.0@.len() ==> #[trigger] route.0@[i] < self.edges@.len() && joins(
                self.edges@[route.0@[i] as int],
                route.1@[i],
                route.1@[i + 1],
            ),
            forall|i: int, j: int| 0 <= i < j < route.1@.len() ==> #[trigger] route.1@[i] != #[trigger] route.1@[j],
    {
        let ghost links = forest_links(self.edges@);
        let count = self.parent.len();
        let mut visited: Vec<bool> = Vec::new();
        let mut parent_edge: Vec<Option<usize>> = Vec::new();
        let mut fill: usize = 0;
        while fill < count
            invariant
                fill <= count,
                visited@.len() == fill,
                parent_edge@.len() == fill,
                forall|i: int| 0 <= i < fill ==> !#[trigger] visited@[i],
            decreases count - fill,
        {
            visited.push(false);
            parent_edge.push(None);
            fill = fill + 1;
        }
        let mut queue: Vec<usize> = Vec::new();
        visited.set(source, true);
        queue.push(source);
        let mut next: usize = 0;
        proof {
            assert forall|e: int| 0 <= e < self.edges@.len() implies (#[trigger] self.edges@[e]).first_level < count
                && self.edges@[e].second_level < count by {
                assert(links[e] == (self.edges@[e].first_level as int, self.edges@[e].second_level as int));
                assert(links_in_range(links, count as int));
                assert(0 <= links[e].0 < count && 0 <= links[e].1 < count);
            }
            assert forall|x: int| 0 <= x < count && #[trigger] visited@[x] implies x == source by {
                if x != source {
                    assert(!visited@[x]);
                }
            }
            assert(queue@[0] == source);
        }
        while next < queue.len() && !visited[target]
            invariant
                self.wf(level_count, levels, points),
                links == forest_links(self.edges@),
                count == level_count,
                forall|e: int| 0 <= e < self.edges@.len() ==> (#[trigger] self.edges@[e]).first_level < count
                    && self.edges@[e].second_level < count,
                source < count,
                target < count,
                visited@.len() == count,
                parent_edge@.len() == count,
                next <= queue@.len(),
                queue@.len() >= 1,
                queue@[0] == source,
                forall|i: int| 0 <= i < queue@.len() ==> #[trigger] queue@[i] < count,
                forall|i: int, j: int| 0 <= i < j < queue@.len() ==> #[trigger] queue@[i] != #[trigger] queue@[j],
                forall|x: int| 0 <= x < count ==> (#[trigger] visited@[x] <==> queue@.contains(x as usize)),
                forall|x: int|
                    0 <= x < count && #[trigger] visited@[x] && x != source ==> tree_link(
                        self.edges@,
                        queue@,
                        parent_edge@,
                        x,
                    ),
                forall|i: int, k: int|
                    0 <= i < next && 0 <= k < self.edges@.len() && #[trigger] queue@[i] as int == #[trigger] self.edges@[k].first_level
                        ==> visited@[self.edges@[k].second_level as int],
                forall|i: int, k: int|
                    0 <= i < next && 0 <= k < self.edges@.len() && #[trigger] queue@[i] as int == #[trigger] self.edges@[k].second_level
                        ==> visited@[self.edges@[k].first_level as int],
            decreases count_false(visited@), queue@.len() - next,
        {
            let node = queue[next];
            let ghost false_before = count_false(visited@);
            proof {
                lemma_count_false_bound(visited@);
            }
            let ghost queue_before = queue@;
            let mut pushed: usize = 0;
            let mut k: usize = 0;
            while k < self.edges.len()
                invariant
                    self.wf(level_count, levels, points),
                    links == forest_links(self.edges@),
                    count == level_count,
                    forall|e: int| 0 <= e < self.edges@.len() ==> (#[trigger] self.edges@[e]).first_level < count
                        && self.edges@[e].second_level < count,
                    source < count,
                    target < count,
                    visited@.len() == count,
                    parent_edge@.len() == count,
                    next < queue_before.len(),
                    node == queue_before[next as int],
                    false_before <= count,
                    k <= self.edges@.len(),
                    queue@.len() == queue_before.len() + pushed,
                    count_false(visited@) + pushed == false_before,
                    forall|i: int| 0 <= i < queue_before.len() ==> #[trigger] queue@[i] == queue_before[i],
                    queue@[0] == source,
                    forall|i: int| 0 <= i < queue@.len() ==> #[trigger] queue@[i] < count,
                    forall|i: int, j: int| 0 <= i < j < queue@.len() ==> #[trigger] queue@[i] != #[trigger] queue@[j],
                    forall|x: int| 0 <= x < count ==> (#[trigger] visited@[x] <==> queue@.contains(x as usize)),
                    forall|x: int|
                        0 <= x < count && #[trigger] visited@[x] && x != source ==> tree_link(
                            self.edges@,
                            queue@,
                            parent_edge@,
                            x,
                        ),
                    forall|i: int, e: int|
                        0 <= i < next && 0 <= e < self.edges@.len() && #[trigger] queue@[i] as int == #[trigger] self.edges@[e].first_level
                            ==> visited@[self.edges@[e].second_level as int],
                    forall|i: int, e: int|
                        0 <= i < next && 0 <= e < self.edges@.len() && #[trigger] queue@[i] as int == #[trigger] self.edges@[e].second_level
                            ==> visited@[self.edges@[e].first_level as int],
                    forall|e: int|
                        0 <= e < k && #[trigger] self.edges@[e].first_level == node ==> visited@[self.edges@[e].second_level as int],
                    forall|e: int|
                        0 <= e < k && #[trigger] self.edges@[e].second_level == node ==> visited@[self.edges@[e].first_level as int],
                decreases self.edges@.len() - k,
            {
                let edge = self.edges[k];
                proof {
                    assert(self.edges@[k as int].first_level < count && self.edges@[k as int].second_level < count);
                    assert(queue@[next as int] == queue_before[next as int]);
                    assert(node < count);
                }
                let neighbor = if edge.first_level == node {
                    edge.second_level
                } else if edge.second_level == node {
                    edge.first_level
                } else {
                    node
                };
                if !visited[neighbor] {
                    let ghost prior_queue = queue@;
                    let ghost prior_visited = visited@;
                    proof {
                        lemma_count_false_set(visited@, neighbor as int);
                    }
                    visited.set(neighbor, true);
                    parent_edge.set(neighbor, Some(k));
                    queue.push(neighbor);
                    pushed = pushed + 1;
                    proof {
                        assert(queue@[queue@.len() - 1] == neighbor);
                        assert(queue@[next as int] == node);
                        assert forall|i: int, j: int| 0 <= i < j < queue@.len() implies #[trigger] queue@[i] != #[trigger] queue@[j] by {
                            if j == queue@.len() - 1 {
                                assert(queue@[i] == prior_queue[i]);
                                assert(prior_queue.contains(prior_queue[i]));
                            } else {
                                assert(queue@[i] == prior_queue[i]);
                                assert(queue@[j] == prior_queue[j]);
                            }
                        }
                        assert forall|i: int, e: int|
                            0 <= i < next && 0 <= e < self.edges@.len() && #[trigger] queue@[i] as int == #[trigger] self.edges@[e].first_level
                                implies visited@[self.edges@[e].second_level as int] by {
                            assert(queue@[i] == prior_queue[i]);
                            assert(self.edges@[e].first_level < count && self.edges@[e].second_level < count);
                            assert(prior_visited[self.edges@[e].second_level as int]);
                        }
                        assert forall|i: int, e: int|
                            0 <= i < next && 0 <= e < self.edges@.len() && #[trigger] queue@[i] as int == #[trigger] self.edges@[e].second_level
                                implies visited@[self.edges@[e].first_level as int] by {
                            assert(queue@[i] == prior_queue[i]);
                            assert(self.edges@[e].first_level < count && self.edges@[e].second_level < count);
                            assert(prior_visited[self.edges@[e].first_level as int]);
                        }
                        assert forall|e: int|
                            0 <= e < k + 1 && #[trigger] self.edges@[e].first_level == node implies visited@[self.edges@[e].second_level as int] by {
                            assert(self.edges@[e].first_level < count && self.edges@[e].second_level < count);
                        }
                        assert forall|e: int|
                            0 <= e < k + 1 && #[trigger] self.edges@[e].second_level == node implies visited@[self.edges@[e].first_level as int] by {
                            assert(self.edges@[e].first_level < count && self.edges@[e].second_level < count);
                        }
                        assert forall|x: int| 0 <= x < count implies (#[trigger] visited@[x] <==> queue@.contains(x as usize)) by {
                            if x != neighbor {
                                if prior_queue.contains(x as usize) {
                                    let i = choose|i: int| 0 <= i < prior_queue.len() && prior_queue[i] == x as usize;
                                    assert(queue@[i] == x as usize);
                                }
                                if queue@.contains(x as usize) {
                                    let i = choose|i: int| 0 <= i < queue@.len() && queue@[i] == x as usize;
                                    assert(i < prior_queue.len());
                                    assert(prior_queue[i] == x as usize);
                                }
                            }
                        }
                        assert forall|x: int|
                            0 <= x < count && #[trigger] visited@[x] && x != source implies tree_link(
                                self.edges@,
                                queue@,
                                parent_edge@,
                                x,
                            ) by {
                            if x == neighbor {
                                let j = queue@.len() - 1;
                                assert(parent_edge@[x] == Some(k));
                                assert(queue@[j] == x);
                                assert(next < j);
                                assert(joins(self.edges@[k as int], queue@[next as int] as int, x));
                            } else {
                                assert(tree_link(self.edges@, prior_queue, parent_edge@, x));
                                let e = parent_edge@[x]->0;
                                let (i, j) = choose|i: int, j: int|
                                    0 <= i < j < prior_queue.len() && #[trigger] prior_queue[j] == x && #[trigger] joins(self.edges@[e as int], prior_queue[i] as int, x);
                                assert(queue@[i] == prior_queue[i]);
                                assert(queue@[j] == prior_queue[j]);
                            }
                        }
                    }
                }
                k = k + 1;
            }
            next = next + 1;
        }
        proof {
            if !visited@[target as int] {
                let label = |x: int| if 0 <= x < count && visited@[x] { 1int } else { 0int };
                assert(respects(label, links)) by {
                    assert forall|e: int| 0 <= e < links.len() implies label(#[trigger] links[e].0) == label(links[e].1) by {
                        let edge = self.edges@[e];
                        assert(links[e] == (edge.first_level as int, edge.second_level as int));
                        assert(0 <= links[e].0 < count && 0 <= links[e].1 < count);
                        if visited@[edge.first_level as int] {
                            let i = choose|i: int| 0 <= i < queue@.len() && queue@[i] == edge.first_level;
                            assert(queue@[i] as int == self.edges@[e].first_level);
                        }
                        if visited@[edge.second_level as int] {
                            let i = choose|i: int| 0 <= i < queue@.len() && queue@[i] == edge.second_level;
                            assert(queue@[i] as int == self.edges@[e].second_level);
                        }
                    }
                }
                assert(uf_root(self.parent@, source as int) == uf_root(self.parent@, target as int));
                lemma_root_iff_linked(self.parent@, links, source as int, target as int);
                assert(visited@[source as int]);
            }
        }
        let mut collected: Vec<usize> = Vec::new();
        let ghost mut walked: Seq<usize> = Seq::empty();
        let ghost mut stops: Seq<int> = seq![target as int];
        let mut cursor = target;
        while cursor != source
            invariant
                self.wf(level_count, levels, points),
                count == level_count,
                source < count,
                target < count,
                cursor < count,
                visited@.len() == count,
                parent_edge@.len() == count,
                visited@[cursor as int],
                forall|i: int| 0 <= i < queue@.len() ==> #[trigger] queue@[i] < count,
                forall|i: int, j: int| 0 <= i < j < queue@.len() ==> #[trigger] queue@[i] != #[trigger] queue@[j],
                forall|x: int| 0 <= x < count ==> (#[trigger] visited@[x] <==> queue@.contains(x as usize)),
                forall|x: int|
                    0 <= x < count && #[trigger] visited@[x] && x != source ==> tree_link(
                        self.edges@,
                        queue@,
                        parent_edge@,
                        x,
                    ),
                stops.len() == walked.len() + 1,
                stops[0] == cursor,
                stops.last() == target,
                forall|i: int| 0 <= i < walked.len() ==> #[trigger] walked[i] < self.edges@.len() && joins(
                    self.edges@[walked[i] as int],
                    stops[i],
                    stops[i + 1],
                ),
                collected@.len() == walked.len(),
                forall|i: int| 0 <= i < walked.len() ==> #[trigger] walked[i] == collected@[walked.len() - 1 - i],
                forall|i: int| 0 <= i < stops.len() ==> 0 <= #[trigger] stops[i] < count && queue@.contains(stops[i] as usize),
                forall|i: int, j: int|
                    0 <= i < j < stops.len() ==> queue_position(queue@, #[trigger] stops[i]) < queue_position(
                        queue@,
                        #[trigger] stops[j],
                    ),
            decreases queue_position(queue@, cursor as int),
        {
            proof {
                assert(tree_link(self.edges@, queue@, parent_edge@, cursor as int));
            }
            let edge_index = parent_edge[cursor].unwrap();
            let edge = self.edges[edge_index];
            let previous = if edge.first_level == cursor {
                edge.second_level
            } else {
                edge.first_level
            };
            proof {
                let (i, j) = choose|i: int, j: int|
                    0 <= i < j < queue@.len() && #[trigger] queue@[j] == cursor && #[trigger] joins(self.edges@[edge_index as int], queue@[i] as int, cursor as int);
                assert(queue@[i] == previous);
                lemma_queue_position(queue@, i);
                lemma_queue_position(queue@, j);
                assert(queue@.contains(previous));
                let grown_walked = seq![edge_index] + walked;
                let grown_stops = seq![previous as int] + stops;
                assert(queue_position(queue@, previous as int) == i);
                assert(queue_position(queue@, cursor as int) == j);
                assert forall|a: int| 0 <= a < grown_stops.len() implies 0 <= #[trigger] grown_stops[a] < count
                    && queue@.contains(grown_stops[a] as usize) by {
                    if a > 0 {
                        assert(grown_stops[a] == stops[a - 1]);
                    }
                }
                assert forall|a: int, b: int| 0 <= a < b < grown_stops.len() implies queue_position(
                    queue@,
                    #[trigger] grown_stops[a],
                ) < queue_position(queue@, #[trigger] grown_stops[b]) by {
                    if a == 0 {
                        assert(grown_stops[b] == stops[b - 1]);
                        if b > 1 {
                            assert(queue_position(queue@, stops[0]) < queue_position(queue@, stops[b - 1]));
                        }
                    } else {
                        assert(grown_stops[a] == stops[a - 1]);
                        assert(grown_stops[b] == stops[b - 1]);
                    }
                }
                assert forall|m: int| 0 <= m < grown_walked.len() implies #[trigger] grown_walked[m] < self.edges@.len() && joins(
                    self.edges@[grown_walked[m] as int],
                    grown_stops[m],
                    grown_stops[m + 1],
                ) by {
                    if m > 0 {
                        assert(grown_walked[m] == walked[m - 1]);
                        assert(grown_stops[m] == stops[m - 1]);
                        assert(grown_stops[m + 1] == stops[m]);
                    }
                }
                let before = collected@;
                assert forall|m: int| 0 <= m < grown_walked.len() implies #[trigger] grown_walked[m] == before.push(edge_index)[grown_walked.len() - 1 - m] by {
                    if m > 0 {
                        assert(grown_walked[m] == walked[m - 1]);
                    }
                }
                walked = grown_walked;
                stops = grown_stops;
            }
            collected.push(edge_index);
            cursor = previous;
        }
        let mut route: Vec<usize> = Vec::new();
        let mut index: usize = collected.len();
        while index > 0
            invariant
                index <= collected@.len(),
                collected@.len() == walked.len(),
                route@.len() == collected@.len() - index,
                forall|i: int| 0 <= i < walked.len() ==> #[trigger] walked[i] == collected@[walked.len() - 1 - i],
                forall|i: int| 0 <= i < route@.len() ==> #[trigger] route@[i] == walked[i],
            decreases index,
        {
            index = index - 1;
            route.push(collected[index]);
            proof {
                let i = route@.len() - 1;
                assert(walked[i] == collected@[walked.len() - 1 - i]);
            }
        }
        proof {
            assert(route@ =~= walked);
            if walked.len() == 0 {
                assert(stops[0] == stops.last());
            }
            assert forall|i: int, j: int| 0 <= i < j < stops.len() implies #[trigger] stops[i] != #[trigger] stops[j] by {
                assert(queue_position(queue@, stops[i]) < queue_position(queue@, stops[j]));
            }
        }
        (route, Ghost(stops))
    }
}

/// The position of `node` in a queue.
pub open spec fn queue_position(queue: Seq<usize>, node: int) -> int {
    choose|i: int| 0 <= i < queue.len() && queue[i] == node
}

/// In a queue without repetitions, the entry at `i` has position `i`.
pub proof fn lemma_queue_position(queue: Seq<usize>, i: int)
    requires
        0 <= i < queue.len(),
        forall|a: int, b: int| 0 <= a < b < queue.len() ==> #[trigger] queue[a] != #[trigger] queue[b],
    ensures
        queue_position(queue, queue[i] as int) == i,
{
    let p = queue_position(queue, queue[i] as int);
    assert(queue[i] == queue[i] as int);
    if p < i {
        assert(queue[p] != queue[i]);
    } else if i < p {
        assert(queue[i] != queue[p]);
    }
}

/// Level `x` was discovered along a merging edge from a level that entered
/// the queue before it.
pub open spec fn tree_link(edges: Seq<MembershipEqualityEdge>, queue: Seq<usize>, parent_edge: Seq<Option<usize>>, x: int) -> bool {
    match parent_edge[x] {
        Some(e) => e < edges.len() && exists|i: int, j: int|
            0 <= i < j < queue.len() && #[trigger] queue[j] == x && #[trigger] joins(edges[e as int], queue[i] as int, x),
        None => false,
    }
}

} // verus!
