//! The merging forest of membership equality as a function of the
//! memberships: the pairs of memberships are scanned in order and a pair is
//! kept as an edge when it joins two levels that are not yet equal. The
//! edges form a forest, so two equal levels are joined by exactly one route
//! through it, and the memberships along that route are the equality chain
//! reported as evidence.
use vstd::prelude::*;

use crate::levels::membership::{
    forest_links, joins, route_chain, route_through_forest, MembershipEqualityEdge,
};
use crate::levels::union_find::{linked, respects};

verus! {

/// The edges after considering memberships `first < second`: a new edge
/// when their levels differ, their points agree, and the edges so far do
/// not already make their levels equal.
pub open spec fn merge_step(
    edges: Seq<MembershipEqualityEdge>,
    levels: Seq<usize>,
    points: Seq<Seq<u64>>,
    first: int,
    second: int,
) -> Seq<MembershipEqualityEdge> {
    if levels[first] != levels[second] && points[first] == points[second] && !linked(
        forest_links(edges),
        levels[first] as int,
        levels[second] as int,
    ) {
        edges.push(
            MembershipEqualityEdge {
                first_level: levels[first],
                second_level: levels[second],
                first_membership: first as usize,
                second_membership: second as usize,
            },
        )
    } else {
        edges
    }
}

/// The edges after scanning, in lexicographic order, every pair of
/// memberships `(m1, m2)` with `m1 < m2` that comes before
/// `(first, second)`.
pub open spec fn edges_before(levels: Seq<usize>, points: Seq<Seq<u64>>, first: nat, second: nat) -> Seq<
    MembershipEqualityEdge,
>
    decreases first, second,
{
    if second > first + 1 {
        merge_step(
            edges_before(levels, points, first, (second - 1) as nat),
            levels,
            points,
            first as int,
            second - 1,
        )
    } else if first == 0 {
        Seq::empty()
    } else {
        edges_before(levels, points, (first - 1) as nat, levels.len())
    }
}

/// The merging edges of all pairs of memberships, scanned in order.
pub open spec fn equality_edges(levels: Seq<usize>, points: Seq<Seq<u64>>) -> Seq<MembershipEqualityEdge> {
    edges_before(levels, points, levels.len(), levels.len() + 1)
}

/// Every edge joins two levels that the earlier edges do not make equal.
pub open spec fn forest_acyclic(edges: Seq<MembershipEqualityEdge>) -> bool {
    forall|k: int|
        0 <= k < edges.len() ==> !linked(
            forest_links(edges.take(k)),
            (#[trigger] edges[k]).first_level as int,
            edges[k].second_level as int,
        )
}

/// The route through the forest from `source` to `target`, with the levels
/// it passes.
pub open spec fn forest_route(edges: Seq<MembershipEqualityEdge>, source: int, target: int) -> (Seq<usize>, Seq<int>) {
    choose|route: (Seq<usize>, Seq<int>)| route_through_forest(edges, route.0, route.1, source, target)
}

/// The equality chain from level `source` to level `target`: the
/// memberships met along the route between them through the merging
/// forest.
pub open spec fn equality_chain(levels: Seq<usize>, points: Seq<Seq<u64>>, source: int, target: int) -> Seq<usize> {
    let edges = equality_edges(levels, points);
    let route = forest_route(edges, source, target);
    route_chain(edges, route.0, route.1, route.0.len() as int)
}

/// The scanned edges form a forest.
pub proof fn lemma_edges_before_acyclic(levels: Seq<usize>, points: Seq<Seq<u64>>, first: nat, second: nat)
    ensures
        forest_acyclic(edges_before(levels, points, first, second)),
    decreases first, second,
{
    if second > first + 1 {
        let before = edges_before(levels, points, first, (second - 1) as nat);
        lemma_edges_before_acyclic(levels, points, first, (second - 1) as nat);
        let after = merge_step(before, levels, points, first as int, second - 1);
        if after != before {
            assert forall|k: int| 0 <= k < after.len() implies !linked(
                forest_links(after.take(k)),
                (#[trigger] after[k]).first_level as int,
                after[k].second_level as int,
            ) by {
                if k < before.len() {
                    assert(after.take(k) =~= before.take(k));
                    assert(after[k] == before[k]);
                } else {
                    assert(after.take(k) =~= before);
                }
            }
        }
    } else if first > 0 {
        lemma_edges_before_acyclic(levels, points, (first - 1) as nat, levels.len());
    }
}

/// Linked levels are linked the other way round.
proof fn lemma_linked_symmetric(links: Seq<(int, int)>, x: int, y: int)
    requires
        linked(links, x, y),
    ensures
        linked(links, y, x),
{
    assert forall|label: spec_fn(int) -> int| #[trigger] respects(label, links) implies label(y) == label(x) by {}
}

/// Linking is transitive.
proof fn lemma_linked_transitive(links: Seq<(int, int)>, x: int, y: int, z: int)
    requires
        linked(links, x, y),
        linked(links, y, z),
    ensures
        linked(links, x, z),
{
    assert forall|label: spec_fn(int) -> int| #[trigger] respects(label, links) implies label(x) == label(z) by {
        assert(label(x) == label(y));
    }
}

/// A labelling that respects the edges labels every stop of a route alike.
proof fn lemma_route_labels(
    edges: Seq<MembershipEqualityEdge>,
    route: Seq<usize>,
    stops: Seq<int>,
    label: spec_fn(int) -> int,
    count: int,
)
    requires
        stops.len() == route.len() + 1,
        forall|i: int| 0 <= i < route.len() ==> #[trigger] route[i] < edges.len() && joins(edges[route[i] as int], stops[i], stops[i + 1]),
        respects(label, forest_links(edges)),
        0 <= count <= route.len(),
    ensures
        label(stops[0]) == label(stops[count]),
    decreases count,
{
    if count > 0 {
        lemma_route_labels(edges, route, stops, label, count - 1);
        let k = route[count - 1] as int;
        assert(route[count - 1] < edges.len());
        assert(forest_links(edges)[k] == (edges[k].first_level as int, edges[k].second_level as int));
        assert(label(forest_links(edges)[k].0) == label(forest_links(edges)[k].1));
    }
}

/// The ends of a route are linked by the edges.
proof fn lemma_route_linked(
    edges: Seq<MembershipEqualityEdge>,
    route: Seq<usize>,
    stops: Seq<int>,
    source: int,
    target: int,
)
    requires
        route_through_forest(edges, route, stops, source, target),
    ensures
        linked(forest_links(edges), source, target),
{
    assert forall|label: spec_fn(int) -> int| #[trigger] respects(label, forest_links(edges)) implies label(source)
        == label(target) by {
        lemma_route_labels(edges, route, stops, label, route.len() as int);
    }
}

/// A route through the forest passes the last edge at most at one step.
proof fn lemma_last_edge_once(
    edges: Seq<MembershipEqualityEdge>,
    route: Seq<usize>,
    stops: Seq<int>,
    source: int,
    target: int,
    i: int,
    j: int,
)
    requires
        route_through_forest(edges, route, stops, source, target),
        0 <= i < route.len(),
        0 <= j < route.len(),
        route[i] == route[j],
    ensures
        i == j,
{
    let e = edges[route[i] as int];
    assert(joins(e, stops[i], stops[i + 1]));
    assert(joins(e, stops[j], stops[j + 1]));
    if i != j {
        if stops[i] == stops[j] {
            assert(false);
        } else {
            assert(stops[i] == stops[j + 1] && stops[i + 1] == stops[j]);
            assert(i == j + 1) by {
                if i != j + 1 {
                    assert(stops[i] != stops[j + 1]);
                }
            }
            assert(stops[i + 1] != stops[j]);
        }
    }
}

/// A route that never takes the last edge is a route through the earlier
/// edges.
proof fn lemma_route_avoiding(
    edges: Seq<MembershipEqualityEdge>,
    route: Seq<usize>,
    stops: Seq<int>,
    source: int,
    target: int,
)
    requires
        edges.len() > 0,
        route_through_forest(edges, route, stops, source, target),
        forall|i: int| 0 <= i < route.len() ==> route[i] != edges.len() - 1,
    ensures
        route_through_forest(edges.drop_last(), route, stops, source, target),
{
    let prior = edges.drop_last();
    assert forall|i: int| 0 <= i < route.len() implies #[trigger] route[i] < prior.len() && joins(
        prior[route[i] as int],
        stops[i],
        stops[i + 1],
    ) by {
        assert(route[i] < edges.len() && route[i] != edges.len() - 1);
        assert(prior[route[i] as int] == edges[route[i] as int]);
    }
}

/// A route that takes the last edge at step `i` splits into a route through
/// the earlier edges up to that step and one after it.
proof fn lemma_route_split(
    edges: Seq<MembershipEqualityEdge>,
    route: Seq<usize>,
    stops: Seq<int>,
    source: int,
    target: int,
    i: int,
)
    requires
        edges.len() > 0,
        route_through_forest(edges, route, stops, source, target),
        0 <= i < route.len(),
        route[i] == edges.len() - 1,
    ensures
        route_through_forest(edges.drop_last(), route.take(i), stops.take(i + 1), source, stops[i]),
        route_through_forest(edges.drop_last(), route.skip(i + 1), stops.skip(i + 1), stops[i + 1], target),
        joins(edges.last(), stops[i], stops[i + 1]),
{
    let head = route.take(i);
    let head_stops = stops.take(i + 1);
    let tail = route.skip(i + 1);
    let tail_stops = stops.skip(i + 1);
    assert forall|j: int| 0 <= j < head.len() implies route[j] != edges.len() - 1 by {
        if route[j] == edges.len() - 1 {
            lemma_last_edge_once(edges, route, stops, source, target, i, j);
        }
    }
    assert(route_through_forest(edges, head, head_stops, source, stops[i])) by {
        assert forall|j: int| 0 <= j < head.len() implies #[trigger] head[j] < edges.len() && joins(
            edges[head[j] as int],
            head_stops[j],
            head_stops[j + 1],
        ) by {
            assert(head[j] == route[j]);
        }
        assert forall|a: int, b: int| 0 <= a < b < head_stops.len() implies #[trigger] head_stops[a]
            != #[trigger] head_stops[b] by {
            assert(head_stops[a] == stops[a] && head_stops[b] == stops[b]);
        }
    }
    assert forall|j: int| 0 <= j < head.len() implies head[j] != edges.len() - 1 by {
        assert(head[j] == route[j]);
    }
    lemma_route_avoiding(edges, head, head_stops, source, stops[i]);
    assert(route_through_forest(edges, tail, tail_stops, stops[i + 1], target)) by {
        assert forall|j: int| 0 <= j < tail.len() implies #[trigger] tail[j] < edges.len() && joins(
            edges[tail[j] as int],
            tail_stops[j],
            tail_stops[j + 1],
        ) by {
            assert(tail[j] == route[j + i + 1]);
            assert(tail_stops[j] == stops[j + i + 1]);
            assert(tail_stops[j + 1] == stops[j + i + 2]);
        }
        assert forall|a: int, b: int| 0 <= a < b < tail_stops.len() implies #[trigger] tail_stops[a]
            != #[trigger] tail_stops[b] by {
            assert(tail_stops[a] == stops[a + i + 1] && tail_stops[b] == stops[b + i + 1]);
        }
    }
    assert forall|j: int| 0 <= j < tail.len() implies tail[j] != edges.len() - 1 by {
        assert(tail[j] == route[j + i + 1]);
        if route[j + i + 1] == edges.len() - 1 {
            lemma_last_edge_once(edges, route, stops, source, target, i, j + i + 1);
        }
    }
    lemma_route_avoiding(edges, tail, tail_stops, stops[i + 1], target);
}

/// In a forest two levels are joined by at most one route.
pub proof fn lemma_forest_route_unique(
    edges: Seq<MembershipEqualityEdge>,
    route: Seq<usize>,
    stops: Seq<int>,
    other_route: Seq<usize>,
    other_stops: Seq<int>,
    source: int,
    target: int,
)
    requires
        forest_acyclic(edges),
        route_through_forest(edges, route, stops, source, target),
        route_through_forest(edges, other_route, other_stops, source, target),
    ensures
        route == other_route,
        stops == other_stops,
    decreases edges.len(),
{
    if source == target {
        if stops.len() > 1 {
            assert(stops[0] != stops[stops.len() - 1]);
        }
        if other_stops.len() > 1 {
            assert(other_stops[0] != other_stops[other_stops.len() - 1]);
        }
        assert(route =~= other_route);
        assert(stops =~= other_stops);
    } else if edges.len() == 0 {
        assert(route.len() >= 1);
        assert(route[0] < edges.len());
    } else {
        let n = edges.len() as int;
        let prior = edges.drop_last();
        let e = edges[n - 1];
        assert(edges.take(n - 1) =~= prior);
        assert(!linked(forest_links(prior), e.first_level as int, e.second_level as int));
        assert(forest_acyclic(prior)) by {
            assert forall|k: int| 0 <= k < prior.len() implies !linked(
                forest_links(prior.take(k)),
                (#[trigger] prior[k]).first_level as int,
                prior[k].second_level as int,
            ) by {
                assert(prior.take(k) =~= edges.take(k));
                assert(prior[k] == edges[k]);
            }
        }
        let uses = exists|i: int| 0 <= i < route.len() && route[i] == n - 1;
        let other_uses = exists|i: int| 0 <= i < other_route.len() && other_route[i] == n - 1;
        if !uses && !other_uses {
            lemma_route_avoiding(edges, route, stops, source, target);
            lemma_route_avoiding(edges, other_route, other_stops, source, target);
            lemma_forest_route_unique(prior, route, stops, other_route, other_stops, source, target);
        } else if uses && other_uses {
            let i = choose|i: int| 0 <= i < route.len() && route[i] == n - 1;
            let j = choose|j: int| 0 <= j < other_route.len() && other_route[j] == n - 1;
            lemma_route_split(edges, route, stops, source, target, i);
            lemma_route_split(edges, other_route, other_stops, source, target, j);
            lemma_route_linked(prior, route.take(i), stops.take(i + 1), source, stops[i]);
            lemma_route_linked(prior, other_route.take(j), other_stops.take(j + 1), source, other_stops[j]);
            if stops[i] != other_stops[j] {
                lemma_linked_symmetric(forest_links(prior), source, stops[i]);
                lemma_linked_transitive(forest_links(prior), stops[i], source, other_stops[j]);
                if stops[i] == e.first_level {
                    assert(other_stops[j] == e.second_level);
                } else {
                    assert(stops[i] == e.second_level && other_stops[j] == e.first_level);
                    lemma_linked_symmetric(forest_links(prior), stops[i], other_stops[j]);
                }
                assert(false);
            }
            assert(stops[i + 1] == other_stops[j + 1]);
            lemma_forest_route_unique(
                prior,
                route.take(i),
                stops.take(i + 1),
                other_route.take(j),
                other_stops.take(j + 1),
                source,
                stops[i],
            );
            assert(i == j) by {
                assert(route.take(i).len() == other_route.take(j).len());
            }
            lemma_forest_route_unique(
                prior,
                route.skip(i + 1),
                stops.skip(i + 1),
                other_route.skip(j + 1),
                other_stops.skip(j + 1),
                stops[i + 1],
                target,
            );
            assert forall|k: int| 0 <= k < route.len() implies route[k] == other_route[k] by {
                if k < i {
                    assert(route.take(i)[k] == other_route.take(i)[k]);
                } else if k > i {
                    assert(route.skip(i + 1)[k - i - 1] == other_route.skip(i + 1)[k - i - 1]);
                }
            }
            assert(route.len() == other_route.len()) by {
                assert(route.skip(i + 1).len() == other_route.skip(i + 1).len());
            }
            assert(route =~= other_route);
            assert forall|k: int| 0 <= k < stops.len() implies stops[k] == other_stops[k] by {
                if k <= i {
                    assert(stops.take(i + 1)[k] == other_stops.take(i + 1)[k]);
                } else {
                    assert(stops.skip(i + 1)[k - i - 1] == other_stops.skip(i + 1)[k - i - 1]);
                }
            }
            assert(stops =~= other_stops);
        } else {
            let (used_route, used_stops, free_route, free_stops) = if uses {
                (route, stops, other_route, other_stops)
            } else {
                (other_route, other_stops, route, stops)
            };
            let i = choose|i: int| 0 <= i < used_route.len() && used_route[i] == n - 1;
            assert forall|k: int| 0 <= k < free_route.len() implies free_route[k] != n - 1 by {}
            lemma_route_avoiding(edges, free_route, free_stops, source, target);
            lemma_route_linked(prior, free_route, free_stops, source, target);
            lemma_route_split(edges, used_route, used_stops, source, target, i);
            lemma_route_linked(prior, used_route.take(i), used_stops.take(i + 1), source, used_stops[i]);
            lemma_route_linked(prior, used_route.skip(i + 1), used_stops.skip(i + 1), used_stops[i + 1], target);
            let links = forest_links(prior);
            lemma_linked_symmetric(links, source, used_stops[i]);
            lemma_linked_transitive(links, used_stops[i], source, target);
            lemma_linked_symmetric(links, used_stops[i + 1], target);
            lemma_linked_transitive(links, used_stops[i], target, used_stops[i + 1]);
            if used_stops[i] != e.first_level {
                lemma_linked_symmetric(links, used_stops[i], used_stops[i + 1]);
            }
            assert(false);
        }
    }
}

/// The route between two levels joined by a route through the forest is
/// the one `forest_route` names.
pub proof fn lemma_forest_route_named(
    edges: Seq<MembershipEqualityEdge>,
    route: Seq<usize>,
    stops: Seq<int>,
    source: int,
    target: int,
)
    requires
        forest_acyclic(edges),
        route_through_forest(edges, route, stops, source, target),
    ensures
        forest_route(edges, source, target) == (route, stops),
{
    let named = forest_route(edges, source, target);
    assert(route_through_forest(edges, (route, stops).0, (route, stops).1, source, target));
    lemma_forest_route_unique(edges, route, stops, named.0, named.1, source, target);
}

} // verus!
