//! The directed graph of minimum-gap order edges between levels: paths,
//! reachability, and reachability through at least one positive gap.
use vstd::prelude::*;

verus! {

/// Every edge joins two nodes below `count`.
pub open spec fn edges_in_range(edges: Seq<(usize, usize)>, count: nat) -> bool {
    forall|k: int| 0 <= k < edges.len() ==> (#[trigger] edges[k]).0 < count && edges[k].1 < count
}

/// `path` lists edge indices that lead, one after the other, from `from` to
/// `to`; the empty path leads from a node to itself.
pub open spec fn is_edge_path(edges: Seq<(usize, usize)>, path: Seq<int>, from: int, to: int) -> bool {
    &&& forall|i: int| 0 <= i < path.len() ==> 0 <= #[trigger] path[i] < edges.len()
    &&& path.len() == 0 ==> from == to
    &&& path.len() > 0 ==> edges[path[0]].0 == from && edges[path.last()].1 == to
    &&& forall|i: int, j: int|
        0 <= i && j == i + 1 && j < path.len() ==> edges[#[trigger] path[i]].1 == edges[#[trigger] path[j]].0
}

/// Whether some path leads from `from` to `to`.
pub open spec fn reaches(edges: Seq<(usize, usize)>, from: int, to: int) -> bool {
    exists|path: Seq<int>| #[trigger] is_edge_path(edges, path, from, to)
}

/// Whether the path uses at least one edge with a positive minimum gap.
pub open spec fn has_positive_edge(positive: Seq<bool>, path: Seq<int>) -> bool {
    exists|i: int| 0 <= i < path.len() && #[trigger] positive[path[i]]
}

/// Whether some path from `from` to `to` uses a positive minimum gap.
pub open spec fn positively_reaches(
    edges: Seq<(usize, usize)>,
    positive: Seq<bool>,
    from: int,
    to: int,
) -> bool {
    exists|path: Seq<int>| #[trigger] is_edge_path(edges, path, from, to) && has_positive_edge(positive, path)
}

/// Appending an edge that starts where a path ends extends the path.
pub proof fn lemma_path_push(edges: Seq<(usize, usize)>, path: Seq<int>, from: int, to: int, edge: int)
    requires
        is_edge_path(edges, path, from, to),
        0 <= edge < edges.len(),
        edges[edge].0 == to,
    ensures
        is_edge_path(edges, path.push(edge), from, edges[edge].1 as int),
{
    let longer = path.push(edge);
    assert forall|i: int, j: int|
        0 <= i && j == i + 1 && j < longer.len() implies edges[#[trigger] longer[i]].1 == edges[#[trigger] longer[j]].0 by {
        if j < path.len() {
            assert(longer[i] == path[i]);
            assert(longer[j] == path[j]);
        } else {
            assert(longer[i] == path.last());
        }
    }
    if path.len() > 0 {
        assert(longer[0] == path[0]);
    }
}

/// A path between in-range nodes ends at a node in range.
pub proof fn lemma_path_end_in_range(edges: Seq<(usize, usize)>, count: nat, path: Seq<int>, from: int, to: int)
    requires
        is_edge_path(edges, path, from, to),
        edges_in_range(edges, count),
        0 <= from < count,
    ensures
        0 <= to < count,
{
    if path.len() > 0 {
        assert(0 <= path[path.len() - 1] < edges.len());
        assert(edges[path.last()].1 < count);
    }
}

/// The empty path leads from a node to itself.
pub proof fn lemma_empty_path(edges: Seq<(usize, usize)>, node: int)
    ensures
        is_edge_path(edges, Seq::<int>::empty(), node, node),
{
}

/// A set of nodes that contains `from` and is closed under edges contains
/// every node that a path from `from` reaches.
pub proof fn lemma_closed_contains_path(
    edges: Seq<(usize, usize)>,
    members: Seq<bool>,
    path: Seq<int>,
    from: int,
    to: int,
)
    requires
        is_edge_path(edges, path, from, to),
        edges_in_range(edges, members.len()),
        0 <= from < members.len(),
        members[from],
        forall|k: int| 0 <= k < edges.len() && #[trigger] members[edges[k].0 as int] ==> members[edges[k].1 as int],
    ensures
        0 <= to < members.len(),
        members[to],
    decreases path.len(),
{
    if path.len() > 0 {
        let shorter = path.drop_last();
        let last = path.last();
        let middle = edges[last].0 as int;
        assert(is_edge_path(edges, shorter, from, middle)) by {
            if shorter.len() > 0 {
                assert(shorter[0] == path[0]);
                let j = path.len() - 1;
                assert(edges[path[j - 1]].1 == edges[path[j]].0);
            }
            assert forall|i: int, j: int|
                0 <= i && j == i + 1 && j < shorter.len() implies edges[#[trigger] shorter[i]].1 == edges[#[trigger] shorter[j]].0 by {
                assert(shorter[i] == path[i]);
                assert(shorter[j] == path[j]);
            }
        }
        lemma_closed_contains_path(edges, members, shorter, from, middle);
        assert(members[edges[last].0 as int]);
    }
}

/// Number of `false` entries.
pub open spec fn count_false(flags: Seq<bool>) -> nat
    decreases flags.len(),
{
    if flags.len() == 0 {
        0
    } else {
        count_false(flags.drop_last()) + if flags.last() {
            0nat
        } else {
            1nat
        }
    }
}

/// There are no more `false` entries than entries.
pub proof fn lemma_count_false_bound(flags: Seq<bool>)
    ensures
        count_false(flags) <= flags.len(),
    decreases flags.len(),
{
    if flags.len() > 0 {
        lemma_count_false_bound(flags.drop_last());
    }
}

/// Setting a `false` entry to `true` removes one `false` entry.
pub proof fn lemma_count_false_set(flags: Seq<bool>, index: int)
    requires
        0 <= index < flags.len(),
        !flags[index],
    ensures
        count_false(flags.update(index, true)) + 1 == count_false(flags),
    decreases flags.len(),
{
    let updated = flags.update(index, true);
    if index < flags.len() - 1 {
        assert(updated.drop_last() =~= flags.drop_last().update(index, true));
        lemma_count_false_set(flags.drop_last(), index);
    } else {
        assert(updated.drop_last() =~= flags.drop_last());
    }
}

/// Depth-first search: whether a path of order edges leads from `start` to
/// `target`. The two work buffers are reused and hold no meaning afterwards.
pub fn path_exists(
    start: usize,
    target: usize,
    order_indices: &Vec<(usize, usize)>,
    visited: &mut Vec<bool>,
    stack: &mut Vec<usize>,
) -> (found: bool)
    requires
        start < old(visited)@.len(),
        edges_in_range(order_indices@, old(visited)@.len() as nat),
    ensures
        found == reaches(order_indices@, start as int, target as int),
        final(visited)@.len() == old(visited)@.len(),
{
    let ghost edges = order_indices@;
    let count = visited.len();
    let mut clear: usize = 0;
    while clear < count
        invariant
            visited@.len() == count,
            clear <= count,
            forall|i: int| 0 <= i < clear ==> !#[trigger] visited@[i],
        decreases count - clear,
    {
        visited.set(clear, false);
        clear = clear + 1;
    }
    stack.clear();
    visited.set(start, true);
    stack.push(start);
    proof {
        lemma_empty_path(edges, start as int);
        assert(stack@[0] == start);
        assert(stack@.contains(start));
        assert forall|v: int| 0 <= v < count && #[trigger] visited@[v] implies v == start by {
            if v != start {
                assert(!visited@[v]);
            }
        }
    }
    while stack.len() > 0
        invariant
            count == old(visited)@.len(),
            edges == order_indices@,
            visited@.len() == count,
            start < count,
            edges_in_range(edges, count as nat),
            visited@[start as int],
            forall|i: int| 0 <= i < stack@.len() ==> #[trigger] stack@[i] < count && visited@[stack@[i] as int],
            forall|v: int| 0 <= v < count && #[trigger] visited@[v] ==> reaches(edges, start as int, v),
            forall|v: int|
                0 <= v < count && #[trigger] visited@[v] && !stack@.contains(v as usize) ==> v != target
                    && forall|k: int| 0 <= k < edges.len() && edges[k].0 == v ==> visited@[edges[k].1 as int],
        decreases count_false(visited@), stack@.len(),
    {
        let ghost unvisited_before = count_false(visited@);
        let ghost stack_before = stack@.len();
        let ghost top = stack@;
        let node = stack.pop().unwrap();
        if node == target {
            return true;
        }
        let ghost before = visited@;
        let ghost popped = stack@;
        let mut pushed: usize = 0;
        let mut index: usize = 0;
        while index < order_indices.len()
            invariant
                edges == order_indices@,
                visited@.len() == count,
                start < count,
                node < count,
                node != target,
                visited@[node as int],
                edges_in_range(edges, count as nat),
                index <= edges.len(),
                visited@[start as int],
                forall|i: int| 0 <= i < stack@.len() ==> #[trigger] stack@[i] < count && visited@[stack@[i] as int],
                forall|v: int| 0 <= v < count && #[trigger] visited@[v] ==> reaches(edges, start as int, v),
                forall|k: int| 0 <= k < index && edges[k].0 == node ==> #[trigger] visited@[edges[k].1 as int],
                before.len() == count,
                forall|v: int| 0 <= v < count && #[trigger] before[v] ==> visited@[v],
                forall|v: int| 0 <= v < count && #[trigger] visited@[v] && !before[v] ==> stack@.contains(v as usize),
                pushed <= index,
                count_false(visited@) + pushed == unvisited_before,
                stack@.len() == popped.len() + pushed,
                stack@.len() + 1 == stack_before + pushed,
                forall|i: int| 0 <= i < popped.len() ==> #[trigger] stack@[i] == popped[i],
            decreases edges.len() - index,
        {
            let (lower, upper) = order_indices[index];
            if lower == node && !visited[upper] {
                proof {
                    let path = choose|path: Seq<int>| is_edge_path(edges, path, start as int, node as int);
                    lemma_path_push(edges, path, start as int, node as int, index as int);
                    lemma_count_false_set(visited@, upper as int);
                }
                let ghost stack_prior = stack@;
                visited.set(upper, true);
                stack.push(upper);
                pushed = pushed + 1;
                proof {
                    assert(stack@.last() == upper);
                    assert forall|v: int| 0 <= v < count && #[trigger] visited@[v] && !before[v] implies stack@.contains(v as usize) by {
                        if v != upper {
                            let i = choose|i: int| 0 <= i < stack_prior.len() && stack_prior[i] == v as usize;
                            assert(stack@[i] == v as usize);
                        } else {
                            assert(stack@[stack@.len() - 1] == upper);
                        }
                    }
                }
            }
            index = index + 1;
        }
        proof {
            assert forall|v: int|
                0 <= v < count && #[trigger] visited@[v] && !stack@.contains(v as usize) implies v != target
                    && forall|k: int| 0 <= k < edges.len() && edges[k].0 == v ==> visited@[edges[k].1 as int] by {
                if v != node {
                    assert(before[v]);
                    if popped.contains(v as usize) {
                        let i = choose|i: int| 0 <= i < popped.len() && popped[i] == v as usize;
                        assert(stack@[i] == v as usize);
                    }
                    assert(top == popped.push(node));
                    if top.contains(v as usize) {
                        let i = choose|i: int| 0 <= i < top.len() && top[i] == v as usize;
                        if i < popped.len() {
                            assert(popped[i] == v as usize);
                        }
                    }
                    assert(!top.contains(v as usize));
                    assert forall|k: int| 0 <= k < edges.len() && edges[k].0 == v implies visited@[edges[k].1 as int] by {
                        assert(before[edges[k].1 as int]);
                    }
                }
            }
        }
    }
    proof {
        assert forall|k: int| 0 <= k < edges.len() && #[trigger] visited@[edges[k].0 as int] implies visited@[edges[k].1 as int] by {
            assert(!stack@.contains(edges[k].0));
        }
        if reaches(edges, start as int, target as int) {
            let path = choose|path: Seq<int>| is_edge_path(edges, path, start as int, target as int);
            lemma_closed_contains_path(edges, visited@, path, start as int, target as int);
            assert(!stack@.contains(target));
        }
    }
    false
}


/// Whether `node` can come next after `done`: it is not yet placed and every
/// edge into it starts at a placed node.
pub open spec fn ready(edges: Seq<(usize, usize)>, done: Seq<usize>, node: int) -> bool {
    &&& !done.contains(node as usize)
    &&& forall|k: int| 0 <= k < edges.len() && #[trigger] edges[k].1 == node ==> done.contains(edges[k].0)
}

/// Whether `order` was produced by always placing the smallest ready node.
pub open spec fn smallest_ready_chain(edges: Seq<(usize, usize)>, count: nat, order: Seq<usize>) -> bool {
    forall|k: int|
        0 <= k < order.len() ==> #[trigger] order[k] < count && ready(edges, order.take(k), order[k] as int)
            && forall|w: int| 0 <= w < order[k] ==> !ready(edges, order.take(k), w)
}

/// Whether no node below `count` is ready after `done`.
pub open spec fn stuck(edges: Seq<(usize, usize)>, count: nat, done: Seq<usize>) -> bool {
    forall|w: int| 0 <= w < count ==> !#[trigger] ready(edges, done, w)
}

/// Whether `order` lists every node below `count` once, each edge's lower
/// node before its upper node.
pub open spec fn is_topological(edges: Seq<(usize, usize)>, count: nat, order: Seq<usize>) -> bool {
    &&& order.len() == count
    &&& forall|i: int| 0 <= i < order.len() ==> #[trigger] order[i] < count
    &&& forall|i: int, j: int| 0 <= i < j < order.len() ==> #[trigger] order[i] != #[trigger] order[j]
    &&& forall|k: int| 0 <= k < edges.len() ==> placed_before(order, #[trigger] edges[k])
}

/// Whether the lower node of `edge` is listed before its upper node.
pub open spec fn placed_before(order: Seq<usize>, edge: (usize, usize)) -> bool {
    exists|i: int, j: int| 0 <= i < j < order.len() && #[trigger] order[i] == edge.0 && #[trigger] order[j] == edge.1
}

/// Whether the order edges admit a topological order, i.e. form no cycle.
pub open spec fn acyclic(edges: Seq<(usize, usize)>, count: nat) -> bool {
    exists|order: Seq<usize>| #[trigger] is_topological(edges, count, order)
}

/// Whether edge `k` lies on a cycle among the nodes not in `done`: both its
/// ends are outside `done` and its upper node reaches its lower node.
pub open spec fn unresolved_cycle_edge(edges: Seq<(usize, usize)>, done: Seq<usize>, k: int) -> bool {
    &&& !done.contains(edges[k].0)
    &&& !done.contains(edges[k].1)
    &&& reaches(edges, edges[k].1 as int, edges[k].0 as int)
}

/// Indices, in increasing order, of the first `m` edges that lie on an
/// unresolved cycle.
pub open spec fn unresolved_cycle_edges(edges: Seq<(usize, usize)>, done: Seq<usize>, m: int) -> Seq<usize>
    decreases m,
{
    if m <= 0 {
        Seq::<usize>::empty()
    } else if unresolved_cycle_edge(edges, done, m - 1) {
        unresolved_cycle_edges(edges, done, m - 1).push((m - 1) as usize)
    } else {
        unresolved_cycle_edges(edges, done, m - 1)
    }
}

/// Every listed unresolved edge is one of the first `m` edges.
pub proof fn lemma_unresolved_cycle_edges_bound(edges: Seq<(usize, usize)>, done: Seq<usize>, m: int)
    ensures
        forall|i: int| 0 <= i < unresolved_cycle_edges(edges, done, m).len() ==> #[trigger] unresolved_cycle_edges(edges, done, m)[i] < m,
    decreases m,
{
    if m > 0 {
        lemma_unresolved_cycle_edges_bound(edges, done, m - 1);
        let previous = unresolved_cycle_edges(edges, done, m - 1);
        let current = unresolved_cycle_edges(edges, done, m);
        assert forall|i: int| 0 <= i < current.len() implies #[trigger] current[i] < m by {
            if i < previous.len() {
                assert(previous[i] < m - 1);
                if unresolved_cycle_edge(edges, done, m - 1) {
                    assert(current[i] == previous[i]);
                } else {
                    assert(current[i] == previous[i]);
                }
            }
        }
    }
}

/// Number of the first `m` edges into `node` whose lower node is not placed.
pub open spec fn pending_into(edges: Seq<(usize, usize)>, placed: Seq<bool>, node: int, m: int) -> nat
    decreases m,
{
    if m <= 0 {
        0
    } else {
        pending_into(edges, placed, node, m - 1) + if edges[m - 1].1 == node && !placed[edges[m - 1].0 as int] {
            1nat
        } else {
            0nat
        }
    }
}

/// Number of the first `m` edges from `from` into `node`.
pub open spec fn edges_between(edges: Seq<(usize, usize)>, from: int, node: int, m: int) -> nat
    decreases m,
{
    if m <= 0 {
        0
    } else {
        edges_between(edges, from, node, m - 1) + if edges[m - 1].0 == from && edges[m - 1].1 == node {
            1nat
        } else {
            0nat
        }
    }
}

/// No edge into `node` is pending exactly when every edge into it starts at
/// a placed node.
pub proof fn lemma_pending_zero(edges: Seq<(usize, usize)>, placed: Seq<bool>, node: int, m: int)
    requires
        0 <= m <= edges.len(),
    ensures
        pending_into(edges, placed, node, m) <= m,
        (pending_into(edges, placed, node, m) == 0) <==> forall|k: int|
            0 <= k < m && #[trigger] edges[k].1 == node ==> placed[edges[k].0 as int],
    decreases m,
{
    if m > 0 {
        lemma_pending_zero(edges, placed, node, m - 1);
    }
}

/// An edge into `node` from an unplaced node, when one is pending.
pub proof fn lemma_pending_witness(edges: Seq<(usize, usize)>, placed: Seq<bool>, node: int, m: int) -> (k: int)
    requires
        0 <= m <= edges.len(),
        pending_into(edges, placed, node, m) > 0,
    ensures
        0 <= k < m,
        edges[k].1 == node,
        !placed[edges[k].0 as int],
    decreases m,
{
    if edges[m - 1].1 == node && !placed[edges[m - 1].0 as int] {
        m - 1
    } else {
        lemma_pending_witness(edges, placed, node, m - 1)
    }
}

/// Placing `from` removes exactly its edges into `node` from the pending ones.
pub proof fn lemma_pending_after_place(
    edges: Seq<(usize, usize)>,
    placed: Seq<bool>,
    from: int,
    node: int,
    m: int,
)
    requires
        0 <= m <= edges.len(),
        0 <= from < placed.len(),
        !placed[from],
        edges_in_range(edges, placed.len()),
    ensures
        edges_between(edges, from, node, m) <= pending_into(edges, placed, node, m),
        pending_into(edges, placed.update(from, true), node, m) + edges_between(edges, from, node, m)
            == pending_into(edges, placed, node, m),
    decreases m,
{
    if m > 0 {
        lemma_pending_after_place(edges, placed, from, node, m - 1);
    }
}

/// A count of `false` entries is zero exactly when every entry is `true`.
pub proof fn lemma_count_false_zero(flags: Seq<bool>)
    ensures
        (count_false(flags) == 0) <==> forall|i: int| 0 <= i < flags.len() ==> #[trigger] flags[i],
    decreases flags.len(),
{
    if flags.len() > 0 {
        lemma_count_false_zero(flags.drop_last());
        if count_false(flags) == 0 {
            assert forall|i: int| 0 <= i < flags.len() implies #[trigger] flags[i] by {
                if i < flags.len() - 1 {
                    assert(flags.drop_last()[i] == flags[i]);
                }
            }
        }
        if forall|i: int| 0 <= i < flags.len() ==> #[trigger] flags[i] {
            assert forall|i: int| 0 <= i < flags.drop_last().len() implies #[trigger] flags.drop_last()[i] by {
                assert(flags[i]);
            }
            assert(flags[flags.len() - 1]);
        }
    }
}

/// A sequence of distinct values below `bound` has at most `bound` entries.
pub proof fn lemma_distinct_bounded_len(values: Seq<usize>, bound: nat)
    requires
        forall|i: int, j: int| 0 <= i < j < values.len() ==> #[trigger] values[i] != #[trigger] values[j],
        forall|i: int| 0 <= i < values.len() ==> #[trigger] values[i] < bound,
    ensures
        values.len() <= bound,
    decreases bound,
{
    if bound == 0 {
        if values.len() > 0 {
            assert(values[0] < bound);
        }
    } else {
        let top = (bound - 1) as usize;
        if values.contains(top) {
            let j = choose|j: int| 0 <= j < values.len() && values[j] == top;
            let rest = values.remove(j);
            assert forall|a: int, b: int| 0 <= a < b < rest.len() implies #[trigger] rest[a] != #[trigger] rest[b] by {
                let a0 = if a < j { a } else { a + 1 };
                let b0 = if b < j { b } else { b + 1 };
                assert(rest[a] == values[a0]);
                assert(rest[b] == values[b0]);
                assert(values[a0] != values[b0]);
            }
            assert forall|a: int| 0 <= a < rest.len() implies #[trigger] rest[a] < (bound - 1) as nat by {
                let a0 = if a < j { a } else { a + 1 };
                assert(rest[a] == values[a0]);
                assert(values[a0] != values[j]);
            }
            lemma_distinct_bounded_len(rest, (bound - 1) as nat);
        } else {
            assert forall|a: int| 0 <= a < values.len() implies #[trigger] values[a] < (bound - 1) as nat by {
                assert(values[a] != top);
            }
            lemma_distinct_bounded_len(values, (bound - 1) as nat);
        }
    }
}

/// A topological order lists every node below `count`.
pub proof fn lemma_topological_covers(edges: Seq<(usize, usize)>, count: nat, order: Seq<usize>, node: int)
    requires
        is_topological(edges, count, order),
        0 <= node < count,
    ensures
        order.contains(node as usize),
{
    if !order.contains(node as usize) {
        let longer = order.push(node as usize);
        assert forall|i: int, j: int| 0 <= i < j < longer.len() implies #[trigger] longer[i] != #[trigger] longer[j] by {
            if j < order.len() {
                assert(longer[i] == order[i]);
                assert(longer[j] == order[j]);
            } else {
                assert(longer[i] == order[i]);
                assert(order.contains(order[i]));
            }
        }
        assert forall|i: int| 0 <= i < longer.len() implies #[trigger] longer[i] < count by {
            if i < order.len() {
                assert(longer[i] == order[i]);
            }
        }
        lemma_distinct_bounded_len(longer, count);
    }
}

/// The earliest position of `order` that holds a node outside `done`.
pub proof fn lemma_first_outside(order: Seq<usize>, done: Seq<usize>, start: int) -> (first: int)
    requires
        0 <= start < order.len(),
        !done.contains(order[start]),
    ensures
        0 <= first <= start,
        !done.contains(order[first]),
        forall|l: int| 0 <= l < first ==> done.contains(#[trigger] order[l]),
    decreases start,
{
    if exists|l: int| 0 <= l < start && !done.contains(#[trigger] order[l]) {
        let l = choose|l: int| 0 <= l < start && !done.contains(#[trigger] order[l]);
        lemma_first_outside(order, done, l)
    } else {
        start
    }
}

/// If placing ready nodes gets stuck before every node is placed, the order
/// edges admit no topological order.
pub proof fn lemma_stuck_not_acyclic(edges: Seq<(usize, usize)>, count: nat, done: Seq<usize>, missing: int)
    requires
        stuck(edges, count, done),
        0 <= missing < count,
        !done.contains(missing as usize),
    ensures
        !acyclic(edges, count),
{
    if acyclic(edges, count) {
        let order = choose|order: Seq<usize>| #[trigger] is_topological(edges, count, order);
        lemma_topological_covers(edges, count, order, missing);
        let j = choose|j: int| 0 <= j < order.len() && order[j] == missing as usize;
        let first = lemma_first_outside(order, done, j);
        let node = order[first] as int;
        assert forall|k: int| 0 <= k < edges.len() && #[trigger] edges[k].1 == node implies done.contains(edges[k].0) by {
            assert(placed_before(order, edges[k]));
            let (a, b) = choose|a: int, b: int|
                0 <= a < b < order.len() && #[trigger] order[a] == edges[k].0 && #[trigger] order[b] == edges[k].1;
            if b != first {
                if b < first {
                    assert(order[b] != order[first]);
                } else {
                    assert(order[first] != order[b]);
                }
            }
            assert(done.contains(order[a]));
        }
        assert(ready(edges, done, node));
    }
}

/// Kahn's algorithm that always places the smallest ready node.
///
/// Returns the placement order when the order edges form no cycle, and
/// otherwise the indices, in increasing order, of the edges that lie on a
/// cycle among the nodes that could not be placed.
pub fn topological_order(count: usize, edges: &Vec<(usize, usize)>) -> (result: Result<Vec<usize>, Vec<usize>>)
    requires
        edges_in_range(edges@, count as nat),
    ensures
        result is Ok <==> acyclic(edges@, count as nat),
        result matches Ok(order) ==> is_topological(edges@, count as nat, order@)
            && smallest_ready_chain(edges@, count as nat, order@),
        result matches Err(cycle) ==> exists|done: Seq<usize>|
            #[trigger] smallest_ready_chain(edges@, count as nat, done) && done.len() < count && stuck(
                edges@,
                count as nat,
                done,
            ) && cycle@ == unresolved_cycle_edges(edges@, done, edges@.len() as int),
{
    let ghost graph = edges@;
    let mut placed: Vec<bool> = Vec::new();
    let mut indegree: Vec<usize> = Vec::new();
    let mut fill: usize = 0;
    while fill < count
        invariant
            fill <= count,
            placed@.len() == fill,
            indegree@.len() == fill,
            forall|i: int| 0 <= i < fill ==> !#[trigger] placed@[i],
            forall|i: int| 0 <= i < fill ==> #[trigger] indegree@[i] == 0,
        decreases count - fill,
    {
        placed.push(false);
        indegree.push(0);
        fill = fill + 1;
    }
    let mut index: usize = 0;
    while index < edges.len()
        invariant
            graph == edges@,
            edges_in_range(graph, count as nat),
            index <= graph.len(),
            placed@.len() == count,
            indegree@.len() == count,
            forall|i: int| 0 <= i < count ==> !#[trigger] placed@[i],
            forall|x: int| 0 <= x < count ==> #[trigger] indegree@[x] == pending_into(graph, placed@, x, index as int),
        decreases graph.len() - index,
    {
        let upper = edges[index].1;
        proof {
            lemma_pending_zero(graph, placed@, upper as int, index as int);
        }
        indegree.set(upper, indegree[upper] + 1);
        index = index + 1;
    }
    let mut order: Vec<usize> = Vec::new();
    proof {
        assert forall|i: int| 0 <= i < count implies #[trigger] placed@[i] == order@.contains(i as usize) by {}
        assert(count_false(placed@) == count) by {
            lemma_all_false_count(placed@);
        }
    }
    while order.len() < count
        invariant
            graph == edges@,
            edges_in_range(graph, count as nat),
            placed@.len() == count,
            indegree@.len() == count,
            order@.len() <= count,
            forall|i: int| 0 <= i < count ==> #[trigger] placed@[i] == order@.contains(i as usize),
            forall|i: int| 0 <= i < order@.len() ==> #[trigger] order@[i] < count,
            count_false(placed@) + order@.len() == count,
            forall|x: int| 0 <= x < count ==> #[trigger] indegree@[x] == pending_into(graph, placed@, x, graph.len() as int),
            smallest_ready_chain(graph, count as nat, order@),
        decreases count - order@.len(),
    {
        let next = smallest_unplaced_free(&placed, &indegree);
        match next {
            Some(node) => {
                proof {
                    lemma_pending_zero(graph, placed@, node as int, graph.len() as int);
                    assert(order@.take(order@.len() as int) =~= order@);
                    assert(ready(graph, order@, node as int));
                    assert forall|w: int| 0 <= w < node implies !ready(graph, order@, w) by {
                        lemma_pending_zero(graph, placed@, w, graph.len() as int);
                        if !placed@[w] {
                            assert(placed@[w] || indegree@[w] != 0);
                            assert(indegree@[w] == pending_into(graph, placed@, w, graph.len() as int));
                            let k = lemma_pending_witness(graph, placed@, w, graph.len() as int);
                            assert(!order@.contains(graph[k].0));
                        }
                    }
                    lemma_count_false_set(placed@, node as int);
                }
                let ghost before = placed@;
                let ghost order_before = order@;
                placed.set(node, true);
                order.push(node);
                let mut edge: usize = 0;
                while edge < edges.len()
                    invariant
                        graph == edges@,
                        edges_in_range(graph, count as nat),
                        node < count,
                        !before[node as int],
                        before.len() == count,
                        placed@ == before.update(node as int, true),
                        indegree@.len() == count,
                        edge <= graph.len(),
                        forall|x: int| 0 <= x < count ==> #[trigger] indegree@[x] + edges_between(graph, node as int, x, edge as int)
                            == pending_into(graph, before, x, graph.len() as int),
                    decreases graph.len() - edge,
                {
                    let (lower, upper) = edges[edge];
                    if lower == node {
                        proof {
                            lemma_pending_after_place(graph, before, node as int, upper as int, edge + 1);
                            lemma_pending_after_place(graph, before, node as int, upper as int, graph.len() as int);
                            lemma_edges_between_monotone(graph, node as int, upper as int, edge + 1, graph.len() as int);
                        }
                        indegree.set(upper, indegree[upper] - 1);
                    }
                    edge = edge + 1;
                }
                proof {
                    assert forall|x: int| 0 <= x < count implies #[trigger] indegree@[x] == pending_into(graph, placed@, x, graph.len() as int) by {
                        lemma_pending_after_place(graph, before, node as int, x, graph.len() as int);
                    }
                    assert forall|i: int| 0 <= i < count implies #[trigger] placed@[i] == order@.contains(i as usize) by {
                        if i == node {
                            assert(order@[order@.len() - 1] == node);
                        } else {
                            assert(before[i] == order_before.contains(i as usize));
                            if order_before.contains(i as usize) {
                                let j = choose|j: int| 0 <= j < order_before.len() && order_before[j] == i as usize;
                                assert(order@[j] == i as usize);
                            }
                            if order@.contains(i as usize) {
                                let j = choose|j: int| 0 <= j < order@.len() && order@[j] == i as usize;
                                assert(j < order_before.len());
                                assert(order_before[j] == i as usize);
                            }
                        }
                    }
                    assert forall|k: int| 0 <= k < order@.len() implies #[trigger] order@[k] < count && ready(graph, order@.take(k), order@[k] as int)
                        && forall|w: int| 0 <= w < order@[k] ==> !ready(graph, order@.take(k), w) by {
                        if k < order_before.len() {
                            assert(order@.take(k) =~= order_before.take(k));
                            assert(order@[k] == order_before[k]);
                        } else {
                            assert(order@.take(k) =~= order_before);
                        }
                    }
                }
            },
            None => {
                proof {
                    assert(stuck(graph, count as nat, order@)) by {
                        assert forall|w: int| 0 <= w < count implies !#[trigger] ready(graph, order@, w) by {
                            lemma_pending_zero(graph, placed@, w, graph.len() as int);
                            if !placed@[w] {
                                assert(placed@[w] || indegree@[w] != 0);
                            assert(indegree@[w] == pending_into(graph, placed@, w, graph.len() as int));
                            let k = lemma_pending_witness(graph, placed@, w, graph.len() as int);
                                assert(!order@.contains(graph[k].0));
                            }
                        }
                    }
                    lemma_count_false_zero(placed@);
                    let missing = choose|i: int| 0 <= i < count && !#[trigger] placed@[i];
                    lemma_stuck_not_acyclic(graph, count as nat, order@, missing);
                }
                let cycle = unresolved_edges(count, edges, &placed, Ghost(order@));
                return Err(cycle);
            },
        }
    }
    proof {
        lemma_count_false_zero(placed@);
        assert(is_topological(graph, count as nat, order@)) by {
            assert forall|i: int, j: int| 0 <= i < j < order@.len() implies #[trigger] order@[i] != #[trigger] order@[j] by {
                assert(ready(graph, order@.take(j), order@[j] as int));
                assert(order@.take(j)[i] == order@[i]);
            }
            assert forall|k: int| 0 <= k < graph.len() implies placed_before(order@, #[trigger] graph[k]) by {
                let upper = graph[k].1;
                assert(placed@[upper as int]);
                let j = choose|j: int| 0 <= j < order@.len() && order@[j] == upper;
                assert(ready(graph, order@.take(j), order@[j] as int));
                assert(order@.take(j).contains(graph[k].0));
                let i = choose|i: int| 0 <= i < order@.take(j).len() && order@.take(j)[i] == graph[k].0;
                assert(order@[i] == graph[k].0);
            }
        }
    }
    Ok(order)
}

/// The smallest node that is unplaced and has no pending incoming edge.
fn smallest_unplaced_free(placed: &Vec<bool>, indegree: &Vec<usize>) -> (next: Option<usize>)
    requires
        placed@.len() == indegree@.len(),
    ensures
        next matches Some(n) ==> n < placed@.len() && !placed@[n as int] && indegree@[n as int] == 0
            && forall|w: int| 0 <= w < n ==> placed@[w] || #[trigger] indegree@[w] != 0,
        next is None ==> forall|w: int| 0 <= w < placed@.len() ==> placed@[w] || #[trigger] indegree@[w] != 0,
{
    let mut candidate: usize = 0;
    while candidate < placed.len()
        invariant
            placed@.len() == indegree@.len(),
            candidate <= placed@.len(),
            forall|w: int| 0 <= w < candidate ==> placed@[w] || #[trigger] indegree@[w] != 0,
        decreases placed@.len() - candidate,
    {
        if !placed[candidate] && indegree[candidate] == 0 {
            return Some(candidate);
        }
        candidate = candidate + 1;
    }
    None
}

/// Every entry of an all-`false` sequence counts.
pub proof fn lemma_all_false_count(flags: Seq<bool>)
    requires
        forall|i: int| 0 <= i < flags.len() ==> !#[trigger] flags[i],
    ensures
        count_false(flags) == flags.len(),
    decreases flags.len(),
{
    if flags.len() > 0 {
        assert forall|i: int| 0 <= i < flags.drop_last().len() implies !#[trigger] flags.drop_last()[i] by {
            assert(!flags[i]);
        }
        lemma_all_false_count(flags.drop_last());
    }
}

/// Counting edges over a longer prefix never gives fewer.
pub proof fn lemma_edges_between_monotone(edges: Seq<(usize, usize)>, from: int, node: int, shorter: int, longer: int)
    requires
        0 <= shorter <= longer,
    ensures
        edges_between(edges, from, node, shorter) <= edges_between(edges, from, node, longer),
    decreases longer - shorter,
{
    if shorter < longer {
        lemma_edges_between_monotone(edges, from, node, shorter, longer - 1);
    }
}

/// Collects, in increasing order, the edges whose ends are both unplaced
/// and whose upper node reaches its lower node.
fn unresolved_edges(count: usize, edges: &Vec<(usize, usize)>, placed: &Vec<bool>, Ghost(done): Ghost<Seq<usize>>) -> (cycle: Vec<usize>)
    requires
        edges_in_range(edges@, count as nat),
        placed@.len() == count,
        forall|i: int| 0 <= i < count ==> #[trigger] placed@[i] == done.contains(i as usize),
    ensures
        cycle@ == unresolved_cycle_edges(edges@, done, edges@.len() as int),
{
    let mut cycle: Vec<usize> = Vec::new();
    let mut visited: Vec<bool> = Vec::new();
    let mut fill: usize = 0;
    while fill < count
        invariant
            fill <= count,
            visited@.len() == fill,
        decreases count - fill,
    {
        visited.push(false);
        fill = fill + 1;
    }
    let mut stack: Vec<usize> = Vec::new();
    let mut index: usize = 0;
    while index < edges.len()
        invariant
            edges_in_range(edges@, count as nat),
            placed@.len() == count,
            visited@.len() == count,
            forall|i: int| 0 <= i < count ==> #[trigger] placed@[i] == done.contains(i as usize),
            index <= edges@.len(),
            cycle@ == unresolved_cycle_edges(edges@, done, index as int),
        decreases edges@.len() - index,
    {
        let (lower, upper) = edges[index];
        if !placed[lower] && !placed[upper] && path_exists(upper, lower, edges, &mut visited, &mut stack) {
            cycle.push(index);
        }
        index = index + 1;
    }
    cycle
}


/// The position of `node` in `order`.
pub open spec fn position_of(order: Seq<usize>, node: int) -> int {
    choose|i: int| 0 <= i < order.len() && order[i] == node
}

/// Every node below `count` has exactly one position in a topological order.
pub proof fn lemma_position(edges: Seq<(usize, usize)>, count: nat, order: Seq<usize>, node: int)
    requires
        is_topological(edges, count, order),
        0 <= node < count,
        node <= usize::MAX,
    ensures
        0 <= position_of(order, node) < count,
        order[position_of(order, node)] == node,
        forall|i: int| 0 <= i < order.len() && #[trigger] order[i] == node ==> i == position_of(order, node),
{
    lemma_topological_covers(edges, count, order, node);
    let j = choose|j: int| 0 <= j < order.len() && order[j] == node as usize;
    assert(order[j] == node);
    let p = position_of(order, node);
    assert forall|i: int| 0 <= i < order.len() && #[trigger] order[i] == node implies i == p by {
        if i < p {
            assert(order[i] != order[p]);
        } else if p < i {
            assert(order[p] != order[i]);
        }
    }
}

/// Every edge leads to a later position of a topological order.
pub proof fn lemma_edge_positions(edges: Seq<(usize, usize)>, count: nat, order: Seq<usize>, k: int)
    requires
        is_topological(edges, count, order),
        edges_in_range(edges, count),
        0 <= k < edges.len(),
    ensures
        position_of(order, edges[k].0 as int) < position_of(order, edges[k].1 as int),
{
    assert(placed_before(order, edges[k]));
    let (i, j) = choose|i: int, j: int|
        0 <= i < j < order.len() && #[trigger] order[i] == edges[k].0 && #[trigger] order[j] == edges[k].1;
    lemma_position(edges, count, order, edges[k].0 as int);
    lemma_position(edges, count, order, edges[k].1 as int);
}

/// Whether no node is left twice and no node is entered twice along a path.
pub open spec fn simple_path(edges: Seq<(usize, usize)>, path: Seq<int>) -> bool {
    forall|i: int, j: int|
        0 <= i < j < path.len() ==> edges[#[trigger] path[i]].0 != edges[#[trigger] path[j]].0 && edges[path[i]].1
            != edges[path[j]].1
}

/// Along a path, the nodes move strictly forward in a topological order.
proof fn lemma_path_positions_increase(
    edges: Seq<(usize, usize)>,
    count: nat,
    order: Seq<usize>,
    path: Seq<int>,
    from: int,
    to: int,
    i: int,
    j: int,
)
    requires
        is_topological(edges, count, order),
        edges_in_range(edges, count),
        is_edge_path(edges, path, from, to),
        0 <= i < j < path.len(),
    ensures
        position_of(order, edges[path[i]].0 as int) < position_of(order, edges[path[j]].0 as int),
        position_of(order, edges[path[i]].1 as int) < position_of(order, edges[path[j]].1 as int),
    decreases j - i,
{
    lemma_edge_positions(edges, count, order, path[i]);
    lemma_edge_positions(edges, count, order, path[j]);
    lemma_edge_positions(edges, count, order, path[j - 1]);
    assert(edges[path[j - 1]].1 == edges[path[j]].0);
    if j > i + 1 {
        lemma_path_positions_increase(edges, count, order, path, from, to, i, j - 1);
    }
}

/// Every path of a graph with a topological order is simple.
pub proof fn lemma_dag_path_simple(
    edges: Seq<(usize, usize)>,
    count: nat,
    order: Seq<usize>,
    path: Seq<int>,
    from: int,
    to: int,
)
    requires
        is_topological(edges, count, order),
        edges_in_range(edges, count),
        is_edge_path(edges, path, from, to),
    ensures
        simple_path(edges, path),
{
    assert forall|i: int, j: int| 0 <= i < j < path.len() implies edges[#[trigger] path[i]].0 != edges[#[trigger] path[j]].0
        && edges[path[i]].1 != edges[path[j]].1 by {
        lemma_path_positions_increase(edges, count, order, path, from, to, i, j);
    }
}

/// A path that uses a positive edge still does after more edges are added.
pub proof fn lemma_positive_push(positive: Seq<bool>, path: Seq<int>, edge: int)
    requires
        has_positive_edge(positive, path),
    ensures
        has_positive_edge(positive, path.push(edge)),
{
    let i = choose|i: int| 0 <= i < path.len() && #[trigger] positive[path[i]];
    assert(path.push(edge)[i] == path[i]);
}

/// Node `x` records the edge by which it was last reached: an edge into `x`
/// from a reached node placed earlier (and before position `bound`), whose
/// positivity explains that of `x`.
pub open spec fn parent_link(
    edges: Seq<(usize, usize)>,
    positive_gap: Seq<bool>,
    order: Seq<usize>,
    reachable: Seq<bool>,
    positive: Seq<bool>,
    parent: Seq<Option<usize>>,
    x: int,
    bound: int,
) -> bool {
    match parent[x] {
        Some(e) => {
            let lower = edges[e as int].0 as int;
            &&& e < edges.len()
            &&& edges[e as int].1 == x
            &&& reachable[lower]
            &&& position_of(order, lower) < bound
            &&& position_of(order, lower) < position_of(order, x)
            &&& positive[x] == (positive[lower] || positive_gap[e as int])
        },
        None => false,
    }
}

/// Reachability from `source` along the order edges, through at least one
/// positive gap, together with the last edge used to reach each node.
pub open spec fn reach_facts(
    edges: Seq<(usize, usize)>,
    positive_gap: Seq<bool>,
    count: nat,
    order: Seq<usize>,
    source: int,
    reachable: Seq<bool>,
    positive: Seq<bool>,
    parent: Seq<Option<usize>>,
) -> bool {
    &&& reachable.len() == count && positive.len() == count && parent.len() == count
    &&& forall|x: int| 0 <= x < count ==> #[trigger] reachable[x] == reaches(edges, source, x)
    &&& forall|x: int| 0 <= x < count ==> #[trigger] positive[x] == positively_reaches(edges, positive_gap, source, x)
    &&& !positive[source]
    &&& forall|x: int|
        0 <= x < count && #[trigger] reachable[x] && x != source ==> parent_link(
            edges,
            positive_gap,
            order,
            reachable,
            positive,
            parent,
            x,
            count as int,
        )
    &&& forall|x: int|
        0 <= x < count && #[trigger] reachable[x] && x != source ==> parent[x] is Some && first_explanation(
            edges,
            positive_gap,
            order,
            reachable,
            positive,
            x,
            parent[x]->Some_0 as int,
        )
}

/// Edge `e` is handled before edge `f` by the reachability pass: its lower
/// node comes earlier in `order`, or it leaves the same node with a smaller
/// index.
pub open spec fn handled_before(edges: Seq<(usize, usize)>, order: Seq<usize>, e: int, f: int) -> bool {
    position_of(order, edges[e].0 as int) < position_of(order, edges[f].0 as int) || (edges[e].0 == edges[f].0
        && e < f)
}

/// Edge `e` explains the state of node `x`: it leads into `x` from a
/// reached node and, when `x` is positive, it carries positivity.
pub open spec fn explains(
    edges: Seq<(usize, usize)>,
    positive_gap: Seq<bool>,
    reachable: Seq<bool>,
    positive: Seq<bool>,
    x: int,
    e: int,
) -> bool {
    &&& 0 <= e < edges.len()
    &&& edges[e].1 == x
    &&& reachable[edges[e].0 as int]
    &&& positive[x] ==> positive[edges[e].0 as int] || positive_gap[e]
}

/// Edge `e` is the first edge, in the order the pass handles them, that
/// explains the state of `x`.
pub open spec fn first_explanation(
    edges: Seq<(usize, usize)>,
    positive_gap: Seq<bool>,
    order: Seq<usize>,
    reachable: Seq<bool>,
    positive: Seq<bool>,
    x: int,
    e: int,
) -> bool {
    &&& explains(edges, positive_gap, reachable, positive, x, e)
    &&& forall|f: int|
        #[trigger] explains(edges, positive_gap, reachable, positive, x, f) && f != e ==> handled_before(edges, order, e, f)
}

/// The edge recorded for `x`: its first explanation.
pub open spec fn recorded_edge(
    edges: Seq<(usize, usize)>,
    positive_gap: Seq<bool>,
    order: Seq<usize>,
    reachable: Seq<bool>,
    positive: Seq<bool>,
    x: int,
) -> int {
    choose|e: int| first_explanation(edges, positive_gap, order, reachable, positive, x, e)
}

/// The path of recorded edges that leads from `source` to `x`, found by
/// following recorded edges back from `x` at most `fuel` times.
pub open spec fn recorded_walk(
    edges: Seq<(usize, usize)>,
    positive_gap: Seq<bool>,
    order: Seq<usize>,
    reachable: Seq<bool>,
    positive: Seq<bool>,
    source: int,
    x: int,
    fuel: nat,
) -> Seq<usize>
    decreases fuel,
{
    if fuel == 0 || x == source {
        Seq::empty()
    } else {
        let e = recorded_edge(edges, positive_gap, order, reachable, positive, x);
        recorded_walk(edges, positive_gap, order, reachable, positive, source, edges[e].0 as int, (fuel - 1) as nat).push(
            e as usize,
        )
    }
}

/// A node has at most one first explanation.
pub proof fn lemma_first_explanation_unique(
    edges: Seq<(usize, usize)>,
    positive_gap: Seq<bool>,
    order: Seq<usize>,
    reachable: Seq<bool>,
    positive: Seq<bool>,
    x: int,
    e: int,
)
    requires
        first_explanation(edges, positive_gap, order, reachable, positive, x, e),
    ensures
        recorded_edge(edges, positive_gap, order, reachable, positive, x) == e,
{
    let chosen = recorded_edge(edges, positive_gap, order, reachable, positive, x);
    assert(first_explanation(edges, positive_gap, order, reachable, positive, x, chosen));
    if chosen != e {
        assert(handled_before(edges, order, e, chosen));
        assert(handled_before(edges, order, chosen, e));
    }
}

/// The nodes below `count` that `source` reaches.
pub open spec fn reach_flags(edges: Seq<(usize, usize)>, source: int, count: nat) -> Seq<bool> {
    Seq::new(count, |x: int| reaches(edges, source, x))
}

/// The nodes below `count` that `source` reaches through a positive gap.
pub open spec fn positive_flags(edges: Seq<(usize, usize)>, positive_gap: Seq<bool>, source: int, count: nat) -> Seq<
    bool,
> {
    Seq::new(count, |x: int| positively_reaches(edges, positive_gap, source, x))
}

/// The topological order that always places the smallest ready node.
pub open spec fn smallest_ready_order(edges: Seq<(usize, usize)>, count: nat) -> Seq<usize> {
    choose|order: Seq<usize>| is_topological(edges, count, order) && smallest_ready_chain(edges, count, order)
}

/// The order path from `source` to `target` reported as evidence: the
/// pass over the smallest-ready topological order records for each reached
/// node the first edge that explains its state, and the path follows those
/// edges back from `target`.
pub open spec fn order_path(
    edges: Seq<(usize, usize)>,
    positive_gap: Seq<bool>,
    count: nat,
    source: int,
    target: int,
) -> Seq<usize> {
    recorded_walk(
        edges,
        positive_gap,
        smallest_ready_order(edges, count),
        reach_flags(edges, source, count),
        positive_flags(edges, positive_gap, source, count),
        source,
        target,
        count,
    )
}

/// Two smallest-ready chains agree on their common prefix.
proof fn lemma_smallest_ready_prefix(
    edges: Seq<(usize, usize)>,
    count: nat,
    first: Seq<usize>,
    second: Seq<usize>,
    length: int,
)
    requires
        smallest_ready_chain(edges, count, first),
        smallest_ready_chain(edges, count, second),
        0 <= length <= first.len(),
        length <= second.len(),
    ensures
        first.take(length) == second.take(length),
    decreases length,
{
    if length > 0 {
        let k = length - 1;
        lemma_smallest_ready_prefix(edges, count, first, second, k);
        assert(first.take(k) == second.take(k));
        assert(ready(edges, first.take(k), first[k] as int));
        assert(ready(edges, second.take(k), second[k] as int));
        if first[k] < second[k] {
            assert(!ready(edges, second.take(k), first[k] as int));
        } else if second[k] < first[k] {
            assert(!ready(edges, first.take(k), second[k] as int));
        }
        assert forall|i: int| 0 <= i < length implies first.take(length)[i] == second.take(length)[i] by {
            if i < k {
                assert(first.take(k)[i] == second.take(k)[i]);
            }
        }
        assert(first.take(length) =~= second.take(length));
    }
}

/// The smallest-ready topological order is the only one.
pub proof fn lemma_smallest_ready_order(edges: Seq<(usize, usize)>, count: nat, order: Seq<usize>)
    requires
        is_topological(edges, count, order),
        smallest_ready_chain(edges, count, order),
    ensures
        smallest_ready_order(edges, count) == order,
{
    let named = smallest_ready_order(edges, count);
    assert(is_topological(edges, count, named) && smallest_ready_chain(edges, count, named));
    lemma_smallest_ready_prefix(edges, count, named, order, count as int);
    assert(named.take(count as int) =~= named);
    assert(order.take(count as int) =~= order);
}

/// Edge `e` has been handled once the nodes before position `step`, and
/// the edges before `index` out of the node at `step`, have been.
pub open spec fn handled(edges: Seq<(usize, usize)>, order: Seq<usize>, step: int, index: int, e: int) -> bool {
    &&& 0 <= e < edges.len()
    &&& position_of(order, edges[e].0 as int) < step || (position_of(order, edges[e].0 as int) == step && e < index)
}

/// Every reached node other than `source` records the first handled edge
/// that explains its state.
#[verifier::opaque]
pub open spec fn pass_first(
    edges: Seq<(usize, usize)>,
    positive_gap: Seq<bool>,
    count: nat,
    order: Seq<usize>,
    source: int,
    step: int,
    index: int,
    reachable: Seq<bool>,
    positive: Seq<bool>,
    parent: Seq<Option<usize>>,
) -> bool {
    forall|x: int|
        0 <= x < count && #[trigger] reachable[x] && x != source ==> parent[x] is Some && handled(
            edges,
            order,
            step,
            index,
            parent[x]->Some_0 as int,
        ) && explains(edges, positive_gap, reachable, positive, x, parent[x]->Some_0 as int) && forall|f: int|
            handled(edges, order, step, index, f) && #[trigger] explains(edges, positive_gap, reachable, positive, x, f)
                && f != parent[x]->Some_0 as int ==> handled_before(edges, order, parent[x]->Some_0 as int, f)
}

/// Handling an edge that changes nothing keeps every record first: an edge
/// out of another node, or an edge out of the current node whose upper node
/// is already reached and stays as positive as it is.
pub proof fn lemma_first_skip(
    edges: Seq<(usize, usize)>,
    positive_gap: Seq<bool>,
    count: nat,
    order: Seq<usize>,
    source: int,
    step: int,
    index: int,
    node: int,
    reachable: Seq<bool>,
    positive: Seq<bool>,
    parent: Seq<Option<usize>>,
)
    requires
        pass_first(edges, positive_gap, count, order, source, step, index, reachable, positive, parent),
        is_topological(edges, count, order),
        edges_in_range(edges, count),
        count <= usize::MAX,
        0 <= step < count,
        node == order[step],
        0 <= index < edges.len(),
        edges[index].0 == node ==> reachable[edges[index].1 as int] && !((positive[node] || positive_gap[index])
            && !positive[edges[index].1 as int]),
    ensures
        pass_first(edges, positive_gap, count, order, source, step, index + 1, reachable, positive, parent),
{
    reveal(pass_first);
    lemma_position(edges, count, order, edges[index].0 as int);
    assert forall|x: int| 0 <= x < count && #[trigger] reachable[x] && x != source implies parent[x] is Some && handled(
        edges,
        order,
        step,
        index + 1,
        parent[x]->Some_0 as int,
    ) && explains(edges, positive_gap, reachable, positive, x, parent[x]->Some_0 as int) && forall|f: int|
        handled(edges, order, step, index + 1, f) && #[trigger] explains(edges, positive_gap, reachable, positive, x, f)
            && f != parent[x]->Some_0 as int ==> handled_before(edges, order, parent[x]->Some_0 as int, f) by {
        let e = parent[x]->Some_0 as int;
        assert forall|f: int|
            handled(edges, order, step, index + 1, f) && #[trigger] explains(edges, positive_gap, reachable, positive, x, f)
                && f != e implies handled_before(edges, order, e, f) by {
            if !handled(edges, order, step, index, f) {
                assert(f == index);
                lemma_position(edges, count, order, edges[e].0 as int);
            }
        }
    }
}

/// Relaxing the edge `index` out of the node at `step` into an unreached
/// node, or into a reached node that it makes positive, records that edge
/// as the first explanation.
pub proof fn lemma_first_relax(
    edges: Seq<(usize, usize)>,
    positive_gap: Seq<bool>,
    count: nat,
    order: Seq<usize>,
    source: int,
    step: int,
    index: int,
    node: int,
    candidate: bool,
    reachable: Seq<bool>,
    positive: Seq<bool>,
    parent: Seq<Option<usize>>,
)
    requires
        pass_first(edges, positive_gap, count, order, source, step, index, reachable, positive, parent),
        pass_closed(edges, positive_gap, order, step, reachable, positive),
        node_edges_done(edges, positive_gap, node, index, reachable, positive),
        is_topological(edges, count, order),
        edges_in_range(edges, count),
        count <= usize::MAX,
        index <= usize::MAX,
        positive_gap.len() == edges.len(),
        reachable.len() == count,
        positive.len() == count,
        parent.len() == count,
        0 <= step < count,
        node == order[step],
        position_of(order, node) == step,
        reachable[node],
        0 <= index < edges.len(),
        edges[index].0 == node,
        candidate == (positive[node] || positive_gap[index]),
        !(reachable[edges[index].1 as int] && !(candidate && !positive[edges[index].1 as int])),
    ensures
        pass_first(
            edges,
            positive_gap,
            count,
            order,
            source,
            step,
            index + 1,
            reachable.update(edges[index].1 as int, true),
            positive.update(edges[index].1 as int, candidate),
            parent.update(edges[index].1 as int, Some(index as usize)),
        ),
{
    reveal(pass_first);
    reveal(pass_closed);
    let upper = edges[index].1 as int;
    let new_reachable = reachable.update(upper, true);
    let new_positive = positive.update(upper, candidate);
    let new_parent = parent.update(upper, Some(index as usize));
    lemma_edge_positions(edges, count, order, index);
    assert(position_of(order, upper) > step);
    assert forall|f: int| handled(edges, order, step, index + 1, f) implies edges[f].0 != upper by {
        if edges[f].0 == upper {
            assert(position_of(order, edges[f].0 as int) == position_of(order, upper));
        }
    }
    assert forall|x: int| 0 <= x < count && #[trigger] new_reachable[x] && x != source implies new_parent[x] is Some
        && handled(edges, order, step, index + 1, new_parent[x]->Some_0 as int) && explains(
        edges,
        positive_gap,
        new_reachable,
        new_positive,
        x,
        new_parent[x]->Some_0 as int,
    ) && forall|f: int|
        handled(edges, order, step, index + 1, f) && #[trigger] explains(
            edges,
            positive_gap,
            new_reachable,
            new_positive,
            x,
            f,
        ) && f != new_parent[x]->Some_0 as int ==> handled_before(edges, order, new_parent[x]->Some_0 as int, f) by {
        if x == upper {
            assert(node != upper);
            assert(new_parent[x]->Some_0 as int == index);
            assert(handled(edges, order, step, index + 1, index));
            assert(explains(edges, positive_gap, new_reachable, new_positive, x, index));
            assert forall|f: int|
                handled(edges, order, step, index + 1, f) && #[trigger] explains(
                    edges,
                    positive_gap,
                    new_reachable,
                    new_positive,
                    x,
                    f,
                ) && f != index implies handled_before(edges, order, index, f) by {
                assert(handled(edges, order, step, index, f));
                assert(edges[f].0 != upper);
                let lower = edges[f].0 as int;
                assert(reachable[lower]);
                if position_of(order, lower) < step {
                    assert(reachable[upper]);
                    assert(positive[lower] || positive_gap[f]);
                    assert(positive[upper]);
                } else {
                    lemma_position(edges, count, order, lower);
                    assert(lower == node);
                    assert(reachable[upper]);
                    assert(positive[upper]);
                }
            }
        } else {
            assert(reachable[x]);
            assert(new_parent[x] == parent[x]);
            let e = parent[x]->Some_0 as int;
            assert(handled(edges, order, step, index, e));
            assert(edges[e].0 != upper);
            assert(explains(edges, positive_gap, new_reachable, new_positive, x, e));
            assert forall|f: int|
                handled(edges, order, step, index + 1, f) && #[trigger] explains(
                    edges,
                    positive_gap,
                    new_reachable,
                    new_positive,
                    x,
                    f,
                ) && f != e implies handled_before(edges, order, e, f) by {
                assert(f != index);
                assert(edges[f].0 != upper);
                assert(explains(edges, positive_gap, reachable, positive, x, f));
            }
        }
    }
}

/// Moving to the next position keeps every record first, once the edges
/// out of the node at `step` are all handled, or when that node is not
/// reached.
pub proof fn lemma_first_next_step(
    edges: Seq<(usize, usize)>,
    positive_gap: Seq<bool>,
    count: nat,
    order: Seq<usize>,
    source: int,
    step: int,
    index: int,
    reachable: Seq<bool>,
    positive: Seq<bool>,
    parent: Seq<Option<usize>>,
)
    requires
        pass_first(edges, positive_gap, count, order, source, step, index, reachable, positive, parent),
        is_topological(edges, count, order),
        edges_in_range(edges, count),
        count <= usize::MAX,
        0 <= step < count,
        index == edges.len() || (index == 0 && !reachable[order[step] as int]),
    ensures
        pass_first(edges, positive_gap, count, order, source, step + 1, 0, reachable, positive, parent),
{
    reveal(pass_first);
    assert forall|x: int| 0 <= x < count && #[trigger] reachable[x] && x != source implies parent[x] is Some && handled(
        edges,
        order,
        step + 1,
        0,
        parent[x]->Some_0 as int,
    ) && explains(edges, positive_gap, reachable, positive, x, parent[x]->Some_0 as int) && forall|f: int|
        handled(edges, order, step + 1, 0, f) && #[trigger] explains(edges, positive_gap, reachable, positive, x, f) && f
            != parent[x]->Some_0 as int ==> handled_before(edges, order, parent[x]->Some_0 as int, f) by {
        let e = parent[x]->Some_0 as int;
        assert forall|f: int|
            handled(edges, order, step + 1, 0, f) && #[trigger] explains(edges, positive_gap, reachable, positive, x, f) && f
                != e implies handled_before(edges, order, e, f) by {
            if !handled(edges, order, step, index, f) {
                lemma_position(edges, count, order, edges[f].0 as int);
                assert(edges[f].0 == order[step]);
            }
        }
    }
}

/// Once every position is handled, each record is the first explanation
/// among all edges.
pub proof fn lemma_first_complete(
    edges: Seq<(usize, usize)>,
    positive_gap: Seq<bool>,
    count: nat,
    order: Seq<usize>,
    source: int,
    reachable: Seq<bool>,
    positive: Seq<bool>,
    parent: Seq<Option<usize>>,
)
    requires
        pass_first(edges, positive_gap, count, order, source, count as int, 0, reachable, positive, parent),
        is_topological(edges, count, order),
        edges_in_range(edges, count),
        count <= usize::MAX,
    ensures
        forall|x: int|
            0 <= x < count && #[trigger] reachable[x] && x != source ==> parent[x] is Some && first_explanation(
                edges,
                positive_gap,
                order,
                reachable,
                positive,
                x,
                parent[x]->Some_0 as int,
            ),
{
    reveal(pass_first);
    assert forall|x: int| 0 <= x < count && #[trigger] reachable[x] && x != source implies parent[x] is Some
        && first_explanation(edges, positive_gap, order, reachable, positive, x, parent[x]->Some_0 as int) by {
        let e = parent[x]->Some_0 as int;
        assert forall|f: int| #[trigger] explains(edges, positive_gap, reachable, positive, x, f) && f != e implies handled_before(
            edges,
            order,
            e,
            f,
        ) by {
            lemma_position(edges, count, order, edges[f].0 as int);
            assert(handled(edges, order, count as int, 0, f));
        }
    }
}

/// A set of nodes closed under edges and under positivity holds the end of
/// every path from `from`, and holds it as positive when the path uses a
/// positive edge.
pub proof fn lemma_closed_positive_path(
    edges: Seq<(usize, usize)>,
    positive_gap: Seq<bool>,
    reachable: Seq<bool>,
    positive: Seq<bool>,
    path: Seq<int>,
    from: int,
    to: int,
)
    requires
        is_edge_path(edges, path, from, to),
        edges_in_range(edges, reachable.len()),
        positive_gap.len() == edges.len(),
        positive.len() == reachable.len(),
        0 <= from < reachable.len(),
        reachable[from],
        forall|k: int|
            0 <= k < edges.len() && #[trigger] reachable[edges[k].0 as int] ==> reachable[edges[k].1 as int] && (
            positive[edges[k].0 as int] || positive_gap[k] ==> positive[edges[k].1 as int]),
    ensures
        0 <= to < reachable.len(),
        reachable[to],
        has_positive_edge(positive_gap, path) && !positive[from] ==> positive[to],
        positive[from] ==> positive[to],
    decreases path.len(),
{
    if path.len() > 0 {
        let shorter = path.drop_last();
        let last = path.last();
        let middle = edges[last].0 as int;
        assert(is_edge_path(edges, shorter, from, middle)) by {
            if shorter.len() > 0 {
                assert(shorter[0] == path[0]);
                let j = path.len() - 1;
                assert(edges[path[j - 1]].1 == edges[path[j]].0);
            }
            assert forall|i: int, j: int|
                0 <= i && j == i + 1 && j < shorter.len() implies edges[#[trigger] shorter[i]].1 == edges[#[trigger] shorter[j]].0 by {
                assert(shorter[i] == path[i]);
                assert(shorter[j] == path[j]);
            }
        }
        lemma_closed_positive_path(edges, positive_gap, reachable, positive, shorter, from, middle);
        assert(reachable[edges[last].0 as int]);
        if has_positive_edge(positive_gap, path) && !positive[from] {
            let i = choose|i: int| 0 <= i < path.len() && #[trigger] positive_gap[path[i]];
            if i < shorter.len() {
                assert(shorter[i] == path[i]);
                assert(has_positive_edge(positive_gap, shorter));
            }
        }
    }
}

/// Every reached node is reachable from `source`, and every positive node
/// is reached through a positive gap.
#[verifier::opaque]
pub open spec fn pass_sound(
    edges: Seq<(usize, usize)>,
    positive_gap: Seq<bool>,
    count: nat,
    source: int,
    reachable: Seq<bool>,
    positive: Seq<bool>,
) -> bool {
    &&& forall|x: int| 0 <= x < count && #[trigger] reachable[x] ==> reaches(edges, source, x)
    &&& forall|x: int|
        0 <= x < count && #[trigger] positive[x] ==> reachable[x] && positively_reaches(edges, positive_gap, source, x)
}

/// No node placed before `source` is reached.
#[verifier::opaque]
pub open spec fn pass_before_source(count: nat, order: Seq<usize>, source: int, reachable: Seq<bool>) -> bool {
    forall|x: int| 0 <= x < count && position_of(order, x) < position_of(order, source) ==> !#[trigger] reachable[x]
}

/// The edges out of reached nodes placed before position `closed` pass on
/// reachability and positivity.
#[verifier::opaque]
pub open spec fn pass_closed(
    edges: Seq<(usize, usize)>,
    positive_gap: Seq<bool>,
    order: Seq<usize>,
    closed: int,
    reachable: Seq<bool>,
    positive: Seq<bool>,
) -> bool {
    forall|k: int|
        0 <= k < edges.len() && position_of(order, edges[k].0 as int) < closed && #[trigger] reachable[edges[k].0 as int]
            ==> reachable[edges[k].1 as int] && (positive[edges[k].0 as int] || positive_gap[k] ==> positive[edges[k].1 as int])
}

/// Every reached node other than `source` records an edge from a node
/// placed before position `bound`.
#[verifier::opaque]
pub open spec fn pass_links(
    edges: Seq<(usize, usize)>,
    positive_gap: Seq<bool>,
    count: nat,
    order: Seq<usize>,
    source: int,
    bound: int,
    reachable: Seq<bool>,
    positive: Seq<bool>,
    parent: Seq<Option<usize>>,
) -> bool {
    forall|x: int|
        0 <= x < count && #[trigger] reachable[x] && x != source ==> parent_link(
            edges,
            positive_gap,
            order,
            reachable,
            positive,
            parent,
            x,
            bound,
        )
}

/// The state of the reachability pass after the nodes before position
/// `closed` have passed on what they reach.
pub open spec fn pass_state(
    edges: Seq<(usize, usize)>,
    positive_gap: Seq<bool>,
    count: nat,
    order: Seq<usize>,
    source: int,
    closed: int,
    bound: int,
    reachable: Seq<bool>,
    positive: Seq<bool>,
    parent: Seq<Option<usize>>,
) -> bool {
    &&& edges_in_range(edges, count)
    &&& positive_gap.len() == edges.len()
    &&& is_topological(edges, count, order)
    &&& count <= usize::MAX
    &&& 0 <= source < count
    &&& reachable.len() == count && positive.len() == count && parent.len() == count
    &&& reachable[source]
    &&& !positive[source]
    &&& pass_sound(edges, positive_gap, count, source, reachable, positive)
    &&& pass_before_source(count, order, source, reachable)
    &&& pass_closed(edges, positive_gap, order, closed, reachable, positive)
    &&& pass_links(edges, positive_gap, count, order, source, bound, reachable, positive, parent)
}

/// The edges before `index` out of `node` are respected.
pub open spec fn node_edges_done(
    edges: Seq<(usize, usize)>,
    positive_gap: Seq<bool>,
    node: int,
    index: int,
    reachable: Seq<bool>,
    positive: Seq<bool>,
) -> bool {
    forall|k: int|
        0 <= k < index && #[trigger] edges[k].0 == node ==> reachable[edges[k].1 as int] && (positive[node] || positive_gap[k]
            ==> positive[edges[k].1 as int])
}

/// Reaching `upper` along an edge out of a reached node keeps every reached
/// node reachable and every positive node positively reachable.
pub proof fn lemma_relax_sound(
    edges: Seq<(usize, usize)>,
    positive_gap: Seq<bool>,
    count: nat,
    source: int,
    node: int,
    index: int,
    candidate: bool,
    reachable: Seq<bool>,
    positive: Seq<bool>,
)
    requires
        pass_sound(edges, positive_gap, count, source, reachable, positive),
        edges_in_range(edges, count),
        reachable.len() == count,
        positive.len() == count,
        0 <= node < count,
        reachable[node],
        0 <= index < edges.len(),
        edges[index].0 == node,
        candidate == (positive[node] || positive_gap[index]),
    ensures
        pass_sound(
            edges,
            positive_gap,
            count,
            source,
            reachable.update(edges[index].1 as int, true),
            positive.update(edges[index].1 as int, candidate),
        ),
{
    reveal(pass_sound);
    let upper = edges[index].1 as int;
    let new_reachable = reachable.update(upper, true);
    let new_positive = positive.update(upper, candidate);
    let path = choose|path: Seq<int>| is_edge_path(edges, path, source, node);
    lemma_path_push(edges, path, source, node, index);
    if candidate {
        if positive[node] {
            let p = choose|p: Seq<int>| #[trigger] is_edge_path(edges, p, source, node) && has_positive_edge(positive_gap, p);
            lemma_path_push(edges, p, source, node, index);
            lemma_positive_push(positive_gap, p, index);
            assert(is_edge_path(edges, p.push(index), source, upper));
        } else {
            let longer = path.push(index);
            assert(longer[path.len() as int] == index);
            assert(has_positive_edge(positive_gap, longer));
            assert(is_edge_path(edges, longer, source, upper));
        }
    }
    assert forall|x: int| 0 <= x < count && #[trigger] new_reachable[x] implies reaches(edges, source, x) by {
        if x != upper {
            assert(reachable[x]);
        }
    }
    assert forall|x: int| 0 <= x < count && #[trigger] new_positive[x] implies new_reachable[x] && positively_reaches(edges, positive_gap, source, x) by {
        if x != upper {
            assert(positive[x]);
        }
    }
}

/// Reaching a node placed after the reached node `node` keeps the nodes
/// placed before `source` unreached.
pub proof fn lemma_relax_before(count: nat, order: Seq<usize>, source: int, node: int, upper: int, reachable: Seq<bool>)
    requires
        pass_before_source(count, order, source, reachable),
        reachable.len() == count,
        0 <= upper < count,
        0 <= node < count,
        reachable[node],
        position_of(order, node) < position_of(order, upper),
    ensures
        pass_before_source(count, order, source, reachable.update(upper, true)),
{
    reveal(pass_before_source);
    let updated = reachable.update(upper, true);
    assert forall|x: int| 0 <= x < count && position_of(order, x) < position_of(order, source) implies !#[trigger] updated[x] by {
        if x == upper {
            assert(position_of(order, node) >= position_of(order, source));
        }
    }
}

/// Updating a node placed at or after position `closed` keeps the nodes
/// before `closed` closed.
pub proof fn lemma_relax_closed(
    edges: Seq<(usize, usize)>,
    positive_gap: Seq<bool>,
    order: Seq<usize>,
    closed: int,
    upper: int,
    candidate: bool,
    reachable: Seq<bool>,
    positive: Seq<bool>,
)
    requires
        pass_closed(edges, positive_gap, order, closed, reachable, positive),
        position_of(order, upper) >= closed,
        !reachable[upper] || (candidate && !positive[upper]),
        positive.len() == reachable.len(),
        0 <= upper < reachable.len(),
        edges_in_range(edges, reachable.len()),
        positive_gap.len() == edges.len(),
    ensures
        pass_closed(edges, positive_gap, order, closed, reachable.update(upper, true), positive.update(upper, candidate)),
{
    reveal(pass_closed);
    let new_reachable = reachable.update(upper, true);
    let new_positive = positive.update(upper, candidate);
    assert forall|k: int|
        0 <= k < edges.len() && position_of(order, edges[k].0 as int) < closed && #[trigger] new_reachable[edges[k].0 as int]
            implies new_reachable[edges[k].1 as int] && (new_positive[edges[k].0 as int] || positive_gap[k] ==> new_positive[edges[k].1 as int]) by {
        let lower = edges[k].0 as int;
        let target = edges[k].1 as int;
        assert(0 <= lower < reachable.len() && 0 <= target < reachable.len());
        assert(lower != upper);
        assert(reachable[lower]);
        assert(reachable[target] && (positive[lower] || positive_gap[k] ==> positive[target]));
        if target == upper {
            assert(new_reachable[target]);
            if positive[target] {
                assert(reachable[upper]);
                assert(candidate);
            }
        }
    }
}

/// Recording edge `index` for the node it reaches keeps every reached node
/// linked to an earlier reached node.
pub proof fn lemma_relax_links(
    edges: Seq<(usize, usize)>,
    positive_gap: Seq<bool>,
    count: nat,
    order: Seq<usize>,
    source: int,
    step: int,
    node: int,
    index: int,
    candidate: bool,
    reachable: Seq<bool>,
    positive: Seq<bool>,
    parent: Seq<Option<usize>>,
)
    requires
        pass_links(edges, positive_gap, count, order, source, step + 1, reachable, positive, parent),
        edges_in_range(edges, count),
        reachable.len() == count,
        positive.len() == count,
        parent.len() == count,
        0 <= node < count,
        reachable[node],
        position_of(order, node) == step,
        0 <= index < edges.len(),
        edges.len() <= usize::MAX,
        positive_gap.len() == edges.len(),
        edges[index].0 == node,
        edges[index].1 != node,
        position_of(order, node) < position_of(order, edges[index].1 as int),
        candidate == (positive[node] || positive_gap[index]),
    ensures
        pass_links(
            edges,
            positive_gap,
            count,
            order,
            source,
            step + 1,
            reachable.update(edges[index].1 as int, true),
            positive.update(edges[index].1 as int, candidate),
            parent.update(edges[index].1 as int, Some(index as usize)),
        ),
{
    reveal(pass_links);
    let upper = edges[index].1 as int;
    let new_reachable = reachable.update(upper, true);
    let new_positive = positive.update(upper, candidate);
    let new_parent = parent.update(upper, Some(index as usize));
    assert forall|x: int|
        0 <= x < count && #[trigger] new_reachable[x] && x != source implies parent_link(
            edges,
            positive_gap,
            order,
            new_reachable,
            new_positive,
            new_parent,
            x,
            step + 1,
        ) by {
        if x != upper {
            assert(reachable[x]);
            assert(parent_link(edges, positive_gap, order, reachable, positive, parent, x, step + 1));
            let e = parent[x]->0;
            let lower_node = edges[e as int].0 as int;
            assert(0 <= lower_node < count);
            assert(lower_node != upper);
            assert(new_parent[x] == parent[x]);
            assert(new_reachable[lower_node] == reachable[lower_node]);
            assert(new_positive[lower_node] == positive[lower_node]);
            assert(new_positive[x] == positive[x]);
        } else {
            assert(0 <= upper < count);
            assert(new_parent[x] == Some(index as usize));
            assert(new_reachable[node]);
            assert(new_positive[node] == positive[node]);
            assert(new_positive[upper] == candidate);
        }
    }
}

/// Passes reachability and positivity along edge `index` out of the reached
/// node `node`, remembering the edge when it reaches a node first or first
/// makes it positive.
fn relax_edge(
    index: usize,
    node: usize,
    step: usize,
    source: usize,
    count: usize,
    edges: &Vec<(usize, usize)>,
    positive_gap: &Vec<bool>,
    Ghost(topo): Ghost<Seq<usize>>,
    reachable: &mut Vec<bool>,
    positive: &mut Vec<bool>,
    parent: &mut Vec<Option<usize>>,
)
    requires
        pass_state(edges@, positive_gap@, count as nat, topo, source as int, step as int, step + 1, old(reachable)@, old(positive)@, old(parent)@),
        step < count,
        node == topo[step as int],
        position_of(topo, node as int) == step,
        old(reachable)@[node as int],
        index < edges@.len(),
        edges@[index as int].0 == node,
        node_edges_done(edges@, positive_gap@, node as int, index as int, old(reachable)@, old(positive)@),
        pass_first(edges@, positive_gap@, count as nat, topo, source as int, step as int, index as int, old(reachable)@, old(positive)@, old(parent)@),
    ensures
        pass_state(edges@, positive_gap@, count as nat, topo, source as int, step as int, step + 1, final(reachable)@, final(positive)@, final(parent)@),
        pass_first(edges@, positive_gap@, count as nat, topo, source as int, step as int, index + 1, final(reachable)@, final(positive)@, final(parent)@),
        final(reachable)@[node as int],
        final(positive)@[node as int] == old(positive)@[node as int],
        node_edges_done(edges@, positive_gap@, node as int, index + 1, final(reachable)@, final(positive)@),
{
    let upper = edges[index].1;
    let candidate = positive[node] || positive_gap[index];
    if reachable[upper] && !(candidate && !positive[upper]) {
        proof {
            lemma_first_skip(edges@, positive_gap@, count as nat, topo, source as int, step as int, index as int, node as int, reachable@, positive@, parent@);
        }
        return;
    }
    proof {
        reveal(pass_closed);
        lemma_first_relax(edges@, positive_gap@, count as nat, topo, source as int, step as int, index as int, node as int, candidate, reachable@, positive@, parent@);
    }
    let ghost graph = edges@;
    let edge_count = edges.len();
    proof {
        assert(graph.len() == edge_count);
        lemma_edge_positions(graph, count as nat, topo, index as int);
        lemma_position(graph, count as nat, topo, upper as int);
        lemma_position(graph, count as nat, topo, source as int);
        assert(upper != source) by {
            reveal(pass_before_source);
            if upper == source {
                assert(position_of(topo, node as int) < position_of(topo, source as int));
            }
        }
        lemma_relax_sound(graph, positive_gap@, count as nat, source as int, node as int, index as int, candidate, reachable@, positive@);
        lemma_relax_before(count as nat, topo, source as int, node as int, upper as int, reachable@);
        lemma_relax_closed(graph, positive_gap@, topo, step as int, upper as int, candidate, reachable@, positive@);
        lemma_relax_links(graph, positive_gap@, count as nat, topo, source as int, step as int, node as int, index as int, candidate, reachable@, positive@, parent@);
    }
    reachable.set(upper, true);
    positive.set(upper, candidate);
    parent.set(upper, Some(index));
}

/// Allowing recorded edges from one more position keeps the pass state.
pub proof fn lemma_pass_rebound(
    edges: Seq<(usize, usize)>,
    positive_gap: Seq<bool>,
    count: nat,
    order: Seq<usize>,
    source: int,
    step: int,
    reachable: Seq<bool>,
    positive: Seq<bool>,
    parent: Seq<Option<usize>>,
)
    requires
        pass_state(edges, positive_gap, count, order, source, step, step, reachable, positive, parent),
    ensures
        pass_state(edges, positive_gap, count, order, source, step, step + 1, reachable, positive, parent),
{
    reveal(pass_links);
    assert forall|x: int| 0 <= x < count && #[trigger] reachable[x] && x != source implies parent_link(
        edges,
        positive_gap,
        order,
        reachable,
        positive,
        parent,
        x,
        step + 1,
    ) by {
        assert(parent_link(edges, positive_gap, order, reachable, positive, parent, x, step));
    }
}

/// Once every edge out of the node at position `step` is respected, the
/// nodes before position `step + 1` are closed.
pub proof fn lemma_pass_close(
    edges: Seq<(usize, usize)>,
    positive_gap: Seq<bool>,
    count: nat,
    order: Seq<usize>,
    source: int,
    step: int,
    node: int,
    reachable: Seq<bool>,
    positive: Seq<bool>,
    parent: Seq<Option<usize>>,
)
    requires
        pass_state(edges, positive_gap, count, order, source, step, step + 1, reachable, positive, parent),
        0 <= step < count,
        node == order[step],
        reachable[node] ==> node_edges_done(edges, positive_gap, node, edges.len() as int, reachable, positive),
    ensures
        pass_state(edges, positive_gap, count, order, source, step + 1, step + 1, reachable, positive, parent),
{
    reveal(pass_closed);
    assert forall|k: int|
        0 <= k < edges.len() && position_of(order, edges[k].0 as int) < step + 1 && #[trigger] reachable[edges[k].0 as int]
            implies reachable[edges[k].1 as int] && (positive[edges[k].0 as int] || positive_gap[k] ==> positive[edges[k].1 as int]) by {
        if position_of(order, edges[k].0 as int) == step {
            lemma_position(edges, count, order, edges[k].0 as int);
            assert(edges[k].0 == node);
        }
    }
}

/// Which nodes `source` reaches along the order edges, which it reaches
/// through at least one positive gap, and the last edge used for each,
/// computed in one pass over a topological order.
pub fn positive_reachability(
    source: usize,
    count: usize,
    edges: &Vec<(usize, usize)>,
    positive_gap: &Vec<bool>,
    order: &Vec<usize>,
) -> (result: (Vec<bool>, Vec<bool>, Vec<Option<usize>>))
    requires
        source < count,
        edges_in_range(edges@, count as nat),
        positive_gap@.len() == edges@.len(),
        is_topological(edges@, count as nat, order@),
    ensures
        reach_facts(edges@, positive_gap@, count as nat, order@, source as int, result.0@, result.1@, result.2@),
{
    let ghost graph = edges@;
    let ghost gaps = positive_gap@;
    let ghost topo = order@;
    let mut reachable: Vec<bool> = Vec::new();
    let mut positive: Vec<bool> = Vec::new();
    let mut parent: Vec<Option<usize>> = Vec::new();
    let mut fill: usize = 0;
    while fill < count
        invariant
            fill <= count,
            reachable@.len() == fill,
            positive@.len() == fill,
            parent@.len() == fill,
            forall|i: int| 0 <= i < fill ==> !#[trigger] reachable@[i],
            forall|i: int| 0 <= i < fill ==> !#[trigger] positive@[i],
        decreases count - fill,
    {
        reachable.push(false);
        positive.push(false);
        parent.push(None);
        fill = fill + 1;
    }
    reachable.set(source, true);
    proof {
        assert(!positive@[source as int]);
        lemma_position(graph, count as nat, topo, source as int);
        lemma_empty_path(graph, source as int);
        assert forall|x: int| 0 <= x < count && #[trigger] reachable@[x] implies x == source by {
            if x != source {
                assert(!reachable@[x]);
            }
        }
        reveal(pass_sound);
        reveal(pass_before_source);
        reveal(pass_closed);
        reveal(pass_links);
        assert(pass_state(graph, gaps, count as nat, topo, source as int, 0, 0, reachable@, positive@, parent@));
        reveal(pass_first);
    }
    let mut step: usize = 0;
    while step < count
        invariant
            graph == edges@,
            gaps == positive_gap@,
            topo == order@,
            step <= count,
            pass_state(graph, gaps, count as nat, topo, source as int, step as int, step as int, reachable@, positive@, parent@),
            pass_first(graph, gaps, count as nat, topo, source as int, step as int, 0, reachable@, positive@, parent@),
        decreases count - step,
    {
        let node = order[step];
        proof {
            lemma_position(graph, count as nat, topo, node as int);
            lemma_pass_rebound(graph, gaps, count as nat, topo, source as int, step as int, reachable@, positive@, parent@);
        }
        if reachable[node] {
            let mut index: usize = 0;
            while index < edges.len()
                invariant
                    graph == edges@,
                    gaps == positive_gap@,
                    topo == order@,
                    step < count,
                    node == topo[step as int],
                    position_of(topo, node as int) == step,
                    index <= graph.len(),
                    reachable@[node as int],
                    pass_state(graph, gaps, count as nat, topo, source as int, step as int, step + 1, reachable@, positive@, parent@),
                    node_edges_done(graph, gaps, node as int, index as int, reachable@, positive@),
                    pass_first(graph, gaps, count as nat, topo, source as int, step as int, index as int, reachable@, positive@, parent@),
                decreases graph.len() - index,
            {
                if edges[index].0 == node {
                    relax_edge(index, node, step, source, count, edges, positive_gap, Ghost(topo), &mut reachable, &mut positive, &mut parent);
                } else {
                    proof {
                        lemma_first_skip(graph, gaps, count as nat, topo, source as int, step as int, index as int, node as int, reachable@, positive@, parent@);
                    }
                }
                index = index + 1;
            }
            proof {
                lemma_first_next_step(graph, gaps, count as nat, topo, source as int, step as int, index as int, reachable@, positive@, parent@);
            }
        } else {
            proof {
                lemma_first_next_step(graph, gaps, count as nat, topo, source as int, step as int, 0, reachable@, positive@, parent@);
            }
        }
        proof {
            lemma_pass_close(graph, gaps, count as nat, topo, source as int, step as int, node as int, reachable@, positive@, parent@);
        }
        step = step + 1;
    }
    proof {
        lemma_first_complete(graph, gaps, count as nat, topo, source as int, reachable@, positive@, parent@);
        reveal(pass_sound);
        reveal(pass_closed);
        reveal(pass_links);
        assert forall|k: int| 0 <= k < graph.len() && #[trigger] reachable@[graph[k].0 as int] implies reachable@[graph[k].1 as int]
            && (positive@[graph[k].0 as int] || gaps[k] ==> positive@[graph[k].1 as int]) by {
            lemma_position(graph, count as nat, topo, graph[k].0 as int);
        }
        assert forall|x: int| 0 <= x < count implies #[trigger] reachable@[x] == reaches(graph, source as int, x) by {
            if reaches(graph, source as int, x) {
                let path = choose|path: Seq<int>| is_edge_path(graph, path, source as int, x);
                lemma_closed_positive_path(graph, gaps, reachable@, positive@, path, source as int, x);
            }
        }
        assert forall|x: int| 0 <= x < count implies #[trigger] positive@[x] == positively_reaches(graph, gaps, source as int, x) by {
            if positively_reaches(graph, gaps, source as int, x) {
                let path = choose|path: Seq<int>| #[trigger] is_edge_path(graph, path, source as int, x) && has_positive_edge(gaps, path);
                lemma_closed_positive_path(graph, gaps, reachable@, positive@, path, source as int, x);
            }
        }
    }
    (reachable, positive, parent)
}


/// Edge indices as integers.
pub open spec fn int_path(path: Seq<usize>) -> Seq<int> {
    path.map_values(|edge: usize| edge as int)
}

/// Putting an edge that ends where a path starts in front extends the path.
pub proof fn lemma_path_prepend(edges: Seq<(usize, usize)>, path: Seq<int>, middle: int, to: int, edge: int)
    requires
        is_edge_path(edges, path, middle, to),
        0 <= edge < edges.len(),
        edges[edge].1 == middle,
    ensures
        is_edge_path(edges, seq![edge] + path, edges[edge].0 as int, to),
{
    let longer = seq![edge] + path;
    assert forall|i: int, j: int|
        0 <= i && j == i + 1 && j < longer.len() implies edges[#[trigger] longer[i]].1 == edges[#[trigger] longer[j]].0 by {
        if i == 0 {
            assert(longer[j] == path[0]);
        } else {
            assert(longer[i] == path[i - 1]);
            assert(longer[j] == path[j - 1]);
        }
    }
    if path.len() > 0 {
        assert(longer.last() == path.last());
    }
}

/// Follows the recorded edges back from `target` to `source` and returns
/// the path they form, from `source` to `target`; it uses a positive gap
/// whenever `target` is positively reachable.
pub fn recorded_path(
    source: usize,
    target: usize,
    count: usize,
    edges: &Vec<(usize, usize)>,
    positive_gap: &Vec<bool>,
    order: &Vec<usize>,
    reachable: &Vec<bool>,
    positive: &Vec<bool>,
    parent: &Vec<Option<usize>>,
) -> (path: Vec<usize>)
    requires
        reach_facts(edges@, positive_gap@, count as nat, order@, source as int, reachable@, positive@, parent@),
        edges_in_range(edges@, count as nat),
        positive_gap@.len() == edges@.len(),
        is_topological(edges@, count as nat, order@),
        source < count,
        target < count,
        reachable@[target as int],
    ensures
        is_edge_path(edges@, int_path(path@), source as int, target as int),
        positive@[target as int] ==> has_positive_edge(positive_gap@, int_path(path@)),
        path@ == recorded_walk(edges@, positive_gap@, order@, reachable@, positive@, source as int, target as int, count as nat),
{
    let ghost graph = edges@;
    let ghost gaps = positive_gap@;
    let ghost topo = order@;
    let mut collected: Vec<usize> = Vec::new();
    let ghost mut walked: Seq<int> = Seq::empty();
    let mut cursor = target;
    let ghost mut fuel: nat = count as nat;
    let ghost whole = recorded_walk(graph, gaps, topo, reachable@, positive@, source as int, target as int, count as nat);
    proof {
        lemma_empty_path(graph, target as int);
        lemma_position(graph, count as nat, topo, target as int);
        assert(int_path(whole) =~= int_path(whole) + walked);
    }
    while cursor != source
        invariant
            whole == recorded_walk(graph, gaps, topo, reachable@, positive@, source as int, target as int, count as nat),
            position_of(topo, cursor as int) < fuel,
            int_path(whole) == int_path(recorded_walk(graph, gaps, topo, reachable@, positive@, source as int, cursor as int, fuel))
                + walked,
            reach_facts(graph, gaps, count as nat, topo, source as int, reachable@, positive@, parent@),
            graph == edges@,
            gaps == positive_gap@,
            topo == order@,
            edges_in_range(graph, count as nat),
            gaps.len() == graph.len(),
            is_topological(graph, count as nat, topo),
            source < count,
            cursor < count,
            reachable@[cursor as int],
            is_edge_path(graph, walked, cursor as int, target as int),
            positive@[target as int] ==> positive@[cursor as int] || has_positive_edge(gaps, walked),
            collected@.len() == walked.len(),
            forall|i: int| 0 <= i < walked.len() ==> #[trigger] walked[i] == collected@[walked.len() - 1 - i] as int,
        decreases position_of(topo, cursor as int),
    {
        proof {
            assert(parent_link(graph, gaps, topo, reachable@, positive@, parent@, cursor as int, count as int));
        }
        let edge = parent[cursor].unwrap();
        proof {
            assert(parent@[cursor as int] == Some(edge));
            lemma_first_explanation_unique(graph, gaps, topo, reachable@, positive@, cursor as int, edge as int);
            let lower = graph[edge as int].0 as int;
            let rest = recorded_walk(graph, gaps, topo, reachable@, positive@, source as int, lower, (fuel - 1) as nat);
            assert(recorded_walk(graph, gaps, topo, reachable@, positive@, source as int, cursor as int, fuel) == rest.push(edge));
            assert(int_path(rest.push(edge)) + walked =~= int_path(rest) + (seq![edge as int] + walked));
            lemma_path_prepend(graph, walked, cursor as int, target as int, edge as int);
            if positive@[target as int] && !has_positive_edge(gaps, walked) {
                let lower = graph[edge as int].0 as int;
                if !positive@[lower] {
                    assert(gaps[edge as int]);
                    assert((seq![edge as int] + walked)[0] == edge as int);
                }
            }
            if has_positive_edge(gaps, walked) {
                let i = choose|i: int| 0 <= i < walked.len() && #[trigger] gaps[walked[i]];
                assert((seq![edge as int] + walked)[i + 1] == walked[i]);
            }
        }
        let ghost previous = collected@;
        collected.push(edge);
        proof {
            let grown = seq![edge as int] + walked;
            assert forall|i: int| 0 <= i < grown.len() implies #[trigger] grown[i] == collected@[grown.len() - 1 - i] as int by {
                if i == 0 {
                    assert(collected@[grown.len() - 1] == edge);
                } else {
                    assert(grown[i] == walked[i - 1]);
                    assert(collected@[grown.len() - 1 - i] == previous[walked.len() - 1 - (i - 1)]);
                }
            }
            walked = grown;
            fuel = (fuel - 1) as nat;
        }
        cursor = edges[edge].0;
    }
    proof {
        assert(int_path(whole) =~= walked);
    }
    let mut path: Vec<usize> = Vec::new();
    let mut index: usize = collected.len();
    while index > 0
        invariant
            index <= collected@.len(),
            collected@.len() == walked.len(),
            path@.len() == collected@.len() - index,
            forall|i: int| 0 <= i < walked.len() ==> #[trigger] walked[i] == collected@[walked.len() - 1 - i] as int,
            forall|i: int| 0 <= i < path@.len() ==> #[trigger] path@[i] as int == walked[i],
        decreases index,
    {
        index = index - 1;
        path.push(collected[index]);
        proof {
            let i = path@.len() - 1;
            assert(walked[i] == collected@[walked.len() - 1 - i] as int);
        }
    }
    proof {
        assert(int_path(path@) =~= walked);
        assert(!positive@[source as int]);
        assert forall|i: int| 0 <= i < path@.len() implies path@[i] == whole[i] by {
            assert(int_path(path@)[i] == int_path(whole)[i]);
        }
        assert(path@ =~= whole);
    }
    path
}

} // verus!
