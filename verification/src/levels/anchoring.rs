//! Gauge and contrast: every connected component of levels (connected by
//! order edges, and through the field by memberships) needs a fixed value or
//! prior, and the system must impose some nonzero contrast.
use vstd::prelude::*;

use crate::levels::membership::{point_coupled, MembershipEquality};
use crate::levels::order_graph::{edges_in_range, is_topological, positive_reachability, positively_reaches};
use crate::levels::union_find::{
    find_root, lemma_root_bounds, lemma_root_iff_linked, lemma_union_represents, linked, represents,
    singletons, uf_root, union,
};
use crate::levels::{LevelDefinition, LevelId};

verus! {

/// Links of the gauge graph over the levels and one extra field node `n`:
/// each membership links its level to the field, each order edge its ends.
pub open spec fn gauge_links(membership_levels: Seq<usize>, order_indices: Seq<(usize, usize)>, n: int) -> Seq<(int, int)> {
    membership_levels.map_values(|level: usize| (level as int, n)) + order_indices.map_values(
        |edge: (usize, usize)| (edge.0 as int, edge.1 as int),
    )
}

/// The forest of the gauge graph.
pub fn gauge_forest(level_count: usize, membership_levels: &Vec<usize>, order_indices: &Vec<(usize, usize)>) -> (parent: Vec<usize>)
    requires
        level_count < usize::MAX,
        forall|m: int| 0 <= m < membership_levels@.len() ==> #[trigger] membership_levels@[m] < level_count,
        edges_in_range(order_indices@, level_count as nat),
    ensures
        parent@.len() == level_count + 1,
        represents(parent@, gauge_links(membership_levels@, order_indices@, level_count as int)),
{
    let field = level_count;
    let mut parent = singletons(level_count + 1);
    let ghost target = gauge_links(membership_levels@, order_indices@, level_count as int);
    let mut m: usize = 0;
    while m < membership_levels.len()
        invariant
            field == level_count,
            level_count < usize::MAX,
            target == gauge_links(membership_levels@, order_indices@, level_count as int),
            forall|i: int| 0 <= i < membership_levels@.len() ==> #[trigger] membership_levels@[i] < level_count,
            m <= membership_levels@.len(),
            parent@.len() == level_count + 1,
            represents(parent@, target.take(m as int)),
        decreases membership_levels@.len() - m,
    {
        let ghost before = parent@;
        union(&mut parent, membership_levels[m], field);
        proof {
            lemma_union_represents(before, parent@, target.take(m as int), membership_levels@[m as int] as int, field as int);
            assert(target.take(m as int).push((membership_levels@[m as int] as int, field as int)) =~= target.take(m + 1));
        }
        m = m + 1;
    }
    let mut k: usize = 0;
    while k < order_indices.len()
        invariant
            field == level_count,
            level_count < usize::MAX,
            target == gauge_links(membership_levels@, order_indices@, level_count as int),
            edges_in_range(order_indices@, level_count as nat),
            k <= order_indices@.len(),
            parent@.len() == level_count + 1,
            represents(parent@, target.take(membership_levels@.len() + k)),
        decreases order_indices@.len() - k,
    {
        let (lower, upper) = order_indices[k];
        let ghost before = parent@;
        proof {
            assert(order_indices@[k as int].0 < level_count && order_indices@[k as int].1 < level_count);
        }
        union(&mut parent, lower, upper);
        proof {
            let prefix = target.take(membership_levels@.len() + k);
            lemma_union_represents(before, parent@, prefix, lower as int, upper as int);
            assert(prefix.push((lower as int, upper as int)) =~= target.take(membership_levels@.len() + k + 1));
        }
        k = k + 1;
    }
    proof {
        assert(target.take(membership_levels@.len() + k) =~= target);
    }
    parent
}

/// Whether level `x` is the smallest level of its gauge component and no
/// level of that component is fixed or has a prior.
pub open spec fn ungauged_representative(links: Seq<(int, int)>, levels: Seq<LevelDefinition>, x: int) -> bool {
    &&& forall|y: int| 0 <= y < x ==> !#[trigger] linked(links, x, y)
    &&& forall|y: int| 0 <= y < levels.len() && #[trigger] linked(links, x, y) ==> !levels[y].value.anchors_gauge()
}

/// Number of levels below `upto` that represent an ungauged component.
pub open spec fn ungauged_count(links: Seq<(int, int)>, levels: Seq<LevelDefinition>, upto: int) -> nat
    decreases upto,
{
    if upto <= 0 {
        0
    } else {
        ungauged_count(links, levels, upto - 1) + if ungauged_representative(links, levels, upto - 1) {
            1nat
        } else {
            0nat
        }
    }
}

/// Counts the gauge components without a fixed value or prior.
pub fn count_ungauged(levels: &Vec<LevelDefinition>, membership_levels: &Vec<usize>, order_indices: &Vec<(usize, usize)>) -> (count: usize)
    requires
        levels@.len() < usize::MAX,
        forall|m: int| 0 <= m < membership_levels@.len() ==> #[trigger] membership_levels@[m] < levels@.len(),
        edges_in_range(order_indices@, levels@.len() as nat),
    ensures
        count == ungauged_count(gauge_links(membership_levels@, order_indices@, levels@.len() as int), levels@, levels@.len() as int),
{
    let n = levels.len();
    let parent = gauge_forest(n, membership_levels, order_indices);
    let ghost links = gauge_links(membership_levels@, order_indices@, n as int);
    let mut count: usize = 0;
    let mut x: usize = 0;
    while x < n
        invariant
            n == levels@.len(),
            parent@.len() == n + 1,
            represents(parent@, links),
            x <= n,
            count == ungauged_count(links, levels@, x as int),
            count <= x,
        decreases n - x,
    {
        let root = find_root(&parent, x);
        let mut anchored = false;
        if root == x {
            let mut y: usize = 0;
            while y < n
                invariant
                    n == levels@.len(),
                    parent@.len() == n + 1,
                    represents(parent@, links),
                    y <= n,
                    x < n,
                    root == uf_root(parent@, x as int),
                    anchored <==> exists|z: int| 0 <= z < y && uf_root(parent@, z) == root && #[trigger] levels@[z].value.anchors_gauge(),
                decreases n - y,
            {
                if find_root(&parent, y) == root && levels[y].value.is_anchor() {
                    anchored = true;
                }
                y = y + 1;
            }
        }
        proof {
            lemma_root_bounds(parent@, x as int);
            let is_rep = ungauged_representative(links, levels@, x as int);
            if root == x && !anchored {
                assert forall|y: int| 0 <= y < x implies !#[trigger] linked(links, x as int, y) by {
                    lemma_root_iff_linked(parent@, links, x as int, y);
                    lemma_root_bounds(parent@, y);
                }
                assert forall|y: int| 0 <= y < levels@.len() && #[trigger] linked(links, x as int, y) implies !levels@[y].value.anchors_gauge() by {
                    lemma_root_iff_linked(parent@, links, x as int, y);
                }
                assert(is_rep);
            } else if root != x {
                let r = uf_root(parent@, x as int);
                lemma_root_iff_linked(parent@, links, x as int, r);
                assert(linked(links, x as int, r));
            } else {
                let z = choose|z: int| 0 <= z < n && uf_root(parent@, z) == root && #[trigger] levels@[z].value.anchors_gauge();
                lemma_root_iff_linked(parent@, links, x as int, z);
            }
        }
        if root == x && !anchored {
            count = count + 1;
        }
        x = x + 1;
    }
    count
}

/// Whether two levels holding memberships carry different anchors (fixed
/// values or prior means) while membership equality does not make them
/// equal: a difference between them is then imposed.
pub open spec fn distinct_anchor_pair(
    levels: Seq<LevelDefinition>,
    membership_levels: Seq<usize>,
    points: Seq<Seq<u64>>,
    a: int,
    b: int,
) -> bool {
    &&& 0 <= a < b < levels.len()
    &&& membership_levels.contains(a as usize)
    &&& membership_levels.contains(b as usize)
    &&& levels[a].value.anchor_key() is Some
    &&& levels[b].value.anchor_key() is Some
    &&& levels[a].value.anchor_key() != levels[b].value.anchor_key()
    &&& !point_coupled(membership_levels, points, a, b)
}

/// Whether a positive order gap separates two levels that hold memberships.
pub open spec fn membership_gap(
    membership_levels: Seq<usize>,
    edges: Seq<(usize, usize)>,
    positive_gap: Seq<bool>,
    s: int,
    t: int,
) -> bool {
    &&& s != t
    &&& membership_levels.contains(s as usize)
    &&& membership_levels.contains(t as usize)
    &&& positively_reaches(edges, positive_gap, s, t)
}

/// Whether the system imposes a nonzero contrast between levels.
pub open spec fn has_contrast(
    levels: Seq<LevelDefinition>,
    membership_levels: Seq<usize>,
    points: Seq<Seq<u64>>,
    edges: Seq<(usize, usize)>,
    positive_gap: Seq<bool>,
) -> bool {
    (exists|s: int, t: int| #[trigger] membership_gap(membership_levels, edges, positive_gap, s, t)) || (exists|a: int, b: int|
        #[trigger] distinct_anchor_pair(levels, membership_levels, points, a, b))
}

/// Whether some positive gap separates two levels with memberships.
fn any_membership_gap(
    level_count: usize,
    flags: &Vec<bool>,
    membership_levels: &Vec<usize>,
    order_indices: &Vec<(usize, usize)>,
    positive_gap: &Vec<bool>,
    topological: &Vec<usize>,
) -> (found: bool)
    requires
        flags@.len() == level_count,
        forall|x: int| 0 <= x < level_count ==> #[trigger] flags@[x] == membership_levels@.contains(x as usize),
        forall|m: int| 0 <= m < membership_levels@.len() ==> #[trigger] membership_levels@[m] < level_count,
        positive_gap@.len() == order_indices@.len(),
        edges_in_range(order_indices@, level_count as nat),
        is_topological(order_indices@, level_count as nat, topological@),
    ensures
        found == exists|s: int, t: int| #[trigger] membership_gap(membership_levels@, order_indices@, positive_gap@, s, t),
{
    let mut source: usize = 0;
    while source < level_count
        invariant
            flags@.len() == level_count,
            forall|x: int| 0 <= x < level_count ==> #[trigger] flags@[x] == membership_levels@.contains(x as usize),
            forall|m: int| 0 <= m < membership_levels@.len() ==> #[trigger] membership_levels@[m] < level_count,
            positive_gap@.len() == order_indices@.len(),
            edges_in_range(order_indices@, level_count as nat),
            is_topological(order_indices@, level_count as nat, topological@),
            source <= level_count,
            forall|s: int, t: int| s < source ==> !#[trigger] membership_gap(membership_levels@, order_indices@, positive_gap@, s, t),
        decreases level_count - source,
    {
        if flags[source] {
            let (reachable, positive, parent) = positive_reachability(source, level_count, order_indices, positive_gap, topological);
            let mut target: usize = 0;
            while target < level_count
                invariant
                    flags@.len() == level_count,
                    forall|x: int| 0 <= x < level_count ==> #[trigger] flags@[x] == membership_levels@.contains(x as usize),
                    source < level_count,
                    flags@[source as int],
                    positive@.len() == level_count,
                    forall|x: int| 0 <= x < level_count ==> #[trigger] positive@[x] == positively_reaches(order_indices@, positive_gap@, source as int, x),
                    target <= level_count,
                    forall|t: int| 0 <= t < target ==> !#[trigger] membership_gap(membership_levels@, order_indices@, positive_gap@, source as int, t),
                decreases level_count - target,
            {
                if target != source && flags[target] && positive[target] {
                    proof {
                        assert(membership_gap(membership_levels@, order_indices@, positive_gap@, source as int, target as int));
                    }
                    return true;
                }
                target = target + 1;
            }
            proof {
                assert forall|t: int| !#[trigger] membership_gap(membership_levels@, order_indices@, positive_gap@, source as int, t) by {
                    if t >= level_count && membership_gap(membership_levels@, order_indices@, positive_gap@, source as int, t) {
                        let j = choose|j: int| 0 <= j < membership_levels@.len() && membership_levels@[j] == t as usize;
                        assert(membership_levels@[j] < level_count);
                    }
                    if t < 0 && membership_gap(membership_levels@, order_indices@, positive_gap@, source as int, t) {
                        let j = choose|j: int| 0 <= j < membership_levels@.len() && membership_levels@[j] == t as usize;
                        assert(membership_levels@[j] < level_count);
                    }
                }
            }
        } else {
            proof {
                assert forall|t: int| !#[trigger] membership_gap(membership_levels@, order_indices@, positive_gap@, source as int, t) by {
                    assert(!flags@[source as int]);
                }
            }
        }
        source = source + 1;
    }
    proof {
        assert forall|s: int, t: int| !#[trigger] membership_gap(membership_levels@, order_indices@, positive_gap@, s, t) by {
            if s >= level_count && membership_gap(membership_levels@, order_indices@, positive_gap@, s, t) {
                let j = choose|j: int| 0 <= j < membership_levels@.len() && membership_levels@[j] == s as usize;
                assert(membership_levels@[j] < level_count);
            }
        }
    }
    false
}

/// Whether two levels with memberships carry different anchors without
/// membership equality making them equal.
fn any_distinct_anchor_pair(
    levels: &Vec<LevelDefinition>,
    flags: &Vec<bool>,
    equality: &MembershipEquality,
    Ghost(membership_levels): Ghost<Seq<usize>>,
    Ghost(points): Ghost<Seq<Seq<u64>>>,
) -> (found: bool)
    requires
        equality.wf(levels@.len() as nat, membership_levels, points),
        flags@.len() == levels@.len(),
        forall|x: int| 0 <= x < levels@.len() ==> #[trigger] flags@[x] == membership_levels.contains(x as usize),
    ensures
        found == exists|a: int, b: int| #[trigger] distinct_anchor_pair(levels@, membership_levels, points, a, b),
{
    let n = levels.len();
    let mut first: usize = 0;
    while first < n
        invariant
            n == levels@.len(),
            equality.wf(levels@.len() as nat, membership_levels, points),
            flags@.len() == levels@.len(),
            forall|x: int| 0 <= x < levels@.len() ==> #[trigger] flags@[x] == membership_levels.contains(x as usize),
            first <= n,
            forall|a: int, b: int| a < first ==> !#[trigger] distinct_anchor_pair(levels@, membership_levels, points, a, b),
        decreases n - first,
    {
        if flags[first] {
            if let Some(first_key) = levels[first].value.anchor() {
                let mut second: usize = first + 1;
                while second < n
                    invariant
                        n == levels@.len(),
                        equality.wf(levels@.len() as nat, membership_levels, points),
                        flags@.len() == levels@.len(),
                        forall|x: int| 0 <= x < levels@.len() ==> #[trigger] flags@[x] == membership_levels.contains(x as usize),
                        first < n,
                        flags@[first as int],
                        levels@[first as int].value.anchor_key() == Some(first_key),
                        first + 1 <= second <= n,
                        forall|b: int| b < second ==> !#[trigger] distinct_anchor_pair(levels@, membership_levels, points, first as int, b),
                    decreases n - second,
                {
                    if flags[second] {
                        if let Some(second_key) = levels[second].value.anchor() {
                            if second_key != first_key && !equality.same_component(
                                first,
                                second,
                                Ghost(levels@.len() as nat),
                                Ghost(membership_levels),
                                Ghost(points),
                            ) {
                                proof {
                                    assert(distinct_anchor_pair(levels@, membership_levels, points, first as int, second as int));
                                }
                                return true;
                            }
                        }
                    }
                    second = second + 1;
                }
            }
        }
        first = first + 1;
    }
    false
}

/// The levels named in a missing-contrast diagnostic: the level of the first
/// membership, and another level that is either the level of the first
/// membership at a different level or, failing that, the smallest other
/// level tied to the field.
pub open spec fn contrast_partner(
    links: Seq<(int, int)>,
    membership_levels: Seq<usize>,
    level_count: int,
    partner: Option<int>,
) -> bool {
    let first = membership_levels[0] as int;
    if exists|m: int| 0 <= m < membership_levels.len() && #[trigger] membership_levels[m] != first {
        exists|m: int|
            0 <= m < membership_levels.len() && #[trigger] membership_levels[m] != first && partner == Some(
                membership_levels[m] as int,
            ) && forall|earlier: int| 0 <= earlier < m ==> membership_levels[earlier] == first
    } else if exists|i: int| 0 <= i < level_count && i != first && #[trigger] linked(links, i, level_count) {
        exists|i: int|
            0 <= i < level_count && i != first && #[trigger] linked(links, i, level_count) && partner == Some(i) && forall|
                j: int,
            | 0 <= j < i && j != first ==> !linked(links, j, level_count)
    } else {
        partner is None
    }
}

/// Checks that the system imposes a nonzero contrast; otherwise returns the
/// two levels of the diagnostic.
pub(crate) fn missing_contrast(
    levels: &Vec<LevelDefinition>,
    membership_levels: &Vec<usize>,
    order_indices: &Vec<(usize, usize)>,
    positive_gap: &Vec<bool>,
    topological: &Vec<usize>,
    equality: &MembershipEquality,
    Ghost(points): Ghost<Seq<Seq<u64>>>,
) -> (missing: Option<(LevelId, Option<LevelId>)>)
    requires
        levels@.len() < usize::MAX,
        membership_levels@.len() > 0,
        forall|m: int| 0 <= m < membership_levels@.len() ==> #[trigger] membership_levels@[m] < levels@.len(),
        positive_gap@.len() == order_indices@.len(),
        edges_in_range(order_indices@, levels@.len() as nat),
        is_topological(order_indices@, levels@.len() as nat, topological@),
        equality.wf(levels@.len() as nat, membership_levels@, points),
    ensures
        missing is None <==> has_contrast(levels@, membership_levels@, points, order_indices@, positive_gap@),
        missing matches Some((first, second)) ==> first == levels@[membership_levels@[0] as int].level_id && exists|partner: Option<int>|
            #[trigger] contrast_partner(
                gauge_links(membership_levels@, order_indices@, levels@.len() as int),
                membership_levels@,
                levels@.len() as int,
                partner,
            ) && second == match partner {
                Some(index) => Some(levels@[index].level_id),
                None => None::<LevelId>,
            },
{
    let n = levels.len();
    let flags = crate::levels::conflicts::membership_flags(n, membership_levels);
    if any_membership_gap(n, &flags, membership_levels, order_indices, positive_gap, topological) {
        return None;
    }
    if any_distinct_anchor_pair(levels, &flags, equality, Ghost(membership_levels@), Ghost(points)) {
        return None;
    }
    let first_index = membership_levels[0];
    let mut partner: Option<usize> = None;
    let mut m: usize = 0;
    while m < membership_levels.len()
        invariant
            m <= membership_levels@.len(),
            first_index == membership_levels@[0],
            membership_levels@.len() > 0,
            partner is None ==> forall|earlier: int| 0 <= earlier < m ==> membership_levels@[earlier] == first_index,
            partner matches Some(p) ==> exists|found: int|
                0 <= found < membership_levels@.len() && #[trigger] membership_levels@[found] != first_index && p
                    == membership_levels@[found] && forall|earlier: int| 0 <= earlier < found ==> membership_levels@[earlier] == first_index,
        decreases membership_levels@.len() - m,
    {
        if partner.is_none() && membership_levels[m] != first_index {
            partner = Some(membership_levels[m]);
        }
        m = m + 1;
    }
    let ghost links = gauge_links(membership_levels@, order_indices@, n as int);
    if partner.is_none() {
        let parent = gauge_forest(n, membership_levels, order_indices);
        let field_root = find_root(&parent, n);
        let mut i: usize = 0;
        while i < n
            invariant
                n == levels@.len(),
                parent@.len() == n + 1,
                represents(parent@, links),
                field_root == uf_root(parent@, n as int),
                i <= n,
                partner is None ==> forall|j: int| 0 <= j < i && j != first_index ==> !linked(links, j, n as int),
                partner matches Some(p) ==> p < n && p != first_index && linked(links, p as int, n as int) && forall|j: int|
                    0 <= j < p && j != first_index ==> !linked(links, j, n as int),
            decreases n - i,
        {
            if partner.is_none() && i != first_index && find_root(&parent, i) == field_root {
                proof {
                    lemma_root_iff_linked(parent@, links, i as int, n as int);
                }
                partner = Some(i);
            } else {
                proof {
                    if partner.is_none() && i != first_index {
                        lemma_root_iff_linked(parent@, links, i as int, n as int);
                    }
                }
            }
            i = i + 1;
        }
        proof {
            let ghost_partner = match partner {
                Some(p) => Some(p as int),
                None => None::<int>,
            };
            assert(contrast_partner(links, membership_levels@, n as int, ghost_partner));
        }
    } else {
        proof {
            let p = partner->0;
            let found = choose|found: int|
                0 <= found < membership_levels@.len() && #[trigger] membership_levels@[found] != first_index && p
                    == membership_levels@[found] && forall|earlier: int| 0 <= earlier < found ==> membership_levels@[earlier] == first_index;
            assert(contrast_partner(links, membership_levels@, n as int, Some(p as int)));
        }
    }
    let second = match partner {
        Some(index) => Some(levels[index].level_id),
        None => None,
    };
    proof {
        let ghost_partner = match partner {
            Some(p) => Some(p as int),
            None => None::<int>,
        };
        assert(contrast_partner(links, membership_levels@, n as int, ghost_partner));
    }
    Some((levels[first_index].level_id, second))
}

} // verus!
