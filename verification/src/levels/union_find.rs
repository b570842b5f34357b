//! Disjoint-set forest in which every root is the smallest node of its set,
//! and the meaning of its sets: the equivalence classes generated by the
//! links merged so far.
use vstd::prelude::*;

verus! {

/// Every node points to itself or to a smaller node.
pub open spec fn parent_wf(parent: Seq<usize>) -> bool {
    forall|i: int| 0 <= i < parent.len() ==> #[trigger] parent[i] <= i
}

/// The root reached from `node` by following parent pointers.
pub open spec fn uf_root(parent: Seq<usize>, node: int) -> int
    decreases node,
{
    if 0 <= node < parent.len() && parent[node] < node {
        uf_root(parent, parent[node] as int)
    } else {
        node
    }
}

/// A labelling that gives both ends of every link the same label.
pub open spec fn respects(label: spec_fn(int) -> int, links: Seq<(int, int)>) -> bool {
    forall|k: int| 0 <= k < links.len() ==> label(#[trigger] links[k].0) == label(links[k].1)
}

/// Whether `x` and `y` lie in one class of the equivalence generated by
/// `links`: every labelling that respects the links labels them alike.
pub open spec fn linked(links: Seq<(int, int)>, x: int, y: int) -> bool {
    forall|label: spec_fn(int) -> int| #[trigger] respects(label, links) ==> label(x) == label(y)
}

/// Every link joins two nodes below `count`.
pub open spec fn links_in_range(links: Seq<(int, int)>, count: int) -> bool {
    forall|k: int|
        0 <= k < links.len() ==> 0 <= #[trigger] links[k].0 < count && 0 <= links[k].1 < count
}

/// The forest's sets are exactly the classes generated by `links`.
pub open spec fn represents(parent: Seq<usize>, links: Seq<(int, int)>) -> bool {
    &&& parent_wf(parent)
    &&& links_in_range(links, parent.len() as int)
    &&& forall|k: int|
        0 <= k < links.len() ==> uf_root(parent, #[trigger] links[k].0) == uf_root(
            parent,
            links[k].1,
        )
    &&& forall|x: int, y: int|
        0 <= x < parent.len() && 0 <= y < parent.len() && #[trigger] uf_root(parent, x)
            == #[trigger] uf_root(parent, y) ==> linked(links, x, y)
}

/// Roots are fixed points no larger than the node they are reached from.
pub proof fn lemma_root_bounds(parent: Seq<usize>, node: int)
    requires
        parent_wf(parent),
        0 <= node < parent.len(),
    ensures
        0 <= uf_root(parent, node) <= node,
        parent[uf_root(parent, node)] == uf_root(parent, node),
        uf_root(parent, uf_root(parent, node)) == uf_root(parent, node),
    decreases node,
{
    if parent[node] < node {
        lemma_root_bounds(parent, parent[node] as int);
    }
}

/// Follows parent pointers to the root of `node`.
pub fn find_root(parent: &Vec<usize>, node: usize) -> (root: usize)
    requires
        parent_wf(parent@),
        node < parent@.len(),
    ensures
        root == uf_root(parent@, node as int),
{
    let mut current = node;
    while parent[current] != current
        invariant
            parent_wf(parent@),
            current < parent@.len(),
            uf_root(parent@, current as int) == uf_root(parent@, node as int),
        decreases current,
    {
        current = parent[current];
    }
    current
}

/// Merges the sets of `left` and `right`; the larger of the two roots is
/// attached below the smaller one.
pub fn union(parent: &mut Vec<usize>, left: usize, right: usize)
    requires
        parent_wf(old(parent)@),
        left < old(parent)@.len(),
        right < old(parent)@.len(),
    ensures
        parent_wf(final(parent)@),
        final(parent)@.len() == old(parent)@.len(),
        forall|x: int|
            0 <= x < old(parent)@.len() ==> #[trigger] uf_root(final(parent)@, x) == merged_root(
                old(parent)@,
                left as int,
                right as int,
                x,
            ),
{
    let left_root = find_root(parent, left);
    let right_root = find_root(parent, right);
    proof {
        lemma_root_bounds(parent@, left as int);
        lemma_root_bounds(parent@, right as int);
    }
    if left_root != right_root {
        let (smaller, larger) = if left_root < right_root {
            (left_root, right_root)
        } else {
            (right_root, left_root)
        };
        let ghost before = parent@;
        parent.set(larger, smaller);
        proof {
            assert forall|x: int| 0 <= x < before.len() implies #[trigger] uf_root(parent@, x)
                == merged_root(before, left as int, right as int, x) by {
                lemma_attach_root(before, smaller as int, larger as int, x);
            }
        }
    } else {
        proof {
            assert forall|x: int| 0 <= x < parent@.len() implies #[trigger] uf_root(parent@, x)
                == merged_root(parent@, left as int, right as int, x) by {
                lemma_root_bounds(parent@, x);
            }
        }
    }
}

/// The root of `x` once the sets of `left` and `right` are merged.
pub open spec fn merged_root(parent: Seq<usize>, left: int, right: int, x: int) -> int {
    let a = uf_root(parent, left);
    let b = uf_root(parent, right);
    let smaller = if a < b {
        a
    } else {
        b
    };
    let larger = if a < b {
        b
    } else {
        a
    };
    if uf_root(parent, x) == larger {
        smaller
    } else {
        uf_root(parent, x)
    }
}

/// Attaching root `larger` below root `smaller` sends exactly the nodes of
/// `larger`'s set to `smaller`.
pub proof fn lemma_attach_root(parent: Seq<usize>, smaller: int, larger: int, x: int)
    requires
        parent_wf(parent),
        0 <= smaller < larger < parent.len(),
        parent[smaller] == smaller,
        parent[larger] == larger,
        0 <= x < parent.len(),
    ensures
        uf_root(parent.update(larger, smaller as usize), x) == if uf_root(parent, x) == larger {
            smaller
        } else {
            uf_root(parent, x)
        },
    decreases x,
{
    let updated = parent.update(larger, smaller as usize);
    if x == larger {
        assert(uf_root(updated, smaller) == smaller);
    } else if parent[x] < x {
        lemma_attach_root(parent, smaller, larger, parent[x] as int);
    }
}

/// Merging the sets of the ends of a new link keeps the forest an exact
/// representation of the generated classes.
pub proof fn lemma_union_represents(
    before: Seq<usize>,
    after: Seq<usize>,
    links: Seq<(int, int)>,
    left: int,
    right: int,
)
    requires
        represents(before, links),
        0 <= left < before.len(),
        0 <= right < before.len(),
        parent_wf(after),
        after.len() == before.len(),
        forall|x: int|
            0 <= x < before.len() ==> #[trigger] uf_root(after, x) == merged_root(
                before,
                left,
                right,
                x,
            ),
    ensures
        represents(after, links.push((left, right))),
{
    let grown = links.push((left, right));
    let a = uf_root(before, left);
    let b = uf_root(before, right);
    assert forall|k: int| 0 <= k < grown.len() implies uf_root(after, #[trigger] grown[k].0)
        == uf_root(after, grown[k].1) by {
        if k < links.len() {
            assert(grown[k] == links[k]);
            assert(uf_root(before, links[k].0) == uf_root(before, links[k].1));
        }
    }
    assert forall|x: int, y: int|
        0 <= x < after.len() && 0 <= y < after.len() && #[trigger] uf_root(after, x)
            == #[trigger] uf_root(after, y) implies linked(grown, x, y) by {
        assert forall|label: spec_fn(int) -> int| #[trigger] respects(label, grown) implies label(
            x,
        ) == label(y) by {
            assert(respects(label, links)) by {
                assert forall|k: int| 0 <= k < links.len() implies label(#[trigger] links[k].0)
                    == label(links[k].1) by {
                    assert(grown[k] == links[k]);
                }
            }
            let last = links.len() as int;
            assert(grown[last] == (left, right));
            assert(label(grown[last].0) == label(grown[last].1));
            assert(label(left) == label(right));
            let rx = uf_root(before, x);
            let ry = uf_root(before, y);
            if rx == ry {
                assert(linked(links, x, y));
            } else {
                lemma_root_bounds(before, left);
                lemma_root_bounds(before, right);
                lemma_root_bounds(before, x);
                lemma_root_bounds(before, y);
                if rx == a {
                    assert(uf_root(before, left) == uf_root(before, x));
                    assert(linked(links, x, left));
                } else {
                    assert(uf_root(before, right) == uf_root(before, x));
                    assert(linked(links, x, right));
                }
                if ry == a {
                    assert(uf_root(before, left) == uf_root(before, y));
                    assert(linked(links, y, left));
                } else {
                    assert(uf_root(before, right) == uf_root(before, y));
                    assert(linked(links, y, right));
                }
            }
        }
    }
}

/// In an exact representation, sharing a root is being linked.
pub proof fn lemma_root_iff_linked(parent: Seq<usize>, links: Seq<(int, int)>, x: int, y: int)
    requires
        represents(parent, links),
        0 <= x < parent.len(),
        0 <= y < parent.len(),
    ensures
        (uf_root(parent, x) == uf_root(parent, y)) <==> linked(links, x, y),
{
    if linked(links, x, y) {
        let label = |node: int| uf_root(parent, node);
        assert(respects(label, links)) by {
            assert forall|k: int| 0 <= k < links.len() implies label(#[trigger] links[k].0) == label(
                links[k].1,
            ) by {
                assert(uf_root(parent, links[k].0) == uf_root(parent, links[k].1));
            }
        }
        assert(label(x) == label(y));
    }
}

/// A forest of singletons represents the empty set of links.
pub fn singletons(count: usize) -> (parent: Vec<usize>)
    ensures
        parent@.len() == count,
        represents(parent@, Seq::<(int, int)>::empty()),
        forall|x: int| 0 <= x < count ==> #[trigger] uf_root(parent@, x) == x,
{
    let mut parent: Vec<usize> = Vec::new();
    let mut index: usize = 0;
    while index < count
        invariant
            index <= count,
            parent@.len() == index,
            forall|i: int| 0 <= i < index ==> #[trigger] parent@[i] == i,
        decreases count - index,
    {
        parent.push(index);
        index = index + 1;
    }
    proof {
        assert forall|x: int| 0 <= x < count implies #[trigger] uf_root(parent@, x) == x by {
            assert(parent@[x] == x);
        }
        assert forall|x: int, y: int|
            0 <= x < parent@.len() && 0 <= y < parent@.len() && #[trigger] uf_root(parent@, x)
                == #[trigger] uf_root(parent@, y) implies linked(
            Seq::<(int, int)>::empty(),
            x,
            y,
        ) by {
            assert(parent@[x] == x);
            assert(parent@[y] == y);
        }
    }
    parent
}

} // verus!
