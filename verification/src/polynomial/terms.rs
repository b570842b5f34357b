//! The deterministic sequence of multi-indices spanning a complete
//! polynomial space, and its basic properties.
use vstd::prelude::*;

use crate::polynomial::combinatorics::{binomial, lemma_binomial_diagonal};

verus! {

/// Sum of a sequence of exponents.
pub open spec fn exponent_sum(exponents: Seq<usize>) -> nat
    decreases exponents.len(),
{
    if exponents.len() == 0 {
        0
    } else {
        exponent_sum(exponents.drop_last()) + exponents.last() as nat
    }
}

/// All exponent vectors of length `dimension` whose total degree is exactly
/// `degree`, ordered lexicographically with larger leading exponents first.
pub open spec fn exact_degree_terms(dimension: nat, degree: nat) -> Seq<Seq<usize>>
    decreases dimension, degree + 2,
{
    if dimension == 0 {
        if degree == 0 {
            seq![Seq::<usize>::empty()]
        } else {
            Seq::<Seq<usize>>::empty()
        }
    } else {
        descending_blocks(dimension, degree, degree + 1)
    }
}

/// The first `count` blocks of [`exact_degree_terms`]`(dimension, degree)`:
/// block `j` holds the vectors whose leading exponent is `degree - j`.
pub open spec fn descending_blocks(dimension: nat, degree: nat, count: nat) -> Seq<Seq<usize>>
    decreases dimension, count,
{
    if dimension == 0 || count == 0 {
        Seq::<Seq<usize>>::empty()
    } else {
        descending_blocks(dimension, degree, (count - 1) as nat) + exact_degree_terms(
            (dimension - 1) as nat,
            (count - 1) as nat,
        ).map_values(|tail: Seq<usize>| seq![(degree - (count - 1)) as usize] + tail)
    }
}

/// All exponent vectors of length `dimension` with total degree below
/// `degree_bound`, by increasing degree.
pub open spec fn terms_below_degree(dimension: nat, degree_bound: nat) -> Seq<Seq<usize>>
    decreases degree_bound,
{
    if degree_bound == 0 {
        Seq::<Seq<usize>>::empty()
    } else {
        terms_below_degree(dimension, (degree_bound - 1) as nat) + exact_degree_terms(
            dimension,
            (degree_bound - 1) as nat,
        )
    }
}

/// All exponent vectors of length `dimension` with total degree at most
/// `maximum_degree`: first by increasing total degree, then, within one
/// degree, lexicographically with larger exponents on earlier axes first.
pub open spec fn complete_terms(dimension: nat, maximum_degree: nat) -> Seq<Seq<usize>> {
    terms_below_degree(dimension, maximum_degree + 1)
}

pub proof fn lemma_exponent_sum_empty()
    ensures
        exponent_sum(Seq::<usize>::empty()) == 0,
{
}

/// Extending a prefix by one element adds that element to its sum.
pub proof fn lemma_exponent_sum_take_step(exponents: Seq<usize>, index: int)
    requires
        0 <= index < exponents.len(),
    ensures
        exponent_sum(exponents.take(index + 1)) == exponent_sum(exponents.take(index))
            + exponents[index],
{
    assert(exponents.take(index + 1).drop_last() =~= exponents.take(index));
}

/// A prefix never sums to more than the whole sequence.
pub proof fn lemma_exponent_sum_prefix_bound(exponents: Seq<usize>, index: int)
    requires
        0 <= index <= exponents.len(),
    ensures
        exponent_sum(exponents.take(index)) <= exponent_sum(exponents),
    decreases exponents.len(),
{
    if index == exponents.len() {
        assert(exponents.take(index) =~= exponents);
    } else {
        let shorter = exponents.drop_last();
        assert(exponents.take(index) =~= shorter.take(index));
        lemma_exponent_sum_prefix_bound(shorter, index);
    }
}

/// The sum of a concatenation is the sum of the parts.
pub proof fn lemma_exponent_sum_concat(left: Seq<usize>, right: Seq<usize>)
    ensures
        exponent_sum(left + right) == exponent_sum(left) + exponent_sum(right),
    decreases right.len(),
{
    if right.len() == 0 {
        assert(left + right =~= left);
    } else {
        assert((left + right).drop_last() =~= left + right.drop_last());
        lemma_exponent_sum_concat(left, right.drop_last());
    }
}

proof fn lemma_descending_single_axis(degree: nat, count: nat)
    requires
        1 <= count <= degree + 1,
    ensures
        descending_blocks(1, degree, count) == seq![seq![degree as usize]],
    decreases count,
{
    let block = exact_degree_terms(0, (count - 1) as nat).map_values(
        |tail: Seq<usize>| seq![(degree - (count - 1)) as usize] + tail,
    );
    if count == 1 {
        assert(descending_blocks(1, degree, 0) =~= Seq::<Seq<usize>>::empty());
        assert(block =~= seq![seq![degree as usize]]) by {
            assert(seq![degree as usize] + Seq::<usize>::empty() =~= seq![degree as usize]);
        }
        assert(descending_blocks(1, degree, 1) =~= seq![seq![degree as usize]]);
    } else {
        lemma_descending_single_axis(degree, (count - 1) as nat);
        assert(block =~= Seq::<Seq<usize>>::empty());
        assert(descending_blocks(1, degree, count) =~= seq![seq![degree as usize]]);
    }
}

/// With one axis, the only vector of a given degree is that degree itself.
pub proof fn lemma_exact_single_axis(degree: nat)
    ensures
        exact_degree_terms(1, degree) == seq![seq![degree as usize]],
{
    lemma_descending_single_axis(degree, degree + 1);
}

/// In positive dimension, the exact-degree terms are all of their blocks.
pub proof fn lemma_exact_is_descending(dimension: nat, degree: nat)
    requires
        dimension >= 1,
    ensures
        exact_degree_terms(dimension, degree) == descending_blocks(dimension, degree, degree + 1),
{
}

/// Prefixing every vector of the first `step + 1` blocks equals prefixing
/// the first `step` blocks and then appending the next block's tails under
/// the prefix extended by that block's leading exponent.
pub proof fn lemma_block_prefix_shift(dimension: nat, degree: nat, step: nat, prefix: Seq<usize>)
    requires
        dimension >= 1,
        step <= degree,
    ensures
        descending_blocks(dimension, degree, step + 1).map_values(|t: Seq<usize>| prefix + t)
            == descending_blocks(dimension, degree, step).map_values(|t: Seq<usize>| prefix + t)
            + exact_degree_terms((dimension - 1) as nat, step).map_values(
            |t: Seq<usize>| prefix.push((degree - step) as usize) + t,
        ),
{
    let leading = (degree - step) as usize;
    let tails = exact_degree_terms((dimension - 1) as nat, step);
    let block = tails.map_values(|tail: Seq<usize>| seq![leading] + tail);
    let earlier = descending_blocks(dimension, degree, step);
    assert(descending_blocks(dimension, degree, step + 1) == earlier + block);
    let lhs = (earlier + block).map_values(|t: Seq<usize>| prefix + t);
    let rhs = earlier.map_values(|t: Seq<usize>| prefix + t) + tails.map_values(
        |t: Seq<usize>| prefix.push(leading) + t,
    );
    assert forall|i: int| 0 <= i < lhs.len() implies #[trigger] lhs[i] == rhs[i] by {
        if i >= earlier.len() {
            let tail = tails[i - earlier.len()];
            assert(prefix + (seq![leading] + tail) =~= prefix.push(leading) + tail);
        }
    }
    assert(lhs =~= rhs);
}

pub proof fn lemma_terms_below_zero(dimension: nat)
    ensures
        terms_below_degree(dimension, 0) == Seq::<Seq<usize>>::empty(),
{
}

/// Stars and bars: the first `count` blocks hold `C(count - 1 + dimension - 1,
/// dimension - 1)` vectors.
pub proof fn lemma_descending_blocks_len(dimension: nat, degree: nat, count: nat)
    requires
        dimension >= 1,
        count >= 1,
    ensures
        descending_blocks(dimension, degree, count).len() == binomial(
            (count - 1 + dimension - 1) as nat,
            (dimension - 1) as nat,
        ),
    decreases dimension, count,
{
    let block = exact_degree_terms((dimension - 1) as nat, (count - 1) as nat).map_values(
        |tail: Seq<usize>| seq![(degree - (count - 1)) as usize] + tail,
    );
    let block_len = exact_degree_terms((dimension - 1) as nat, (count - 1) as nat).len();
    assert(descending_blocks(dimension, degree, count).len() == descending_blocks(
        dimension,
        degree,
        (count - 1) as nat,
    ).len() + block_len);
    if dimension == 1 {
        if count == 1 {
            assert(block_len == 1);
        } else {
            lemma_descending_blocks_len(dimension, degree, (count - 1) as nat);
            assert(block_len == 0);
        }
    } else {
        lemma_exact_degree_terms_len((dimension - 1) as nat, (count - 1) as nat);
        if count == 1 {
            lemma_binomial_diagonal((dimension - 2) as nat);
            lemma_binomial_diagonal((dimension - 1) as nat);
        } else {
            lemma_descending_blocks_len(dimension, degree, (count - 1) as nat);
            let n = (count - 1 + dimension - 1) as nat;
            assert(binomial(n, (dimension - 1) as nat) == binomial(
                (n - 1) as nat,
                (dimension - 2) as nat,
            ) + binomial((n - 1) as nat, (dimension - 1) as nat));
        }
    }
}

/// Stars and bars: there are `C(degree + dimension - 1, dimension - 1)`
/// exponent vectors of length `dimension >= 1` and total degree `degree`.
pub proof fn lemma_exact_degree_terms_len(dimension: nat, degree: nat)
    requires
        dimension >= 1,
    ensures
        exact_degree_terms(dimension, degree).len() == binomial(
            (degree + dimension - 1) as nat,
            (dimension - 1) as nat,
        ),
    decreases dimension, degree + 2,
{
    lemma_descending_blocks_len(dimension, degree, degree + 1);
}

/// There are `C(degree_bound - 1 + dimension, dimension)` exponent vectors of
/// length `dimension >= 1` with total degree below a positive bound.
pub proof fn lemma_terms_below_degree_len(dimension: nat, degree_bound: nat)
    requires
        dimension >= 1,
        degree_bound >= 1,
    ensures
        terms_below_degree(dimension, degree_bound).len() == binomial(
            (degree_bound - 1 + dimension) as nat,
            dimension,
        ),
    decreases degree_bound,
{
    lemma_exact_degree_terms_len(dimension, (degree_bound - 1) as nat);
    assert(terms_below_degree(dimension, degree_bound).len() == terms_below_degree(
        dimension,
        (degree_bound - 1) as nat,
    ).len() + exact_degree_terms(dimension, (degree_bound - 1) as nat).len());
    if degree_bound == 1 {
        assert(terms_below_degree(dimension, 0).len() == 0);
        lemma_binomial_diagonal((dimension - 1) as nat);
        lemma_binomial_diagonal(dimension);
    } else {
        lemma_terms_below_degree_len(dimension, (degree_bound - 1) as nat);
        let n = (degree_bound - 1 + dimension) as nat;
        assert(binomial(n, dimension) == binomial((n - 1) as nat, (dimension - 1) as nat)
            + binomial((n - 1) as nat, dimension));
    }
}

/// The complete polynomial space of a positive CPD order `m` in dimension
/// `D >= 1` has exactly `C(D + m - 1, D)` terms.
pub proof fn lemma_complete_terms_len(dimension: nat, maximum_degree: nat)
    requires
        dimension >= 1,
    ensures
        complete_terms(dimension, maximum_degree).len() == binomial(
            maximum_degree + dimension,
            dimension,
        ),
{
    lemma_terms_below_degree_len(dimension, maximum_degree + 1);
}

/// The sum of a vector is its first exponent plus the sum of the rest.
pub proof fn lemma_exponent_sum_first(exponents: Seq<usize>)
    requires
        exponents.len() >= 1,
    ensures
        exponent_sum(exponents) == exponents[0] + exponent_sum(exponents.drop_first()),
{
    let head = seq![exponents[0]];
    assert(head.len() == 1);
    assert(head.last() == exponents[0]);
    assert(head.drop_last() =~= Seq::<usize>::empty());
    assert(exponent_sum(head.drop_last()) == 0);
    assert(exponent_sum(head) == exponent_sum(head.drop_last()) + head.last() as nat);
    assert(exponent_sum(head) == exponents[0]);
    assert(exponents =~= head + exponents.drop_first());
    lemma_exponent_sum_concat(head, exponents.drop_first());
}

/// Membership in the first `count` blocks: exactly the vectors of the right
/// length and degree whose leading exponent exceeds `degree - count`.
pub proof fn lemma_descending_blocks_membership(
    dimension: nat,
    degree: nat,
    count: nat,
    exponents: Seq<usize>,
)
    requires
        dimension >= 1,
        count <= degree + 1,
        degree <= usize::MAX,
    ensures
        descending_blocks(dimension, degree, count).contains(exponents) <==> (exponents.len()
            == dimension && exponent_sum(exponents) == degree && exponents[0] + count > degree),
    decreases dimension, count,
{
    if count == 0 {
        if exponents.len() == dimension && exponent_sum(exponents) == degree {
            lemma_exponent_sum_first(exponents);
        }
    } else {
        let leading = (degree - (count - 1)) as usize;
        let tails = exact_degree_terms((dimension - 1) as nat, (count - 1) as nat);
        let block = tails.map_values(|tail: Seq<usize>| seq![leading] + tail);
        let earlier = descending_blocks(dimension, degree, (count - 1) as nat);
        assert(descending_blocks(dimension, degree, count) == earlier + block);
        lemma_descending_blocks_membership(dimension, degree, (count - 1) as nat, exponents);
        let wanted = exponents.len() == dimension && exponent_sum(exponents) == degree
            && exponents[0] + count > degree;
        if (earlier + block).contains(exponents) {
            let i = choose|i: int| 0 <= i < (earlier + block).len() && (earlier + block)[i]
                == exponents;
            if i >= earlier.len() {
                let tail = tails[i - earlier.len()];
                assert(exponents == seq![leading] + tail);
                lemma_exact_degree_terms_membership(
                    (dimension - 1) as nat,
                    (count - 1) as nat,
                    tail,
                );
                assert(tails.contains(tail));
                assert(exponents.drop_first() =~= tail);
                lemma_exponent_sum_first(exponents);
            } else {
                assert(earlier.contains(exponents));
            }
            assert(wanted);
        }
        if wanted {
            if exponents[0] + (count - 1) > degree {
                assert(earlier.contains(exponents));
                let j = choose|j: int| 0 <= j < earlier.len() && earlier[j] == exponents;
                assert((earlier + block)[j] == exponents);
            } else {
                assert(exponents[0] == leading);
                let tail = exponents.drop_first();
                lemma_exponent_sum_first(exponents);
                lemma_exact_degree_terms_membership(
                    (dimension - 1) as nat,
                    (count - 1) as nat,
                    tail,
                );
                assert(tails.contains(tail));
                let j = choose|j: int| 0 <= j < tails.len() && tails[j] == tail;
                assert(seq![leading] + tail =~= exponents);
                assert(block[j] == exponents);
                assert((earlier + block)[earlier.len() + j] == exponents);
            }
            assert((earlier + block).contains(exponents));
        }
    }
}

/// The exact-degree terms are exactly the vectors of the given length and
/// total degree.
pub proof fn lemma_exact_degree_terms_membership(
    dimension: nat,
    degree: nat,
    exponents: Seq<usize>,
)
    requires
        degree <= usize::MAX,
    ensures
        exact_degree_terms(dimension, degree).contains(exponents) <==> (exponents.len()
            == dimension && exponent_sum(exponents) == degree),
    decreases dimension, degree + 2,
{
    if dimension == 0 {
        if exact_degree_terms(dimension, degree).contains(exponents) {
            assert(exponents == Seq::<usize>::empty());
        }
        if exponents.len() == 0 && exponent_sum(exponents) == degree {
            assert(exponents =~= Seq::<usize>::empty());
            assert(exact_degree_terms(dimension, degree)[0] == exponents);
        }
    } else {
        lemma_descending_blocks_membership(dimension, degree, degree + 1, exponents);
    }
}

/// The terms below a degree bound are exactly the vectors of the given
/// length whose total degree is below the bound.
pub proof fn lemma_terms_below_degree_membership(
    dimension: nat,
    degree_bound: nat,
    exponents: Seq<usize>,
)
    requires
        degree_bound <= usize::MAX + 1,
    ensures
        terms_below_degree(dimension, degree_bound).contains(exponents) <==> (exponents.len()
            == dimension && exponent_sum(exponents) < degree_bound),
    decreases degree_bound,
{
    if degree_bound > 0 {
        let earlier = terms_below_degree(dimension, (degree_bound - 1) as nat);
        let last = exact_degree_terms(dimension, (degree_bound - 1) as nat);
        assert(terms_below_degree(dimension, degree_bound) == earlier + last);
        lemma_terms_below_degree_membership(dimension, (degree_bound - 1) as nat, exponents);
        lemma_exact_degree_terms_membership(dimension, (degree_bound - 1) as nat, exponents);
        if (earlier + last).contains(exponents) {
            let i = choose|i: int| 0 <= i < (earlier + last).len() && (earlier + last)[i]
                == exponents;
            if i < earlier.len() {
                assert(earlier.contains(exponents));
            } else {
                assert(last[i - earlier.len()] == exponents);
                assert(last.contains(exponents));
            }
        }
        if exponents.len() == dimension && exponent_sum(exponents) < degree_bound {
            if exponent_sum(exponents) < degree_bound - 1 {
                let j = choose|j: int| 0 <= j < earlier.len() && earlier[j] == exponents;
                assert((earlier + last)[j] == exponents);
            } else {
                let j = choose|j: int| 0 <= j < last.len() && last[j] == exponents;
                assert((earlier + last)[earlier.len() + j] == exponents);
            }
        }
    }
}

/// The complete space of maximum degree `K` contains exactly the exponent
/// vectors of length `dimension` whose total degree is at most `K`.
pub proof fn lemma_complete_terms_membership(
    dimension: nat,
    maximum_degree: nat,
    exponents: Seq<usize>,
)
    requires
        maximum_degree <= usize::MAX,
    ensures
        complete_terms(dimension, maximum_degree).contains(exponents) <==> (exponents.len()
            == dimension && exponent_sum(exponents) <= maximum_degree),
{
    lemma_terms_below_degree_membership(dimension, maximum_degree + 1, exponents);
}

/// No vector occurs twice.
pub open spec fn no_duplicates(terms: Seq<Seq<usize>>) -> bool {
    forall|i: int, j: int| 0 <= i < j < terms.len() ==> #[trigger] terms[i] != #[trigger] terms[j]
}

/// Joining two duplicate-free sequences with no common vector keeps it so.
proof fn lemma_no_duplicates_concat(left: Seq<Seq<usize>>, right: Seq<Seq<usize>>)
    requires
        no_duplicates(left),
        no_duplicates(right),
        forall|i: int, j: int| 0 <= i < left.len() && 0 <= j < right.len() ==> #[trigger] left[i] != #[trigger] right[j],
    ensures
        no_duplicates(left + right),
{
    let both = left + right;
    assert forall|i: int, j: int| 0 <= i < j < both.len() implies #[trigger] both[i] != #[trigger] both[j] by {
        if j < left.len() {
            assert(both[i] == left[i] && both[j] == left[j]);
        } else if i >= left.len() {
            assert(both[i] == right[i - left.len()] && both[j] == right[j - left.len()]);
        } else {
            assert(both[i] == left[i] && both[j] == right[j - left.len()]);
        }
    }
}

/// Putting one leading exponent in front of distinct tails keeps them distinct.
proof fn lemma_no_duplicates_prefix(tails: Seq<Seq<usize>>, leading: usize)
    requires
        no_duplicates(tails),
    ensures
        no_duplicates(tails.map_values(|tail: Seq<usize>| seq![leading] + tail)),
{
    let block = tails.map_values(|tail: Seq<usize>| seq![leading] + tail);
    assert forall|i: int, j: int| 0 <= i < j < block.len() implies #[trigger] block[i] != #[trigger] block[j] by {
        assert(block[i].drop_first() =~= tails[i]);
        assert(block[j].drop_first() =~= tails[j]);
    }
}

/// The first `count` blocks hold no vector twice.
proof fn lemma_descending_blocks_no_duplicates(dimension: nat, degree: nat, count: nat)
    requires
        dimension >= 1,
        count <= degree + 1,
        degree <= usize::MAX,
    ensures
        no_duplicates(descending_blocks(dimension, degree, count)),
    decreases dimension, count,
{
    if count > 0 {
        let leading = (degree - (count - 1)) as usize;
        let tails = exact_degree_terms((dimension - 1) as nat, (count - 1) as nat);
        let block = tails.map_values(|tail: Seq<usize>| seq![leading] + tail);
        let earlier = descending_blocks(dimension, degree, (count - 1) as nat);
        assert(descending_blocks(dimension, degree, count) == earlier + block);
        lemma_descending_blocks_no_duplicates(dimension, degree, (count - 1) as nat);
        lemma_exact_degree_terms_no_duplicates((dimension - 1) as nat, (count - 1) as nat);
        lemma_no_duplicates_prefix(tails, leading);
        assert forall|i: int, j: int| 0 <= i < earlier.len() && 0 <= j < block.len() implies #[trigger] earlier[i]
            != #[trigger] block[j] by {
            lemma_descending_blocks_membership(dimension, degree, (count - 1) as nat, earlier[i]);
            assert(earlier.contains(earlier[i]));
            assert(block[j][0] == leading);
        }
        lemma_no_duplicates_concat(earlier, block);
    }
}

/// The exact-degree terms hold no vector twice.
pub proof fn lemma_exact_degree_terms_no_duplicates(dimension: nat, degree: nat)
    requires
        degree <= usize::MAX,
    ensures
        no_duplicates(exact_degree_terms(dimension, degree)),
    decreases dimension, degree + 2,
{
    if dimension >= 1 {
        lemma_descending_blocks_no_duplicates(dimension, degree, degree + 1);
    }
}

/// The terms below a degree bound hold no vector twice.
pub proof fn lemma_terms_below_degree_no_duplicates(dimension: nat, degree_bound: nat)
    requires
        degree_bound <= usize::MAX + 1,
    ensures
        no_duplicates(terms_below_degree(dimension, degree_bound)),
    decreases degree_bound,
{
    if degree_bound > 0 {
        let earlier = terms_below_degree(dimension, (degree_bound - 1) as nat);
        let last = exact_degree_terms(dimension, (degree_bound - 1) as nat);
        assert(terms_below_degree(dimension, degree_bound) == earlier + last);
        lemma_terms_below_degree_no_duplicates(dimension, (degree_bound - 1) as nat);
        lemma_exact_degree_terms_no_duplicates(dimension, (degree_bound - 1) as nat);
        assert forall|i: int, j: int| 0 <= i < earlier.len() && 0 <= j < last.len() implies #[trigger] earlier[i]
            != #[trigger] last[j] by {
            lemma_terms_below_degree_membership(dimension, (degree_bound - 1) as nat, earlier[i]);
            assert(earlier.contains(earlier[i]));
            lemma_exact_degree_terms_membership(dimension, (degree_bound - 1) as nat, last[j]);
            assert(last.contains(last[j]));
        }
        lemma_no_duplicates_concat(earlier, last);
    }
}

/// Whether `first` precedes `second` lexicographically with larger
/// exponents first: at the first axis where they differ, `first` has the
/// larger exponent.
pub open spec fn lex_greater(first: Seq<usize>, second: Seq<usize>) -> bool
    decreases first.len(),
{
    if first.len() == 0 || second.len() == 0 {
        false
    } else if first[0] != second[0] {
        first[0] > second[0]
    } else {
        lex_greater(first.drop_first(), second.drop_first())
    }
}

/// Each vector precedes every later one lexicographically, larger
/// exponents first.
pub open spec fn lex_descending(terms: Seq<Seq<usize>>) -> bool {
    forall|i: int, j: int| 0 <= i < j < terms.len() ==> lex_greater(#[trigger] terms[i], #[trigger] terms[j])
}

/// Whether `first` precedes `second` in graded order: lower total degree
/// first, then, within one degree, lexicographically with larger exponents
/// first.
pub open spec fn graded_before(first: Seq<usize>, second: Seq<usize>) -> bool {
    exponent_sum(first) < exponent_sum(second) || (exponent_sum(first) == exponent_sum(second)
        && lex_greater(first, second))
}

/// Each vector precedes every later one in graded order.
pub open spec fn graded_sorted(terms: Seq<Seq<usize>>) -> bool {
    forall|i: int, j: int| 0 <= i < j < terms.len() ==> graded_before(#[trigger] terms[i], #[trigger] terms[j])
}

/// A shared leading exponent leaves the comparison to the tails.
proof fn lemma_lex_shared_leading(leading: usize, first: Seq<usize>, second: Seq<usize>)
    ensures
        lex_greater(seq![leading] + first, seq![leading] + second) == lex_greater(first, second),
{
    assert((seq![leading] + first).drop_first() =~= first);
    assert((seq![leading] + second).drop_first() =~= second);
}

/// The concatenation of two descending lists, each of whose first part
/// precedes each of whose second, is descending.
proof fn lemma_lex_descending_concat(left: Seq<Seq<usize>>, right: Seq<Seq<usize>>)
    requires
        lex_descending(left),
        lex_descending(right),
        forall|i: int, j: int|
            0 <= i < left.len() && 0 <= j < right.len() ==> lex_greater(#[trigger] left[i], #[trigger] right[j]),
    ensures
        lex_descending(left + right),
{
    let all = left + right;
    assert forall|i: int, j: int| 0 <= i < j < all.len() implies lex_greater(#[trigger] all[i], #[trigger] all[j]) by {
        if j < left.len() {
            assert(all[i] == left[i] && all[j] == left[j]);
        } else if i >= left.len() {
            assert(all[i] == right[i - left.len()] && all[j] == right[j - left.len()]);
        } else {
            assert(all[i] == left[i] && all[j] == right[j - left.len()]);
        }
    }
}

/// The first `count` blocks are lexicographically descending.
proof fn lemma_descending_blocks_lex(dimension: nat, degree: nat, count: nat)
    requires
        dimension >= 1,
        count <= degree + 1,
        degree <= usize::MAX,
    ensures
        lex_descending(descending_blocks(dimension, degree, count)),
    decreases dimension, count,
{
    if count > 0 {
        let leading = (degree - (count - 1)) as usize;
        let tails = exact_degree_terms((dimension - 1) as nat, (count - 1) as nat);
        let block = tails.map_values(|tail: Seq<usize>| seq![leading] + tail);
        let earlier = descending_blocks(dimension, degree, (count - 1) as nat);
        assert(descending_blocks(dimension, degree, count) == earlier + block);
        lemma_descending_blocks_lex(dimension, degree, (count - 1) as nat);
        lemma_exact_degree_terms_lex((dimension - 1) as nat, (count - 1) as nat);
        assert forall|i: int, j: int| 0 <= i < j < block.len() implies lex_greater(
            #[trigger] block[i],
            #[trigger] block[j],
        ) by {
            lemma_lex_shared_leading(leading, tails[i], tails[j]);
        }
        assert forall|i: int, j: int| 0 <= i < earlier.len() && 0 <= j < block.len() implies lex_greater(
            #[trigger] earlier[i],
            #[trigger] block[j],
        ) by {
            lemma_descending_blocks_membership(dimension, degree, (count - 1) as nat, earlier[i]);
            assert(earlier.contains(earlier[i]));
            assert(block[j] == seq![leading] + tails[j]);
            assert(block[j][0] == leading);
        }
        lemma_lex_descending_concat(earlier, block);
    }
}

/// The exact-degree terms are lexicographically descending.
proof fn lemma_exact_degree_terms_lex(dimension: nat, degree: nat)
    requires
        degree <= usize::MAX,
    ensures
        lex_descending(exact_degree_terms(dimension, degree)),
    decreases dimension, degree + 2,
{
    if dimension >= 1 {
        lemma_descending_blocks_lex(dimension, degree, degree + 1);
    }
}

/// The terms below a degree bound are in graded order.
pub proof fn lemma_terms_below_degree_graded(dimension: nat, degree_bound: nat)
    requires
        degree_bound <= usize::MAX + 1,
    ensures
        graded_sorted(terms_below_degree(dimension, degree_bound)),
    decreases degree_bound,
{
    if degree_bound > 0 {
        let degree = (degree_bound - 1) as nat;
        let earlier = terms_below_degree(dimension, degree);
        let last = exact_degree_terms(dimension, degree);
        let all = earlier + last;
        assert(terms_below_degree(dimension, degree_bound) == all);
        lemma_terms_below_degree_graded(dimension, degree);
        lemma_exact_degree_terms_lex(dimension, degree);
        assert forall|i: int, j: int| 0 <= i < j < all.len() implies graded_before(
            #[trigger] all[i],
            #[trigger] all[j],
        ) by {
            if j >= earlier.len() {
                lemma_exact_degree_terms_membership(dimension, degree, all[j]);
                assert(all[j] == last[j - earlier.len()]);
                assert(last.contains(all[j]));
                if i >= earlier.len() {
                    lemma_exact_degree_terms_membership(dimension, degree, all[i]);
                    assert(all[i] == last[i - earlier.len()]);
                    assert(last.contains(all[i]));
                } else {
                    lemma_terms_below_degree_membership(dimension, degree, all[i]);
                    assert(all[i] == earlier[i]);
                    assert(earlier.contains(all[i]));
                }
            } else {
                assert(all[i] == earlier[i] && all[j] == earlier[j]);
            }
        }
    }
}

/// The vector with every exponent on the first axis.
pub open spec fn first_axis_term(dimension: nat, degree: nat) -> Seq<usize> {
    seq![degree as usize] + Seq::new((dimension - 1) as nat, |i: int| 0usize)
}

/// Zeros sum to zero.
proof fn lemma_zero_sum(count: nat)
    ensures
        exponent_sum(Seq::new(count, |i: int| 0usize)) == 0,
    decreases count,
{
    if count > 0 {
        assert(Seq::new(count, |i: int| 0usize).drop_last() =~= Seq::new((count - 1) as nat, |i: int| 0usize));
        lemma_zero_sum((count - 1) as nat);
    }
}

/// The first-axis vector has the requested length and total degree.
pub proof fn lemma_first_axis_term(dimension: nat, degree: nat)
    requires
        dimension >= 1,
        degree <= usize::MAX,
    ensures
        first_axis_term(dimension, degree).len() == dimension,
        exponent_sum(first_axis_term(dimension, degree)) == degree,
{
    let term = first_axis_term(dimension, degree);
    lemma_exponent_sum_first(term);
    assert(term.drop_first() =~= Seq::new((dimension - 1) as nat, |i: int| 0usize));
    lemma_zero_sum((dimension - 1) as nat);
}

} // verus!
