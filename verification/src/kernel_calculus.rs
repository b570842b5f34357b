//! Vocabulary of radial kernel calculus: which kernel argument a Cartesian
//! derivative acts on, which radial derivative or coefficient is meant, and
//! where a radial jet was taken, together with the sign rule for derivatives
//! taken with respect to the center argument.
use vstd::prelude::*;

pub mod radial;

verus! {

/// Which kernel argument a Cartesian derivative acts on.
///
/// For a stationary radial kernel with displacement `d = x - y`, a query
/// derivative is a displacement derivative and a center derivative contributes
/// one minus sign.
#[derive(Clone, Copy, Debug, PartialEq, Eq, Structural, Hash)]
pub enum KernelArgument {
    /// The query argument `x`.
    Query,
    /// The center argument `y`.
    Center,
}

/// Radial derivative identified by its order.
#[derive(Clone, Copy, Debug, PartialEq, Eq, Structural, Hash)]
pub enum RadialDerivativeOrder {
    /// The radial value `phi(r)`.
    Value,
    /// The first radial derivative `phi'(r)`.
    First,
    /// The second radial derivative `phi''(r)`.
    Second,
    /// The third radial derivative `phi'''(r)`.
    Third,
}

/// Stable radial coefficient used by the Cartesian tensor expansion.
#[derive(Clone, Copy, Debug, PartialEq, Eq, Structural, Hash)]
pub enum RadialExpansionCoefficient {
    /// The coefficient `phi'(r) / r` used by the tangential Hessian term.
    FirstOverRadius,
    /// The coefficient `(phi''(r) - phi'(r) / r) / r` used by the third tensor.
    SecondRemainderOverRadius,
}

/// Whether a radial jet describes a center or a positive-radius point pair.
#[derive(Clone, Copy, Debug, PartialEq, Eq, Structural, Hash)]
pub enum RadialJetLocation {
    /// Coincident points with `r = 0` and an analytic Euclidean center limit.
    Center,
    /// Distinct points with a finite, positive radius.
    AwayFromCenter,
}

/// Number of derivatives in `arguments` that act on the center argument.
pub open spec fn center_count(arguments: Seq<KernelArgument>) -> nat
    decreases arguments.len(),
{
    if arguments.len() == 0 {
        0
    } else {
        center_count(arguments.drop_last()) + if arguments.last() == KernelArgument::Center {
            1nat
        } else {
            0nat
        }
    }
}

/// Whether a mixed derivative over `arguments` picks up a minus sign: each
/// center derivative contributes one factor `-1`.
pub open spec fn negative_sign(arguments: Seq<KernelArgument>) -> bool {
    center_count(arguments) % 2 == 1
}

/// Returns whether an odd number of the derivatives act on the center
/// argument, so that the displacement derivative changes sign.
pub fn arguments_have_negative_sign(arguments: &[KernelArgument]) -> (negative: bool)
    ensures
        negative == negative_sign(arguments@),
        negative == (arguments@.filter(|argument: KernelArgument| argument == KernelArgument::Center).len() % 2
            == 1),
{
    let mut count: usize = 0;
    let mut index: usize = 0;
    while index < arguments.len()
        invariant
            index <= arguments@.len(),
            count == center_count(arguments@.take(index as int)),
            count <= index,
        decreases arguments@.len() - index,
    {
        proof {
            assert(arguments@.take(index + 1).drop_last() =~= arguments@.take(index as int));
        }
        if arguments[index] == KernelArgument::Center {
            count = count + 1;
        }
        index = index + 1;
    }
    proof {
        assert(arguments@.take(index as int) =~= arguments@);
        lemma_center_count_counts_centers(arguments@);
    }
    count % 2 != 0
}

/// The center count is the number of arguments equal to
/// `KernelArgument::Center`.
pub proof fn lemma_center_count_counts_centers(arguments: Seq<KernelArgument>)
    ensures
        center_count(arguments) == arguments.filter(|argument: KernelArgument| argument == KernelArgument::Center).len(),
    decreases arguments.len(),
{
    reveal(Seq::filter);
    if arguments.len() > 0 {
        lemma_center_count_counts_centers(arguments.drop_last());
    }
}

/// The sign of a mixed derivative over all arguments: none gives a plus
/// sign, one more query derivative keeps the sign, and one more center
/// derivative flips it.
pub proof fn lemma_negative_sign_steps(arguments: Seq<KernelArgument>)
    ensures
        !negative_sign(Seq::<KernelArgument>::empty()),
        negative_sign(arguments.push(KernelArgument::Query)) == negative_sign(arguments),
        negative_sign(arguments.push(KernelArgument::Center)) == !negative_sign(arguments),
{
    assert(arguments.push(KernelArgument::Query).drop_last() =~= arguments);
    assert(arguments.push(KernelArgument::Center).drop_last() =~= arguments);
}

/// The center count of a concatenation is the sum of the counts.
pub proof fn lemma_center_count_concat(left: Seq<KernelArgument>, right: Seq<KernelArgument>)
    ensures
        center_count(left + right) == center_count(left) + center_count(right),
    decreases right.len(),
{
    if right.len() == 0 {
        assert(left + right =~= left);
    } else {
        assert((left + right).drop_last() =~= left + right.drop_last());
        lemma_center_count_concat(left, right.drop_last());
    }
}

/// Sign rule: differentiating further with respect to more arguments
/// multiplies the signs, so the sign of a combined argument list is the
/// exclusive or of the signs of its parts.
pub proof fn lemma_negative_sign_concat(left: Seq<KernelArgument>, right: Seq<KernelArgument>)
    ensures
        negative_sign(left + right) == (negative_sign(left) != negative_sign(right)),
{
    lemma_center_count_concat(left, right);
}

} // verus!
