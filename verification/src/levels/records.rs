//! Record-level validation of a level problem: counts, unique identifiers,
//! finite fixed values, membership functionals, resolution of level
//! references, and isolated unknown levels.
use vstd::prelude::*;

use crate::dimension::{Dim, SupportedDimension};
use crate::binary64::{binary64_is_finite, is_finite_bits};
use crate::levels::{LevelDefinition, LevelId, LevelMembership, LevelOrder, LevelValue};
use crate::problem_ir::ObservationId;

verus! {

/// Whether no value occurs twice.
pub open spec fn all_distinct<T>(items: Seq<T>) -> bool {
    forall|j: int, k: int| 0 <= j < k < items.len() ==> #[trigger] items[j] != #[trigger] items[k]
}

/// Whether `index` is the first position that repeats an earlier value.
pub open spec fn first_repeat<T>(items: Seq<T>, index: int) -> bool {
    &&& 0 <= index < items.len()
    &&& exists|earlier: int| 0 <= earlier < index && #[trigger] items[earlier] == items[index]
    &&& all_distinct(items.take(index))
}

/// The level identifiers of the definitions.
pub open spec fn definition_ids(levels: Seq<LevelDefinition>) -> Seq<LevelId> {
    levels.map_values(|level: LevelDefinition| level.level_id)
}

/// The observation identifiers of all records: definitions, then
/// memberships, then order edges.
pub open spec fn record_ids<const D: usize>(
    levels: Seq<LevelDefinition>,
    memberships: Seq<LevelMembership<D>>,
    orders: Seq<LevelOrder>,
) -> Seq<ObservationId> where Dim<D>: SupportedDimension<D> {
    levels.map_values(|level: LevelDefinition| level.provenance.spec_observation_id()) + memberships.map_values(
        |membership: LevelMembership<D>| membership.spec_provenance().spec_observation_id(),
    ) + orders.map_values(|order: LevelOrder| order.spec_provenance().spec_observation_id())
}

/// Whether level `index` is fixed to a value that is not finite.
pub open spec fn nonfinite_fixed(levels: Seq<LevelDefinition>, index: int) -> bool {
    levels[index].value matches LevelValue::Fixed(bits) && !binary64_is_finite(bits)
}

/// The position of the first repeated value, if any.
fn first_repeated_level(ids: &Vec<LevelId>) -> (found: Option<usize>)
    ensures
        found is None <==> all_distinct(ids@),
        found matches Some(index) ==> first_repeat(ids@, index as int),
{
    let mut index: usize = 0;
    while index < ids.len()
        invariant
            index <= ids@.len(),
            all_distinct(ids@.take(index as int)),
        decreases ids@.len() - index,
    {
        let mut earlier: usize = 0;
        while earlier < index
            invariant
                index < ids@.len(),
                earlier <= index,
                all_distinct(ids@.take(index as int)),
                forall|j: int| 0 <= j < earlier ==> ids@[j] != ids@[index as int],
            decreases index - earlier,
        {
            if ids[earlier] == ids[index] {
                proof {
                    assert(ids@[earlier as int] == ids@[index as int]);
                }
                return Some(index);
            }
            earlier = earlier + 1;
        }
        proof {
            let grown = ids@.take(index + 1);
            assert forall|j: int, k: int| 0 <= j < k < grown.len() implies #[trigger] grown[j] != #[trigger] grown[k] by {
                if k < index {
                    assert(ids@.take(index as int)[j] == grown[j]);
                    assert(ids@.take(index as int)[k] == grown[k]);
                }
            }
        }
        index = index + 1;
    }
    proof {
        assert(ids@.take(index as int) =~= ids@);
    }
    None
}

/// The position of the first repeated value, if any.
fn first_repeated_observation(ids: &Vec<ObservationId>) -> (found: Option<usize>)
    ensures
        found is None <==> all_distinct(ids@),
        found matches Some(index) ==> first_repeat(ids@, index as int),
{
    let mut index: usize = 0;
    while index < ids.len()
        invariant
            index <= ids@.len(),
            all_distinct(ids@.take(index as int)),
        decreases ids@.len() - index,
    {
        let mut earlier: usize = 0;
        while earlier < index
            invariant
                index < ids@.len(),
                earlier <= index,
                all_distinct(ids@.take(index as int)),
                forall|j: int| 0 <= j < earlier ==> ids@[j] != ids@[index as int],
            decreases index - earlier,
        {
            if ids[earlier] == ids[index] {
                proof {
                    assert(ids@[earlier as int] == ids@[index as int]);
                }
                return Some(index);
            }
            earlier = earlier + 1;
        }
        proof {
            let grown = ids@.take(index + 1);
            assert forall|j: int, k: int| 0 <= j < k < grown.len() implies #[trigger] grown[j] != #[trigger] grown[k] by {
                if k < index {
                    assert(ids@.take(index as int)[j] == grown[j]);
                    assert(ids@.take(index as int)[k] == grown[k]);
                }
            }
        }
        index = index + 1;
    }
    proof {
        assert(ids@.take(index as int) =~= ids@);
    }
    None
}

/// The first repeated level identifier, if any.
pub fn duplicate_level_id(levels: &Vec<LevelDefinition>) -> (found: Option<LevelId>)
    ensures
        found is None <==> all_distinct(definition_ids(levels@)),
        found matches Some(id) ==> exists|index: int|
            #[trigger] first_repeat(definition_ids(levels@), index) && id == definition_ids(levels@)[index],
{
    let mut ids: Vec<LevelId> = Vec::new();
    let mut index: usize = 0;
    while index < levels.len()
        invariant
            index <= levels@.len(),
            ids@ == definition_ids(levels@).take(index as int),
        decreases levels@.len() - index,
    {
        ids.push(levels[index].level_id);
        proof {
            assert(ids@ =~= definition_ids(levels@).take(index + 1));
        }
        index = index + 1;
    }
    proof {
        assert(ids@ =~= definition_ids(levels@));
    }
    match first_repeated_level(&ids) {
        Some(position) => Some(ids[position]),
        None => None,
    }
}

/// The bit pattern of the first fixed value that is not finite, if any.
pub fn nonfinite_fixed_value(levels: &Vec<LevelDefinition>) -> (found: Option<u64>)
    ensures
        found is None <==> forall|index: int| 0 <= index < levels@.len() ==> !#[trigger] nonfinite_fixed(levels@, index),
        found matches Some(bits) ==> exists|index: int|
            0 <= index < levels@.len() && #[trigger] nonfinite_fixed(levels@, index) && levels@[index].value
                == LevelValue::Fixed(bits) && forall|earlier: int| 0 <= earlier < index ==> !nonfinite_fixed(levels@, earlier),
{
    let mut index: usize = 0;
    while index < levels.len()
        invariant
            index <= levels@.len(),
            forall|earlier: int| 0 <= earlier < index ==> !#[trigger] nonfinite_fixed(levels@, earlier),
        decreases levels@.len() - index,
    {
        if let LevelValue::Fixed(bits) = levels[index].value {
            if !is_finite_bits(bits) {
                proof {
                    assert(nonfinite_fixed(levels@, index as int));
                }
                return Some(bits);
            }
        }
        index = index + 1;
    }
    None
}

/// The observation identifiers of all records, or `None` when their count
/// does not fit in `usize`.
pub fn collect_record_ids<const D: usize>(
    levels: &Vec<LevelDefinition>,
    memberships: &Vec<LevelMembership<D>>,
    orders: &Vec<LevelOrder>,
) -> (ids: Option<Vec<ObservationId>>) where Dim<D>: SupportedDimension<D>
    ensures
        levels@.len() + memberships@.len() + orders@.len() > usize::MAX <==> ids is None,
        ids matches Some(found) ==> found@ == record_ids(levels@, memberships@, orders@),
{
    let total = match levels.len().checked_add(memberships.len()) {
        Some(partial) => partial.checked_add(orders.len()),
        None => None,
    };
    if total.is_none() {
        return None;
    }
    let ghost target = record_ids(levels@, memberships@, orders@);
    let mut ids: Vec<ObservationId> = Vec::new();
    let mut index: usize = 0;
    while index < levels.len()
        invariant
            target == record_ids(levels@, memberships@, orders@),
            index <= levels@.len(),
            ids@ == target.take(index as int),
        decreases levels@.len() - index,
    {
        ids.push(levels[index].provenance.observation_id());
        proof {
            assert(ids@ =~= target.take(index + 1));
        }
        index = index + 1;
    }
    let mut index: usize = 0;
    while index < memberships.len()
        invariant
            target == record_ids(levels@, memberships@, orders@),
            index <= memberships@.len(),
            ids@ == target.take(levels@.len() + index),
        decreases memberships@.len() - index,
    {
        ids.push(memberships[index].provenance().observation_id());
        proof {
            assert(ids@ =~= target.take(levels@.len() + index + 1));
        }
        index = index + 1;
    }
    let mut index: usize = 0;
    while index < orders.len()
        invariant
            target == record_ids(levels@, memberships@, orders@),
            index <= orders@.len(),
            ids@ == target.take(levels@.len() + memberships@.len() + index),
        decreases orders@.len() - index,
    {
        ids.push(orders[index].provenance().observation_id());
        proof {
            assert(ids@ =~= target.take(levels@.len() + memberships@.len() + index + 1));
        }
        index = index + 1;
    }
    proof {
        assert(ids@ =~= target);
    }
    Some(ids)
}

/// The first repeated observation identifier among all records, if any.
pub fn duplicate_observation_id(ids: &Vec<ObservationId>) -> (found: Option<ObservationId>)
    ensures
        found is None <==> all_distinct(ids@),
        found matches Some(id) ==> exists|index: int| #[trigger] first_repeat(ids@, index) && id == ids@[index],
{
    match first_repeated_observation(ids) {
        Some(position) => Some(ids[position]),
        None => None,
    }
}

/// The observation identifier of the first membership whose functional is
/// not one unit-coefficient value term, if any.
pub fn invalid_membership_functional<const D: usize>(memberships: &Vec<LevelMembership<D>>) -> (found: Option<ObservationId>) where
    Dim<D>: SupportedDimension<D>,
    ensures
        found is None <==> forall|index: int|
            0 <= index < memberships@.len() ==> (#[trigger] memberships@[index]).spec_functional().unit_value,
        found matches Some(id) ==> exists|index: int|
            0 <= index < memberships@.len() && !(#[trigger] memberships@[index]).spec_functional().unit_value && id
                == memberships@[index].spec_provenance().spec_observation_id() && forall|earlier: int|
                0 <= earlier < index ==> memberships@[earlier].spec_functional().unit_value,
{
    let mut index: usize = 0;
    while index < memberships.len()
        invariant
            index <= memberships@.len(),
            forall|earlier: int| 0 <= earlier < index ==> (#[trigger] memberships@[earlier]).spec_functional().unit_value,
        decreases memberships@.len() - index,
    {
        if !memberships[index].functional().unit_value {
            return Some(memberships[index].provenance().observation_id());
        }
        index = index + 1;
    }
    None
}

/// The position of the first definition with the given identifier.
pub fn find_level(levels: &Vec<LevelDefinition>, level_id: LevelId) -> (found: Option<usize>)
    ensures
        found is None <==> !definition_ids(levels@).contains(level_id),
        found matches Some(index) ==> index < levels@.len() && levels@[index as int].level_id == level_id
            && forall|earlier: int| 0 <= earlier < index ==> levels@[earlier].level_id != level_id,
{
    let mut index: usize = 0;
    while index < levels.len()
        invariant
            index <= levels@.len(),
            forall|earlier: int| 0 <= earlier < index ==> levels@[earlier].level_id != level_id,
        decreases levels@.len() - index,
    {
        if levels[index].level_id == level_id {
            proof {
                assert(definition_ids(levels@)[index as int] == level_id);
            }
            return Some(index);
        }
        index = index + 1;
    }
    proof {
        if definition_ids(levels@).contains(level_id) {
            let i = choose|i: int| 0 <= i < definition_ids(levels@).len() && definition_ids(levels@)[i] == level_id;
            assert(levels@[i].level_id == level_id);
        }
    }
    None
}

/// Whether `index` is the position of a definition with identifier `id`.
pub open spec fn names(levels: Seq<LevelDefinition>, index: int, id: LevelId) -> bool {
    0 <= index < levels.len() && levels[index].level_id == id
}

/// Resolves the level of every membership; the first membership whose
/// level is undefined is reported with its level and observation
/// identifiers.
pub fn membership_level_indices<const D: usize>(
    levels: &Vec<LevelDefinition>,
    memberships: &Vec<LevelMembership<D>>,
) -> (result: Result<Vec<usize>, (LevelId, ObservationId)>) where Dim<D>: SupportedDimension<D>
    ensures
        result matches Ok(indices) ==> indices@.len() == memberships@.len() && forall|m: int|
            0 <= m < memberships@.len() ==> #[trigger] names(levels@, indices@[m] as int, memberships@[m].spec_level_id()),
        result is Ok <==> forall|m: int|
            0 <= m < memberships@.len() ==> definition_ids(levels@).contains(#[trigger] memberships@[m].spec_level_id()),
        result matches Err(missing) ==> exists|m: int|
            0 <= m < memberships@.len() && !definition_ids(levels@).contains(#[trigger] memberships@[m].spec_level_id())
                && missing == (memberships@[m].spec_level_id(), memberships@[m].spec_provenance().spec_observation_id())
                && forall|earlier: int| 0 <= earlier < m ==> definition_ids(levels@).contains(memberships@[earlier].spec_level_id()),
{
    let mut indices: Vec<usize> = Vec::new();
    let mut m: usize = 0;
    while m < memberships.len()
        invariant
            m <= memberships@.len(),
            indices@.len() == m,
            forall|earlier: int|
                0 <= earlier < m ==> #[trigger] names(levels@, indices@[earlier] as int, memberships@[earlier].spec_level_id()),
            forall|earlier: int| 0 <= earlier < m ==> definition_ids(levels@).contains(#[trigger] memberships@[earlier].spec_level_id()),
        decreases memberships@.len() - m,
    {
        let level_id = memberships[m].level_id();
        match find_level(levels, level_id) {
            Some(index) => {
                proof {
                    assert(definition_ids(levels@)[index as int] == level_id);
                }
                indices.push(index);
            },
            None => {
                return Err((level_id, memberships[m].provenance().observation_id()));
            },
        }
        m = m + 1;
    }
    Ok(indices)
}

/// Whether order `k` refers to an undefined level, and which one is reported:
/// the lower level when it is undefined, else the upper level.
pub open spec fn order_reference_missing(levels: Seq<LevelDefinition>, orders: Seq<LevelOrder>, k: int) -> bool {
    !definition_ids(levels).contains(orders[k].spec_lower()) || !definition_ids(levels).contains(orders[k].spec_upper())
}

/// The undefined level that order `k` reports.
pub open spec fn order_missing_level(levels: Seq<LevelDefinition>, orders: Seq<LevelOrder>, k: int) -> LevelId {
    if !definition_ids(levels).contains(orders[k].spec_lower()) {
        orders[k].spec_lower()
    } else {
        orders[k].spec_upper()
    }
}

/// Resolves both ends of every order edge; the first edge with an undefined
/// end reports it (the lower end first) with the edge's observation
/// identifier.
pub fn order_level_indices(levels: &Vec<LevelDefinition>, orders: &Vec<LevelOrder>) -> (result: Result<
    Vec<(usize, usize)>,
    (LevelId, ObservationId),
>)
    ensures
        result matches Ok(indices) ==> indices@.len() == orders@.len() && forall|k: int|
            0 <= k < orders@.len() ==> names(levels@, (#[trigger] indices@[k]).0 as int, orders@[k].spec_lower()) && names(
                levels@,
                indices@[k].1 as int,
                orders@[k].spec_upper(),
            ),
        result is Ok <==> forall|k: int| 0 <= k < orders@.len() ==> !#[trigger] order_reference_missing(levels@, orders@, k),
        result matches Err(missing) ==> exists|k: int|
            0 <= k < orders@.len() && #[trigger] order_reference_missing(levels@, orders@, k) && missing == (
            order_missing_level(levels@, orders@, k),
            orders@[k].spec_provenance().spec_observation_id(),
        ) && forall|earlier: int| 0 <= earlier < k ==> !order_reference_missing(levels@, orders@, earlier),
{
    let mut indices: Vec<(usize, usize)> = Vec::new();
    let mut k: usize = 0;
    while k < orders.len()
        invariant
            k <= orders@.len(),
            indices@.len() == k,
            forall|earlier: int|
                0 <= earlier < k ==> names(levels@, (#[trigger] indices@[earlier]).0 as int, orders@[earlier].spec_lower())
                    && names(levels@, indices@[earlier].1 as int, orders@[earlier].spec_upper()),
            forall|earlier: int| 0 <= earlier < k ==> !#[trigger] order_reference_missing(levels@, orders@, earlier),
        decreases orders@.len() - k,
    {
        let lower = match find_level(levels, orders[k].lower()) {
            Some(index) => index,
            None => {
                proof {
                    assert(order_reference_missing(levels@, orders@, k as int));
                }
                return Err((orders[k].lower(), orders[k].provenance().observation_id()));
            },
        };
        proof {
            assert(definition_ids(levels@)[lower as int] == orders@[k as int].spec_lower());
        }
        let upper = match find_level(levels, orders[k].upper()) {
            Some(index) => index,
            None => {
                proof {
                    assert(order_reference_missing(levels@, orders@, k as int));
                    assert(order_missing_level(levels@, orders@, k as int) == orders@[k as int].spec_upper());
                }
                return Err((orders[k].upper(), orders[k].provenance().observation_id()));
            },
        };
        proof {
            assert(definition_ids(levels@)[lower as int] == orders@[k as int].spec_lower());
            assert(definition_ids(levels@)[upper as int] == orders@[k as int].spec_upper());
        }
        indices.push((lower, upper));
        k = k + 1;
    }
    Ok(indices)
}

/// Whether level `index` is unknown and neither a membership nor an order
/// edge refers to it.
pub open spec fn isolated(
    levels: Seq<LevelDefinition>,
    membership_levels: Seq<usize>,
    order_indices: Seq<(usize, usize)>,
    index: int,
) -> bool {
    &&& levels[index].value is Unknown
    &&& !membership_levels.contains(index as usize)
    &&& forall|k: int| 0 <= k < order_indices.len() ==> (#[trigger] order_indices[k]).0 != index && order_indices[k].1 != index
}

/// The identifier of the first isolated unknown level, if any.
pub fn isolated_level(
    levels: &Vec<LevelDefinition>,
    membership_levels: &Vec<usize>,
    order_indices: &Vec<(usize, usize)>,
) -> (found: Option<LevelId>)
    ensures
        found is None <==> forall|index: int|
            0 <= index < levels@.len() ==> !#[trigger] isolated(levels@, membership_levels@, order_indices@, index),
        found matches Some(id) ==> exists|index: int|
            0 <= index < levels@.len() && #[trigger] isolated(levels@, membership_levels@, order_indices@, index) && id
                == levels@[index].level_id && forall|earlier: int|
                0 <= earlier < index ==> !isolated(levels@, membership_levels@, order_indices@, earlier),
{
    let mut index: usize = 0;
    while index < levels.len()
        invariant
            index <= levels@.len(),
            forall|earlier: int| 0 <= earlier < index ==> !#[trigger] isolated(levels@, membership_levels@, order_indices@, earlier),
        decreases levels@.len() - index,
    {
        if levels[index].value == LevelValue::Unknown {
            let mut referenced = false;
            let mut m: usize = 0;
            while m < membership_levels.len()
                invariant
                    m <= membership_levels@.len(),
                    referenced <==> exists|i: int| 0 <= i < m && membership_levels@[i] == index,
                decreases membership_levels@.len() - m,
            {
                if membership_levels[m] == index {
                    referenced = true;
                }
                m = m + 1;
            }
            let mut k: usize = 0;
            while k < order_indices.len()
                invariant
                    k <= order_indices@.len(),
                    referenced <==> (exists|i: int| 0 <= i < membership_levels@.len() && membership_levels@[i] == index) || exists|
                        i: int,
                    | 0 <= i < k && ((#[trigger] order_indices@[i]).0 == index || order_indices@[i].1 == index),
                decreases order_indices@.len() - k,
            {
                let (lower, upper) = order_indices[k];
                if lower == index || upper == index {
                    proof {
                        assert(order_indices@[k as int].0 == index || order_indices@[k as int].1 == index);
                    }
                    referenced = true;
                }
                k = k + 1;
            }
            if !referenced {
                proof {
                    assert(isolated(levels@, membership_levels@, order_indices@, index as int));
                }
                return Some(levels[index].level_id);
            }
        }
        index = index + 1;
    }
    None
}

} // verus!
