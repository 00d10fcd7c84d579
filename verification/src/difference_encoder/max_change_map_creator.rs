//! The planner of the allowed-change map: for a carrier and a message length
//! it decides, index by index, how far and in which direction the codec may
//! move the carrier's value.

use crate::difference_encoder::bits_difference_converter::{
    calculate_worst_case_difference_for, get_max_num_bits_encodable, max_bits_encodable,
    worst_case_difference,
};
use crate::difference_encoder::multi_bit::{
    committed_before, decoded_stream, encoded_values, is_tier_boundary,
    lemma_capacities_meet_at_tier_boundaries, lemma_round_trip, max_capacity, min_capacity,
};
use crate::util::dif_code_image::{
    lemma_index_to_xyz, x_of_index, y_of_index, z_of_index, DifCodeImage,
};
use crate::util::integral_rgb_image::{
    area_total, fits_table, lemma_integral_area_sum, window_end, window_start, IntegralRgbImage,
};
use crate::util::{
    distance, get_length_in_bits, message_bits, packed_bytes, spec_distance, thread_generator,
    DifCodeError, DifCodeResult, EncodingContainer,
};
use rand::rngs::ThreadRng;
use rand::seq::SliceRandom;
use vstd::prelude::*;

verus! {

/// Whether a value may be moved by the worst-case difference of `tiers` bits:
/// the difference is within `max_difference`, and the moved value is a byte.
pub open spec fn tier_fits(original_value: u8, max_difference: u8, positive: bool, tiers: int) -> bool {
    &&& 0 <= tiers <= 7
    &&& worst_case_difference(tiers) <= max_difference
    &&& if positive {
        original_value + worst_case_difference(tiers) <= 255
    } else {
        worst_case_difference(tiers) <= original_value
    }
}

/// The largest number of guaranteed bits that a value can be given room for.
pub open spec fn tiers_possible(original_value: u8, max_difference: u8, positive: bool) -> int {
    if tier_fits(original_value, max_difference, positive, 7) {
        7
    } else if tier_fits(original_value, max_difference, positive, 6) {
        6
    } else if tier_fits(original_value, max_difference, positive, 5) {
        5
    } else if tier_fits(original_value, max_difference, positive, 4) {
        4
    } else if tier_fits(original_value, max_difference, positive, 3) {
        3
    } else if tier_fits(original_value, max_difference, positive, 2) {
        2
    } else if tier_fits(original_value, max_difference, positive, 1) {
        1
    } else {
        0
    }
}

/// The map value that gives `original_value` room for `tiers` guaranteed bits.
pub open spec fn planned_value(original_value: u8, positive: bool, tiers: int) -> int {
    if positive {
        original_value + worst_case_difference(tiers)
    } else {
        original_value - worst_case_difference(tiers)
    }
}

/// The number of bits that a map value gives room for.
pub open spec fn planned_tiers(original_value: u8, allowed_change: u8) -> int {
    max_bits_encodable(spec_distance(original_value, allowed_change))
}

/// Whether `allowed_change` is a value that the planner may leave in the map:
/// the original value, moved in the given direction by the worst-case
/// difference of a number of bits that fits.
pub open spec fn is_planned(
    original_value: u8,
    allowed_change: u8,
    max_difference: u8,
    positive: bool,
) -> bool {
    let tiers = planned_tiers(original_value, allowed_change);
    &&& tiers <= tiers_possible(original_value, max_difference, positive)
    &&& allowed_change == planned_value(original_value, positive, tiers)
}

/// The sum of `tiers_possible` over the first `upto` indices: the number of
/// bits that the carrier has room for under `constraints`.
pub open spec fn total_tiers_possible(
    original: Seq<u8>,
    constraints: Seq<(u8, bool)>,
    upto: int,
) -> int
    decreases upto,
{
    if upto <= 0 {
        0
    } else {
        total_tiers_possible(original, constraints, upto - 1) + tiers_possible(
            original[upto - 1],
            constraints[upto - 1].0,
            constraints[upto - 1].1,
        )
    }
}

/// Whether every value of `map` is one that the planner may leave there.
pub open spec fn is_planned_map(original: Seq<u8>, constraints: Seq<(u8, bool)>, map: Seq<u8>) -> bool {
    &&& map.len() == original.len()
    &&& forall|index: int|
        0 <= index < original.len() ==> is_planned(
            original[index],
            #[trigger] map[index],
            constraints[index].0,
            constraints[index].1,
        )
}

/// What planning room for `bits` bits gives: a planned map with room for
/// exactly that many bits, where the carrier has that much room under
/// `constraints`; else the map with all the room there is, and the error that
/// holds that number.
pub open spec fn is_plan_outcome(
    result: DifCodeResult<()>,
    bits: int,
    original: Seq<u8>,
    constraints: Seq<(u8, bool)>,
    map: Seq<u8>,
) -> bool {
    let room = total_tiers_possible(original, constraints, original.len() as int);
    &&& is_planned_map(original, constraints, map)
    &&& bits <= room ==> result is Ok && max_capacity(original, map, original.len() as int)
        == bits
    &&& bits > room ==> {
        &&& result matches Err(DifCodeError::InternalCapacityReached(planned))
        &&& planned == room
        &&& max_capacity(original, map, original.len() as int) == room
    }
}

/// Moves the value at `index` by `desired_distance` in the desired direction,
/// where the moved value is a byte. Says whether it did.
pub fn attempt_change<C: EncodingContainer + ?Sized>(
    container: &mut C,
    index: usize,
    desired_distance: u8,
    desired_direction_positive: bool,
) -> (changed: bool)
    requires
        index < old(container).values().len(),
    ensures
        changed == (if desired_direction_positive {
            old(container).values()[index as int] + desired_distance <= 255
        } else {
            old(container).values()[index as int] >= desired_distance
        }),
        changed ==> final(container).values() == old(container).values().update(
            index as int,
            (if desired_direction_positive {
                old(container).values()[index as int] + desired_distance
            } else {
                old(container).values()[index as int] - desired_distance
            }) as u8,
        ),
        !changed ==> final(container).values() == old(container).values(),
{
    let original_value: u8 = container.value_at(index);
    if desired_direction_positive {
        if original_value > 255 - desired_distance {
            false
        } else {
            container.set_value_at(index, original_value + desired_distance);
            true
        }
    } else {
        if original_value < desired_distance {
            false
        } else {
            container.set_value_at(index, original_value - desired_distance);
            true
        }
    }
}

/// Changing the map at one index changes its room by what that index gains.
proof fn lemma_max_capacity_update(
    original: Seq<u8>,
    map: Seq<u8>,
    index: int,
    value: u8,
    upto: int,
)
    requires
        0 <= upto <= map.len(),
        0 <= index < map.len(),
    ensures
        max_capacity(original, map.update(index, value), upto) == max_capacity(original, map, upto)
            + if index < upto {
            max_bits_encodable(spec_distance(original[index], value)) - max_bits_encodable(
                spec_distance(original[index], map[index]),
            )
        } else {
            0
        },
    decreases upto,
{
    if upto > 0 {
        lemma_max_capacity_update(original, map, index, value, upto - 1);
    }
}

/// A map that equals the carrier has no room.
proof fn lemma_max_capacity_of_copy(original: Seq<u8>, upto: int)
    ensures
        max_capacity(original, original, upto) == 0,
    decreases upto,
{
    if upto > 0 {
        lemma_max_capacity_of_copy(original, upto - 1);
    }
}

/// A planned map has no more room than the carrier has under the constraints,
/// and all of it where no index can be given more.
proof fn lemma_planned_room(original: Seq<u8>, constraints: Seq<(u8, bool)>, map: Seq<u8>, upto: int)
    requires
        is_planned_map(original, constraints, map),
        0 <= upto <= original.len(),
    ensures
        max_capacity(original, map, upto) <= total_tiers_possible(original, constraints, upto),
        (forall|index: int|
            0 <= index < upto ==> planned_tiers(original[index], #[trigger] map[index])
                >= tiers_possible(original[index], constraints[index].0, constraints[index].1))
            ==> max_capacity(original, map, upto) == total_tiers_possible(
            original,
            constraints,
            upto,
        ),
    decreases upto,
{
    if upto > 0 {
        lemma_planned_room(original, constraints, map, upto - 1);
        assert(is_planned(
            original[upto - 1],
            map[upto - 1],
            constraints[upto - 1].0,
            constraints[upto - 1].1,
        ));
    }
}

/// Gives the value at `index` room for one more guaranteed bit, where the
/// constraint of that index lets it: keeps the direction in which the map
/// value was moved before, and starts in the given one.
fn grow_allowed_change<M: EncodingContainer + ?Sized>(
    original_value: u8,
    output_map: &mut M,
    index: usize,
    max_difference: u8,
    initial_direction_positive: bool,
) -> (grown: bool)
    requires
        index < old(output_map).values().len(),
        is_planned(
            original_value,
            old(output_map).values()[index as int],
            max_difference,
            initial_direction_positive,
        ),
    ensures
        grown == (planned_tiers(original_value, old(output_map).values()[index as int])
            < tiers_possible(original_value, max_difference, initial_direction_positive)),
        !grown ==> final(output_map).values() == old(output_map).values(),
        grown ==> final(output_map).values() == old(output_map).values().update(
            index as int,
            final(output_map).values()[index as int],
        ),
        final(output_map).values().len() == old(output_map).values().len(),
        is_planned(
            original_value,
            final(output_map).values()[index as int],
            max_difference,
            initial_direction_positive,
        ),
        grown ==> planned_tiers(original_value, final(output_map).values()[index as int])
            == planned_tiers(original_value, old(output_map).values()[index as int]) + 1,
{
    let allowed_change: u8 = output_map.value_at(index);
    let old_difference: u8 = distance(original_value, allowed_change);
    if old_difference < max_difference {
        let num_bits_currently_encodable: u8 = get_max_num_bits_encodable(old_difference);
        if let Some(new_difference) = calculate_worst_case_difference_for(
            num_bits_currently_encodable + 1,
        ) {
            if new_difference <= max_difference {
                let desired_direction_positive: bool = if original_value == allowed_change {
                    initial_direction_positive
                } else {
                    allowed_change > original_value
                };
                return attempt_change(
                    output_map,
                    index,
                    new_difference - old_difference,
                    desired_direction_positive,
                );
            }
        }
    }
    false
}

/// Permutes `indices` in place with `rand`'s `SliceRandom::shuffle`, which
/// only swaps elements: afterwards the vector holds the same indices, each as
/// often as before. Their order is random, and nothing is claimed of it.
#[verifier::external_body]
fn shuffle_indices(indices: &mut Vec<usize>, rng: &mut ThreadRng)
    ensures
        final(indices)@.to_multiset() == old(indices)@.to_multiset(),
{
    indices.shuffle(rng);
}

/// The indices of a container of `length` values, in order.
pub open spec fn all_indices(length: int) -> Seq<usize> {
    Seq::new(length as nat, |index: int| index as usize)
}

/// A vector that holds the indices of a container as often as `all_indices`
/// does holds every index, and nothing else.
proof fn lemma_shuffled_holds_all(shuffled: Seq<usize>, length: int)
    requires
        0 <= length <= usize::MAX,
        shuffled.to_multiset() == all_indices(length).to_multiset(),
    ensures
        shuffled.len() == length,
        forall|position: int| 0 <= position < length ==> #[trigger] shuffled[position] < length,
        forall|index: usize| index < length ==> #[trigger] shuffled.contains(index),
{
    broadcast use vstd::seq_lib::group_to_multiset_ensures;

    let ordered = all_indices(length);
    assert(shuffled.len() == shuffled.to_multiset().len());
    assert(ordered.len() == ordered.to_multiset().len());
    assert forall|position: int| 0 <= position < length implies #[trigger] shuffled[position]
        < length by {
        let held = shuffled[position];
        assert(shuffled.contains(held));
        assert(shuffled.to_multiset().count(held) > 0);
        assert(ordered.contains(held));
    }
    assert forall|index: usize| index < length implies #[trigger] shuffled.contains(index) by {
        assert(ordered[index as int] == index);
        assert(ordered.contains(index));
        assert(ordered.to_multiset().count(index) > 0);
    }
}

/// Whether the value at `index` has all the room that its constraint lets it have.
pub open spec fn has_no_room_left(
    original: Seq<u8>,
    constraints: Seq<(u8, bool)>,
    map: Seq<u8>,
    index: int,
) -> bool {
    planned_tiers(original[index], map[index]) >= tiers_possible(
        original[index],
        constraints[index].0,
        constraints[index].1,
    )
}

/// Plans room for `message_length_in_bits` bits in `original` and writes the
/// plan to `output_map`, where `constraints` holds for every index the largest
/// difference that is allowed there and the direction in which the value is
/// to be moved first.
///
/// The map starts as a copy of the carrier. In passes over the indices in a
/// random order, as many indices as bits are still outstanding are each given
/// room for one more guaranteed bit, where their constraint lets them, until
/// no bit is outstanding. A pass over all indices in which none could be given
/// more room ends the planning: the error then holds the number of bits that
/// room was found for, which is all the room there is.
pub fn write_minimal_evenly_random_allowed_changes_map_within<
    O: EncodingContainer + ?Sized,
    M: EncodingContainer + ?Sized,
>(
    message_length_in_bits: usize,
    original: &O,
    constraints: &[(u8, bool)],
    output_map: &mut M,
) -> (result: DifCodeResult<()>)
    requires
        original.values().len() == old(output_map).values().len(),
        original.values().len() == constraints@.len(),
    ensures
        is_plan_outcome(
            result,
            message_length_in_bits as int,
            original.values(),
            constraints@,
            final(output_map).values(),
        ),
{
    let length: usize = original.len();
    let ghost carrier = original.values();
    let mut all: Vec<usize> = Vec::new();
    let mut index: usize = 0;
    while index < length
        invariant
            index <= length,
            length == carrier.len(),
            length == output_map.values().len(),
            carrier == original.values(),
            all@ == all_indices(index as int),
            forall|earlier: int| 0 <= earlier < index ==> output_map.values()[earlier] == carrier[earlier],
        decreases length - index,
    {
        output_map.set_value_at(index, original.value_at(index));
        all.push(index);
        index += 1;
        assert(all@ =~= all_indices(index as int));
    }
    proof {
        assert(output_map.values() =~= carrier);
        lemma_max_capacity_of_copy(carrier, length as int);
    }
    let mut rng: ThreadRng = thread_generator();
    let mut remaining: usize = message_length_in_bits;
    while remaining > 0
        invariant
            length == carrier.len(),
            length == output_map.values().len(),
            length == constraints@.len(),
            carrier == original.values(),
            all@.to_multiset() == all_indices(length as int).to_multiset(),
            is_planned_map(carrier, constraints@, output_map.values()),
            remaining <= message_length_in_bits,
            message_length_in_bits - remaining == max_capacity(
                carrier,
                output_map.values(),
                length as int,
            ),
        decreases remaining,
    {
        shuffle_indices(&mut all, &mut rng);
        proof {
            lemma_shuffled_holds_all(all@, length as int);
        }
        let ghost at_pass_start = remaining;
        let mut pass_successes: usize = 0;
        let mut step_from: usize = 0;
        while remaining > 0 && step_from < length
            invariant
                length == carrier.len(),
                length == output_map.values().len(),
                length == constraints@.len(),
                carrier == original.values(),
                all@.to_multiset() == all_indices(length as int).to_multiset(),
                all@.len() == length,
                forall|position: int| 0 <= position < length ==> #[trigger] all@[position] < length,
                is_planned_map(carrier, constraints@, output_map.values()),
                remaining <= message_length_in_bits,
                message_length_in_bits - remaining == max_capacity(
                    carrier,
                    output_map.values(),
                    length as int,
                ),
                step_from <= length,
                remaining + pass_successes == at_pass_start,
                pass_successes == 0 ==> forall|position: int|
                    0 <= position < step_from ==> has_no_room_left(
                        carrier,
                        constraints@,
                        output_map.values(),
                        #[trigger] all@[position] as int,
                    ),
            decreases length - step_from,
        {
            let step_to: usize = if remaining < length - step_from {
                step_from + remaining
            } else {
                length
            };
            let mut step_successes: usize = 0;
            let mut position: usize = step_from;
            while position < step_to
                invariant
                    length == carrier.len(),
                    length == output_map.values().len(),
                    length == constraints@.len(),
                    carrier == original.values(),
                    all@.len() == length,
                    forall|position: int|
                        0 <= position < length ==> #[trigger] all@[position] < length,
                    is_planned_map(carrier, constraints@, output_map.values()),
                    remaining <= message_length_in_bits,
                    step_from <= position <= step_to <= length,
                    step_to - step_from <= remaining,
                    step_successes <= position - step_from,
                    message_length_in_bits - remaining + step_successes == max_capacity(
                        carrier,
                        output_map.values(),
                        length as int,
                    ),
                    pass_successes + step_successes == 0 ==> forall|earlier: int|
                        0 <= earlier < position ==> has_no_room_left(
                            carrier,
                            constraints@,
                            output_map.values(),
                            #[trigger] all@[earlier] as int,
                        ),
                decreases step_to - position,
            {
                let selected: usize = all[position];
                assert(all@[position as int] < length);
                let original_value: u8 = original.value_at(selected);
                let max_difference: u8 = constraints[selected].0;
                let initial_direction_positive: bool = constraints[selected].1;
                let ghost before = output_map.values();
                assert(is_planned(
                    carrier[selected as int],
                    before[selected as int],
                    constraints@[selected as int].0,
                    constraints@[selected as int].1,
                ));
                let grown: bool = grow_allowed_change(
                    original_value,
                    output_map,
                    selected,
                    max_difference,
                    initial_direction_positive,
                );
                proof {
                    let after = output_map.values();
                    lemma_max_capacity_update(
                        carrier,
                        before,
                        selected as int,
                        after[selected as int],
                        length as int,
                    );
                    assert forall|other: int| 0 <= other < length implies is_planned(
                        carrier[other],
                        #[trigger] after[other],
                        constraints@[other].0,
                        constraints@[other].1,
                    ) by {
                        if other != selected {
                            assert(after[other] == before[other]);
                        }
                    }
                }
                if grown {
                    step_successes += 1;
                }
                position += 1;
            }
            pass_successes += step_successes;
            remaining -= step_successes;
            step_from = step_to;
        }
        if remaining > 0 && pass_successes == 0 {
            proof {
                let map = output_map.values();
                assert forall|index: int| 0 <= index < length implies planned_tiers(
                    carrier[index],
                    #[trigger] map[index],
                ) >= tiers_possible(carrier[index], constraints@[index].0, constraints@[index].1) by {
                    assert(all@.contains(index as usize));
                    let position = choose|position: int|
                        0 <= position < all@.len() && all@[position] == index as usize;
                    assert(has_no_room_left(carrier, constraints@, map, all@[position] as int));
                }
                lemma_planned_room(carrier, constraints@, map, length as int);
            }
            return Err(DifCodeError::InternalCapacityReached(message_length_in_bits - remaining));
        }
    }
    proof {
        lemma_planned_room(carrier, constraints@, output_map.values(), length as int);
    }
    Ok(())
}

/// The constraints of the flat bound: every index may change by up to
/// `max_difference`, and a value moves first towards the wider side of the
/// byte range, upwards from the lower half and downwards from the upper.
pub open spec fn flat_constraints(original: Seq<u8>, max_difference: u8) -> Seq<(u8, bool)> {
    Seq::new(original.len(), |index: int| (max_difference, original[index] <= 127))
}

/// What a function that returns a newly planned map gives: the map of a plan
/// for `bits` bits, or the error of the plan.
pub open spec fn is_created_plan(
    result: DifCodeResult<Vec<u8>>,
    bits: int,
    original: Seq<u8>,
    constraints: Seq<(u8, bool)>,
) -> bool {
    match result {
        Ok(map) => is_plan_outcome(Ok(()), bits, original, constraints, map@),
        Err(error) => {
            &&& bits > total_tiers_possible(original, constraints, original.len() as int)
            &&& error matches DifCodeError::InternalCapacityReached(planned)
            &&& planned == total_tiers_possible(original, constraints, original.len() as int)
        },
    }
}

/// A planned value differs from the original by no more than its bound.
pub proof fn lemma_planned_within_bound(
    original_value: u8,
    allowed_change: u8,
    max_difference: u8,
    positive: bool,
)
    requires
        is_planned(original_value, allowed_change, max_difference, positive),
    ensures
        spec_distance(original_value, allowed_change) <= max_difference,
        is_tier_boundary(spec_distance(original_value, allowed_change)),
        allowed_change != original_value ==> (allowed_change > original_value <==> positive),
{
}

/// The bound is respected: at every index of a planned map, the distance
/// between the carrier and the map is at most the bound that the constraints
/// hold for that index.
pub proof fn lemma_plan_respects_bounds(
    original: Seq<u8>,
    constraints: Seq<(u8, bool)>,
    map: Seq<u8>,
    index: int,
)
    requires
        is_planned_map(original, constraints, map),
        0 <= index < original.len(),
    ensures
        spec_distance(original[index], map[index]) <= constraints[index].0,
{
    assert(is_planned(original[index], map[index], constraints[index].0, constraints[index].1));
    lemma_planned_within_bound(
        original[index],
        map[index],
        constraints[index].0,
        constraints[index].1,
    );
}

/// The room of a planned map is guaranteed: whatever the bits are, as many
/// fit as the map has room for.
pub proof fn lemma_planned_room_is_guaranteed(
    original: Seq<u8>,
    constraints: Seq<(u8, bool)>,
    map: Seq<u8>,
)
    requires
        is_planned_map(original, constraints, map),
    ensures
        min_capacity(original, map, original.len() as int) == max_capacity(
            original,
            map,
            original.len() as int,
        ),
{
    assert forall|index: int| 0 <= index < original.len() implies is_tier_boundary(
        #[trigger] spec_distance(original[index], map[index]),
    ) by {
        assert(is_planned(original[index], map[index], constraints[index].0, constraints[index].1));
    }
    lemma_capacities_meet_at_tier_boundaries(original, map, original.len() as int);
}

/// A message for which a map was planned is written as a whole into the
/// carrier within that map, and read back from what was written.
pub proof fn lemma_planned_message_round_trip(
    message: Seq<u8>,
    original: Seq<u8>,
    constraints: Seq<(u8, bool)>,
    map: Seq<u8>,
)
    requires
        is_planned_map(original, constraints, map),
        max_capacity(original, map, original.len() as int) == message.len() * 8,
    ensures
        committed_before(message_bits(message), original, map, original.len() as int)
            == message.len() * 8,
        packed_bytes(
            decoded_stream(
                original,
                encoded_values(message_bits(message), original, map),
                original.len() as int,
            ),
        ) == message,
{
    lemma_planned_room_is_guaranteed(original, constraints, map);
    lemma_round_trip(message, original, map);
}

/// Plans room for `message_length_in_bits` bits, with the constraint of every
/// index taken from `change_constraint_calculator`, which is asked once for
/// each index with that index and the carrier's value there and returns the
/// largest difference and the first direction. For a message without bits the
/// calculator is not asked, and the map is a copy of the carrier.
pub fn write_minimal_evenly_random_allowed_changes_map<
    O: EncodingContainer + ?Sized,
    M: EncodingContainer + ?Sized,
    F: Fn(usize, u8) -> (u8, bool),
>(
    message_length_in_bits: usize,
    original: &O,
    change_constraint_calculator: F,
    output_map: &mut M,
) -> (result: DifCodeResult<()>)
    requires
        original.values().len() == old(output_map).values().len(),
        message_length_in_bits > 0 ==> forall|index: int|
            0 <= index < original.values().len() ==> call_requires(
                change_constraint_calculator,
                (index as usize, #[trigger] original.values()[index]),
            ),
    ensures
        message_length_in_bits == 0 ==> result is Ok && final(output_map).values()
            == original.values(),
        message_length_in_bits > 0 ==> exists|constraints: Seq<(u8, bool)>|
            {
                &&& constraints.len() == original.values().len()
                &&& forall|index: int|
                    0 <= index < constraints.len() ==> call_ensures(
                        change_constraint_calculator,
                        (index as usize, original.values()[index]),
                        #[trigger] constraints[index],
                    )
                &&& is_plan_outcome(
                    result,
                    message_length_in_bits as int,
                    original.values(),
                    constraints,
                    final(output_map).values(),
                )
            },
{
    let length: usize = original.len();
    let mut constraints: Vec<(u8, bool)> = Vec::new();
    let mut index: usize = 0;
    if message_length_in_bits == 0 {
        while index < length
            invariant
                index <= length,
                length == original.values().len(),
                length == output_map.values().len(),
                forall|earlier: int|
                    0 <= earlier < index ==> output_map.values()[earlier] == original.values()[earlier],
            decreases length - index,
        {
            output_map.set_value_at(index, original.value_at(index));
            index += 1;
        }
        assert(output_map.values() =~= original.values());
        return Ok(());
    }
    while index < length
        invariant
            index <= length,
            length == original.values().len(),
            constraints@.len() == index,
            forall|index: int|
                0 <= index < original.values().len() ==> call_requires(
                    change_constraint_calculator,
                    (index as usize, #[trigger] original.values()[index]),
                ),
            forall|earlier: int|
                0 <= earlier < index ==> call_ensures(
                    change_constraint_calculator,
                    (earlier as usize, original.values()[earlier]),
                    #[trigger] constraints@[earlier],
                ),
        decreases length - index,
    {
        let original_value: u8 = original.value_at(index);
        assert(original_value == original.values()[index as int]);
        let constraint: (u8, bool) = change_constraint_calculator(index, original_value);
        constraints.push(constraint);
        index += 1;
    }
    write_minimal_evenly_random_allowed_changes_map_within(
        message_length_in_bits,
        original,
        constraints.as_slice(),
        output_map,
    )
}

/// Plans room for `message_length_in_bits` bits under the flat bound: no value
/// of `output_map` differs from the carrier's by more than `max_difference`.
///
/// A bound that is not the largest difference of a tier leaves part of it
/// unused: room is planned for what is guaranteed to fit.
pub fn write_minimal_evenly_random_allowed_changes_map_with<
    O: EncodingContainer + ?Sized,
    M: EncodingContainer + ?Sized,
>(
    message_length_in_bits: usize,
    original: &O,
    max_difference: u8,
    output_map: &mut M,
) -> (result: DifCodeResult<()>)
    requires
        original.values().len() == old(output_map).values().len(),
    ensures
        is_plan_outcome(
            result,
            message_length_in_bits as int,
            original.values(),
            flat_constraints(original.values(), max_difference),
            final(output_map).values(),
        ),
        forall|index: int|
            0 <= index < original.values().len() ==> spec_distance(
                original.values()[index],
                #[trigger] final(output_map).values()[index],
            ) <= max_difference,
{
    let ghost carrier = original.values();
    let ghost flat = flat_constraints(carrier, max_difference);
    let calculator = |_index: usize, original_value: u8| -> (constraint: (u8, bool))
        ensures
            constraint == (max_difference, original_value <= 127),
        { (max_difference, original_value <= 255 / 2) };
    let result = write_minimal_evenly_random_allowed_changes_map(
        message_length_in_bits,
        original,
        calculator,
        output_map,
    );
    proof {
        let map = output_map.values();
        if message_length_in_bits == 0 {
            assert forall|index: int| 0 <= index < carrier.len() implies is_planned(
                carrier[index],
                #[trigger] map[index],
                flat[index].0,
                flat[index].1,
            ) by {}
            lemma_max_capacity_of_copy(carrier, carrier.len() as int);
            lemma_planned_room(carrier, flat, map, carrier.len() as int);
        } else {
            let constraints = choose|constraints: Seq<(u8, bool)>|
                {
                    &&& constraints.len() == carrier.len()
                    &&& forall|index: int|
                        0 <= index < constraints.len() ==> call_ensures(
                            calculator,
                            (index as usize, carrier[index]),
                            #[trigger] constraints[index],
                        )
                    &&& is_plan_outcome(
                        result,
                        message_length_in_bits as int,
                        carrier,
                        constraints,
                        map,
                    )
                };
            assert(constraints =~= flat);
        }
        assert forall|index: int| 0 <= index < carrier.len() implies spec_distance(
            carrier[index],
            #[trigger] map[index],
        ) <= max_difference by {
            lemma_plan_respects_bounds(carrier, flat, map, index);
        }
    }
    result
}

/// Plans room for `message` under the widest flat bound, 255.
pub fn write_minimal_evenly_random_allowed_changes_map_for<
    O: EncodingContainer + ?Sized,
    M: EncodingContainer + ?Sized,
>(message: &[u8], original: &O, output_map: &mut M) -> (result: DifCodeResult<()>)
    requires
        message@.len() * 8 <= usize::MAX,
        original.values().len() == old(output_map).values().len(),
    ensures
        is_plan_outcome(
            result,
            message@.len() as int * 8,
            original.values(),
            flat_constraints(original.values(), 255),
            final(output_map).values(),
        ),
{
    write_minimal_evenly_random_allowed_changes_map_with(
        get_length_in_bits(message),
        original,
        255,
        output_map,
    )
}

/// A new map with room for `message` under the flat bound `max_difference`.
pub fn create_minimal_evenly_random_allowed_changes_map_for<O: EncodingContainer + ?Sized>(
    message: &[u8],
    original: &O,
    max_difference: u8,
) -> (result: DifCodeResult<Vec<u8>>)
    requires
        message@.len() * 8 <= usize::MAX,
    ensures
        is_created_plan(
            result,
            message@.len() as int * 8,
            original.values(),
            flat_constraints(original.values(), max_difference),
        ),
        result matches Ok(map) ==> forall|index: int|
            0 <= index < original.values().len() ==> spec_distance(
                original.values()[index],
                #[trigger] map@[index],
            ) <= max_difference,
{
    let mut output_map: Vec<u8> = vec![0u8; original.len()];
    match write_minimal_evenly_random_allowed_changes_map_with(
        get_length_in_bits(message),
        original,
        max_difference,
        &mut output_map,
    ) {
        Ok(()) => Ok(output_map),
        Err(error) => Err(error),
    }
}

/// A new map with room for `message` under the widest flat bound, 255.
pub fn create_minimal_evenly_random_allowed_changes_map<O: EncodingContainer + ?Sized>(
    message: &[u8],
    original: &O,
) -> (result: DifCodeResult<Vec<u8>>)
    requires
        message@.len() * 8 <= usize::MAX,
    ensures
        is_created_plan(
            result,
            message@.len() as int * 8,
            original.values(),
            flat_constraints(original.values(), 255),
        ),
{
    let mut output_map: Vec<u8> = vec![0u8; original.len()];
    match write_minimal_evenly_random_allowed_changes_map_for(message, original, &mut output_map) {
        Ok(()) => Ok(output_map),
        Err(error) => Err(error),
    }
}

/// A new map with room for `message` in an image under the widest flat
/// bound, 255.
pub fn create_minimal_evenly_random_allowed_changes_map_for_image(
    message: &[u8],
    original: &DifCodeImage,
) -> (result: DifCodeResult<Vec<u8>>)
    requires
        message@.len() * 8 <= usize::MAX,
    ensures
        is_created_plan(
            result,
            message@.len() as int * 8,
            original.values(),
            flat_constraints(original.values(), 255),
        ),
{
    create_minimal_evenly_random_allowed_changes_map(message, original)
}

/// The radius of the window over which the local average of an image is taken.
pub const AVERAGE_RADIUS: u32 = 10;

/// The average of channel `z` over the window around `(x, y)`: the sum over
/// the columns and rows that lie up to `radius` to each side, as far as the
/// image goes and without the first column and row of the window, divided by
/// the number of positions summed over.
pub open spec fn window_average(image: DifCodeImage, x: int, y: int, z: int, radius: int) -> int {
    let first_x = window_start(x, radius);
    let first_y = window_start(y, radius);
    let last_x = window_end(x, radius, image.spec_width() as int);
    let last_y = window_end(y, radius, image.spec_height() as int);
    area_total(image, first_x, first_y, last_x, last_y, z) / ((last_x - first_x) * (last_y
        - first_y))
}

/// The constraint of the locally adaptive bound at `index`: the value may
/// change by up to its distance from the average around it, and moves
/// towards that average.
pub open spec fn area_average_constraint(image: DifCodeImage, index: int, radius: int) -> (u8, bool) {
    let average = window_average(
        image,
        x_of_index(image.spec_width(), image.spec_height(), index),
        y_of_index(image.spec_width(), image.spec_height(), index),
        z_of_index(image.spec_width(), image.spec_height(), index),
        radius,
    );
    (
        spec_distance(image.values()[index], average as u8) as u8,
        image.values()[index] < average,
    )
}

/// The constraints of the locally adaptive bound for every index of an image.
pub open spec fn area_average_constraints(image: DifCodeImage, radius: int) -> Seq<(u8, bool)> {
    Seq::new(image.values().len(), |index: int| area_average_constraint(image, index, radius))
}

/// The constraint of the locally adaptive bound at `index`, read from the
/// integral image of `original`.
fn area_average_change_constraint(
    original: &DifCodeImage,
    integral_image: &IntegralRgbImage,
    index: usize,
) -> (constraint: (u8, bool))
    requires
        integral_image.is_integral_of(*original),
        index < original.values().len(),
        original.spec_width() >= 2,
        original.spec_height() >= 2,
        255 * (original.spec_width() * original.spec_height()) <= u32::MAX,
    ensures
        constraint == area_average_constraint(*original, index as int, AVERAGE_RADIUS as int),
{
    let ghost width = original.spec_width();
    let ghost height = original.spec_height();
    proof {
        lemma_index_to_xyz(width, height, index as int);
        assert(width <= 0x1000_0000 && height <= 0x1000_0000) by (nonlinear_arith)
            requires
                255 * (width * height) <= 0xffff_ffff,
                width >= 2,
                height >= 2,
        ;
    }
    let original_value: u8 = original.value_at(index);
    let (x, y, z) = DifCodeImage::index_to_xyz_with_wh(
        index,
        integral_image.width(),
        integral_image.height(),
    );
    proof {
        let radius = AVERAGE_RADIUS as int;
        let first_x = window_start(x as int, radius);
        let first_y = window_start(y as int, radius);
        let last_x = window_end(x as int, radius, width as int);
        let last_y = window_end(y as int, radius, height as int);
        lemma_integral_area_sum(
            *integral_image,
            *original,
            first_x,
            first_y,
            last_x,
            last_y,
            z as int,
        );
        let count = (last_x - first_x) * (last_y - first_y);
        assert(0 < count <= 400) by (nonlinear_arith)
            requires
                count == (last_x - first_x) * (last_y - first_y),
                0 < last_x - first_x <= 20,
                0 < last_y - first_y <= 20,
        ;
        let total = area_total(*original, first_x, first_y, last_x, last_y, z as int);
        assert(0 <= total / count <= 255) by (nonlinear_arith)
            requires
                0 <= total <= 255 * count,
                0 < count,
        ;
    }
    let average: u8 = integral_image.average_in_radius(x, y, z, AVERAGE_RADIUS);
    let max_difference: u8 = distance(original_value, average);
    let initial_direction_positive: bool = original_value < average;
    (max_difference, initial_direction_positive)
}

/// Plans room for `message_length_in_bits` bits in an image under the locally
/// adaptive bound: at every index the value may change by up to its distance
/// from the average of its channel around its pixel, and moves towards it.
/// The sums of the image's values must fit the cells of its integral image,
/// and an image into which bits are to be planned must have two columns and
/// two rows at least.
pub fn write_minimal_evenly_random_max_area_average_allowed_changes_map<
    M: EncodingContainer + ?Sized,
>(message_length_in_bits: usize, original: &DifCodeImage, output_map: &mut M) -> (result:
    DifCodeResult<()>)
    requires
        original.values().len() == old(output_map).values().len(),
        255 * (original.spec_width() * original.spec_height()) <= u32::MAX,
        fits_table(original.spec_width() as int, original.spec_height() as int),
        message_length_in_bits > 0 && original.values().len() > 0 ==> original.spec_width() >= 2
            && original.spec_height() >= 2,
    ensures
        is_plan_outcome(
            result,
            message_length_in_bits as int,
            original.values(),
            area_average_constraints(*original, AVERAGE_RADIUS as int),
            final(output_map).values(),
        ),
{
    let integral_image: IntegralRgbImage = original.generate_integral_image_for_rgb();
    let ghost carrier = original.values();
    let ghost adaptive = area_average_constraints(*original, AVERAGE_RADIUS as int);
    if message_length_in_bits == 0 {
        let result = write_minimal_evenly_random_allowed_changes_map_with(
            0,
            original,
            0,
            output_map,
        );
        proof {
            let map = output_map.values();
            let flat = flat_constraints(carrier, 0);
            assert forall|index: int| 0 <= index < carrier.len() implies is_planned(
                carrier[index],
                #[trigger] map[index],
                adaptive[index].0,
                adaptive[index].1,
            ) by {
                assert(is_planned(carrier[index], map[index], flat[index].0, flat[index].1));
            }
            lemma_planned_room(carrier, flat, map, carrier.len() as int);
            lemma_planned_room(carrier, adaptive, map, carrier.len() as int);
        }
        return result;
    }
    let length: usize = original.len();
    let mut constraints: Vec<(u8, bool)> = Vec::new();
    let mut index: usize = 0;
    while index < length
        invariant
            index <= length,
            length == original.values().len(),
            integral_image.is_integral_of(*original),
            length > 0 ==> original.spec_width() >= 2 && original.spec_height() >= 2,
            255 * (original.spec_width() * original.spec_height()) <= u32::MAX,
            constraints@.len() == index,
            forall|earlier: int|
                0 <= earlier < index ==> constraints@[earlier] == area_average_constraint(
                    *original,
                    earlier,
                    AVERAGE_RADIUS as int,
                ),
        decreases length - index,
    {
        let constraint: (u8, bool) = area_average_change_constraint(
            original,
            &integral_image,
            index,
        );
        constraints.push(constraint);
        index += 1;
    }
    assert(constraints@ =~= adaptive);
    write_minimal_evenly_random_allowed_changes_map_within(
        message_length_in_bits,
        original,
        constraints.as_slice(),
        output_map,
    )
}

/// Plans room for `message` in an image under the locally adaptive bound.
pub fn write_minimal_evenly_random_max_area_average_allowed_changes_map_for<
    M: EncodingContainer + ?Sized,
>(message: &[u8], original: &DifCodeImage, output_map: &mut M) -> (result: DifCodeResult<()>)
    requires
        message@.len() * 8 <= usize::MAX,
        original.values().len() == old(output_map).values().len(),
        255 * (original.spec_width() * original.spec_height()) <= u32::MAX,
        fits_table(original.spec_width() as int, original.spec_height() as int),
        message@.len() > 0 && original.values().len() > 0 ==> original.spec_width() >= 2
            && original.spec_height() >= 2,
    ensures
        is_plan_outcome(
            result,
            message@.len() as int * 8,
            original.values(),
            area_average_constraints(*original, AVERAGE_RADIUS as int),
            final(output_map).values(),
        ),
{
    write_minimal_evenly_random_max_area_average_allowed_changes_map(
        get_length_in_bits(message),
        original,
        output_map,
    )
}

/// A new map with room for `message` in an image under the locally adaptive
/// bound.
pub fn create_minimal_evenly_random_max_area_average_allowed_changes_map(
    message: &[u8],
    original: &DifCodeImage,
) -> (result: DifCodeResult<Vec<u8>>)
    requires
        message@.len() * 8 <= usize::MAX,
        255 * (original.spec_width() * original.spec_height()) <= u32::MAX,
        fits_table(original.spec_width() as int, original.spec_height() as int),
        message@.len() > 0 && original.values().len() > 0 ==> original.spec_width() >= 2
            && original.spec_height() >= 2,
    ensures
        is_created_plan(
            result,
            message@.len() as int * 8,
            original.values(),
            area_average_constraints(*original, AVERAGE_RADIUS as int),
        ),
{
    let mut output_map: Vec<u8> = vec![0u8; original.len()];
    match write_minimal_evenly_random_max_area_average_allowed_changes_map_for(
        message,
        original,
        &mut output_map,
    ) {
        Ok(()) => Ok(output_map),
        Err(error) => Err(error),
    }
}

} // verus!
