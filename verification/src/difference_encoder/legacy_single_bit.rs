//! The older codec: one bit at each of a number of chosen carrier indices, as
//! a difference of 1 or 2.

use crate::util::dif_code_image::DifCodeImage;
use crate::util::{
    bit_of, byte_group, distance, get_bit_at, get_length_in_bits,
    lemma_byte_of_its_bits, lemma_packing_inverts_message_bits, message_bits, packed_bytes,
    random_below, random_direction, set_bit_at, spec_distance, thread_generator, DifCodeError,
    DifCodeResult, EncodingContainer,
};
use rand::rngs::ThreadRng;
use vstd::prelude::*;

verus! {

/// Whether `indices` is strictly ascending and stays below `bound`.
pub open spec fn is_ascending_below(indices: Seq<usize>, bound: int) -> bool {
    &&& forall|earlier: int, later: int|
        0 <= earlier < later < indices.len() ==> indices[earlier] < indices[later]
    &&& forall|position: int| 0 <= position < indices.len() ==> indices[position] < bound
}

/// Chooses `message_length_in_bits` different indices below `max_index` at
/// random and returns them in ascending order. There must be that many.
pub fn randomly_select_indices(message_length_in_bits: usize, max_index: usize) -> (selected_indices:
    Vec<usize>)
    requires
        message_length_in_bits <= max_index,
    ensures
        selected_indices@.len() == message_length_in_bits,
        is_ascending_below(selected_indices@, max_index as int),
{
    let mut rng: ThreadRng = thread_generator();
    let mut selected_indices: Vec<usize> = Vec::new();
    let mut candidate: usize = 0;
    while candidate < max_index
        invariant
            candidate <= max_index,
            selected_indices@.len() <= message_length_in_bits,
            message_length_in_bits - selected_indices@.len() <= max_index - candidate,
            is_ascending_below(selected_indices@, candidate as int),
        decreases max_index - candidate,
    {
        let needed: usize = message_length_in_bits - selected_indices.len();
        let drawn: usize = random_below(&mut rng, max_index - candidate);
        if drawn < needed {
            selected_indices.push(candidate);
        }
        candidate += 1;
    }
    selected_indices
}

/// Chooses one index of `original` for every bit of `message_bytes`.
pub fn randomly_select_indices_within<O: EncodingContainer + ?Sized>(
    message_bytes: &[u8],
    original: &O,
) -> (selected_indices: Vec<usize>)
    requires
        message_bytes@.len() * 8 <= original.values().len(),
    ensures
        selected_indices@.len() == message_bytes@.len() * 8,
        is_ascending_below(selected_indices@, original.values().len() as int),
{
    let max_index: usize = original.len();
    randomly_select_indices(get_length_in_bits(message_bytes), max_index)
}

/// The difference that stands for a bit: 1 for a 0 bit, 2 for a 1 bit.
pub open spec fn goal_difference(bit: bool) -> int {
    if bit {
        2
    } else {
        1
    }
}

/// `original_value` moved by `goal_difference` in the desired direction, or in
/// the other one where the desired one would leave the byte range.
pub open spec fn moved_value(original_value: u8, goal_difference: int, positive_desired: bool) -> int {
    if positive_desired {
        if original_value > 255 - goal_difference {
            original_value - goal_difference
        } else {
            original_value + goal_difference
        }
    } else {
        if original_value < goal_difference {
            original_value + goal_difference
        } else {
            original_value - goal_difference
        }
    }
}

/// Writes the value of `original` at `index`, moved by `goal_difference`, to
/// `encoded` at `index`.
pub fn encode_difference_into<O: EncodingContainer + ?Sized, E: EncodingContainer + ?Sized>(
    index: usize,
    original: &O,
    encoded: &mut E,
    goal_difference: u8,
    difference_sign_positive_desired: bool,
)
    requires
        index < original.values().len(),
        index < old(encoded).values().len(),
        0 <= moved_value(
            original.values()[index as int],
            goal_difference as int,
            difference_sign_positive_desired,
        ) <= 255,
    ensures
        final(encoded).values() == old(encoded).values().update(
            index as int,
            moved_value(
                original.values()[index as int],
                goal_difference as int,
                difference_sign_positive_desired,
            ) as u8,
        ),
        spec_distance(original.values()[index as int], final(encoded).values()[index as int])
            == goal_difference,
        final(encoded).dimensions() == old(encoded).dimensions(),
{
    let original_value: u8 = original.value_at(index);
    if difference_sign_positive_desired {
        if original_value > 255 - goal_difference {
            encoded.set_value_at(index, original_value - goal_difference);
        } else {
            encoded.set_value_at(index, original_value + goal_difference);
        }
    } else {
        if original_value < goal_difference {
            encoded.set_value_at(index, original_value + goal_difference);
        } else {
            encoded.set_value_at(index, original_value - goal_difference);
        }
    }
}

/// Whether `encoded` is `original` with the bits `bits` written at the
/// indices `selected`: the value at the index of a bit is the original one
/// moved by the difference of that bit, up or down, and every other value is
/// the original one.
pub open spec fn is_single_bit_encoding(
    bits: Seq<bool>,
    original: Seq<u8>,
    selected: Seq<usize>,
    encoded: Seq<u8>,
) -> bool {
    &&& encoded.len() == original.len()
    &&& forall|position: int|
        0 <= position < selected.len() ==> {
            ||| encoded[#[trigger] selected[position] as int] == moved_value(
                original[selected[position] as int],
                goal_difference(bits[position]),
                true,
            )
            ||| encoded[selected[position] as int] == moved_value(
                original[selected[position] as int],
                goal_difference(bits[position]),
                false,
            )
        }
    &&& forall|index: int|
        0 <= index < original.len() && !selected.contains(index as usize) ==> #[trigger] encoded[index]
            == original[index]
}

/// Whether `index` is among the first `count` of `selected`.
pub open spec fn is_selected_among(selected: Seq<usize>, count: int, index: int) -> bool {
    exists|position: int| 0 <= position < count && #[trigger] selected[position] == index
}

/// Writes the bits of `message_bytes` into `encoded`, one at each of
/// `selected_indices`, which must be as many as the bits, strictly ascending,
/// and indices of `original`. Every other value is copied. The direction of
/// each change is drawn at random.
pub fn encode_at_indices<O: EncodingContainer + ?Sized, E: EncodingContainer + ?Sized>(
    message_bytes: &[u8],
    original: &O,
    selected_indices: &[usize],
    encoded: &mut E,
) -> (result: DifCodeResult<()>)
    requires
        message_bytes@.len() * 8 <= usize::MAX,
        message_bytes@.len() * 8 == selected_indices@.len() ==> {
            &&& is_ascending_below(selected_indices@, original.values().len() as int)
            &&& old(encoded).values().len() == original.values().len()
        },
    ensures
        final(encoded).dimensions() == old(encoded).dimensions(),
        message_bytes@.len() * 8 != selected_indices@.len() ==> {
            &&& result matches Err(DifCodeError::Internal(_))
            &&& final(encoded).values() == old(encoded).values()
        },
        message_bytes@.len() * 8 == selected_indices@.len() ==> {
            &&& result is Ok
            &&& is_single_bit_encoding(
                message_bits(message_bytes@),
                original.values(),
                selected_indices@,
                final(encoded).values(),
            )
        },
{
    let total: usize = get_length_in_bits(message_bytes);
    if total < selected_indices.len() {
        Err(
            DifCodeError::Internal(
                "message length in bits < selected indices length (too many selected indices, ambiguity must be resolved by caller)",
            ),
        )
    } else if total > selected_indices.len() {
        Err(
            DifCodeError::Internal(
                "message length in bits > selected indices length (too few selected indices)",
            ),
        )
    } else {
        let ghost bits = message_bits(message_bytes@);
        let ghost carrier = original.values();
        let ghost selected = selected_indices@;
        let length: usize = original.len();
        let mut rng: ThreadRng = thread_generator();
        let mut index_in_original: usize = 0;
        let mut position: usize = 0;
        while position < total
            invariant
                position <= total,
                total == selected.len(),
                total == bits.len(),
                total == message_bytes@.len() * 8,
                selected == selected_indices@,
                bits == message_bits(message_bytes@),
                carrier == original.values(),
                length == carrier.len(),
                length == encoded.values().len(),
                encoded.dimensions() == old(encoded).dimensions(),
                is_ascending_below(selected, length as int),
                index_in_original <= length,
                position == 0 ==> index_in_original == 0,
                position > 0 ==> index_in_original == selected[position - 1] + 1,
                forall|earlier: int|
                    0 <= earlier < position ==> {
                        ||| encoded.values()[#[trigger] selected[earlier] as int] == moved_value(
                            carrier[selected[earlier] as int],
                            goal_difference(bits[earlier]),
                            true,
                        )
                        ||| encoded.values()[selected[earlier] as int] == moved_value(
                            carrier[selected[earlier] as int],
                            goal_difference(bits[earlier]),
                            false,
                        )
                    },
                forall|index: int|
                    0 <= index < index_in_original ==> #[trigger] encoded.values()[index]
                        == carrier[index] || is_selected_among(selected, position as int, index),
            decreases total - position,
        {
            let bit_to_encode: bool = get_bit_at(
                message_bytes[position / 8],
                (position % 8) as u8,
            );
            assert(bit_to_encode == bits[position as int]);
            let selected_index_to_encode_at: usize = selected_indices[position];
            assert(position > 0 ==> selected[position - 1] < selected[position as int]);
            while index_in_original < selected_index_to_encode_at
                invariant
                    position < total,
                    total == selected.len(),
                    total == bits.len(),
                    carrier == original.values(),
                    length == carrier.len(),
                    length == encoded.values().len(),
                    encoded.dimensions() == old(encoded).dimensions(),
                    is_ascending_below(selected, length as int),
                    selected_index_to_encode_at == selected[position as int],
                    index_in_original <= selected_index_to_encode_at < length,
                    position > 0 ==> index_in_original > selected[position - 1],
                    forall|earlier: int|
                        0 <= earlier < position ==> {
                            ||| encoded.values()[#[trigger] selected[earlier] as int]
                                == moved_value(
                                carrier[selected[earlier] as int],
                                goal_difference(bits[earlier]),
                                true,
                            )
                            ||| encoded.values()[selected[earlier] as int] == moved_value(
                                carrier[selected[earlier] as int],
                                goal_difference(bits[earlier]),
                                false,
                            )
                        },
                    forall|index: int|
                        0 <= index < index_in_original ==> #[trigger] encoded.values()[index]
                            == carrier[index] || is_selected_among(selected, position as int, index),
                decreases selected_index_to_encode_at - index_in_original,
            {
                assert forall|earlier: int| 0 <= earlier < position implies #[trigger] selected[earlier]
                    < index_in_original by {
                    assert(selected[earlier] <= selected[position - 1]);
                }
                encoded.set_value_at(index_in_original, original.value_at(index_in_original));
                index_in_original += 1;
            }
            assert forall|earlier: int| 0 <= earlier < position implies #[trigger] selected[earlier]
                < index_in_original by {
                assert(selected[earlier] <= selected[position - 1]);
            }
            let goal_difference: u8 = if !bit_to_encode {
                1
            } else {
                2
            };
            let direction: bool = random_direction(&mut rng);
            encode_difference_into(
                selected_index_to_encode_at,
                original,
                encoded,
                goal_difference,
                direction,
            );
            index_in_original += 1;
            position += 1;
            assert forall|index: int| 0 <= index < index_in_original implies #[trigger] encoded.values()[index]
                == carrier[index] || is_selected_among(selected, position as int, index) by {
                if index == selected_index_to_encode_at {
                    assert(selected[position - 1] == index);
                } else {
                    if is_selected_among(selected, position - 1, index) {
                        let witness = choose|witness: int|
                            0 <= witness < position - 1 && #[trigger] selected[witness] == index;
                        assert(selected[witness] == index);
                    }
                }
            }
        }
        while index_in_original < length
            invariant
                total == selected.len(),
                carrier == original.values(),
                length == carrier.len(),
                length == encoded.values().len(),
                encoded.dimensions() == old(encoded).dimensions(),
                is_ascending_below(selected, length as int),
                index_in_original <= length,
                total > 0 ==> index_in_original > selected[total - 1],
                forall|earlier: int|
                    0 <= earlier < total ==> {
                        ||| encoded.values()[#[trigger] selected[earlier] as int] == moved_value(
                            carrier[selected[earlier] as int],
                            goal_difference(bits[earlier]),
                            true,
                        )
                        ||| encoded.values()[selected[earlier] as int] == moved_value(
                            carrier[selected[earlier] as int],
                            goal_difference(bits[earlier]),
                            false,
                        )
                    },
                forall|index: int|
                    0 <= index < index_in_original ==> #[trigger] encoded.values()[index]
                        == carrier[index] || is_selected_among(selected, total as int, index),
            decreases length - index_in_original,
        {
            assert forall|earlier: int| 0 <= earlier < total implies #[trigger] selected[earlier]
                < index_in_original by {
                assert(selected[earlier] <= selected[total - 1]);
            }
            encoded.set_value_at(index_in_original, original.value_at(index_in_original));
            index_in_original += 1;
        }
        proof {
            let written = encoded.values();
            assert forall|index: int|
                0 <= index < carrier.len() && !selected.contains(
                    index as usize,
                ) implies #[trigger] written[index] == carrier[index] by {
                if is_selected_among(selected, total as int, index) {
                    let witness = choose|witness: int|
                        0 <= witness < total && #[trigger] selected[witness] == index;
                    assert(selected.contains(selected[witness]));
                }
            }
        }
        Ok(())
    }
}

/// As `encode_at_indices`, into a new vector of the carrier's length.
pub fn encode_into_vec_at_indices<O: EncodingContainer + ?Sized>(
    message_bytes: &[u8],
    original: &O,
    selected_indices: &[usize],
) -> (result: DifCodeResult<Vec<u8>>)
    requires
        message_bytes@.len() * 8 <= usize::MAX,
        message_bytes@.len() * 8 == selected_indices@.len() ==> is_ascending_below(
            selected_indices@,
            original.values().len() as int,
        ),
    ensures
        message_bytes@.len() * 8 != selected_indices@.len() ==> result matches Err(
            DifCodeError::Internal(_),
        ),
        message_bytes@.len() * 8 == selected_indices@.len() ==> {
            &&& result matches Ok(encoded)
            &&& is_single_bit_encoding(
                message_bits(message_bytes@),
                original.values(),
                selected_indices@,
                encoded@,
            )
        },
{
    let mut encoded: Vec<u8> = vec![0u8; original.len()];
    match encode_at_indices(message_bytes, original, selected_indices, &mut encoded) {
        Ok(()) => Ok(encoded),
        Err(error) => Err(error),
    }
}

/// As `encode_at_indices`, into a new image of the carrier's size.
pub fn encode_into_image_at_indices(
    message_bytes: &[u8],
    original: &DifCodeImage,
    selected_indices: &[usize],
) -> (result: DifCodeResult<DifCodeImage>)
    requires
        message_bytes@.len() * 8 <= usize::MAX,
        message_bytes@.len() * 8 == selected_indices@.len() ==> is_ascending_below(
            selected_indices@,
            original.values().len() as int,
        ),
    ensures
        message_bytes@.len() * 8 != selected_indices@.len() ==> result matches Err(
            DifCodeError::Internal(_),
        ),
        message_bytes@.len() * 8 == selected_indices@.len() ==> {
            &&& result matches Ok(encoded_image)
            &&& encoded_image.spec_width() == original.spec_width()
            &&& encoded_image.spec_height() == original.spec_height()
            &&& is_single_bit_encoding(
                message_bits(message_bytes@),
                original.values(),
                selected_indices@,
                encoded_image.values(),
            )
        },
{
    let mut encoded_image: DifCodeImage = DifCodeImage::with_capacity(
        original.width(),
        original.height(),
    );
    match encode_at_indices(message_bytes, original, selected_indices, &mut encoded_image) {
        Ok(()) => Ok(encoded_image),
        Err(error) => Err(error),
    }
}

/// The bit that a difference stands for: a 0 bit for 1, a 1 bit for 2, and
/// none for any other difference.
pub open spec fn single_bit_of(difference: int) -> Option<bool> {
    if difference == 1 {
        Some(false)
    } else if difference == 2 {
        Some(true)
    } else {
        None
    }
}

/// The bits that the first `upto` indices hold, in the order of the indices.
pub open spec fn single_bits(first: Seq<u8>, second: Seq<u8>, upto: int) -> Seq<bool>
    decreases upto,
{
    if upto <= 0 {
        Seq::<bool>::empty()
    } else {
        match single_bit_of(spec_distance(first[upto - 1], second[upto - 1])) {
            Some(bit) => single_bits(first, second, upto - 1).push(bit),
            None => single_bits(first, second, upto - 1),
        }
    }
}

/// The number of the first `upto` indices at which the two containers differ.
pub open spec fn differing_count(first: Seq<u8>, second: Seq<u8>, upto: int) -> int
    decreases upto,
{
    if upto <= 0 {
        0
    } else {
        differing_count(first, second, upto - 1) + if first[upto - 1] != second[upto - 1] {
            1int
        } else {
            0
        }
    }
}

/// `bits` cut or filled up with 0 bits to `count` bits.
pub open spec fn padded_bits(bits: Seq<bool>, count: nat) -> Seq<bool> {
    Seq::new(count, |position: int| position < bits.len() && bits[position])
}

/// The bit at `index`, where the two containers hold one there.
pub fn decode_from_difference_at_indices<O: EncodingContainer + ?Sized, E: EncodingContainer + ?Sized>(
    index: usize,
    original: &O,
    encoded: &E,
) -> (bit: Option<bool>)
    requires
        index < original.values().len(),
        index < encoded.values().len(),
    ensures
        bit == single_bit_of(
            spec_distance(original.values()[index as int], encoded.values()[index as int]),
        ),
{
    let difference: u8 = distance(original.value_at(index), encoded.value_at(index));
    if difference == 1 {
        Some(false)
    } else if difference == 2 {
        Some(true)
    } else {
        None
    }
}

/// The number of indices at which `encoded` differs from `original`: the
/// length in bits of the message that a single-bit encoding holds.
pub fn get_single_bit_encoded_message_length_in_bits<
    O: EncodingContainer + ?Sized,
    E: EncodingContainer + ?Sized,
>(original: &O, encoded: &E) -> (bits: usize)
    requires
        original.values().len() == encoded.values().len(),
    ensures
        bits == differing_count(
            original.values(),
            encoded.values(),
            original.values().len() as int,
        ),
{
    let length: usize = original.len();
    let mut counter: usize = 0;
    let mut index: usize = 0;
    while index < length
        invariant
            index <= length,
            length == original.values().len(),
            length == encoded.values().len(),
            counter <= index,
            counter == differing_count(original.values(), encoded.values(), index as int),
        decreases length - index,
    {
        if original.value_at(index) != encoded.value_at(index) {
            counter += 1;
        }
        index += 1;
    }
    counter
}

/// The bits of the first indices are the first bits of all.
proof fn lemma_single_bits_prefix(first: Seq<u8>, second: Seq<u8>, shorter: int, longer: int)
    requires
        0 <= shorter <= longer,
    ensures
        single_bits(first, second, shorter).len() <= single_bits(first, second, longer).len(),
        single_bits(first, second, longer).take(single_bits(first, second, shorter).len() as int)
            == single_bits(first, second, shorter),
    decreases longer - shorter,
{
    let few = single_bits(first, second, shorter);
    if shorter < longer {
        lemma_single_bits_prefix(first, second, shorter, longer - 1);
        let most = single_bits(first, second, longer - 1);
        let all = single_bits(first, second, longer);
        assert(all.take(few.len() as int) =~= most.take(few.len() as int));
    } else {
        assert(few.take(few.len() as int) =~= few);
    }
}

/// Reads `msg_length_in_bits` bits from the indices at which the two
/// containers differ by 1 or 2, in the order of the indices, and writes the
/// bytes that they fill to the front of `decoded_message_buffer`, which must
/// have room for them. Where the containers hold fewer bits, 0 bits follow.
pub fn decode_at_indices<O: EncodingContainer + ?Sized, E: EncodingContainer + ?Sized>(
    original: &O,
    encoded: &E,
    msg_length_in_bits: usize,
    decoded_message_buffer: &mut [u8],
) -> (result: DifCodeResult<()>)
    requires
        original.values().len() == encoded.values().len(),
        msg_length_in_bits / 8 <= old(decoded_message_buffer)@.len(),
    ensures
        result is Ok,
        final(decoded_message_buffer)@.len() == old(decoded_message_buffer)@.len(),
        forall|group: int|
            0 <= group < msg_length_in_bits / 8 ==> #[trigger] final(decoded_message_buffer)@[group]
                == packed_bytes(
                padded_bits(
                    single_bits(
                        original.values(),
                        encoded.values(),
                        original.values().len() as int,
                    ),
                    msg_length_in_bits as nat,
                ),
            )[group],
        forall|group: int|
            msg_length_in_bits / 8 <= group < old(decoded_message_buffer)@.len()
                ==> #[trigger] final(decoded_message_buffer)@[group] == old(
                decoded_message_buffer,
            )@[group],
{
    let length: usize = original.len();
    let ghost first = original.values();
    let ghost second = encoded.values();
    let ghost held = single_bits(first, second, length as int);
    let ghost wanted = padded_bits(held, msg_length_in_bits as nat);
    let mut code_text_index: usize = 0;
    let mut message_index: usize = 0;
    let mut message_byte: u8 = 0;
    let mut message_bit_index: u8 = 0;
    let mut read: usize = 0;
    while read < msg_length_in_bits
        invariant
            read <= msg_length_in_bits,
            length == first.len(),
            length == second.len(),
            first == original.values(),
            second == encoded.values(),
            held == single_bits(first, second, length as int),
            wanted == padded_bits(held, msg_length_in_bits as nat),
            code_text_index <= length,
            single_bits(first, second, code_text_index as int).len() <= read,
            single_bits(first, second, code_text_index as int).len() < read ==> code_text_index
                == length,
            message_index == read / 8,
            message_bit_index == read % 8,
            decoded_message_buffer@.len() == old(decoded_message_buffer)@.len(),
            msg_length_in_bits / 8 <= decoded_message_buffer@.len(),
            forall|position: int|
                0 <= position < 8 ==> bit_of(message_byte, position) == (position < message_bit_index
                    && wanted[read - message_bit_index + position]),
            forall|group: int|
                0 <= group < message_index ==> #[trigger] decoded_message_buffer@[group]
                    == packed_bytes(wanted)[group],
            forall|group: int|
                message_index <= group < decoded_message_buffer@.len()
                    ==> #[trigger] decoded_message_buffer@[group] == old(
                    decoded_message_buffer,
                )@[group],
        decreases msg_length_in_bits - read,
    {
        let mut decoded_bit: Option<bool> = None;
        while decoded_bit.is_none() && code_text_index < length
            invariant
                length == first.len(),
                length == second.len(),
                first == original.values(),
                second == encoded.values(),
                code_text_index <= length,
                decoded_bit is None ==> single_bits(first, second, code_text_index as int).len()
                    <= read,
                decoded_bit is None && single_bits(first, second, code_text_index as int).len()
                    < read ==> code_text_index == length,
                decoded_bit matches Some(bit) ==> {
                    &&& single_bits(first, second, code_text_index as int).len() == read + 1
                    &&& single_bits(first, second, code_text_index as int)[read as int] == bit
                },
            decreases length - code_text_index,
        {
            decoded_bit = decode_from_difference_at_indices(code_text_index, original, encoded);
            code_text_index += 1;
        }
        proof {
            lemma_single_bits_prefix(first, second, code_text_index as int, length as int);
            let seen = single_bits(first, second, code_text_index as int);
            if decoded_bit is Some {
                assert(held.take(seen.len() as int)[read as int] == held[read as int]);
            }
            assert(wanted[read as int] == (decoded_bit == Some(true)));
        }
        let ghost earlier = message_byte;
        if decoded_bit == Some(true) {
            message_byte = set_bit_at(message_byte, message_bit_index);
        }
        message_bit_index += 1;
        read += 1;
        if message_bit_index == 8 {
            proof {
                let group = byte_group(wanted, message_index as int);
                let own = Seq::new(8, |position: int| bit_of(message_byte, position));
                assert(group =~= own);
                lemma_byte_of_its_bits(message_byte);
            }
            decoded_message_buffer[message_index] = message_byte;
            message_index += 1;
            message_byte = 0u8;
            message_bit_index = 0;
        }
    }
    Ok(())
}

/// The payload that a single-bit encoding holds. The two containers must have
/// the same length. Fails where the number of indices at which they differ is
/// not a whole number of bytes.
pub fn decode_into_vec_at_indices<O: EncodingContainer + ?Sized, E: EncodingContainer + ?Sized>(
    original: &O,
    encoded: &E,
) -> (result: DifCodeResult<Vec<u8>>)
    requires
        original.values().len() == encoded.values().len(),
    ensures
        differing_count(original.values(), encoded.values(), original.values().len() as int) % 8
            != 0 ==> result matches Err(DifCodeError::Internal(_)),
        differing_count(original.values(), encoded.values(), original.values().len() as int) % 8
            == 0 ==> {
            &&& result matches Ok(message)
            &&& message@ == packed_bytes(
                padded_bits(
                    single_bits(
                        original.values(),
                        encoded.values(),
                        original.values().len() as int,
                    ),
                    differing_count(
                        original.values(),
                        encoded.values(),
                        original.values().len() as int,
                    ) as nat,
                ),
            )
        },
{
    let msg_length_in_bits: usize = get_single_bit_encoded_message_length_in_bits(
        original,
        encoded,
    );
    if !(msg_length_in_bits % 8 == 0) {
        return Err(DifCodeError::Internal("invalid input data (message length incorrect)"));
    }
    let mut decoded_message: Vec<u8> = vec![0u8; msg_length_in_bits / 8];
    match decode_at_indices(
        original,
        encoded,
        msg_length_in_bits,
        decoded_message.as_mut_slice(),
    ) {
        Ok(()) => {
            assert(decoded_message@ =~= packed_bytes(
                padded_bits(
                    single_bits(
                        original.values(),
                        encoded.values(),
                        original.values().len() as int,
                    ),
                    msg_length_in_bits as nat,
                ),
            ));
            Ok(decoded_message)
        },
        Err(error) => Err(error),
    }
}

/// The number of selected indices below `upto`.
pub open spec fn selected_below(selected: Seq<usize>, upto: int) -> int
    decreases upto,
{
    if upto <= 0 {
        0
    } else {
        selected_below(selected, upto - 1) + if selected.contains((upto - 1) as usize) {
            1int
        } else {
            0
        }
    }
}

/// Below any index, a single-bit encoding differs from the carrier at the
/// selected indices and nowhere else, and holds the bits that were written
/// there, in order.
proof fn lemma_single_bits_of_encoding(
    bits: Seq<bool>,
    original: Seq<u8>,
    selected: Seq<usize>,
    encoded: Seq<u8>,
    upto: int,
)
    requires
        bits.len() == selected.len(),
        is_ascending_below(selected, original.len() as int),
        is_single_bit_encoding(bits, original, selected, encoded),
        0 <= upto <= original.len(),
        original.len() <= usize::MAX,
    ensures
        0 <= selected_below(selected, upto) <= selected.len(),
        forall|position: int|
            0 <= position < selected.len() ==> (#[trigger] selected[position] < upto <==> position
                < selected_below(selected, upto)),
        single_bits(original, encoded, upto) == bits.take(selected_below(selected, upto)),
        differing_count(original, encoded, upto) == selected_below(selected, upto),
    decreases upto,
{
    if upto > 0 {
        let index = upto - 1;
        lemma_single_bits_of_encoding(bits, original, selected, encoded, index);
        let before = selected_below(selected, index);
        if selected.contains(index as usize) {
            let position = choose|position: int|
                0 <= position < selected.len() && selected[position] == index as usize;
            assert(selected[position] == index);
            if position > before {
                assert(selected[before] < selected[position]);
            }
            assert(position == before);
            assert(spec_distance(original[index], encoded[selected[position] as int])
                == goal_difference(bits[position]));
            assert(bits.take(before).push(bits[before]) =~= bits.take(before + 1));
        } else {
            assert(encoded[index] == original[index]);
            assert forall|position: int| 0 <= position < selected.len() implies (
            #[trigger] selected[position] < upto <==> position < before) by {
                if selected[position] == index {
                    assert(selected.contains(selected[position]));
                }
            }
        }
    } else {
        assert(bits.take(0) =~= Seq::<bool>::empty());
    }
}

/// Round trip of the single-bit codec: what `decode_into_vec_at_indices`
/// reads from a carrier and a single-bit encoding of `message` in it is
/// `message`, whatever directions were drawn.
pub proof fn lemma_single_bit_round_trip(
    message: Seq<u8>,
    original: Seq<u8>,
    selected: Seq<usize>,
    encoded: Seq<u8>,
)
    requires
        message.len() * 8 == selected.len(),
        is_ascending_below(selected, original.len() as int),
        is_single_bit_encoding(message_bits(message), original, selected, encoded),
        original.len() <= usize::MAX,
    ensures
        differing_count(original, encoded, original.len() as int) == message.len() * 8,
        single_bits(original, encoded, original.len() as int) == message_bits(message),
        packed_bytes(
            padded_bits(
                single_bits(original, encoded, original.len() as int),
                differing_count(original, encoded, original.len() as int) as nat,
            ),
        ) == message,
{
    let bits = message_bits(message);
    let length = original.len() as int;
    lemma_single_bits_of_encoding(bits, original, selected, encoded, length);
    let below = selected_below(selected, length);
    if below < selected.len() {
        assert(selected[below] < length);
    }
    assert(bits.take(bits.len() as int) =~= bits);
    assert(padded_bits(bits, bits.len()) =~= bits);
    lemma_packing_inverts_message_bits(message);
}

/// The single-bit decoder is commutative: it counts and reads the same
/// whichever of the two containers is taken for the original.
pub proof fn lemma_single_bit_decoding_is_commutative(first: Seq<u8>, second: Seq<u8>, upto: int)
    ensures
        single_bits(first, second, upto) == single_bits(second, first, upto),
        differing_count(first, second, upto) == differing_count(second, first, upto),
    decreases upto,
{
    if upto > 0 {
        lemma_single_bit_decoding_is_commutative(first, second, upto - 1);
    }
}

} // verus!
