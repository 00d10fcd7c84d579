//! The codec that writes a variable number of bits per carrier index, as many
//! as the allowed change at that index admits.

use crate::difference_encoder::bits_difference_converter::{
    code_value, coined_bits_to_difference_if_allowed, decoded_bits, draw_index_coins,
    dynamic_difference_to_bits, get_max_num_bits_encodable, get_min_num_bits_encodable,
    get_num_bits_decodable, index_coins, lemma_code_tells_length, lemma_code_value_from_least,
    lemma_code_value_from_worst, lemma_decoding_inverts_encoding, max_bits_encodable,
    min_bits_guaranteed, worst_case_difference,
};
use crate::util::dif_code_image::DifCodeImage;
use crate::util::{
    bit_of, byte_group, byte_of_bits, distance, get_bit_at, lemma_byte_of_its_bits,
    lemma_packing_inverts_message_bits, message_bits, packed_bytes, set_bit_at, spec_distance,
    DifCodeError, DifCodeResult, EncodingContainer,
};
use vstd::prelude::*;

verus! {

/// How many leading bits of `staged` can be written within `limit`: the
/// length of the longest prefix whose difference does not exceed it.
pub open spec fn fitting_prefix_len(staged: Seq<bool>, coins: Seq<bool>, limit: int) -> nat
    decreases staged.len(),
{
    if staged.len() == 0 {
        0
    } else if code_value(staged, coins) <= limit {
        staged.len()
    } else {
        fitting_prefix_len(staged.drop_last(), coins, limit)
    }
}

/// The bits that are tried at an index of which `committed` bits of `bits`
/// have been written before: one more than the bound `limit` guarantees, as
/// far as there are that many left.
pub open spec fn staged_bits(bits: Seq<bool>, committed: int, limit: int) -> Seq<bool> {
    let wanted = committed + min_bits_guaranteed(limit) + 1;
    bits.subrange(
        committed,
        if wanted <= bits.len() {
            wanted
        } else {
            bits.len() as int
        },
    )
}

/// The number of bits that an index holds of which `committed` bits of
/// `bits` have been written before.
pub open spec fn bits_taken(
    bits: Seq<bool>,
    committed: int,
    original_value: u8,
    allowed_change: u8,
    index: int,
) -> int {
    let limit = spec_distance(original_value, allowed_change);
    fitting_prefix_len(staged_bits(bits, committed, limit), index_coins(index as u64), limit) as int
}

/// The number of bits of `bits` that the indices before `index` hold.
pub open spec fn committed_before(
    bits: Seq<bool>,
    original: Seq<u8>,
    allowed: Seq<u8>,
    index: int,
) -> int
    decreases index,
{
    if index <= 0 {
        0
    } else {
        let before = committed_before(bits, original, allowed, index - 1);
        before + bits_taken(bits, before, original[index - 1], allowed[index - 1], index - 1)
    }
}

/// The number of bits that `index` holds.
pub open spec fn bits_taken_at(bits: Seq<bool>, original: Seq<u8>, allowed: Seq<u8>, index: int) -> int {
    bits_taken(
        bits,
        committed_before(bits, original, allowed, index),
        original[index],
        allowed[index],
        index,
    )
}

/// The difference that is applied at `index`.
pub open spec fn difference_at(bits: Seq<bool>, original: Seq<u8>, allowed: Seq<u8>, index: int) -> int {
    let committed = committed_before(bits, original, allowed, index);
    code_value(
        bits.subrange(committed, committed + bits_taken_at(bits, original, allowed, index)),
        index_coins(index as u64),
    )
}

/// `original_value` moved by `difference` towards `allowed_change`.
pub open spec fn changed_value(original_value: u8, allowed_change: u8, difference: int) -> int {
    if allowed_change < original_value {
        original_value - difference
    } else {
        original_value + difference
    }
}

/// What encoding `bits` into `original` within `allowed` gives.
pub open spec fn encoded_values(bits: Seq<bool>, original: Seq<u8>, allowed: Seq<u8>) -> Seq<u8> {
    Seq::new(
        original.len(),
        |index: int|
            changed_value(
                original[index],
                allowed[index],
                difference_at(bits, original, allowed, index),
            ) as u8,
    )
}

/// Writes `original_value`, moved by `target_difference` towards
/// `allowed_change`, to `encoded` at `index`.
pub fn apply_change<E: EncodingContainer + ?Sized>(
    index: usize,
    encoded: &mut E,
    allowed_change: u8,
    original_value: u8,
    target_difference: u8,
)
    requires
        index < old(encoded).values().len(),
        0 <= changed_value(original_value, allowed_change, target_difference as int) <= 255,
    ensures
        final(encoded).values() == old(encoded).values().update(
            index as int,
            changed_value(original_value, allowed_change, target_difference as int) as u8,
        ),
        final(encoded).dimensions() == old(encoded).dimensions(),
{
    if allowed_change < original_value {
        encoded.set_value_at(index, original_value - target_difference)
    } else {
        encoded.set_value_at(index, original_value + target_difference);
    }
}

/// The sum of `max_bits_encodable` over the differences of the first `upto` indices.
pub open spec fn max_capacity(first: Seq<u8>, second: Seq<u8>, upto: int) -> int
    decreases upto,
{
    if upto <= 0 {
        0
    } else {
        max_capacity(first, second, upto - 1) + max_bits_encodable(
            spec_distance(first[upto - 1], second[upto - 1]),
        )
    }
}

/// The sum of `min_bits_guaranteed` over the differences of the first `upto` indices.
pub open spec fn min_capacity(first: Seq<u8>, second: Seq<u8>, upto: int) -> int
    decreases upto,
{
    if upto <= 0 {
        0
    } else {
        min_capacity(first, second, upto - 1) + min_bits_guaranteed(
            spec_distance(first[upto - 1], second[upto - 1]),
        )
    }
}

/// What is guaranteed to fit never exceeds what may fit, and no index holds
/// more than eight bits.
pub proof fn lemma_capacity_bounds(first: Seq<u8>, second: Seq<u8>, upto: int)
    requires
        0 <= upto,
    ensures
        0 <= min_capacity(first, second, upto) <= max_capacity(first, second, upto) <= 8 * upto,
    decreases upto,
{
    if upto > 0 {
        lemma_capacity_bounds(first, second, upto - 1);
    }
}

/// The number of bits that decoding `original` against `encoded` yields.
pub fn get_encoded_message_length_in_bits<O: EncodingContainer + ?Sized, E: EncodingContainer + ?Sized>(
    original: &O,
    encoded: &E,
) -> (bits: usize)
    requires
        original.values().len() == encoded.values().len(),
        original.values().len() * 8 <= usize::MAX,
    ensures
        bits == max_capacity(original.values(), encoded.values(), original.values().len() as int),
{
    get_max_encodable_message_length_in_bits(original, encoded)
}

/// The largest number of bits that can be written into `original` within
/// `allowed_changes_map`, if the bits happen to be favourable.
pub fn get_max_encodable_message_length_in_bits<O: EncodingContainer + ?Sized, M: EncodingContainer + ?Sized>(
    original: &O,
    allowed_changes_map: &M,
) -> (bits: usize)
    requires
        original.values().len() == allowed_changes_map.values().len(),
        original.values().len() * 8 <= usize::MAX,
    ensures
        bits == max_capacity(
            original.values(),
            allowed_changes_map.values(),
            original.values().len() as int,
        ),
{
    let length: usize = original.len();
    let mut counter: usize = 0;
    let mut index: usize = 0;
    while index < length
        invariant
            index <= length,
            length == original.values().len(),
            length == allowed_changes_map.values().len(),
            length * 8 <= usize::MAX,
            counter == max_capacity(original.values(), allowed_changes_map.values(), index as int),
        decreases length - index,
    {
        proof {
            lemma_capacity_bounds(original.values(), allowed_changes_map.values(), index as int);
        }
        let difference: u8 = distance(original.value_at(index), allowed_changes_map.value_at(index));
        counter += get_max_num_bits_encodable(difference) as usize;
        index += 1;
    }
    counter
}

/// The number of bits that can be written into `original` within
/// `allowed_changes_map` whatever the bits are.
pub fn get_min_encodable_message_length_in_bits<O: EncodingContainer + ?Sized, M: EncodingContainer + ?Sized>(
    original: &O,
    allowed_changes_map: &M,
) -> (bits: usize)
    requires
        original.values().len() == allowed_changes_map.values().len(),
        original.values().len() * 8 <= usize::MAX,
    ensures
        bits == min_capacity(
            original.values(),
            allowed_changes_map.values(),
            original.values().len() as int,
        ),
        bits <= max_capacity(
            original.values(),
            allowed_changes_map.values(),
            original.values().len() as int,
        ),
{
    let length: usize = original.len();
    let mut counter: usize = 0;
    let mut index: usize = 0;
    while index < length
        invariant
            index <= length,
            length == original.values().len(),
            length == allowed_changes_map.values().len(),
            length * 8 <= usize::MAX,
            counter == min_capacity(original.values(), allowed_changes_map.values(), index as int),
        decreases length - index,
    {
        proof {
            lemma_capacity_bounds(original.values(), allowed_changes_map.values(), index as int);
        }
        let difference: u8 = distance(original.value_at(index), allowed_changes_map.value_at(index));
        counter += get_min_num_bits_encodable(difference) as usize;
        index += 1;
    }
    proof {
        lemma_capacity_bounds(original.values(), allowed_changes_map.values(), length as int);
    }
    counter
}

/// Shortens `staged` to its longest prefix whose difference under `coins`
/// does not exceed `max_allowed_change`, and returns that difference.
pub fn coined_longest_fitting_prefix(
    coins: &[bool],
    staged: &mut Vec<bool>,
    max_allowed_change: u8,
) -> (difference: u8)
    ensures
        final(staged)@ == old(staged)@.take(
            fitting_prefix_len(old(staged)@, coins@, max_allowed_change as int) as int,
        ),
        fitting_prefix_len(old(staged)@, coins@, max_allowed_change as int) <= old(staged)@.len(),
        difference == code_value(final(staged)@, coins@),
        difference <= max_allowed_change,
{
    let ghost whole = staged@;
    let ghost limit = max_allowed_change as int;
    while staged.len() > 0
        invariant
            whole == old(staged)@,
            staged@.len() <= whole.len(),
            staged@ == whole.take(staged@.len() as int),
            fitting_prefix_len(staged@, coins@, limit) == fitting_prefix_len(whole, coins@, limit),
            limit == max_allowed_change,
        decreases staged@.len(),
    {
        match coined_bits_to_difference_if_allowed(coins, staged.as_slice(), max_allowed_change) {
            Some(difference) => {
                return difference;
            },
            None => {
                let ghost longer = staged@;
                staged.pop();
                assert(staged@ =~= longer.drop_last());
                assert(staged@ =~= whole.take(staged@.len() as int));
            },
        }
    }
    assert(staged@ =~= whole.take(0));
    0
}

/// The next bits of `message_bytes` from bit `committed` on: `wanted` of them,
/// or as many as are left.
fn stage_bits(message_bytes: &[u8], committed: usize, wanted: u8) -> (staged: Vec<bool>)
    requires
        committed <= message_bytes@.len() * 8 <= usize::MAX,
    ensures
        staged@ == message_bits(message_bytes@).subrange(
            committed as int,
            if committed + wanted <= message_bytes@.len() * 8 {
                committed + wanted
            } else {
                (message_bytes@.len() * 8) as int
            },
        ),
{
    let total: usize = message_bytes.len() * 8;
    let ghost bits = message_bits(message_bytes@);
    let mut staged: Vec<bool> = Vec::new();
    let mut next: usize = committed;
    while staged.len() < wanted as usize && next < total
        invariant
            total == message_bytes@.len() * 8,
            bits == message_bits(message_bytes@),
            committed <= next <= total,
            next - committed == staged@.len(),
            staged@.len() <= wanted,
            staged@ == bits.subrange(committed as int, next as int),
        decreases total - next,
    {
        let bit: bool = get_bit_at(message_bytes[next / 8], (next % 8) as u8);
        assert(bit == bits[next as int]);
        staged.push(bit);
        next += 1;
        assert(staged@ =~= bits.subrange(committed as int, next as int));
    }
    staged
}

/// Writes the bits of `message_bytes` into `encoded`, which becomes `original`
/// with every value moved towards the value that `allowed_changes_map` holds
/// at its index, and never past it.
///
/// Every index takes the longest run of the next bits that its allowed change
/// admits under the dynamic code; of the bits that it cannot take, none is
/// dropped: they are the first that the next index tries. Where bits are left
/// after the last index, the error holds the number of bits that were written.
/// All three containers must have the same length.
pub fn encode<O: EncodingContainer + ?Sized, M: EncodingContainer + ?Sized, E: EncodingContainer + ?Sized>(
    message_bytes: &[u8],
    original: &O,
    allowed_changes_map: &M,
    encoded: &mut E,
) -> (result: DifCodeResult<()>)
    requires
        message_bytes@.len() * 8 <= usize::MAX,
    ensures
        final(encoded).dimensions() == old(encoded).dimensions(),
        original.values().len() != old(encoded).values().len() || original.values().len()
            != allowed_changes_map.values().len() ==> {
            &&& result matches Err(DifCodeError::InternalMismatchedContainerSizes)
            &&& final(encoded).values() == old(encoded).values()
        },
        original.values().len() == old(encoded).values().len() && original.values().len()
            == allowed_changes_map.values().len() ==> {
            &&& final(encoded).values() == encoded_values(
                message_bits(message_bytes@),
                original.values(),
                allowed_changes_map.values(),
            )
            &&& result is Ok <==> committed_before(
                message_bits(message_bytes@),
                original.values(),
                allowed_changes_map.values(),
                original.values().len() as int,
            ) == message_bytes@.len() * 8
            &&& result is Err ==> {
                &&& result matches Err(DifCodeError::InternalCapacityReached(written))
                &&& written == committed_before(
                    message_bits(message_bytes@),
                    original.values(),
                    allowed_changes_map.values(),
                    original.values().len() as int,
                )
            }
        },
{
    let length: usize = original.len();
    if length != encoded.len() || length != allowed_changes_map.len() {
        return Err(DifCodeError::InternalMismatchedContainerSizes);
    }
    let total: usize = message_bytes.len() * 8;
    let ghost bits = message_bits(message_bytes@);
    let ghost carrier = original.values();
    let ghost allowed = allowed_changes_map.values();
    let mut committed: usize = 0;
    let mut index: usize = 0;
    while index < length
        invariant
            index <= length,
            length == carrier.len(),
            length == allowed.len(),
            length == encoded.values().len(),
            encoded.dimensions() == old(encoded).dimensions(),
            carrier == original.values(),
            allowed == allowed_changes_map.values(),
            bits == message_bits(message_bytes@),
            total == message_bytes@.len() * 8,
            total <= usize::MAX,
            committed == committed_before(bits, carrier, allowed, index as int),
            committed <= total,
            forall|earlier: int|
                0 <= earlier < index ==> encoded.values()[earlier] == encoded_values(
                    bits,
                    carrier,
                    allowed,
                )[earlier],
        decreases length - index,
    {
        let original_value: u8 = original.value_at(index);
        let allowed_change: u8 = allowed_changes_map.value_at(index);
        let ghost coins = index_coins(index as u64);
        let ghost limit = spec_distance(original_value, allowed_change);
        if original_value == allowed_change {
            proof {
                let staged = staged_bits(bits, committed as int, limit);
                assert(limit == 0);
                if staged.len() > 0 {
                    lemma_code_value_from_least(staged, coins, 0);
                    assert(staged.drop_last().len() == 0);
                    assert(fitting_prefix_len(staged.drop_last(), coins, limit) == 0);
                }
                assert(fitting_prefix_len(staged, coins, limit) == 0);
                assert(bits_taken_at(bits, carrier, allowed, index as int) == 0);
                assert(bits.subrange(committed as int, committed as int).len() == 0);
            }
            encoded.set_value_at(index, original_value);
        } else {
            let max_allowed_change: u8 = distance(original_value, allowed_change);
            let wanted: u8 = get_min_num_bits_encodable(max_allowed_change) + 1;
            let mut staged: Vec<bool> = stage_bits(message_bytes, committed, wanted);
            let index_coins: [bool; 8] = draw_index_coins(index as u64);
            let ghost whole = staged@;
            let difference: u8 = coined_longest_fitting_prefix(
                index_coins.as_slice(),
                &mut staged,
                max_allowed_change,
            );
            proof {
                assert(whole == staged_bits(bits, committed as int, limit));
                assert(staged@.len() == bits_taken_at(bits, carrier, allowed, index as int));
                assert(staged@ =~= bits.subrange(
                    committed as int,
                    committed + bits_taken_at(bits, carrier, allowed, index as int),
                ));
                assert(difference == difference_at(bits, carrier, allowed, index as int));
            }
            apply_change(index, encoded, allowed_change, original_value, difference);
            committed += staged.len();
        }
        index += 1;
    }
    assert(encoded.values() =~= encoded_values(bits, carrier, allowed));
    if committed < total {
        Err(DifCodeError::InternalCapacityReached(committed))
    } else {
        Ok(())
    }
}

/// As `encode`, into a new vector of the carrier's length.
pub fn encode_into_vec<O: EncodingContainer + ?Sized, M: EncodingContainer + ?Sized>(
    message_bytes: &[u8],
    original: &O,
    allowed_changes_map: &M,
) -> (result: DifCodeResult<Vec<u8>>)
    requires
        message_bytes@.len() * 8 <= usize::MAX,
    ensures
        original.values().len() != allowed_changes_map.values().len() ==> result matches Err(
            DifCodeError::InternalMismatchedContainerSizes,
        ),
        original.values().len() == allowed_changes_map.values().len() ==> {
            &&& result is Ok <==> committed_before(
                message_bits(message_bytes@),
                original.values(),
                allowed_changes_map.values(),
                original.values().len() as int,
            ) == message_bytes@.len() * 8
            &&& result matches Ok(encoded) ==> encoded@ == encoded_values(
                message_bits(message_bytes@),
                original.values(),
                allowed_changes_map.values(),
            )
            &&& result is Err ==> {
                &&& result matches Err(DifCodeError::InternalCapacityReached(written))
                &&& written == committed_before(
                    message_bits(message_bytes@),
                    original.values(),
                    allowed_changes_map.values(),
                    original.values().len() as int,
                )
            }
        },
{
    let mut encoded: Vec<u8> = vec![0u8; original.len()];
    match encode(message_bytes, original, allowed_changes_map, &mut encoded) {
        Ok(()) => Ok(encoded),
        Err(error) => Err(error),
    }
}

/// As `encode`, into a new image of the carrier's size.
pub fn encode_into_image<M: EncodingContainer + ?Sized>(
    message_bytes: &[u8],
    original: &DifCodeImage,
    allowed_changes_map: &M,
) -> (result: DifCodeResult<DifCodeImage>)
    requires
        message_bytes@.len() * 8 <= usize::MAX,
    ensures
        original.values().len() != allowed_changes_map.values().len() ==> result matches Err(
            DifCodeError::InternalMismatchedContainerSizes,
        ),
        original.values().len() == allowed_changes_map.values().len() ==> {
            &&& result is Ok <==> committed_before(
                message_bits(message_bytes@),
                original.values(),
                allowed_changes_map.values(),
                original.values().len() as int,
            ) == message_bytes@.len() * 8
            &&& result matches Ok(encoded_image) ==> {
                &&& encoded_image.spec_width() == original.spec_width()
                &&& encoded_image.spec_height() == original.spec_height()
                &&& encoded_image.values() == encoded_values(
                    message_bits(message_bytes@),
                    original.values(),
                    allowed_changes_map.values(),
                )
            }
            &&& result is Err ==> {
                &&& result matches Err(DifCodeError::InternalCapacityReached(written))
                &&& written == committed_before(
                    message_bits(message_bytes@),
                    original.values(),
                    allowed_changes_map.values(),
                    original.values().len() as int,
                )
            }
        },
{
    let mut encoded_image: DifCodeImage = DifCodeImage::with_capacity(
        original.width(),
        original.height(),
    );
    match encode(message_bytes, original, allowed_changes_map, &mut encoded_image) {
        Ok(()) => Ok(encoded_image),
        Err(error) => Err(error),
    }
}

/// The bits that the first `upto` indices hold: for each index in turn, as
/// many bits as the difference between the two containers carries there, read
/// with the dynamic code of that index.
pub open spec fn decoded_stream(first: Seq<u8>, second: Seq<u8>, upto: int) -> Seq<bool>
    decreases upto,
{
    if upto <= 0 {
        Seq::<bool>::empty()
    } else {
        decoded_stream(first, second, upto - 1) + decoded_bits(
            spec_distance(first[upto - 1], second[upto - 1]),
            index_coins((upto - 1) as u64),
            max_bits_encodable(spec_distance(first[upto - 1], second[upto - 1])) as nat,
        )
    }
}

/// One more bit fills a byte only where it is the eighth of its group.
proof fn lemma_packed_bytes_push(bits: Seq<bool>, bit: bool)
    ensures
        (bits.len() + 1) % 8 != 0 ==> packed_bytes(bits.push(bit)) == packed_bytes(bits),
        (bits.len() + 1) % 8 == 0 ==> packed_bytes(bits.push(bit)) == packed_bytes(bits).push(
            byte_of_bits(byte_group(bits.push(bit), bits.len() as int / 8)) as u8,
        ),
{
    let longer = bits.push(bit);
    assert forall|group: int| 0 <= group < bits.len() / 8 implies #[trigger] byte_group(
        longer,
        group,
    ) == byte_group(bits, group) by {
        assert(byte_group(longer, group) =~= byte_group(bits, group));
    }
    if (bits.len() + 1) % 8 != 0 {
        assert(packed_bytes(longer) =~= packed_bytes(bits));
    } else {
        assert(packed_bytes(longer) =~= packed_bytes(bits).push(
            byte_of_bits(byte_group(longer, bits.len() as int / 8)) as u8,
        ));
    }
}

/// Reads the bits that `encoded` holds against `original` and appends the
/// bytes that they fill to `message_buffer`. Which of the two containers is the
/// original makes no difference.
pub fn decode<O: EncodingContainer + ?Sized, E: EncodingContainer + ?Sized>(
    original: &O,
    encoded: &E,
    message_buffer: &mut Vec<u8>,
) -> (result: DifCodeResult<()>)
    ensures
        original.values().len() != encoded.values().len() ==> {
            &&& result matches Err(DifCodeError::InternalMismatchedContainerSizes)
            &&& final(message_buffer)@ == old(message_buffer)@
        },
        original.values().len() == encoded.values().len() ==> {
            &&& result is Ok
            &&& final(message_buffer)@ == old(message_buffer)@ + packed_bytes(
                decoded_stream(
                    original.values(),
                    encoded.values(),
                    original.values().len() as int,
                ),
            )
        },
{
    let length: usize = original.len();
    if length != encoded.len() {
        return Err(DifCodeError::InternalMismatchedContainerSizes);
    }
    let ghost first = original.values();
    let ghost second = encoded.values();
    let ghost mut stream: Seq<bool> = Seq::<bool>::empty();
    let mut bit_buffer: Vec<bool> = Vec::new();
    let mut current: u8 = 0;
    let mut filled: u8 = 0;
    let mut index: usize = 0;
    assert(packed_bytes(stream) =~= Seq::<u8>::empty());
    while index < length
        invariant
            index <= length,
            length == first.len(),
            length == second.len(),
            first == original.values(),
            second == encoded.values(),
            stream == decoded_stream(first, second, index as int),
            message_buffer@ == old(message_buffer)@ + packed_bytes(stream),
            filled == stream.len() % 8,
            forall|position: int|
                0 <= position < 8 ==> bit_of(current, position) == (position < filled && stream[stream.len()
                    - filled + position]),
        decreases length - index,
    {
        let difference: u8 = distance(original.value_at(index), encoded.value_at(index));
        let num_bits_decodable: usize = get_num_bits_decodable(difference) as usize;
        bit_buffer.clear();
        bit_buffer.resize(num_bits_decodable, false);
        dynamic_difference_to_bits(index, difference, bit_buffer.as_mut_slice());
        let ghost before = stream;
        let mut taken: usize = 0;
        while taken < num_bits_decodable
            invariant
                taken <= num_bits_decodable,
                num_bits_decodable == bit_buffer@.len(),
                stream == before + bit_buffer@.take(taken as int),
                message_buffer@ == old(message_buffer)@ + packed_bytes(stream),
                filled == stream.len() % 8,
                forall|position: int|
                    0 <= position < 8 ==> bit_of(current, position) == (position < filled
                        && stream[stream.len() - filled + position]),
            decreases num_bits_decodable - taken,
        {
            let bit: bool = bit_buffer[taken];
            let ghost shorter = stream;
            let ghost earlier = current;
            proof {
                lemma_packed_bytes_push(stream, bit);
                stream = stream.push(bit);
                assert(stream =~= before + bit_buffer@.take(taken + 1));
            }
            if bit {
                current = set_bit_at(current, filled);
            }
            assert forall|position: int| 0 <= position < 8 implies bit_of(current, position) == (
            position <= filled && stream[stream.len() - (filled + 1) + position]) by {
                if position < filled {
                    assert(stream[stream.len() - (filled + 1) + position] == shorter[shorter.len()
                        - filled + position]);
                }
            }
            filled += 1;
            if filled == 8 {
                proof {
                    let group = byte_group(stream, shorter.len() as int / 8);
                    let own = Seq::new(8, |position: int| bit_of(current, position));
                    assert(group =~= own);
                    lemma_byte_of_its_bits(current);
                }
                message_buffer.push(current);
                current = 0;
                filled = 0;
            }
            taken += 1;
        }
        proof {
            assert(bit_buffer@.take(num_bits_decodable as int) =~= bit_buffer@);
        }
        index += 1;
    }
    Ok(())
}

/// The payload that `encoded` holds against `original`.
pub fn decode_into_vec<O: EncodingContainer + ?Sized, E: EncodingContainer + ?Sized>(
    original: &O,
    encoded: &E,
) -> (result: DifCodeResult<Vec<u8>>)
    ensures
        original.values().len() != encoded.values().len() ==> result matches Err(
            DifCodeError::InternalMismatchedContainerSizes,
        ),
        original.values().len() == encoded.values().len() ==> {
            &&& result matches Ok(message)
            &&& message@ == packed_bytes(
                decoded_stream(
                    original.values(),
                    encoded.values(),
                    original.values().len() as int,
                ),
            )
        },
{
    if original.len() != encoded.len() {
        return Err(DifCodeError::InternalMismatchedContainerSizes);
    }
    let mut decoded_message: Vec<u8> = Vec::new();
    match decode(original, encoded, &mut decoded_message) {
        Ok(()) => Ok(decoded_message),
        Err(error) => Err(error),
    }
}

/// Whether `difference` is the largest difference of its tier: 0, 2, 6, 14,
/// 30, 62, 126 or 254.
pub open spec fn is_tier_boundary(difference: int) -> bool {
    difference == worst_case_difference(max_bits_encodable(difference))
}

/// Where the difference of every index is the largest of its tier, what is
/// guaranteed to fit is all that may fit.
pub proof fn lemma_capacities_meet_at_tier_boundaries(first: Seq<u8>, second: Seq<u8>, upto: int)
    requires
        0 <= upto <= first.len(),
        first.len() == second.len(),
        forall|index: int|
            0 <= index < upto ==> is_tier_boundary(
                #[trigger] spec_distance(first[index], second[index]),
            ),
    ensures
        min_capacity(first, second, upto) == max_capacity(first, second, upto),
    decreases upto,
{
    if upto > 0 {
        lemma_capacities_meet_at_tier_boundaries(first, second, upto - 1);
        assert(is_tier_boundary(spec_distance(first[upto - 1], second[upto - 1])));
    }
}

/// The longest fitting prefix is a prefix, and it fits.
pub proof fn lemma_fitting_prefix_fits(staged: Seq<bool>, coins: Seq<bool>, limit: int)
    requires
        0 <= limit,
    ensures
        fitting_prefix_len(staged, coins, limit) <= staged.len(),
        code_value(staged.take(fitting_prefix_len(staged, coins, limit) as int), coins) <= limit,
        0 <= code_value(staged.take(fitting_prefix_len(staged, coins, limit) as int), coins),
    decreases staged.len(),
{
    let taken = fitting_prefix_len(staged, coins, limit) as int;
    if staged.len() == 0 {
        assert(staged.take(0) =~= staged);
    } else if code_value(staged, coins) <= limit {
        assert(staged.take(taken) =~= staged);
    } else {
        lemma_fitting_prefix_fits(staged.drop_last(), coins, limit);
        assert(staged.drop_last().take(taken) =~= staged.take(taken));
    }
    lemma_code_value_from_least(staged.take(taken), coins, 0);
}

/// As many bits as a bound guarantees always fit within it.
pub proof fn lemma_guaranteed_bits_fit(staged: Seq<bool>, coins: Seq<bool>, limit: int)
    requires
        0 <= limit <= 255,
        staged.len() <= min_bits_guaranteed(limit),
    ensures
        code_value(staged, coins) <= limit,
{
    lemma_code_value_from_worst(staged, coins, 0);
}

/// The longest fitting prefix holds at least the guaranteed number of bits,
/// or all that were staged.
pub proof fn lemma_fitting_prefix_guaranteed(staged: Seq<bool>, coins: Seq<bool>, limit: int)
    requires
        0 <= limit <= 255,
    ensures
        fitting_prefix_len(staged, coins, limit) >= staged.len() || fitting_prefix_len(
            staged,
            coins,
            limit,
        ) >= min_bits_guaranteed(limit),
    decreases staged.len(),
{
    if staged.len() == 0 {
    } else if code_value(staged, coins) <= limit {
    } else {
        if staged.len() <= min_bits_guaranteed(limit) {
            lemma_guaranteed_bits_fit(staged, coins, limit);
        }
        lemma_fitting_prefix_guaranteed(staged.drop_last(), coins, limit);
    }
}

/// No index takes bits that the message does not have.
pub proof fn lemma_committed_within_message(
    bits: Seq<bool>,
    original: Seq<u8>,
    allowed: Seq<u8>,
    index: int,
)
    ensures
        0 <= committed_before(bits, original, allowed, index) <= bits.len(),
        0 <= bits_taken_at(bits, original, allowed, index),
        committed_before(bits, original, allowed, index) + bits_taken_at(
            bits,
            original,
            allowed,
            index,
        ) <= bits.len(),
    decreases index,
{
    if index > 0 {
        lemma_committed_within_message(bits, original, allowed, index - 1);
    }
    let committed = committed_before(bits, original, allowed, index);
    let limit = spec_distance(original[index], allowed[index]);
    lemma_fitting_prefix_fits(
        staged_bits(bits, committed, limit),
        index_coins(index as u64),
        limit,
    );
}

/// The encoder never changes a value by more than the map allows, and only
/// towards the value that the map holds: the difference that it applies at an
/// index is at most the distance between the carrier and the map there.
pub proof fn lemma_encoding_stays_within_map(
    bits: Seq<bool>,
    original: Seq<u8>,
    allowed: Seq<u8>,
    index: int,
)
    requires
        0 <= index < original.len(),
        original.len() == allowed.len(),
    ensures
        0 <= difference_at(bits, original, allowed, index) <= spec_distance(
            original[index],
            allowed[index],
        ),
        spec_distance(original[index], encoded_values(bits, original, allowed)[index])
            == difference_at(bits, original, allowed, index),
        allowed[index] < original[index] ==> allowed[index] <= encoded_values(
            bits,
            original,
            allowed,
        )[index] <= original[index],
        allowed[index] >= original[index] ==> original[index] <= encoded_values(
            bits,
            original,
            allowed,
        )[index] <= allowed[index],
{
    lemma_committed_within_message(bits, original, allowed, index);
    let committed = committed_before(bits, original, allowed, index);
    let limit = spec_distance(original[index], allowed[index]);
    let staged = staged_bits(bits, committed, limit);
    let taken = bits_taken_at(bits, original, allowed, index);
    lemma_fitting_prefix_fits(staged, index_coins(index as u64), limit);
    assert(staged.take(taken) =~= bits.subrange(committed, committed + taken));
}

/// What the decoder reads from the first indices of an encoded carrier is
/// what the encoder wrote there: the first bits of the message.
pub proof fn lemma_decoding_reads_committed(
    bits: Seq<bool>,
    original: Seq<u8>,
    allowed: Seq<u8>,
    upto: int,
)
    requires
        0 <= upto <= original.len(),
        original.len() == allowed.len(),
    ensures
        decoded_stream(original, encoded_values(bits, original, allowed), upto) == bits.take(
            committed_before(bits, original, allowed, upto),
        ),
    decreases upto,
{
    let encoded = encoded_values(bits, original, allowed);
    if upto > 0 {
        let index = upto - 1;
        lemma_decoding_reads_committed(bits, original, allowed, index);
        lemma_committed_within_message(bits, original, allowed, index);
        lemma_encoding_stays_within_map(bits, original, allowed, index);
        let committed = committed_before(bits, original, allowed, index);
        let taken = bits_taken_at(bits, original, allowed, index);
        let written = bits.subrange(committed, committed + taken);
        let coins = index_coins(index as u64);
        lemma_code_tells_length(written, coins);
        lemma_decoding_inverts_encoding(written, coins);
        assert(bits.take(committed) + written =~= bits.take(committed + taken));
    } else {
        assert(bits.take(0) =~= Seq::<bool>::empty());
    }
}

/// The encoder writes at least as many bits as the map guarantees, or the
/// whole message.
pub proof fn lemma_committed_reaches_guarantee(
    bits: Seq<bool>,
    original: Seq<u8>,
    allowed: Seq<u8>,
    upto: int,
)
    requires
        0 <= upto <= original.len(),
        original.len() == allowed.len(),
    ensures
        committed_before(bits, original, allowed, upto) >= bits.len() || committed_before(
            bits,
            original,
            allowed,
            upto,
        ) >= min_capacity(original, allowed, upto),
    decreases upto,
{
    if upto > 0 {
        let index = upto - 1;
        lemma_committed_reaches_guarantee(bits, original, allowed, index);
        lemma_committed_within_message(bits, original, allowed, index);
        let committed = committed_before(bits, original, allowed, index);
        let limit = spec_distance(original[index], allowed[index]);
        lemma_fitting_prefix_guaranteed(
            staged_bits(bits, committed, limit),
            index_coins(index as u64),
            limit,
        );
    }
}

/// Round trip: a payload that the map guarantees room for is written as a
/// whole, and decoding the carrier against what was written gives it back.
pub proof fn lemma_round_trip(message: Seq<u8>, original: Seq<u8>, allowed: Seq<u8>)
    requires
        original.len() == allowed.len(),
        message.len() * 8 <= min_capacity(original, allowed, original.len() as int),
    ensures
        committed_before(message_bits(message), original, allowed, original.len() as int)
            == message.len() * 8,
        packed_bytes(
            decoded_stream(
                original,
                encoded_values(message_bits(message), original, allowed),
                original.len() as int,
            ),
        ) == message,
{
    let bits = message_bits(message);
    lemma_committed_reaches_guarantee(bits, original, allowed, original.len() as int);
    lemma_committed_within_message(bits, original, allowed, original.len() as int);
    lemma_written_message_is_read(message, original, allowed);
}

/// Whenever the whole payload was written, which is when `encode` succeeds,
/// decoding the carrier against what was written gives the payload back.
pub proof fn lemma_written_message_is_read(message: Seq<u8>, original: Seq<u8>, allowed: Seq<u8>)
    requires
        original.len() == allowed.len(),
        committed_before(message_bits(message), original, allowed, original.len() as int)
            == message.len() * 8,
    ensures
        packed_bytes(
            decoded_stream(
                original,
                encoded_values(message_bits(message), original, allowed),
                original.len() as int,
            ),
        ) == message,
{
    let bits = message_bits(message);
    lemma_decoding_reads_committed(bits, original, allowed, original.len() as int);
    assert(bits.take(bits.len() as int) =~= bits);
    lemma_packing_inverts_message_bits(message);
}

/// Decoding is commutative: it reads the same bits whichever of the two
/// containers is taken for the original.
pub proof fn lemma_decoding_is_commutative(first: Seq<u8>, second: Seq<u8>, upto: int)
    requires
        0 <= upto <= first.len(),
        first.len() == second.len(),
    ensures
        decoded_stream(first, second, upto) == decoded_stream(second, first, upto),
    decreases upto,
{
    if upto > 0 {
        lemma_decoding_is_commutative(first, second, upto - 1);
    }
}

} // verus!
