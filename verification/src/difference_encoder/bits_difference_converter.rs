//! The difference code: how many bits a difference of a given magnitude
//! carries, and the conversion between a short bit sequence and one magnitude.

use crate::util::is_odd;
use rand::rngs::StdRng;
use rand::Rng;
use rand::SeedableRng;
use vstd::prelude::*;

verus! {

/// The largest number of bits that a difference of magnitude `difference` can carry.
///
/// A difference carries `k` bits exactly when it lies in `2^k - 1 ..= 2^(k+1) - 2`.
pub open spec fn max_bits_encodable(difference: int) -> int {
    if difference <= 0 {
        0
    } else if difference <= 2 {
        1
    } else if difference <= 6 {
        2
    } else if difference <= 14 {
        3
    } else if difference <= 30 {
        4
    } else if difference <= 62 {
        5
    } else if difference <= 126 {
        6
    } else if difference <= 254 {
        7
    } else {
        8
    }
}

/// The number of bits that fit into a bound of `difference` whatever the bits are.
pub open spec fn min_bits_guaranteed(difference: int) -> int {
    if difference >= 255 {
        7
    } else if max_bits_encodable(difference + 1) == 0 {
        0
    } else {
        max_bits_encodable(difference + 1) - 1
    }
}

/// The largest difference that `num_bits` bits can turn into: `2^(num_bits + 1) - 2`.
pub open spec fn worst_case_difference(num_bits: int) -> int {
    if num_bits <= 0 {
        0
    } else if num_bits == 1 {
        2
    } else if num_bits == 2 {
        6
    } else if num_bits == 3 {
        14
    } else if num_bits == 4 {
        30
    } else if num_bits == 5 {
        62
    } else if num_bits == 6 {
        126
    } else {
        254
    }
}

/// The largest number of bits that a difference of `difference` can carry:
/// `k` bits up to a difference of `2^(k+1) - 2`, and eight bits at 255.
pub fn get_max_num_bits_encodable(difference: u8) -> (bits: u8)
    ensures
        bits == max_bits_encodable(difference as int),
{
    if difference == 0 {
        0
    } else if difference <= 2 {
        1
    } else if difference <= 6 {
        2
    } else if difference <= 14 {
        3
    } else if difference <= 30 {
        4
    } else if difference <= 62 {
        5
    } else if difference <= 126 {
        6
    } else if difference <= 254 {
        7
    } else {
        8
    }
}

/// The number of bits that a measured difference holds: a difference that was
/// written by the encoder sits at the upper end of what it could carry.
pub fn get_num_bits_decodable(difference: u8) -> (bits: u8)
    ensures
        bits == max_bits_encodable(difference as int),
{
    get_max_num_bits_encodable(difference)
}

/// The number of bits that can be written within a bound of `difference`
/// whatever the bits and the coins are: one less than a difference larger by
/// one can carry, and seven at 255.
pub fn get_min_num_bits_encodable(difference: u8) -> (bits: u8)
    ensures
        bits == min_bits_guaranteed(difference as int),
{
    if difference == 255 {
        return 7;
    }
    let encodable: u8 = get_num_bits_decodable(difference + 1);
    if encodable == 0 {
        0
    } else {
        encodable - 1
    }
}

/// The largest difference that `num_bits` bits can turn into, `2^(num_bits + 1)
/// - 2`. No bound guarantees room for eight bits or more.
pub fn calculate_worst_case_difference_for(num_bits: u8) -> (difference: Option<u8>)
    ensures
        num_bits <= 7 ==> difference == Some(worst_case_difference(num_bits as int) as u8),
        num_bits >= 8 ==> difference.is_none(),
{
    match num_bits {
        0 => Some(0),
        1 => Some(2),
        2 => Some(6),
        3 => Some(14),
        4 => Some(30),
        5 => Some(62),
        6 => Some(126),
        7 => Some(254),
        _ => None,
    }
}

/// The smallest difference that `num_bits` bits can turn into: `2^num_bits - 1`.
pub open spec fn least_difference(num_bits: int) -> int {
    if num_bits <= 0 {
        0
    } else if num_bits == 1 {
        1
    } else if num_bits == 2 {
        3
    } else if num_bits == 3 {
        7
    } else if num_bits == 4 {
        15
    } else if num_bits == 5 {
        31
    } else if num_bits == 6 {
        63
    } else if num_bits == 7 {
        127
    } else {
        255
    }
}

/// The weight of the code digit at `position`: `2^position`, for the positions
/// whose digit can fit into a byte at all; 256 stands for every later one.
pub open spec fn code_weight(position: int) -> int {
    if position <= 0 {
        1
    } else if position == 1 {
        2
    } else if position == 2 {
        4
    } else if position == 3 {
        8
    } else if position == 4 {
        16
    } else if position == 5 {
        32
    } else if position == 6 {
        64
    } else if position == 7 {
        128
    } else {
        256
    }
}

/// The coin of `position`: the one that `coins` holds there, `false` where it
/// holds none.
pub open spec fn coin_at(coins: Seq<bool>, position: int) -> bool {
    0 <= position < coins.len() && coins[position]
}

/// The code digit of one bit under its coin: 1 where they agree, 2 where they
/// differ. Without a coin (`false`) a 0 bit has digit 1 and a 1 bit digit 2.
pub open spec fn code_digit(bit: bool, coin: bool) -> int {
    if bit != coin {
        2
    } else {
        1
    }
}

/// The sum of `code_digit * 2^(position - from)` over the positions from `from` on.
pub open spec fn code_value_from(bits: Seq<bool>, coins: Seq<bool>, from: int) -> int
    decreases bits.len() - from,
{
    if from < 0 || from >= bits.len() {
        0
    } else {
        code_digit(bits[from], coin_at(coins, from)) + 2 * code_value_from(bits, coins, from + 1)
    }
}

/// The difference that stands for `bits` under `coins`: the sum of
/// `code_digit(bits[i], coin i) * 2^i` over all positions, as a mathematical
/// integer.
pub open spec fn code_value(bits: Seq<bool>, coins: Seq<bool>) -> int {
    code_value_from(bits, coins, 0)
}

/// The difference that stands for `bits` in the static code, which has no coins.
pub open spec fn static_code_value(bits: Seq<bool>) -> int {
    code_value(bits, Seq::<bool>::empty())
}

/// What is left of `difference` once `steps` digits have been taken off its
/// low end.
pub open spec fn remaining_difference(difference: int, steps: nat) -> int
    decreases steps,
{
    if steps == 0 {
        difference
    } else {
        (remaining_difference(difference, (steps - 1) as nat) - 1) / 2
    }
}

/// The first `count` bits that `difference` stands for under `coins`: the
/// digit at a position is 2 exactly where what is left there is even, and the
/// bit differs from its coin exactly where the digit is 2.
pub open spec fn decoded_bits(difference: int, coins: Seq<bool>, count: nat) -> Seq<bool> {
    Seq::new(
        count,
        |position: int|
            (remaining_difference(difference, position as nat) % 2 == 0) != coin_at(
                coins,
                position,
            ),
    )
}

/// The bits that `difference` stands for in the static code.
pub open spec fn static_decoded_bits(difference: int, count: nat) -> Seq<bool> {
    decoded_bits(difference, Seq::<bool>::empty(), count)
}

/// Whether `result` is what turning `bits` into a difference of at most
/// `limit` gives: the difference that stands for them where it is within the
/// limit, and nothing where it is not.
pub open spec fn is_difference_within(
    result: Option<u8>,
    bits: Seq<bool>,
    coins: Seq<bool>,
    limit: int,
) -> bool {
    match result {
        Some(difference) => difference == code_value(bits, coins) && difference <= limit,
        None => code_value(bits, coins) > limit,
    }
}

/// From any position on, the digits that are left sum to at least the least
/// difference of their number.
pub proof fn lemma_code_value_from_least(bits: Seq<bool>, coins: Seq<bool>, from: int)
    requires
        0 <= from <= bits.len(),
    ensures
        code_value_from(bits, coins, from) >= least_difference(bits.len() - from),
        bits.len() - from >= 9 ==> code_value_from(bits, coins, from) >= 511,
    decreases bits.len() - from,
{
    if from < bits.len() {
        lemma_code_value_from_least(bits, coins, from + 1);
    }
}

/// From any position on, up to eight digits sum to at most the worst case of
/// their number.
pub proof fn lemma_code_value_from_worst(bits: Seq<bool>, coins: Seq<bool>, from: int)
    requires
        0 <= from <= bits.len(),
        bits.len() - from <= 7,
    ensures
        code_value_from(bits, coins, from) <= worst_case_difference(bits.len() - from),
    decreases bits.len() - from,
{
    if from < bits.len() {
        lemma_code_value_from_worst(bits, coins, from + 1);
    }
}

/// The first eight coins of the generator that is seeded with `seed`, where a
/// coin shows its set side in `numerator` of `denominator` cases.
pub uninterp spec fn seeded_coins(seed: u64, numerator: u32, denominator: u32) -> Seq<bool>;

/// The coins of one carrier index: eight fair coins of the generator that is
/// seeded with the index. Encoder and decoder draw them independently and get
/// the same ones.
pub open spec fn index_coins(seed: u64) -> Seq<bool> {
    seeded_coins(seed, 1, 2)
}

/// Seeds `rand`'s `StdRng` with `SeedableRng::seed_from_u64(seed)` and draws
/// eight coins from it, each with `Rng::gen_ratio`, which panics for a ratio
/// above one or a denominator of 0. For one half, `gen_ratio` samples the same
/// `Bernoulli` distribution from the same 64 bits as `gen_bool` does. The
/// generator is deterministic, so the coins are a function of the seed and the
/// ratio: the contract gives them their name and claims nothing else of them.
#[verifier::external_body]
fn draw_seeded_coins(seed: u64, numerator: u32, denominator: u32) -> (coins: [bool; 8])
    requires
        0 < denominator,
        numerator <= denominator,
    ensures
        coins@ == seeded_coins(seed, numerator, denominator),
{
    let mut rng: StdRng = SeedableRng::seed_from_u64(seed);
    [
        rng.gen_ratio(numerator, denominator),
        rng.gen_ratio(numerator, denominator),
        rng.gen_ratio(numerator, denominator),
        rng.gen_ratio(numerator, denominator),
        rng.gen_ratio(numerator, denominator),
        rng.gen_ratio(numerator, denominator),
        rng.gen_ratio(numerator, denominator),
        rng.gen_ratio(numerator, denominator),
    ]
}

/// Draws the coins of the carrier index `seed`.
pub(crate) fn draw_index_coins(seed: u64) -> (coins: [bool; 8])
    ensures
        coins@ == index_coins(seed),
{
    draw_seeded_coins(seed, 1, 2)
}

/// Turns `bits`, least significant digit first, into the difference that
/// stands for them under `coins`, where that difference does not exceed
/// `max_allowed_difference`.
pub fn coined_bits_to_difference_if_allowed(
    coins: &[bool],
    bits: &[bool],
    max_allowed_difference: u8,
) -> (difference: Option<u8>)
    ensures
        is_difference_within(difference, bits@, coins@, max_allowed_difference as int),
{
    let mut acc: u8 = 0;
    let mut weight: u16 = 1;
    let mut position: usize = 0;
    while position < bits.len()
        invariant
            position <= bits@.len(),
            position <= 8,
            weight == code_weight(position as int),
            acc <= max_allowed_difference,
            acc + weight * code_value_from(bits@, coins@, position as int) == code_value(
                bits@,
                coins@,
            ),
        decreases bits@.len() - position,
    {
        let ghost rest = code_value_from(bits@, coins@, position as int + 1);
        let ghost digit_here = code_digit(bits@[position as int], coin_at(coins@, position as int));
        proof {
            lemma_code_value_from_least(bits@, coins@, position as int + 1);
            assert(rest >= 0);
            assert(weight * (digit_here + 2 * rest) == weight * digit_here + (2 * weight) * rest)
                by (nonlinear_arith);
            assert((2 * weight) * rest >= 0) by (nonlinear_arith)
                requires
                    weight >= 1,
                    rest >= 0,
            ;
        }
        if position >= 8 {
            assert(digit_here >= 1);
            assert(weight * digit_here >= 256) by (nonlinear_arith)
                requires
                    weight == 256,
                    digit_here >= 1,
            ;
            return None;
        }
        let coin: bool = position < coins.len() && coins[position];
        let digit: u16 = if bits[position] != coin {
            2
        } else {
            1
        };
        assert(digit == digit_here);
        assert(digit * weight <= 256) by (nonlinear_arith)
            requires
                digit <= 2,
                weight <= 128,
        ;
        let summand: u16 = digit * weight;
        let sum: u16 = acc as u16 + summand;
        assert(weight * digit_here == summand) by (nonlinear_arith)
            requires
                summand == digit * weight,
                digit == digit_here,
        ;
        if sum > max_allowed_difference as u16 {
            return None;
        }
        acc = sum as u8;
        weight = weight * 2;
        position += 1;
    }
    assert(code_value_from(bits@, coins@, position as int) == 0);
    assert(weight * 0 == 0);
    Some(acc)
}

/// Turns `bits` into the difference that stands for them under `coins`, where
/// one byte can hold it.
pub fn coined_bits_to_difference(coins: &[bool], bits: &[bool]) -> (difference: Option<u8>)
    ensures
        is_difference_within(difference, bits@, coins@, 255),
{
    coined_bits_to_difference_if_allowed(coins, bits, 255)
}

/// Reads `output_bits.len()` bits back from `difference` under `coins`.
pub fn coined_difference_to_bits(coins: &[bool], difference: u8, output_bits: &mut [bool])
    requires
        old(output_bits)@.len() <= max_bits_encodable(difference as int),
    ensures
        final(output_bits)@ == decoded_bits(difference as int, coins@, old(output_bits)@.len()),
{
    let count: usize = output_bits.len();
    let mut left: u8 = difference;
    let mut position: usize = 0;
    while position < count
        invariant
            position <= count <= 8,
            output_bits@.len() == count,
            left == remaining_difference(difference as int, position as nat),
            left >= least_difference(count - position),
            forall|earlier: int|
                0 <= earlier < position ==> output_bits@[earlier] == decoded_bits(
                    difference as int,
                    coins@,
                    count as nat,
                )[earlier],
        decreases count - position,
    {
        let coin: bool = position < coins.len() && coins[position];
        let odd: bool = is_odd(left);
        output_bits[position] = !odd != coin;
        if odd {
            left = left / 2;
        } else {
            left = left / 2 - 1;
        }
        position += 1;
    }
    assert(output_bits@ =~= decoded_bits(difference as int, coins@, count as nat));
}

/// The difference that stands for `bits` in the static code, where it does
/// not exceed `max_allowed_difference`.
pub fn static_bits_to_difference_if_allowed(bits: &[bool], max_allowed_difference: u8) -> (difference:
    Option<u8>)
    ensures
        is_difference_within(difference, bits@, Seq::<bool>::empty(), max_allowed_difference as int),
{
    let no_coins: Vec<bool> = Vec::new();
    assert(no_coins@ =~= Seq::<bool>::empty());
    coined_bits_to_difference_if_allowed(no_coins.as_slice(), bits, max_allowed_difference)
}

/// The static code: a 0 bit has digit 1, a 1 bit digit 2, at every position.
/// `None` where the difference would exceed 255.
pub fn static_bits_to_difference(bits: &[bool]) -> (difference: Option<u8>)
    ensures
        is_difference_within(difference, bits@, Seq::<bool>::empty(), 255),
{
    let no_coins: Vec<bool> = Vec::new();
    assert(no_coins@ =~= Seq::<bool>::empty());
    coined_bits_to_difference(no_coins.as_slice(), bits)
}

/// Reads `output_bits.len()` bits back from a difference of the static code.
/// `output_bits` may not be longer than `get_num_bits_decodable(difference)`.
pub fn static_difference_to_bits(difference: u8, output_bits: &mut [bool])
    requires
        old(output_bits)@.len() <= max_bits_encodable(difference as int),
    ensures
        final(output_bits)@ == static_decoded_bits(difference as int, old(output_bits)@.len()),
{
    let no_coins: Vec<bool> = Vec::new();
    assert(no_coins@ =~= Seq::<bool>::empty());
    coined_difference_to_bits(no_coins.as_slice(), difference, output_bits)
}

/// The difference that stands for `bits` in the dynamic code at `index`,
/// where it does not exceed `max_allowed_difference`.
pub fn dynamic_bits_to_difference_if_allowed(
    index: usize,
    bits: &[bool],
    max_allowed_difference: u8,
) -> (difference: Option<u8>)
    ensures
        is_difference_within(difference, bits@, index_coins(index as u64), max_allowed_difference as int),
{
    let coins: [bool; 8] = draw_index_coins(index as u64);
    coined_bits_to_difference_if_allowed(coins.as_slice(), bits, max_allowed_difference)
}

/// The dynamic code: as the static one, but at every position the two digits
/// change places where the coin of that position, drawn for `index`, is set.
pub fn dynamic_bits_to_difference(index: usize, bits: &[bool]) -> (difference: Option<u8>)
    ensures
        is_difference_within(difference, bits@, index_coins(index as u64), 255),
{
    let coins: [bool; 8] = draw_index_coins(index as u64);
    coined_bits_to_difference(coins.as_slice(), bits)
}

/// Reads `output_bits.len()` bits back from a difference of the dynamic code
/// at `index`. `output_bits` may not be longer than
/// `get_num_bits_decodable(difference)`.
pub fn dynamic_difference_to_bits(index: usize, difference: u8, output_bits: &mut [bool])
    requires
        old(output_bits)@.len() <= max_bits_encodable(difference as int),
    ensures
        final(output_bits)@ == decoded_bits(
            difference as int,
            index_coins(index as u64),
            old(output_bits)@.len(),
        ),
{
    let coins: [bool; 8] = draw_index_coins(index as u64);
    coined_difference_to_bits(coins.as_slice(), difference, output_bits)
}

/// Taking digits off the code of `bits` leaves the code of the bits that follow.
pub proof fn lemma_remaining_of_code(bits: Seq<bool>, coins: Seq<bool>, steps: nat)
    requires
        steps <= bits.len(),
    ensures
        remaining_difference(code_value(bits, coins), steps) == code_value_from(
            bits,
            coins,
            steps as int,
        ),
    decreases steps,
{
    if steps > 0 {
        lemma_remaining_of_code(bits, coins, (steps - 1) as nat);
    }
}

/// Decoding inverts encoding: under any coins, the bits read back from the
/// difference that stands for `bits` are `bits`.
pub proof fn lemma_decoding_inverts_encoding(bits: Seq<bool>, coins: Seq<bool>)
    ensures
        decoded_bits(code_value(bits, coins), coins, bits.len()) == bits,
{
    let difference = code_value(bits, coins);
    assert forall|position: int| 0 <= position < bits.len() implies decoded_bits(
        difference,
        coins,
        bits.len(),
    )[position] == bits[position] by {
        lemma_remaining_of_code(bits, coins, position as nat);
    }
    assert(decoded_bits(difference, coins, bits.len()) =~= bits);
}

/// A difference that stands for up to eight bits and fits into a byte tells
/// how many bits it stands for.
pub proof fn lemma_code_tells_length(bits: Seq<bool>, coins: Seq<bool>)
    requires
        code_value(bits, coins) <= 255,
    ensures
        bits.len() <= 8,
        max_bits_encodable(code_value(bits, coins)) == bits.len(),
{
    lemma_code_value_from_least(bits, coins, 0);
    if bits.len() <= 7 {
        lemma_code_value_from_worst(bits, coins, 0);
    }
}

/// The static code is inverted by its decoder: for every bit sequence whose
/// difference fits into a byte, the difference tells the number of bits, and
/// the bits read back from it are the ones that went in.
pub proof fn lemma_static_code_inverse(bits: Seq<bool>)
    requires
        static_code_value(bits) <= 255,
    ensures
        max_bits_encodable(static_code_value(bits)) == bits.len(),
        static_decoded_bits(static_code_value(bits), bits.len()) == bits,
{
    lemma_code_tells_length(bits, Seq::<bool>::empty());
    lemma_decoding_inverts_encoding(bits, Seq::<bool>::empty());
}

/// The dynamic code is inverted by its decoder at the same index: for every
/// index and every bit sequence, the bits read back from the difference are
/// the ones that went in; where the difference fits into a byte, it also tells
/// their number.
pub proof fn lemma_dynamic_code_inverse(index: usize, bits: Seq<bool>)
    ensures
        decoded_bits(
            code_value(bits, index_coins(index as u64)),
            index_coins(index as u64),
            bits.len(),
        ) == bits,
        code_value(bits, index_coins(index as u64)) <= 255 ==> max_bits_encodable(
            code_value(bits, index_coins(index as u64)),
        ) == bits.len(),
{
    lemma_decoding_inverts_encoding(bits, index_coins(index as u64));
    if code_value(bits, index_coins(index as u64)) <= 255 {
        lemma_code_tells_length(bits, index_coins(index as u64));
    }
}

} // verus!
