//! What the codecs share: the container of byte values that they read and
//! write, the error type, and small helpers on bytes and bits.

pub mod dif_code_image;
pub mod integral_rgb_image;

pub use dif_code_image::DifCodeImage;
pub use integral_rgb_image::IntegralRgbImage;
use rand::rngs::ThreadRng;
use rand::Rng;
use vstd::prelude::*;

verus! {

/// `rand`'s handle to the generator of the current thread. Nothing is known
/// of what it will draw.
#[verifier::external_type_specification]
#[verifier::external_body]
pub struct ExThreadRng(ThreadRng);

/// Calls `rand::thread_rng`, which hands out the generator of the current
/// thread. Nothing is claimed of it.
#[verifier::external_body]
pub(crate) fn thread_generator() -> ThreadRng {
    rand::thread_rng()
}

/// Draws a number with `Rng::gen_range(low, high)`, which returns a value of
/// the half-open range from `low` to `high` and panics where that range is
/// empty. Which value comes is random.
#[verifier::external_body]
pub(crate) fn random_in_range(rng: &mut ThreadRng, low: usize, high: usize) -> (drawn: usize)
    requires
        low < high,
    ensures
        low <= drawn < high,
{
    rng.gen_range(low, high)
}

/// Draws a coin with `Rng::gen_ratio`, which panics for a ratio above one
/// or a denominator of 0. The outcome is random: nothing is claimed of it.
#[verifier::external_body]
pub(crate) fn random_ratio(rng: &mut ThreadRng, numerator: u32, denominator: u32) -> bool
    requires
        0 < denominator,
        numerator <= denominator,
{
    rng.gen_ratio(numerator, denominator)
}

/// An index below `bound`, drawn at random.
pub(crate) fn random_below(rng: &mut ThreadRng, bound: usize) -> (drawn: usize)
    requires
        bound > 0,
    ensures
        drawn < bound,
{
    random_in_range(rng, 0, bound)
}

/// A direction, drawn at random: upwards as often as downwards.
pub(crate) fn random_direction(rng: &mut ThreadRng) -> bool {
    random_ratio(rng, 1, 2)
}

/// An ordered, fixed-length sequence of byte values that can be read and
/// written by index. The codecs work on carriers, change maps and outputs only
/// through this trait.
pub trait EncodingContainer {
    /// The values that the container holds, by index.
    spec fn values(&self) -> Seq<u8>;

    /// The width and the height of what the container holds: those of the
    /// image where it is one, and one row of all its values where it is a
    /// flat buffer. Writing a value leaves them as they are.
    spec fn dimensions(&self) -> (nat, nat);

    fn len(&self) -> (length: usize)
        ensures
            length == self.values().len(),
    ;

    /// The value at `index`.
    fn value_at(&self, index: usize) -> (value: u8)
        requires
            index < self.values().len(),
        ensures
            value == self.values()[index as int],
    ;

    /// Overwrites the value at `index`; every other value stays.
    fn set_value_at(&mut self, index: usize, value: u8)
        requires
            index < old(self).values().len(),
        ensures
            final(self).values() == old(self).values().update(index as int, value),
            final(self).dimensions() == old(self).dimensions(),
    ;
}

impl EncodingContainer for Vec<u8> {
    open spec fn values(&self) -> Seq<u8> {
        self@
    }

    open spec fn dimensions(&self) -> (nat, nat) {
        (self@.len(), 1)
    }

    fn len(&self) -> (length: usize) {
        Vec::len(self)
    }

    fn value_at(&self, index: usize) -> (value: u8) {
        self[index]
    }

    fn set_value_at(&mut self, index: usize, value: u8) {
        self[index] = value;
    }
}

impl EncodingContainer for [u8] {
    open spec fn values(&self) -> Seq<u8> {
        self@
    }

    open spec fn dimensions(&self) -> (nat, nat) {
        (self@.len(), 1)
    }

    fn len(&self) -> (length: usize) {
        <[u8]>::len(self)
    }

    fn value_at(&self, index: usize) -> (value: u8) {
        self[index]
    }

    fn set_value_at(&mut self, index: usize, value: u8) {
        self[index] = value;
    }
}

pub type DifCodeResult<T> = Result<T, DifCodeError>;

/// What a codec or the planner reports when it cannot do its work.
#[derive(Debug)]
pub enum DifCodeError {
    /// A call was made with parameters that do not fit together.
    Internal(&'static str),
    /// The containers handed to one call differ in length.
    InternalMismatchedContainerSizes,
    /// The capacity ran out. Holds the number of bits that did fit.
    InternalCapacityReached(usize),
}

impl From<&'static str> for DifCodeError {
    fn from(err: &'static str) -> (error: DifCodeError) {
        DifCodeError::Internal(err)
    }
}

impl vstd::std_specs::convert::FromSpecImpl<&'static str> for DifCodeError {
    open spec fn obeys_from_spec() -> bool {
        true
    }

    open spec fn from_spec(err: &'static str) -> DifCodeError {
        DifCodeError::Internal(err)
    }
}

/// The number of bits in `message`.
pub fn get_length_in_bits(message: &[u8]) -> (bits: usize)
    requires
        message@.len() * 8 <= usize::MAX,
    ensures
        bits == message@.len() * 8,
{
    message.len() * 8
}

/// The magnitude of the difference between two byte values.
pub open spec fn spec_distance(a: u8, b: u8) -> int {
    if a >= b {
        a - b
    } else {
        b - a
    }
}

pub fn distance(a: u8, b: u8) -> (d: u8)
    ensures
        d == spec_distance(a, b),
{
    if a >= b {
        a - b
    } else {
        b - a
    }
}

pub fn is_odd(value: u8) -> (odd: bool)
    ensures
        odd == (value % 2 == 1),
{
    value % 2 == 1
}

/// Bit `position` of `byte`, counted from the least significant bit.
pub open spec fn bit_of(byte: u8, position: int) -> bool {
    if position == 0 {
        byte % 2 == 1
    } else if position == 1 {
        (byte / 2) % 2 == 1
    } else if position == 2 {
        (byte / 4) % 2 == 1
    } else if position == 3 {
        (byte / 8) % 2 == 1
    } else if position == 4 {
        (byte / 16) % 2 == 1
    } else if position == 5 {
        (byte / 32) % 2 == 1
    } else if position == 6 {
        (byte / 64) % 2 == 1
    } else if position == 7 {
        (byte / 128) % 2 == 1
    } else {
        false
    }
}

/// The value of bit `position` alone: `2^position`, and 0 beyond the byte.
pub open spec fn bit_weight(position: int) -> int {
    if position == 0 {
        1
    } else if position == 1 {
        2
    } else if position == 2 {
        4
    } else if position == 3 {
        8
    } else if position == 4 {
        16
    } else if position == 5 {
        32
    } else if position == 6 {
        64
    } else if position == 7 {
        128
    } else {
        0
    }
}

pub fn get_bit_at(byte: u8, position: u8) -> (bit: bool)
    ensures
        bit == bit_of(byte, position as int),
{
    if position < 8 {
        let mask: u8 = 1u8 << position;
        assert((byte & mask != 0) == bit_of(byte, position as int)) by {
            assert(position < 8 && mask == 1u8 << position ==> (byte & mask != 0) == (if position
                == 0 {
                byte % 2 == 1
            } else if position == 1 {
                (byte / 2) % 2 == 1
            } else if position == 2 {
                (byte / 4) % 2 == 1
            } else if position == 3 {
                (byte / 8) % 2 == 1
            } else if position == 4 {
                (byte / 16) % 2 == 1
            } else if position == 5 {
                (byte / 32) % 2 == 1
            } else if position == 6 {
                (byte / 64) % 2 == 1
            } else {
                (byte / 128) % 2 == 1
            })) by (bit_vector);
        }
        byte & mask != 0
    } else {
        false
    }
}

/// `byte` with bit `position` set; unchanged where the bit is set already or
/// `position` lies beyond the byte.
pub fn set_bit_at(byte: u8, position: u8) -> (updated: u8)
    ensures
        updated == if bit_of(byte, position as int) {
            byte as int
        } else {
            byte + bit_weight(position as int)
        },
        forall|other: int|
            0 <= other < 8 ==> bit_of(updated, other) == (other == position || bit_of(
                byte,
                other,
            )),
{
    if position < 8 {
        let mask: u8 = 1u8 << position;
        let updated: u8 = byte | mask;
        assert(position < 8 && mask == 1u8 << position && updated == byte | mask ==> {
            &&& (position == 0 ==> updated == (if byte % 2 == 1 { byte } else { (byte + 1) as u8 }))
            &&& (position == 1 ==> updated == (if (byte / 2) % 2 == 1 { byte } else { (byte + 2) as u8 }))
            &&& (position == 2 ==> updated == (if (byte / 4) % 2 == 1 { byte } else { (byte + 4) as u8 }))
            &&& (position == 3 ==> updated == (if (byte / 8) % 2 == 1 { byte } else { (byte + 8) as u8 }))
            &&& (position == 4 ==> updated == (if (byte / 16) % 2 == 1 { byte } else { (byte + 16) as u8 }))
            &&& (position == 5 ==> updated == (if (byte / 32) % 2 == 1 { byte } else { (byte + 32) as u8 }))
            &&& (position == 6 ==> updated == (if (byte / 64) % 2 == 1 { byte } else { (byte + 64) as u8 }))
            &&& (position == 7 ==> updated == (if (byte / 128) % 2 == 1 { byte } else { (byte + 128) as u8 }))
            &&& (position != 0 ==> (updated % 2 == 1) == (byte % 2 == 1))
            &&& (position != 1 ==> ((updated / 2) % 2 == 1) == ((byte / 2) % 2 == 1))
            &&& (position != 2 ==> ((updated / 4) % 2 == 1) == ((byte / 4) % 2 == 1))
            &&& (position != 3 ==> ((updated / 8) % 2 == 1) == ((byte / 8) % 2 == 1))
            &&& (position != 4 ==> ((updated / 16) % 2 == 1) == ((byte / 16) % 2 == 1))
            &&& (position != 5 ==> ((updated / 32) % 2 == 1) == ((byte / 32) % 2 == 1))
            &&& (position != 6 ==> ((updated / 64) % 2 == 1) == ((byte / 64) % 2 == 1))
            &&& (position != 7 ==> ((updated / 128) % 2 == 1) == ((byte / 128) % 2 == 1))
            &&& (position == 0 ==> updated % 2 == 1)
            &&& (position == 1 ==> (updated / 2) % 2 == 1)
            &&& (position == 2 ==> (updated / 4) % 2 == 1)
            &&& (position == 3 ==> (updated / 8) % 2 == 1)
            &&& (position == 4 ==> (updated / 16) % 2 == 1)
            &&& (position == 5 ==> (updated / 32) % 2 == 1)
            &&& (position == 6 ==> (updated / 64) % 2 == 1)
            &&& (position == 7 ==> (updated / 128) % 2 == 1)
        }) by (bit_vector);
        updated
    } else {
        byte
    }
}

/// The bits of `bytes` in the order in which a payload is written: byte by
/// byte, each from its least significant bit up.
pub open spec fn message_bits(bytes: Seq<u8>) -> Seq<bool> {
    Seq::new(bytes.len() * 8, |position: int| bit_of(bytes[position / 8], position % 8))
}

/// The byte whose bits, from the least significant up, are the first eight of `bits`.
pub open spec fn byte_of_bits(bits: Seq<bool>) -> int {
    (if bits[0] { 1int } else { 0 }) + (if bits[1] { 2int } else { 0 }) + (if bits[2] { 4int } else { 0 })
        + (if bits[3] { 8int } else { 0 }) + (if bits[4] { 16int } else { 0 }) + (if bits[5] { 32int } else { 0 })
        + (if bits[6] { 64int } else { 0 }) + (if bits[7] { 128int } else { 0 })
}

/// The eight bits of `bits` that make up byte `group`.
pub open spec fn byte_group(bits: Seq<bool>, group: int) -> Seq<bool> {
    bits.subrange(8 * group, 8 * group + 8)
}

/// The bytes that `bits` fill: one for every full group of eight, in order.
/// Bits after the last full group belong to no byte.
pub open spec fn packed_bytes(bits: Seq<bool>) -> Seq<u8> {
    Seq::new(bits.len() / 8, |group: int| byte_of_bits(byte_group(bits, group)) as u8)
}

/// A byte is the sum of the weights of its set bits.
pub proof fn lemma_byte_of_its_bits(byte: u8)
    ensures
        byte_of_bits(Seq::new(8, |position: int| bit_of(byte, position))) == byte,
{
    let bits = Seq::new(8, |position: int| bit_of(byte, position));
    assert(bits[0] == bit_of(byte, 0) && bits[1] == bit_of(byte, 1) && bits[2] == bit_of(byte, 2)
        && bits[3] == bit_of(byte, 3) && bits[4] == bit_of(byte, 4) && bits[5] == bit_of(byte, 5)
        && bits[6] == bit_of(byte, 6) && bits[7] == bit_of(byte, 7));
    assert((if byte % 2 == 1 { 1u16 } else { 0 }) + (if (byte / 2) % 2 == 1 { 2u16 } else { 0 }) + (if (
    byte / 4) % 2 == 1 { 4u16 } else { 0 }) + (if (byte / 8) % 2 == 1 { 8u16 } else { 0 }) + (if (byte
        / 16) % 2 == 1 { 16u16 } else { 0 }) + (if (byte / 32) % 2 == 1 { 32u16 } else { 0 }) + (if (
    byte / 64) % 2 == 1 { 64u16 } else { 0 }) + (if (byte / 128) % 2 == 1 { 128u16 } else { 0 })
        == byte) by (bit_vector);
}

/// Packing the bits of a payload gives the payload back.
pub proof fn lemma_packing_inverts_message_bits(bytes: Seq<u8>)
    ensures
        packed_bytes(message_bits(bytes)) == bytes,
{
    let bits = message_bits(bytes);
    assert forall|group: int| 0 <= group < bytes.len() implies packed_bytes(bits)[group]
        == bytes[group] by {
        let byte = bytes[group];
        let own = Seq::new(8, |position: int| bit_of(byte, position));
        assert forall|position: int| 0 <= position < 8 implies byte_group(bits, group)[position]
            == own[position] by {
            assert((8 * group + position) / 8 == group);
            assert((8 * group + position) % 8 == position);
        }
        assert(byte_group(bits, group) =~= own);
        lemma_byte_of_its_bits(byte);
    }
    assert(packed_bytes(bits) =~= bytes);
}

/// Bits written as numbers, 0 for a 0 bit and anything else for a 1 bit, as bits.
pub fn from_bit_vec(bits: &[u8]) -> (bool_bits: Vec<bool>)
    ensures
        bool_bits@.len() == bits@.len(),
        forall|position: int|
            0 <= position < bits@.len() ==> bool_bits@[position] == (bits@[position] != 0),
{
    let mut bool_bits: Vec<bool> = Vec::with_capacity(bits.len());
    let mut position: usize = 0;
    while position < bits.len()
        invariant
            position <= bits@.len(),
            bool_bits@.len() == position,
            forall|earlier: int|
                0 <= earlier < position ==> bool_bits@[earlier] == (bits@[earlier] != 0),
        decreases bits@.len() - position,
    {
        bool_bits.push(bits[position] != 0);
        position += 1;
    }
    bool_bits
}

/// Bits as numbers: 0 for a 0 bit, 1 for a 1 bit.
pub fn to_bit_vec(bits: &[bool]) -> (numbers: Vec<u8>)
    ensures
        numbers@.len() == bits@.len(),
        forall|position: int|
            0 <= position < bits@.len() ==> numbers@[position] == if bits@[position] {
                1u8
            } else {
                0u8
            },
{
    let mut numbers: Vec<u8> = Vec::with_capacity(bits.len());
    let mut position: usize = 0;
    while position < bits.len()
        invariant
            position <= bits@.len(),
            numbers@.len() == position,
            forall|earlier: int|
                0 <= earlier < position ==> numbers@[earlier] == if bits@[earlier] {
                    1u8
                } else {
                    0u8
                },
        decreases bits@.len() - position,
    {
        numbers.push(if bits[position] { 1 } else { 0 });
        position += 1;
    }
    numbers
}

} // verus!
