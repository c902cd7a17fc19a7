//! The 8-byte word in which forked workers leave partial results in shared
//! memory: the most significant byte first.
use vstd::arithmetic::power::pow;
use vstd::prelude::*;

use crate::sums::sum;

verus! {

/// Byte `k` of the word of `value`: `value / 256^(7 - k)` cut to its low byte.
pub open spec fn word_byte(value: u64, k: int) -> int {
    (value as int / pow(256, (7 - k) as nat)) % 256
}

/// The number that eight bytes stand for, most significant first:
/// `sum_{k < 8} bytes[k] * 256^(7 - k)`.
pub open spec fn word_value(bytes: Seq<u8>) -> int {
    sum(|k: int| bytes[k] * pow(256, (7 - k) as nat), 0, 8)
}

proof fn lemma_powers()
    ensures
        pow(256, 0) == 1,
        pow(256, 1) == 0x100,
        pow(256, 2) == 0x1_0000,
        pow(256, 3) == 0x100_0000,
        pow(256, 4) == 0x1_0000_0000,
        pow(256, 5) == 0x100_0000_0000,
        pow(256, 6) == 0x1_0000_0000_0000,
        pow(256, 7) == 0x100_0000_0000_0000,
{
    reveal_with_fuel(pow, 8);
}

proof fn lemma_word_value_unfolded(bytes: Seq<u8>)
    ensures
        word_value(bytes) == bytes[0] * 0x100_0000_0000_0000 + bytes[1] * 0x1_0000_0000_0000
            + bytes[2] * 0x100_0000_0000 + bytes[3] * 0x1_0000_0000 + bytes[4] * 0x100_0000
            + bytes[5] * 0x1_0000 + bytes[6] * 0x100 + bytes[7],
{
    lemma_powers();
    reveal_with_fuel(sum, 9);
}

proof fn lemma_low_byte(x: u64)
    ensures
        (x as u8) as int == x % 256,
{
    assert((x as u8) as int == x % 256) by (bit_vector);
}

/// The eight bytes, most significant first, that `value` is written as.
pub fn encode_shm_word(value: u64) -> (bytes: [u8; 8])
    ensures
        forall|k: int| 0 <= k < 8 ==> #[trigger] bytes@[k] == word_byte(value, k),
{
    let bytes: [u8; 8] = [
        (value / 0x100_0000_0000_0000) as u8,
        (value / 0x1_0000_0000_0000) as u8,
        (value / 0x100_0000_0000) as u8,
        (value / 0x1_0000_0000) as u8,
        (value / 0x100_0000) as u8,
        (value / 0x1_0000) as u8,
        (value / 0x100) as u8,
        value as u8,
    ];
    proof {
        lemma_powers();
        lemma_low_byte(value / 0x100_0000_0000_0000);
        lemma_low_byte(value / 0x1_0000_0000_0000);
        lemma_low_byte(value / 0x100_0000_0000);
        lemma_low_byte(value / 0x1_0000_0000);
        lemma_low_byte(value / 0x100_0000);
        lemma_low_byte(value / 0x1_0000);
        lemma_low_byte(value / 0x100);
        lemma_low_byte(value);
        assert(word_byte(value, 0) == bytes@[0]);
        assert(word_byte(value, 1) == bytes@[1]);
        assert(word_byte(value, 2) == bytes@[2]);
        assert(word_byte(value, 3) == bytes@[3]);
        assert(word_byte(value, 4) == bytes@[4]);
        assert(word_byte(value, 5) == bytes@[5]);
        assert(word_byte(value, 6) == bytes@[6]);
        assert(word_byte(value, 7) == bytes@[7]);
    }
    bytes
}

/// The number that eight bytes, most significant first, stand for.
pub fn decode_shm_word(bytes: [u8; 8]) -> (value: u64)
    ensures
        value == word_value(bytes@),
{
    proof {
        lemma_word_value_unfolded(bytes@);
    }
    (bytes[0] as u64) * 0x100_0000_0000_0000 + (bytes[1] as u64) * 0x1_0000_0000_0000
        + (bytes[2] as u64) * 0x100_0000_0000 + (bytes[3] as u64) * 0x1_0000_0000 + (bytes[4] as u64)
        * 0x100_0000 + (bytes[5] as u64) * 0x1_0000 + (bytes[6] as u64) * 0x100 + (bytes[7] as u64)
}

/// Reading a word back gives the value that was written.
pub proof fn lemma_decode_encode(value: u64, bytes: Seq<u8>)
    requires
        bytes.len() == 8,
        forall|k: int| 0 <= k < 8 ==> #[trigger] bytes[k] == word_byte(value, k),
    ensures
        word_value(bytes) == value,
{
    lemma_powers();
    lemma_word_value_unfolded(bytes);
    assert(bytes[0] == word_byte(value, 0));
    assert(bytes[1] == word_byte(value, 1));
    assert(bytes[2] == word_byte(value, 2));
    assert(bytes[3] == word_byte(value, 3));
    assert(bytes[4] == word_byte(value, 4));
    assert(bytes[5] == word_byte(value, 5));
    assert(bytes[6] == word_byte(value, 6));
    assert(bytes[7] == word_byte(value, 7));
    assert(value == ((value / 0x100_0000_0000_0000) % 256) * 0x100_0000_0000_0000 + ((value
        / 0x1_0000_0000_0000) % 256) * 0x1_0000_0000_0000 + ((value / 0x100_0000_0000) % 256)
        * 0x100_0000_0000 + ((value / 0x1_0000_0000) % 256) * 0x1_0000_0000 + ((value
        / 0x100_0000) % 256) * 0x100_0000 + ((value / 0x1_0000) % 256) * 0x1_0000 + ((value
        / 0x100) % 256) * 0x100 + value % 256) by (bit_vector);
}

/// Writing the value of eight bytes gives those bytes back.
pub proof fn lemma_encode_decode(bytes: Seq<u8>, value: u64)
    requires
        bytes.len() == 8,
        value == word_value(bytes),
    ensures
        forall|k: int| 0 <= k < 8 ==> #[trigger] bytes[k] == word_byte(value, k),
{
    lemma_powers();
    lemma_word_value_unfolded(bytes);
    let b0 = bytes[0];
    let b1 = bytes[1];
    let b2 = bytes[2];
    let b3 = bytes[3];
    let b4 = bytes[4];
    let b5 = bytes[5];
    let b6 = bytes[6];
    let b7 = bytes[7];
    assert({
        &&& (value / 0x100_0000_0000_0000) % 256 == b0
        &&& (value / 0x1_0000_0000_0000) % 256 == b1
        &&& (value / 0x100_0000_0000) % 256 == b2
        &&& (value / 0x1_0000_0000) % 256 == b3
        &&& (value / 0x100_0000) % 256 == b4
        &&& (value / 0x1_0000) % 256 == b5
        &&& (value / 0x100) % 256 == b6
        &&& value % 256 == b7
    }) by (bit_vector)
        requires
            value == b0 * 0x100_0000_0000_0000 + b1 * 0x1_0000_0000_0000 + b2 * 0x100_0000_0000
                + b3 * 0x1_0000_0000 + b4 * 0x100_0000 + b5 * 0x1_0000 + b6 * 0x100 + b7,
    ;
    assert forall|k: int| 0 <= k < 8 implies #[trigger] bytes[k] == word_byte(value, k) by {
        if k == 0 {
        } else if k == 1 {
        } else if k == 2 {
        } else if k == 3 {
        } else if k == 4 {
        } else if k == 5 {
        } else if k == 6 {
        } else {
        }
    }
}

} // verus!
