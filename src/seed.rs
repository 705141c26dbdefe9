//! Seed bytes for the digit generator, taken from a clock reading.
use vstd::prelude::*;
use vstd::arithmetic::power2::pow2;
use vstd::bits::lemma_u128_shr_is_div;

verus! {

/// Byte `k` of `x`, counted from the least significant one.
pub open spec fn byte_of(x: u128, k: nat) -> u8 {
    ((x as nat / pow2(8 * k)) % 256) as u8
}

/// Which byte of the reading stands at position `i` of the seed: most of the
/// entropy of a clock lies in its low bytes, and a generator may assume it is
/// spread evenly, so low and high bytes alternate.
pub open spec fn seed_source(i: int) -> nat {
    if i % 2 == 0 {
        i as nat
    } else {
        (16 - i) as nat
    }
}

fn take_byte(x: u128, k: u32) -> (r: u8)
    requires
        k < 16,
    ensures
        r == byte_of(x, k as nat),
{
    let shift: u128 = 8 * k as u128;
    let y: u128 = x >> shift;
    let r: u128 = y & 0xff;
    proof {
        lemma_u128_shr_is_div(x, shift);
        assert(y & 0xff == y % 256) by (bit_vector);
    }
    r as u8
}

/// The sixteen seed bytes made from a clock reading `x`.
pub fn seed_from_ticks(x: u128) -> (r: [u8; 16])
    ensures
        forall|i: int| 0 <= i < 16 ==> #[trigger] r@[i] == byte_of(x, seed_source(i)),
{
    let r = [
        take_byte(x, 0),
        take_byte(x, 15),
        take_byte(x, 2),
        take_byte(x, 13),
        take_byte(x, 4),
        take_byte(x, 11),
        take_byte(x, 6),
        take_byte(x, 9),
        take_byte(x, 8),
        take_byte(x, 7),
        take_byte(x, 10),
        take_byte(x, 5),
        take_byte(x, 12),
        take_byte(x, 3),
        take_byte(x, 14),
        take_byte(x, 1),
    ];
    r
}

} // verus!
