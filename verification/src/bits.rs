//! Single bits of a byte.

use vstd::prelude::*;

verus! {

/// Bit `k` of a byte.
pub open spec fn bit(b: u8, k: u8) -> bool {
    (b >> k) & 1u8 == 1u8
}

/// Setting and clearing a bit changes that bit alone.
pub proof fn lemma_bit_update(b: u8, k: u8, j: u8)
    requires
        k < 8,
        j < 8,
    ensures
        bit(b | (1u8 << k), j) == (j == k || bit(b, j)),
        bit(b & !(1u8 << k), j) == (j != k && bit(b, j)),
{
    assert((((b | (1u8 << k)) >> j) & 1u8 == 1u8) == (j == k || (b >> j) & 1u8 == 1u8))
        by (bit_vector)
        requires
            k < 8,
            j < 8,
    ;
    assert((((b & !(1u8 << k)) >> j) & 1u8 == 1u8) == (j != k && (b >> j) & 1u8 == 1u8))
        by (bit_vector)
        requires
            k < 8,
            j < 8,
    ;
}

/// A zero byte has no bit set.
pub proof fn lemma_zero_byte(k: u8)
    requires
        k < 8,
    ensures
        !bit(0, k),
{
    assert((0u8 >> k) & 1u8 != 1u8) by (bit_vector)
        requires
            k < 8,
    ;
}

/// The lowest set bit of a byte is where its trailing zeros end.
pub proof fn lemma_lowest_bit(b: u8, tz: u8)
    requires
        b != 0,
        tz == vstd::std_specs::bits::u8_trailing_zeros(b),
    ensures
        tz < 8,
        bit(b, tz),
        forall|j: u8| j < tz ==> !bit(b, j),
{
    broadcast use vstd::std_specs::bits::group_bits_axioms;

    assert forall|j: u8| j < tz implies !bit(b, j) by {
        assert((b >> j) & 1u8 == 0u8);
    }
}

/// Bit `k` of a byte is set exactly if the byte, divided by two `k` times, is odd.
pub proof fn lemma_bit_is_parity(b: u8, k: u8)
    requires
        k < 8,
    ensures
        bit(b, k) <==> b & (1u8 << k) != 0,
        bit(b, 0) <==> b % 2 == 1,
        k < 7 ==> bit(b, (k + 1) as u8) == bit((b / 2) as u8, k),
{
    assert(((b >> k) & 1u8 == 1u8) == (b & (1u8 << k) != 0) && ((b >> 0) & 1u8 == 1u8) == (b % 2
        == 1) && (k < 7 ==> ((b >> ((k + 1) as u8)) & 1u8 == 1u8) == (((b / 2) >> k) & 1u8 == 1u8)))
        by (bit_vector)
        requires
            k < 8,
    ;
}

} // verus!
