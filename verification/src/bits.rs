//! Bit-level view of the 32-bit class bitmaps, and the lemmas connecting
//! bitwise updates and masks to individual bits.

use vstd::prelude::*;
use vstd::arithmetic::power2::{lemma_pow2_unfold, pow2};
use crate::function::{lemma_lsb_le_msb, lemma_msb_below, spec_lsb, spec_msb};

verus! {

/// Bit `i` of a 32-bit bitmap.
pub open spec fn u32_bit(bm: u32, i: u32) -> bool
    recommends
        i < 32,
{
    bm & (1u32 << i) != 0
}

/// Setting bit `i` by an or leaves every other bit alone.
pub proof fn lemma_u32_bit_set(bm: u32, i: u32)
    by (bit_vector)
    requires
        i < 32,
    ensures
        forall|j: u32| j < 32 ==> #[trigger] u32_bit(bm | (1u32 << i), j) == (j == i || u32_bit(
            bm,
            j,
        )),
{
}

/// Toggling a set bit `i` by an xor clears it and leaves every other bit
/// alone.
pub proof fn lemma_u32_bit_clear(bm: u32, i: u32)
    by (bit_vector)
    requires
        i < 32,
        u32_bit(bm, i),
    ensures
        forall|j: u32| j < 32 ==> #[trigger] u32_bit(bm ^ (1u32 << i), j) == (j != i && u32_bit(
            bm,
            j,
        )),
{
}

/// Masking with ones from bit `i` upward keeps exactly the bits at or
/// above `i`.
pub proof fn lemma_u32_mask_ge(bm: u32, i: u32)
    by (bit_vector)
    requires
        i < 32,
    ensures
        forall|j: u32| j < 32 ==> #[trigger] u32_bit(bm & (0xffff_ffffu32 << i), j) == (j >= i
            && u32_bit(bm, j)),
{
}

/// The zero bitmap has no set bit.
pub proof fn lemma_u32_zero_bits()
    by (bit_vector)
    ensures
        forall|j: u32| j < 32 ==> !(#[trigger] u32_bit(0u32, j)),
{
}

/// Bit `j` of a bitmap seen arithmetically.
pub proof fn lemma_u32_bit_arith(bm: u32, j: u32)
    requires
        j < 32,
    ensures
        u32_bit(bm, j) == (((bm as nat) / pow2(j as nat)) % 2 == 1),
    decreases j,
{
    if j == 0 {
        assert(pow2(0) == 1) by {
            vstd::arithmetic::power2::lemma2_to64();
        }
        assert((bm & (1u32 << 0u32) != 0) == (bm % 2 == 1)) by (bit_vector);
    } else {
        lemma_u32_bit_arith(bm / 2, (j - 1) as u32);
        assert((bm & (1u32 << j) != 0) == ((bm / 2) & (1u32 << (j - 1) as u32) != 0))
            by (bit_vector)
            requires
                1 <= j < 32,
        ;
        lemma_pow2_unfold(j as nat);
        vstd::arithmetic::power2::lemma_pow2_pos((j - 1) as nat);
        vstd::arithmetic::div_mod::lemma_div_denominator(
            bm as int,
            2,
            pow2((j - 1) as nat) as int,
        );
    }
}

/// Arithmetic characterization of the lowest set bit: the quotient by
/// `pow2(spec_lsb(v))` is odd and every lower quotient is even.
pub proof fn lemma_lsb_char(v: nat)
    requires
        v >= 1,
    ensures
        (v / pow2(spec_lsb(v))) % 2 == 1,
        forall|j: nat| j < spec_lsb(v) ==> (v / #[trigger] pow2(j)) % 2 == 0,
    decreases v,
{
    vstd::arithmetic::power2::lemma2_to64();
    if v % 2 == 1 {
        assert(spec_lsb(v) == 0);
    } else {
        lemma_lsb_char(v / 2);
        let l = spec_lsb(v);
        assert(l == spec_lsb(v / 2) + 1);
        lemma_pow2_unfold(l);
        vstd::arithmetic::power2::lemma_pow2_pos((l - 1) as nat);
        vstd::arithmetic::div_mod::lemma_div_denominator(
            v as int,
            2,
            pow2((l - 1) as nat) as int,
        );
        assert forall|j: nat| j < l implies (v / #[trigger] pow2(j)) % 2 == 0 by {
            if j == 0 {
                assert(v / pow2(0) == v);
            } else {
                lemma_pow2_unfold(j);
                vstd::arithmetic::power2::lemma_pow2_pos((j - 1) as nat);
                vstd::arithmetic::div_mod::lemma_div_denominator(
                    v as int,
                    2,
                    pow2((j - 1) as nat) as int,
                );
            }
        }
    }
}

/// In a nonzero bitmap, `spec_lsb` names a set bit and every bit below it
/// is clear.
pub proof fn lemma_u32_lsb(bm: u32)
    requires
        bm != 0,
    ensures
        spec_lsb(bm as nat) < 32,
        u32_bit(bm, spec_lsb(bm as nat) as u32),
        forall|j: u32| j < spec_lsb(bm as nat) ==> !(#[trigger] u32_bit(bm, j)),
{
    vstd::arithmetic::power2::lemma2_to64();
    lemma_lsb_char(bm as nat);
    lemma_lsb_le_msb(bm as nat);
    lemma_msb_below(bm as nat, 32);
    let l = spec_lsb(bm as nat);
    lemma_u32_bit_arith(bm, l as u32);
    assert forall|j: u32| j < l implies !(#[trigger] u32_bit(bm, j)) by {
        lemma_u32_bit_arith(bm, j);
    }
}

} // verus!
