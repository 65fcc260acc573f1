//! Chunk widths and the masks that go with them.

use vstd::arithmetic::div_mod::lemma_small_mod;
use vstd::arithmetic::power2::{lemma2_to64, lemma_pow2_strictly_increases, pow2};
use vstd::bits::{lemma_u64_pow2_no_overflow, lemma_u64_shl_is_mul};
use vstd::prelude::*;

verus! {

/// The widths a chunk can have: the divisors of 8.
pub open spec fn valid_width(w: u8) -> bool {
    w == 1 || w == 2 || w == 4 || w == 8
}

/// How many chunks of width `w` one byte is cut into.
pub open spec fn chunks_per_byte(w: u8) -> int {
    8int / (w as int)
}

/// The value whose low `w` bits are set and no others: `2^w - 1`.
pub open spec fn bit_mask(w: u8) -> int {
    pow2(w as nat) - 1
}

/// The masks of the four valid widths.
pub proof fn lemma_bit_mask_values()
    ensures
        bit_mask(1) == 0x01,
        bit_mask(2) == 0x03,
        bit_mask(4) == 0x0f,
        bit_mask(8) == 0xff,
{
    lemma2_to64();
}

/// A width is valid exactly when it divides 8.
pub proof fn lemma_valid_width_divides_eight(w: u8)
    ensures
        valid_width(w) <==> (w != 0 && 8int % (w as int) == 0),
{
    if w > 8 {
        lemma_small_mod(8, w as nat);
    } else if w != 0 {
        let d = w as int;
        assert(8int % d == 0 <==> (d == 1 || d == 2 || d == 4 || d == 8)) by (nonlinear_arith)
            requires
                1 <= d <= 8,
        ;
    }
}

/// Tells whether `w` divides 8.
pub fn is_valid_width(w: u8) -> (ok: bool)
    ensures
        ok == valid_width(w),
{
    w == 1 || w == 2 || w == 4 || w == 8
}

/// The mask of the low `n` bits, `2^n - 1`.
pub fn generate_bit_mask(n: u8) -> (mask: u32)
    requires
        n <= 32,
    ensures
        mask == pow2(n as nat) - 1,
{
    let wide: u64 = 1u64 << (n as u64);
    proof {
        lemma_u64_pow2_no_overflow(n as nat);
        lemma_u64_shl_is_mul(1u64, n as u64);
        if n < 32 {
            lemma_pow2_strictly_increases(n as nat, 32);
        }
        lemma2_to64();
    }
    (wide - 1) as u32
}

} // verus!
