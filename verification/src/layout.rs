//! Alignment arithmetic used by the canonical layouts.

use vstd::prelude::*;
use vstd::arithmetic::power2::{pow2, lemma_pow2_pos, lemma_pow2_strictly_increases, lemma2_to64};
use vstd::bits::{low_bits_mask, lemma_usize_low_bits_mask_is_mod};
use vstd::arithmetic::div_mod::{lemma_fundamental_div_mod, lemma_mod_bound};

verus! {

/// `n` is a power of two.
pub open spec fn is_power_of_two(n: int) -> bool {
    exists|k: nat| pow2(k) == n
}

/// The least multiple of `align` that is not below `ptr`.
pub open spec fn align_up(ptr: int, align: int) -> int
    recommends
        align > 0,
{
    if ptr % align == 0 {
        ptr
    } else {
        ptr + (align - ptr % align)
    }
}

/// `ptr` is a multiple of `align`.
pub open spec fn is_aligned(ptr: int, align: int) -> bool {
    ptr % align == 0
}

/// The powers of two that a component layout uses.
pub proof fn lemma_small_powers_of_two()
    ensures
        is_power_of_two(1),
        is_power_of_two(2),
        is_power_of_two(4),
        is_power_of_two(8),
{
    lemma2_to64();
    assert(pow2(0) == 1);
    assert(pow2(1) == 2);
    assert(pow2(2) == 4);
    assert(pow2(3) == 8);
}

/// A power of two is positive.
pub proof fn lemma_power_of_two_positive(n: int)
    requires
        is_power_of_two(n),
    ensures
        n > 0,
{
    let k = choose|k: nat| pow2(k) == n;
    lemma_pow2_pos(k);
}

proof fn lemma_round_down_by_mod(q: int, a: int)
    requires
        a > 0,
        q >= a - 1,
    ensures
        q - q % a == align_up(q - (a - 1), a),
{
    let p = q - (a - 1);
    lemma_fundamental_div_mod(q, a);
    lemma_fundamental_div_mod(p, a);
    lemma_mod_bound(q, a);
    lemma_mod_bound(p, a);
    assert(q - q % a == a * (q / a));
    assert(p == a * (p / a) + p % a);
    if p % a == 0 {
        // q = a * (p / a) + (a - 1), so q / a == p / a
        assert(q == a * (p / a) + (a - 1));
        vstd::arithmetic::div_mod::lemma_fundamental_div_mod_converse(q, a, p / a, a - 1);
    } else {
        // q = a * (p / a + 1) + (p % a - 1)
        assert(q == a * (p / a + 1) + (p % a - 1)) by (nonlinear_arith)
            requires
                q == p + (a - 1),
                p == a * (p / a) + p % a,
        ;
        vstd::arithmetic::div_mod::lemma_fundamental_div_mod_converse(q, a, p / a + 1, p % a - 1);
        assert(a * (p / a + 1) == a * (p / a) + a) by (nonlinear_arith);
    }
}

/// Rounds `ptr` up to the next multiple of `align`, a power of two.
///
/// The mask formula only aligns for powers of two, so other alignments are
/// not accepted; nor is a `ptr` where rounding up would pass `usize::MAX`.
pub fn align_to(ptr: usize, align: usize) -> (r: usize)
    requires
        is_power_of_two(align as int),
        ptr + align - 1 <= usize::MAX,
    ensures
        r == align_up(ptr as int, align as int),
{
    let ghost k: nat = choose|k: nat| pow2(k) == align as int;
    proof {
        lemma_pow2_pos(k);
        if k >= usize::BITS {
            lemma2_to64();
            if k > usize::BITS {
                lemma_pow2_strictly_increases(usize::BITS as nat, k);
            }
            assert(pow2(usize::BITS as nat) == usize::MAX + 1);
            assert(false);
        }
    }
    let m: usize = align - 1;
    let q: usize = ptr + m;
    let r = q & !m;
    proof {
        lemma_usize_low_bits_mask_is_mod(q, k);
        assert(low_bits_mask(k) == m);
        assert(q & m == q % align);
        assert(q & !m == q - (q & m)) by (bit_vector);
        lemma_round_down_by_mod(q as int, align as int);
    }
    r
}

/// Rounding up to an alignment: the result is aligned, is the nearest such
/// point at or above `ptr`, leaves an aligned pointer where it is, and rounding
/// twice changes nothing.
pub proof fn lemma_align_up(ptr: int, align: int)
    requires
        align > 0,
    ensures
        is_aligned(align_up(ptr, align), align),
        ptr <= align_up(ptr, align) < ptr + align,
        is_aligned(ptr, align) ==> align_up(ptr, align) == ptr,
        align_up(align_up(ptr, align), align) == align_up(ptr, align),
{
    lemma_mod_bound(ptr, align);
    if ptr % align != 0 {
        lemma_fundamental_div_mod(ptr, align);
        let r = ptr + (align - ptr % align);
        assert(r == align * (ptr / align + 1)) by (nonlinear_arith)
            requires
                r == ptr + (align - ptr % align),
                ptr == align * (ptr / align) + ptr % align,
        ;
        vstd::arithmetic::div_mod::lemma_fundamental_div_mod_converse(r, align, ptr / align + 1, 0);
    }
}

} // verus!
