//! Index arithmetic of a power-of-two ring addressed by wrapping 64-bit
//! positions.

use vstd::prelude::*;
use vstd::arithmetic::div_mod::{
    lemma_fundamental_div_mod, lemma_mod_multiples_vanish, lemma_small_mod,
};
use vstd::arithmetic::power::pow;
use vstd::arithmetic::power2::{
    is_pow2, is_pow2_equiv, is_pow2_exists, lemma2_to64_rest, lemma_pow2_adds, lemma_pow2_pos,
    lemma_pow2_strictly_increases, pow2,
};
use vstd::bits::{lemma_u64_low_bits_mask_is_mod, low_bits_mask};

verus! {

/// The bit test for a power of two, on a 64-bit value.
pub open spec fn single_bit(n: u64) -> bool {
    n > 0 && n & ((n - 1) as u64) == 0
}

/// `v` folded back into `0..n`, for a `v` below `2 * n`.
pub open spec fn wrap_once(v: int, n: int) -> int {
    if v < n {
        v
    } else {
        v - n
    }
}

/// The bit test decides exactly the powers of two.
pub proof fn lemma_single_bit_is_pow2(n: u64)
    ensures
        single_bit(n) <==> is_pow2(n as int),
    decreases n,
{
    reveal(is_pow2);
    if n > 1 {
        let h: u64 = n / 2;
        assert(single_bit(n) <==> (n % 2 == 0 && single_bit(h))) by (bit_vector)
            requires
                n > 1,
                h == n / 2,
        ;
        lemma_single_bit_is_pow2(h);
    } else if n == 1 {
        assert(1u64 & 0u64 == 0) by (bit_vector);
    }
}

/// A power of two that fits in 64 bits has an exponent below 64.
pub proof fn lemma_pow2_exponent(n: u64) -> (k: nat)
    requires
        is_pow2(n as int),
    ensures
        k < 64,
        pow2(k) == n,
{
    is_pow2_equiv(n as int);
    assert(is_pow2_exists(n as int));
    let k = choose|i: nat| pow(2, i) == n as int;
    if k >= 64 {
        lemma2_to64_rest();
        if k > 64 {
            lemma_pow2_strictly_increases(64, k);
        }
        assert(pow2(k) >= 0x1_0000_0000_0000_0000);
    }
    k
}

/// Masking with `n - 1` is reduction modulo `n` when `n` is a power of two.
pub proof fn lemma_mask_is_mod(x: u64, n: u64)
    requires
        is_pow2(n as int),
    ensures
        x & ((n - 1) as u64) == x % n,
{
    let k = lemma_pow2_exponent(n);
    lemma_pow2_pos(k);
    lemma_u64_low_bits_mask_is_mod(x, k);
    assert(low_bits_mask(k) == n - 1);
}

/// A power of two that fits in 64 bits divides `2^64`.
pub proof fn lemma_pow2_divides_range(n: u64) -> (q: int)
    requires
        is_pow2(n as int),
    ensures
        q > 0,
        n * q == 0x1_0000_0000_0000_0000,
{
    let k = lemma_pow2_exponent(n);
    let r = (64 - k) as nat;
    lemma_pow2_adds(k, r);
    lemma_pow2_pos(r);
    lemma2_to64_rest();
    pow2(r) as int
}

/// Advancing a wrapping 64-bit position by `d <= n` moves its slot in a
/// ring of `n` bytes forward by `d`, folding at most once.
pub proof fn lemma_slot_advance(x: u64, d: u64, n: u64)
    requires
        is_pow2(n as int),
        d <= n,
    ensures
        0 <= (x % n) < n,
        (x.wrapping_add(d) % n) as int == wrap_once((x % n) + d, n as int),
{
    let q = lemma_pow2_divides_range(n);
    let w = x.wrapping_add(d);
    let s = (x % n) as int;
    let ni = n as int;
    // w is x + d, less a multiple of n
    assert(w as int % ni == (x + d) % ni) by {
        if x + d > u64::MAX {
            assert(w as int == ni * (-q) + (x + d)) by (nonlinear_arith)
                requires
                    w as int == x + d - 0x1_0000_0000_0000_0000,
                    ni * q == 0x1_0000_0000_0000_0000,
            ;
            lemma_mod_multiples_vanish(-q, x + d, ni);
        }
    }
    // x is its slot, plus a multiple of n
    lemma_fundamental_div_mod(x as int, ni);
    lemma_mod_multiples_vanish(x as int / ni, s + d, ni);
    assert((x + d) % ni == (s + d) % ni) by {
        assert(ni * (x as int / ni) + (s + d) == x + d);
    }
    if s + d < ni {
        lemma_small_mod((s + d) as nat, ni as nat);
    } else {
        lemma_mod_multiples_vanish(-1, s + d, ni);
        assert(ni * (-1) + (s + d) == s + d - ni);
        lemma_small_mod((s + d - ni) as nat, ni as nat);
    }
}

} // verus!
