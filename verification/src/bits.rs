//! Facts about powers of two and the width of machine words.
use vstd::arithmetic::power::pow;
use vstd::arithmetic::power2::{is_pow2, pow2};
use vstd::prelude::*;

verus! {

/// The number of values that fit in a `usize`.
pub open spec fn usize_span() -> int {
    usize::MAX + 1
}

/// The exponent of a power of two that fits in a word is smaller than the width of the word.
proof fn lemma_exponent(capacity: usize) -> (e: nat)
    requires
        is_pow2(capacity as int),
    ensures
        capacity > 0,
        pow2(e) == capacity,
        e < usize::BITS,
{
    vstd::arithmetic::power2::is_pow2_equiv(capacity as int);
    let e = choose|e: nat| pow(2, e) == capacity as int;
    assert(pow2(e) == capacity);
    vstd::arithmetic::power2::lemma_pow2_pos(e);
    if e >= usize::BITS as nat {
        if e > usize::BITS as nat {
            vstd::arithmetic::power2::lemma_pow2_strictly_increases(usize::BITS as nat, e);
        }
        vstd::arithmetic::power2::lemma2_to64();
        vstd::arithmetic::power2::lemma2_to64_rest();
        assert(false);
    }
    e
}

/// Masking with one less than a power of two takes the remainder.
pub proof fn lemma_mask_is_remainder(x: usize, capacity: usize)
    requires
        is_pow2(capacity as int),
    ensures
        capacity > 0,
        x & ((capacity - 1) as usize) == x % capacity,
{
    let e = lemma_exponent(capacity);
    vstd::bits::lemma_usize_low_bits_mask_is_mod(x, e);
    assert(vstd::bits::low_bits_mask(e) == capacity - 1);
}

/// A power of two that fits in a word divides every larger power of two.
proof fn lemma_divides(capacity: usize, e: nat)
    requires
        is_pow2(capacity as int),
        usize::BITS <= e + 1,
    ensures
        pow2(e) % (capacity as nat) == 0,
{
    let c = lemma_exponent(capacity);
    vstd::arithmetic::power2::lemma_pow2_adds(c, (e - c) as nat);
    vstd::arithmetic::div_mod::lemma_mod_multiples_basic(pow2((e - c) as nat) as int, capacity as int);
    vstd::arithmetic::mul::lemma_mul_is_commutative(pow2(c) as int, pow2((e - c) as nat) as int);
}

/// A power of two that fits in a word divides 2^63 and the number of words.
pub proof fn lemma_power_divides(capacity: usize)
    requires
        is_pow2(capacity as int),
    ensures
        capacity > 0,
        0x8000_0000_0000_0000int % (capacity as int) == 0,
        usize_span() % (capacity as int) == 0,
{
    let c = lemma_exponent(capacity);
    vstd::arithmetic::power2::lemma2_to64();
    vstd::arithmetic::power2::lemma2_to64_rest();
    lemma_divides(capacity, 63);
    lemma_divides(capacity, usize::BITS as nat);
}

/// Casting to `usize` keeps the remainder modulo the number of words.
pub proof fn lemma_truncation(x: u64)
    ensures
        x as usize as int == x as int % usize_span(),
{
    if usize::BITS == 32 {
        assert(usize::MAX == 0xffff_ffff);
        assert((x as usize) as u64 == x % 0x1_0000_0000) by (bit_vector)
            requires
                usize::BITS == 32,
        ;
    } else {
        assert(usize::MAX == 0xffff_ffff_ffff_ffff);
        vstd::arithmetic::div_mod::lemma_small_mod(x as nat, usize_span() as nat);
    }
}

/// The remainder of a remainder is the remainder, where the one modulus divides the other.
pub proof fn lemma_remainder_of_remainder(x: int, large: int, small: int)
    requires
        large > 0,
        small > 0,
        large % small == 0,
    ensures
        (x % large) % small == x % small,
{
    let q = large / small;
    vstd::arithmetic::div_mod::lemma_fundamental_div_mod(large, small);
    assert(large == small * q);
    assert(q > 0) by (nonlinear_arith)
        requires
            large == small * q,
            large > 0,
            small > 0,
    ;
    vstd::arithmetic::div_mod::lemma_mod_mod(x, small, q);
}

/// Casting to `usize` keeps the remainder modulo a power of two.
pub proof fn lemma_truncation_keeps_remainder(x: u64, capacity: usize)
    requires
        is_pow2(capacity as int),
    ensures
        capacity > 0,
        (x as usize as int) % (capacity as int) == (x as int) % (capacity as int),
{
    lemma_power_divides(capacity);
    lemma_truncation(x);
    lemma_remainder_of_remainder(x as int, usize_span(), capacity as int);
}

} // verus!
