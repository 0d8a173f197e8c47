//! Address field arithmetic.
//!
//! A byte address splits into three fields: the low `offset_len` bits select
//! a byte within a cache line, the next `index_len` bits select a set, and
//! the following `tag_len` bits form the line's tag.  Bits above the three
//! fields are discarded (the geometry's finite precision), so distinct
//! physical addresses may alias to the same simulated line.
//!
//! The specification level works with `nat` division and remainders by
//! powers of two; the executable level uses shifts and masks and is proved
//! equal to the specification.

use vstd::arithmetic::div_mod::{
    lemma_basic_div,
    lemma_div_denominator,
    lemma_mod_division_less_than_divisor,
    lemma_small_mod,
};
use vstd::arithmetic::power2::{
    lemma2_to64,
    lemma2_to64_rest,
    lemma_pow2_pos,
    lemma_pow2_strictly_increases,
    pow2,
};
use vstd::bits::{
    lemma_u64_low_bits_mask_is_mod,
    lemma_u64_pow2_no_overflow,
    lemma_u64_shl_is_mul,
    lemma_u64_shr_is_div,
    low_bits_mask,
};
use vstd::prelude::*;

verus! {

/// The address as the geometry sees it: everything above the three
/// configured fields is cut off.
pub open spec fn masked_addr(address: u64, width: nat) -> nat {
    address as nat % pow2(width)
}

/// The cache line a (masked) address falls into.
pub open spec fn line_of(a: nat, offset_len: nat) -> nat {
    a / pow2(offset_len)
}

/// The set selected by a (masked) address.
pub open spec fn index_field(a: nat, offset_len: nat, index_len: nat) -> nat {
    line_of(a, offset_len) % pow2(index_len)
}

/// The tag of the line a (masked) address falls into.
pub open spec fn tag_field(a: nat, offset_len: nat, index_len: nat, tag_len: nat) -> nat {
    (line_of(a, offset_len) / pow2(index_len)) % pow2(tag_len)
}

/// Bytes from a (masked) address to the end of its cache line.
pub open spec fn line_remainder(a: nat, offset_len: nat) -> nat {
    (pow2(offset_len) - a % pow2(offset_len)) as nat
}

/// `pow2(64)` written out, so callers can relate `u64` values to field
/// arithmetic.
pub proof fn lemma_pow2_64()
    ensures
        pow2(64) == 0x1_0000_0000_0000_0000,
{
    lemma2_to64_rest();
}

/// The mask selecting the low `n` bits of a 64-bit value.
pub fn low_mask(n: usize) -> (r: u64)
    requires
        n <= 64,
    ensures
        r == low_bits_mask(n as nat),
        r == pow2(n as nat) - 1,
{
    proof {
        lemma_pow2_64();
    }
    if n == 64 {
        u64::MAX
    } else {
        proof {
            lemma_u64_pow2_no_overflow(n as nat);
            lemma_u64_shl_is_mul(1u64, n as u64);
        }
        (1u64 << (n as u64)) - 1
    }
}

/// Right shift as division, total for any shift amount.
pub fn shift_down(x: u64, n: usize) -> (r: u64)
    ensures
        r == x as nat / pow2(n as nat),
{
    if n >= 64 {
        proof {
            lemma_pow2_64();
            if n > 64 {
                lemma_pow2_strictly_increases(64, n as nat);
            }
            lemma_basic_div(x as int, pow2(n as nat) as int);
        }
        0u64
    } else {
        proof {
            lemma_u64_shr_is_div(x, n as u64);
        }
        x >> (n as u64)
    }
}

/// Keep the low `n` bits of `x`: the remainder modulo `pow2(n)`.
pub fn keep_low(x: u64, n: usize) -> (r: u64)
    requires
        n <= 64,
    ensures
        r == x as nat % pow2(n as nat),
{
    let m = low_mask(n);
    proof {
        if n < 64 {
            lemma_u64_pow2_no_overflow(n as nat);
            lemma_u64_low_bits_mask_is_mod(x, n as nat);
            assert(m == low_bits_mask(n as nat) as u64);
            assert(x & m == x as nat % pow2(n as nat));
        } else {
            lemma_pow2_64();
            assert(m == 0xffff_ffff_ffff_ffffu64);
            assert(x & 0xffff_ffff_ffff_ffffu64 == x) by (bit_vector);
            lemma_small_mod(x as nat, pow2(64));
        }
    }
    x & m
}

/// A remainder is below its (power-of-two) modulus.
pub proof fn lemma_mod_pow2_bound(x: nat, n: nat)
    ensures
        x % pow2(n) < pow2(n),
{
    lemma_pow2_pos(n);
    lemma_mod_division_less_than_divisor(x as int, pow2(n) as int);
}

/// With no tag bits, every address collapses to tag zero: addresses that
/// map to the same set are treated as the same cache line, whatever their
/// true upper bits.
pub proof fn lemma_tag_len_zero(a: nat, offset_len: nat, index_len: nat)
    ensures
        tag_field(a, offset_len, index_len, 0) == 0,
{
    lemma2_to64();
    let x = line_of(a, offset_len) / pow2(index_len);
    lemma_mod_division_less_than_divisor(x as int, 1);
}

/// Dividing by `pow2(a)` and then `pow2(b)` is dividing by `pow2(a + b)`.
pub proof fn lemma_pow2_div_twice(x: nat, a: nat, b: nat)
    ensures
        x / pow2(a) / pow2(b) == x / pow2(a + b),
{
    lemma_pow2_pos(a);
    lemma_pow2_pos(b);
    lemma_div_denominator(x as int, pow2(a) as int, pow2(b) as int);
    vstd::arithmetic::power2::lemma_pow2_adds(a, b);
}

} // verus!
