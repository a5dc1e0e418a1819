//! Bits that stand for the bytes of a text of at most 128 bytes.

use vstd::arithmetic::div_mod::lemma_div_denominator;
use vstd::arithmetic::power2::{lemma_pow2_adds, lemma_pow2_pos, pow2};
use vstd::bits::lemma_u128_shr_is_div;
use vstd::prelude::*;

verus! {

/// The lowest `n` bits set.
pub open spec fn low_bits(n: u128) -> u128 {
    if n >= 128 {
        u128::MAX
    } else {
        ((1u128 << n) - 1) as u128
    }
}

/// The bits of `bits` that stand for the `len` bytes from byte `from` on.
pub open spec fn clip_bits(bits: u128, from: int, len: int) -> u128 {
    (bits >> (from as u128)) & low_bits(len as u128)
}

/// Bit `i` of `bits` is set.
pub open spec fn bit_set(bits: u128, i: int) -> bool {
    (bits >> (i as u128)) & 1 == 1
}

/// The bits of `bits` that stand for the `len` bytes from byte `from` on.
pub fn clip(bits: u128, from: usize, len: usize) -> (clipped: u128)
    requires
        from < 128,
    ensures
        clipped == clip_bits(bits, from as int, len as int),
{
    let mask: u128 = if len >= 128 {
        u128::MAX
    } else {
        let n: u128 = len as u128;
        assert(1u128 << n >= 1) by (bit_vector)
            requires
                n < 128,
        ;
        (1u128 << n) - 1
    };
    (bits >> (from as u128)) & mask
}

proof fn lemma_shift_twice(bits: u128, a: u128, b: u128)
    requires
        a + b < 128,
    ensures
        (bits >> a) >> b == bits >> ((a + b) as u128),
{
    let ab = (a + b) as u128;
    lemma_u128_shr_is_div(bits, a);
    lemma_u128_shr_is_div(bits >> a, b);
    lemma_u128_shr_is_div(bits, ab);
    lemma_pow2_pos(a as nat);
    lemma_pow2_pos(b as nat);
    lemma_pow2_adds(a as nat, b as nat);
    lemma_div_denominator(bits as int, pow2(a as nat) as int, pow2(b as nat) as int);
}

#[verifier::rlimit(100)]
proof fn lemma_shift_of_and(x: u128, y: u128, b: u128)
    ensures
        (x & y) >> b == (x >> b) & (y >> b),
{
    assert((x & y) >> b == (x >> b) & (y >> b)) by (bit_vector);
}

/// Clipping twice is clipping once.
pub proof fn lemma_clip_twice(bits: u128, a: int, n: int, b: int, m: int)
    requires
        0 <= a,
        a + n <= 128,
        0 <= b,
        0 < m,
        b + m <= n,
    ensures
        clip_bits(clip_bits(bits, a, n), b, m) == clip_bits(bits, a + b, m),
{
    let (a, n, b, m) = (a as u128, n as u128, b as u128, m as u128);
    let shifted = bits >> a;
    let (low_n, low_m) = (low_bits(n), low_bits(m));
    lemma_shift_twice(bits, a, b);
    lemma_shift_of_and(shifted, low_n, b);
    assert((low_n >> b) & low_m == low_m) by {
        if m == 128 {
            assert((u128::MAX >> 0) & u128::MAX == u128::MAX) by (bit_vector);
        } else if n == 128 {
            assert((u128::MAX >> b) & (((1u128 << m) - 1) as u128) == (((1u128 << m) - 1) as u128))
                by (bit_vector)
                requires
                    b + m <= 128,
                    m < 128,
            ;
        } else {
            assert(((((1u128 << n) - 1) as u128) >> b) & (((1u128 << m) - 1) as u128) == (((1u128
                << m) - 1) as u128)) by (bit_vector)
                requires
                    b + m <= n,
                    n < 128,
            ;
        }
    }
    let x = shifted >> b;
    let y = low_n >> b;
    assert((x & y) & low_m == x & (y & low_m)) by (bit_vector);
}

/// Clipping moves the bits down and drops those of the bytes left out.
pub proof fn lemma_clip_bit(bits: u128, from: int, len: int, i: int)
    requires
        0 <= from,
        0 <= i < len,
        from + len <= 128,
    ensures
        bit_set(clip_bits(bits, from, len), i) == bit_set(bits, from + i),
{
    let (a, n, b) = (from as u128, len as u128, i as u128);
    let shifted = bits >> a;
    let low_n = low_bits(n);
    lemma_shift_twice(bits, a, b);
    lemma_shift_of_and(shifted, low_n, b);
    assert((low_n >> b) & 1 == 1) by {
        if n == 128 {
            assert((u128::MAX >> b) & 1 == 1) by (bit_vector)
                requires
                    b < 128,
            ;
        } else {
            assert(((((1u128 << n) - 1) as u128) >> b) & 1 == 1) by (bit_vector)
                requires
                    b < n,
                    n < 128,
            ;
        }
    }
    let x = shifted >> b;
    let y = low_n >> b;
    assert(y & 1 == 1 ==> (x & y) & 1 == x & 1) by (bit_vector);
}

/// A clipped bit is set if it stands for one of the bytes that are left and the bit of that
/// byte was set.
pub proof fn law_clip_bits(bits: u128, from: int, len: int, i: int)
    requires
        0 <= from,
        0 <= len,
        from + len <= 128,
        0 <= i < 128,
    ensures
        (clip_bits(bits, from, len) >> (i as u128)) & 1 == 1 <==> i < len && (bits >> ((from
            + i) as u128)) & 1 == 1,
{
    if i < len {
        lemma_clip_bit(bits, from, len, i);
    } else {
        let x = bits >> (from as u128);
        let n = len as u128;
        let k = i as u128;
        assert((x & ((1u128 << n) - 1) as u128) >> k & 1 == 0) by (bit_vector)
            requires
                n <= k < 128,
        ;
    }
}

} // verus!
