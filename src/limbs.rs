//! 32-bit limbs as place-value sums of bits, and the facts that connect the
//! sums to bit extraction.
use vstd::prelude::*;

verus! {

pub open spec fn two_pow(n: nat) -> nat
    decreases n,
{
    if n == 0 {
        1
    } else {
        2 * two_pow((n - 1) as nat)
    }
}

pub open spec fn bit_nat(b: bool) -> nat {
    if b {
        1
    } else {
        0
    }
}

/// The place-value sum of the bits `f(lo), ..., f(hi - 1)`, with `f(lo)` least
/// significant.
pub open spec fn bits_value(f: spec_fn(int) -> bool, lo: int, hi: int) -> nat
    decreases hi - lo,
{
    if lo >= hi {
        0
    } else {
        bit_nat(f(lo)) + 2 * bits_value(f, lo + 1, hi)
    }
}

/// Bit `k` of a 32-bit limb held in a `u64` (the value is first cut to 32 bits).
pub open spec fn limb_bit(v: u64, k: int) -> bool {
    ((v as u32) >> (k as u32)) & 1 == 1
}

pub proof fn lemma_two_pow_32()
    ensures
        two_pow(32) == 0x1_0000_0000,
{
    reveal_with_fuel(two_pow, 33);
}

pub proof fn lemma_bits_value_bound(f: spec_fn(int) -> bool, lo: int, hi: int)
    requires
        lo <= hi,
    ensures
        bits_value(f, lo, hi) < two_pow((hi - lo) as nat),
    decreases hi - lo,
{
    if lo < hi {
        lemma_bits_value_bound(f, lo + 1, hi);
    }
}

/// A 32-bit limb sum fits in 32 bits.
pub proof fn lemma_limb_bound(f: spec_fn(int) -> bool, lo: int)
    requires
        0 <= lo <= 32,
    ensures
        bits_value(f, lo, 32) < 0x1_0000_0000,
    decreases 32 - lo,
{
    lemma_bits_value_bound(f, lo, 32);
    lemma_two_pow_32();
    if lo > 0 {
        lemma_two_pow_mono((32 - lo) as nat, 32);
    }
}

pub proof fn lemma_two_pow_mono(a: nat, b: nat)
    requires
        a <= b,
    ensures
        two_pow(a) <= two_pow(b),
    decreases b,
{
    if a < b {
        lemma_two_pow_mono(a, (b - 1) as nat);
    }
}

/// Sums over two functions that agree on the range are equal.
pub proof fn lemma_bits_value_congruent(f: spec_fn(int) -> bool, g: spec_fn(int) -> bool, lo: int, hi: int)
    requires
        forall|z: int| lo <= z < hi ==> #[trigger] f(z) == g(z),
    ensures
        bits_value(f, lo, hi) == bits_value(g, lo, hi),
    decreases hi - lo,
{
    if lo < hi {
        lemma_bits_value_congruent(f, g, lo + 1, hi);
    }
}

proof fn lemma_step_low(v: u32, w: u32, b: u32)
    requires
        b <= 1,
        w < 0x8000_0000,
        v == b + 2 * w,
    ensures
        (v >> 0u32) & 1 == b,
{
    assert((v >> 0u32) & 1 == b) by (bit_vector)
        requires
            b <= 1,
            w < 0x8000_0000,
            v == b + 2 * w,
    ;
}

proof fn lemma_step_shift(v: u32, w: u32, b: u32, s: u32)
    requires
        b <= 1,
        w < 0x8000_0000,
        v == b + 2 * w,
        1 <= s < 32,
    ensures
        v >> s == w >> ((s - 1) as u32),
{
    assert(v >> s == w >> ((s - 1) as u32)) by (bit_vector)
        requires
            b <= 1,
            w < 0x8000_0000,
            v == b + 2 * w,
            1 <= s < 32,
    ;
}

/// Bit `k - lo` of the sum of `f(lo), ..., f(31)` is `f(k)`.
pub proof fn lemma_limb_bit_of_value(f: spec_fn(int) -> bool, lo: int, k: int)
    requires
        0 <= lo <= k < 32,
    ensures
        ((bits_value(f, lo, 32) as u32) >> ((k - lo) as u32)) & 1 == 1 <==> f(k),
    decreases k - lo,
{
    let v = bits_value(f, lo, 32) as u32;
    let w = bits_value(f, lo + 1, 32) as u32;
    let b = bit_nat(f(lo)) as u32;
    lemma_limb_bound(f, lo);
    lemma_limb_bound(f, lo + 1);
    lemma_bits_value_bound(f, lo + 1, 32);
    lemma_two_pow_32();
    lemma_two_pow_mono((32 - (lo + 1)) as nat, 31);
    reveal_with_fuel(two_pow, 2);
    assert(two_pow(32) == 2 * two_pow(31));
    assert(w < 0x8000_0000);
    assert(v == b + 2 * w);
    if k == lo {
        lemma_step_low(v, w, b);
    } else {
        lemma_step_shift(v, w, b, (k - lo) as u32);
        lemma_limb_bit_of_value(f, lo + 1, k);
    }
}

/// Bit `k` of a limb sum over `0..32` is `f(k)`.
pub proof fn lemma_limb_bit(f: spec_fn(int) -> bool, k: int)
    requires
        0 <= k < 32,
    ensures
        limb_bit(bits_value(f, 0, 32) as u64, k) == f(k),
{
    lemma_limb_bound(f, 0);
    lemma_limb_bit_of_value(f, 0, k);
}

proof fn lemma_split_bits(v: u32, s: u32)
    requires
        s < 31,
    ensures
        v >> s == ((v >> s) & 1) + 2 * (v >> ((s + 1) as u32)),
        (v >> s) & 1 <= 1,
{
    assert((v >> s) & 1 <= 1) by (bit_vector);
    assert(v >> s == ((v >> s) & 1) + 2 * (v >> ((s + 1) as u32))) by (bit_vector)
        requires
            s < 31,
    ;
}

/// A 32-bit value shifted right by `lo` is the sum of its bits from `lo` up.
pub proof fn lemma_value_of_bits(v: u32, lo: int)
    requires
        0 <= lo < 32,
    ensures
        bits_value(|z: int| limb_bit(v as u64, z), lo, 32) == (v >> (lo as u32)) as nat,
    decreases 32 - lo,
{
    let f = |z: int| limb_bit(v as u64, z);
    assert((v as u64) as u32 == v);
    if lo < 31 {
        lemma_value_of_bits(v, lo + 1);
        lemma_split_bits(v, lo as u32);
    } else {
        assert(v >> 31u32 == (v >> 31u32) & 1 && (v >> 31u32) & 1 <= 1) by (bit_vector);
        assert(bits_value(f, 32, 32) == 0);
    }
}

/// A 32-bit value is the sum of its own bits.
pub proof fn lemma_limb_of_bits(v: u32)
    ensures
        bits_value(|z: int| limb_bit(v as u64, z), 0, 32) == v as nat,
{
    lemma_value_of_bits(v, 0);
    assert(v >> 0u32 == v) by (bit_vector);
}

} // verus!
