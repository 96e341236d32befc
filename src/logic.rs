//! Bitwise gadgets over field-encoded bits: the plain forms on bits that trace
//! generation uses, and the polynomial forms that the constraints use.
use crate::field::{lemma_mod_shift, b2f, f_add, f_mul, f_sub, fadd, fmul, fsub, ORDER};
use crate::limbs::limb_bit;
use crate::permutation::xor as bxor;
use vstd::prelude::*;

verus! {

/// XOR of two bits.
pub fn xor(a: u64, b: u64) -> (r: u64)
    requires
        a <= 1,
        b <= 1,
    ensures
        r == b2f(bxor(a == 1, b == 1)),
{
    if a == b {
        0
    } else {
        1
    }
}

/// `(!a) & b` on two bits.
pub fn andn(a: u64, b: u64) -> (r: u64)
    requires
        a <= 1,
        b <= 1,
    ensures
        r == b2f(!(a == 1) && b == 1),
{
    if a == 0 {
        b
    } else {
        0
    }
}

/// Bit `k` of a 32-bit limb held in a `u64`, as 0 or 1.
pub fn limb_bit_of(v: u64, k: usize) -> (r: u64)
    requires
        k < 32,
    ensures
        r == b2f(limb_bit(v, k as int)),
{
    let t: u32 = ((v as u32) >> (k as u32)) & 1;
    assert(t <= 1) by (bit_vector)
        requires
            t == ((v as u32) >> (k as u32)) & 1,
    ;
    t as u64
}

/// `x + y - 2xy`: the XOR of two bits, as a polynomial.
pub open spec fn xor_poly(x: int, y: int) -> int {
    fsub(fadd(x, y), fmul(x, fadd(y, y)))
}

/// `x ^ y ^ z` as a polynomial.
pub open spec fn xor3_poly(x: int, y: int, z: int) -> int {
    xor_poly(x, xor_poly(y, z))
}

/// `(1 - x) y`: `(!x) & y` as a polynomial.
pub open spec fn andn_poly(x: int, y: int) -> int {
    fmul(fsub(1, x), y)
}

pub fn xor_gen(x: u64, y: u64) -> (r: u64)
    requires
        x < ORDER,
        y < ORDER,
    ensures
        r == xor_poly(x as int, y as int),
        r < ORDER,
{
    let s = f_add(x, y);
    let d = f_add(y, y);
    let p = f_mul(x, d);
    f_sub(s, p)
}

pub fn xor3_gen(x: u64, y: u64, z: u64) -> (r: u64)
    requires
        x < ORDER,
        y < ORDER,
        z < ORDER,
    ensures
        r == xor3_poly(x as int, y as int, z as int),
        r < ORDER,
{
    let t = xor_gen(y, z);
    xor_gen(x, t)
}

pub fn andn_gen(x: u64, y: u64) -> (r: u64)
    requires
        x < ORDER,
        y < ORDER,
    ensures
        r == andn_poly(x as int, y as int),
        r < ORDER,
{
    let n = f_sub(1, x);
    f_mul(n, y)
}

/// On bits, the polynomial forms agree with the boolean gadgets.
pub proof fn lemma_poly_gadgets_on_bits(a: bool, b: bool, c: bool)
    ensures
        xor_poly(b2f(a) as int, b2f(b) as int) == b2f(bxor(a, b)) as int,
        xor3_poly(b2f(a) as int, b2f(b) as int, b2f(c) as int) == b2f(bxor(a, bxor(b, c))) as int,
        andn_poly(b2f(a) as int, b2f(b) as int) == b2f(!a && b) as int,
{
    lemma_xor_poly_table();
    lemma_andn_poly_table();
}

proof fn lemma_xor_poly_table()
    ensures
        xor_poly(0, 0) == 0,
        xor_poly(0, 1) == 1,
        xor_poly(1, 0) == 1,
        xor_poly(1, 1) == 0,
{
    lemma_mod_shift(0, 0);
    lemma_mod_shift(1, 0);
    lemma_mod_shift(2, 0);
    assert(fadd(0, 0) == 0);
    assert(fadd(1, 1) == 2);
    assert(fadd(0, 1) == 1);
    assert(fadd(1, 0) == 1);
    assert(fmul(0, 0) == 0);
    assert(fmul(0, 2) == 0);
    assert(fmul(1, 0) == 0);
    assert(fmul(1, 2) == 2);
    assert(fsub(0, 0) == 0);
    assert(fsub(1, 0) == 1);
    assert(fsub(2, 2) == 0);
}

proof fn lemma_andn_poly_table()
    ensures
        andn_poly(0, 0) == 0,
        andn_poly(0, 1) == 1,
        andn_poly(1, 0) == 0,
        andn_poly(1, 1) == 0,
{
    lemma_mod_shift(0, 0);
    lemma_mod_shift(1, 0);
    assert(fsub(1, 0) == 1);
    assert(fsub(1, 1) == 0);
    assert(fmul(1, 0) == 0);
    assert(fmul(1, 1) == 1);
    assert(fmul(0, 0) == 0);
    assert(fmul(0, 1) == 0);
}

} // verus!
