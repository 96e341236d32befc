//! Arithmetic in the Goldilocks prime field, whose elements are held as
//! canonical `u64` values (below the field order).
use vstd::arithmetic::div_mod::lemma_fundamental_div_mod_converse;
use vstd::prelude::*;

verus! {

/// The order of the Goldilocks field, 2^64 - 2^32 + 1.
pub const ORDER: u64 = 0xFFFF_FFFF_0000_0001;

pub open spec fn order() -> int {
    ORDER as int
}

/// A value that is a canonical field element.
pub open spec fn is_elem(v: int) -> bool {
    0 <= v < order()
}

pub open spec fn fadd(a: int, b: int) -> int {
    (a + b) % order()
}

pub open spec fn fsub(a: int, b: int) -> int {
    (a - b) % order()
}

pub open spec fn fmul(a: int, b: int) -> int {
    (a * b) % order()
}

/// The field encoding of a boolean: one for true, zero for false.
pub open spec fn b2f(b: bool) -> u64 {
    if b {
        1u64
    } else {
        0u64
    }
}

/// `x` reduced modulo the field order, where `x` lies `k` orders above the canonical range.
pub proof fn lemma_mod_shift(x: int, k: int)
    requires
        0 <= x - k * order() < order(),
    ensures
        x % order() == x - k * order(),
{
    lemma_fundamental_div_mod_converse(x, order(), k, x - k * order());
}

/// Sum of two field elements.
pub fn f_add(a: u64, b: u64) -> (r: u64)
    requires
        a < ORDER,
        b < ORDER,
    ensures
        r as int == fadd(a as int, b as int),
        r < ORDER,
{
    let s: u128 = a as u128 + b as u128;
    proof {
        if s >= ORDER as u128 {
            lemma_mod_shift(s as int, 1);
        } else {
            lemma_mod_shift(s as int, 0);
        }
    }
    if s >= ORDER as u128 {
        (s - ORDER as u128) as u64
    } else {
        s as u64
    }
}

/// Difference of two field elements.
pub fn f_sub(a: u64, b: u64) -> (r: u64)
    requires
        a < ORDER,
        b < ORDER,
    ensures
        r as int == fsub(a as int, b as int),
        r < ORDER,
{
    proof {
        if a >= b {
            lemma_mod_shift(a - b, 0);
        } else {
            lemma_mod_shift(a - b, -1);
        }
    }
    if a >= b {
        a - b
    } else {
        a + (ORDER - b)
    }
}

/// Product of two field elements.
pub fn f_mul(a: u64, b: u64) -> (r: u64)
    requires
        a < ORDER,
        b < ORDER,
    ensures
        r as int == fmul(a as int, b as int),
        r < ORDER,
{
    assert((a as int) * (b as int) < 0x1_0000_0000_0000_0000_0000_0000_0000_0000) by (nonlinear_arith)
        requires
            a < ORDER,
            b < ORDER,
    ;
    let p: u128 = (a as u128) * (b as u128);
    (p % (ORDER as u128)) as u64
}

} // verus!
