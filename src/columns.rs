//! Where each quantity of a round stands in a trace row.
use crate::permutation::{rho_offset, rho_spec, NUM_ROUNDS};
use vstd::prelude::*;

verus! {

/// Round one-hot flags occupy the first columns.
pub const REG_STEP: usize = 0;

/// Input lanes, `A[x, y]`, as low and high 32-bit limbs.
pub const REG_A: usize = 24;

/// Column parities, `C[x, z]`.
pub const REG_C: usize = 74;

/// Rotated column parities, `C'[x, z]`.
pub const REG_C_PRIME: usize = 394;

/// Theta output bits, `A'[x, y, z]`.
pub const REG_A_PRIME: usize = 714;

/// Chi output lanes, `A''[x, y]`, as low and high limbs.
pub const REG_A_PRIME_PRIME: usize = 2314;

/// The 64 bits of `A''[0, 0]`.
pub const REG_A_PRIME_PRIME_0_0_BITS: usize = 2364;

/// Iota output of lane `(0, 0)`, `A'''[0, 0]`, as low and high limbs.
pub const REG_A_PRIME_PRIME_PRIME_0_0_LO: usize = 2428;

/// The filter: one on the last row of a real permutation.
pub const REG_FILTER: usize = 2430;

/// Number of columns of a trace row.
pub const NUM_COLUMNS: usize = 2431;

/// Columns of a row that the pulse mechanism appends after the trace.
pub const NUM_PULSE_COLUMNS: usize = 5;

/// Number of columns of a row together with the pulse columns.
pub const COLUMNS: usize = 2436;

/// Number of public inputs: the limbs of the 25 output lanes.
pub const NUM_PUBLIC_INPUTS: usize = 50;

pub open spec fn col_step(r: int) -> int {
    r
}

pub open spec fn col_a(x: int, y: int) -> int {
    REG_A + (5 * y + x) * 2
}

pub open spec fn col_c(x: int, z: int) -> int {
    REG_C + 64 * x + z
}

pub open spec fn col_c_prime(x: int, z: int) -> int {
    REG_C_PRIME + 64 * x + z
}

pub open spec fn col_a_prime(x: int, y: int, z: int) -> int {
    REG_A_PRIME + 320 * y + 64 * x + z
}

/// `B[x, y, z]` is not stored: it is bit `z - r` of `A'[(x + 3y) % 5, x]`, where `r`
/// is that lane's rotation offset.
pub open spec fn col_b(x: int, y: int, z: int) -> int {
    let a = (x + 3 * y) % 5;
    col_a_prime(a, x, (z + 64 - rho_spec(a, x)) % 64)
}

pub open spec fn col_a_prime_prime(x: int, y: int) -> int {
    REG_A_PRIME_PRIME + 10 * y + 2 * x
}

pub open spec fn col_a_prime_prime_0_0_bit(i: int) -> int {
    REG_A_PRIME_PRIME_0_0_BITS + i
}

/// `A'''[x, y]` shares its columns with `A''[x, y]`, except for lane `(0, 0)`.
pub open spec fn col_a_prime_prime_prime(x: int, y: int) -> int {
    if x == 0 && y == 0 {
        REG_A_PRIME_PRIME_PRIME_0_0_LO as int
    } else {
        col_a_prime_prime(x, y)
    }
}

pub fn reg_step(r: usize) -> (c: usize)
    requires
        r < NUM_ROUNDS,
    ensures
        c == col_step(r as int),
{
    REG_STEP + r
}

pub fn reg_a(x: usize, y: usize) -> (c: usize)
    requires
        x < 5,
        y < 5,
    ensures
        c == col_a(x as int, y as int),
{
    REG_A + (5 * y + x) * 2
}

pub fn reg_c(x: usize, z: usize) -> (c: usize)
    requires
        x < 5,
        z < 64,
    ensures
        c == col_c(x as int, z as int),
{
    REG_C + 64 * x + z
}

pub fn reg_c_prime(x: usize, z: usize) -> (c: usize)
    requires
        x < 5,
        z < 64,
    ensures
        c == col_c_prime(x as int, z as int),
{
    REG_C_PRIME + 64 * x + z
}

pub fn reg_a_prime(x: usize, y: usize, z: usize) -> (c: usize)
    requires
        x < 5,
        y < 5,
        z < 64,
    ensures
        c == col_a_prime(x as int, y as int, z as int),
{
    REG_A_PRIME + 320 * y + 64 * x + z
}

pub fn reg_b(x: usize, y: usize, z: usize) -> (c: usize)
    requires
        x < 5,
        y < 5,
        z < 64,
    ensures
        c == col_b(x as int, y as int, z as int),
        REG_A_PRIME <= c < REG_A_PRIME_PRIME,
{
    let a = (x + 3 * y) % 5;
    let rot = rho_offset(a, x);
    reg_a_prime(a, x, (z + 64 - rot) % 64)
}

pub fn reg_a_prime_prime(x: usize, y: usize) -> (c: usize)
    requires
        x < 5,
        y < 5,
    ensures
        c == col_a_prime_prime(x as int, y as int),
{
    REG_A_PRIME_PRIME + 10 * y + 2 * x
}

pub fn reg_a_prime_prime_0_0_bit(i: usize) -> (c: usize)
    requires
        i < 64,
    ensures
        c == col_a_prime_prime_0_0_bit(i as int),
{
    REG_A_PRIME_PRIME_0_0_BITS + i
}

pub fn reg_a_prime_prime_prime(x: usize, y: usize) -> (c: usize)
    requires
        x < 5,
        y < 5,
    ensures
        c == col_a_prime_prime_prime(x as int, y as int),
{
    if x == 0 && y == 0 {
        REG_A_PRIME_PRIME_PRIME_0_0_LO
    } else {
        reg_a_prime_prime(x, y)
    }
}

} // verus!
