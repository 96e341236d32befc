//! Filling one trace row with every intermediate value of one Keccak round.
use crate::columns::{
    col_a, col_a_prime, col_a_prime_prime, col_a_prime_prime_0_0_bit, col_a_prime_prime_prime, col_b,
    col_c, col_c_prime, col_step, reg_a, reg_a_prime, reg_a_prime_prime, reg_a_prime_prime_0_0_bit,
    reg_b, reg_c, reg_c_prime, NUM_COLUMNS, REG_A_PRIME, REG_A_PRIME_PRIME,
    REG_A_PRIME_PRIME_0_0_BITS, REG_A_PRIME_PRIME_PRIME_0_0_LO, REG_C, REG_C_PRIME, REG_FILTER,
};
use crate::field::b2f;
use crate::limbs::{
    bit_nat, bits_value, lemma_bits_value_congruent, lemma_limb_bit, lemma_limb_bound, lemma_limb_of_bits, limb_bit,
};
use crate::logic::{andn, limb_bit_of, xor};
use crate::permutation::{
    chi, iota, keccak_round, lemma_round_congruent, rc_value, rho_pi, rho_spec, same_state, theta,
    theta_c, xor as bxor, State, NUM_ROUNDS,
};
use vstd::prelude::*;

verus! {

/// Input bit `(x, y, z)` of a row, read from the input limbs.
pub open spec fn row_input_bit(row: Seq<u64>, x: int, y: int, z: int) -> bool {
    limb_bit(row[col_a(x, y) + z / 32], z % 32)
}

/// The input state of a row.
pub open spec fn row_state(row: Seq<u64>) -> State {
    |x: int, y: int, z: int| row_input_bit(row, x, y, z)
}

/// `C'[x, z] = C[x, z] ^ C[x - 1, z] ^ C[x + 1, z - 1]`.
pub open spec fn c_prime_spec(s: State, x: int, z: int) -> bool {
    bxor(bxor(theta_c(s, x, z), theta_c(s, (x + 4) % 5, z)), theta_c(s, (x + 1) % 5, (z + 63) % 64))
}

/// The bits of limb `h` (0 low, 1 high) of lane `(x, y)` after chi.
pub open spec fn chi_limb_bits(s: State, x: int, y: int, h: int) -> spec_fn(int) -> bool {
    |z: int| chi(s, x, y, z + 32 * h)
}

/// The bits of limb `h` of lane `(x, y)` after the whole round.
pub open spec fn round_limb_bits(s: State, round: int, x: int, y: int, h: int) -> spec_fn(int) -> bool {
    |z: int| iota(s, round, x, y, z + 32 * h)
}

/// Limb `h` of lane `(x, y)` after chi.
pub open spec fn chi_limb(s: State, x: int, y: int, h: int) -> nat {
    bits_value(chi_limb_bits(s, x, y, h), 0, 32)
}

/// Limb `h` of lane `(x, y)` after the whole round.
pub open spec fn round_limb(s: State, round: int, x: int, y: int, h: int) -> nat {
    bits_value(round_limb_bits(s, round, x, y, h), 0, 32)
}

/// All columns of `row` agree with `a` but those in `lo..hi`.
pub open spec fn unchanged_outside(a: Seq<u64>, b: Seq<u64>, lo: int, hi: int) -> bool {
    &&& a.len() == b.len()
    &&& forall|i: int| 0 <= i < a.len() && !(lo <= i < hi) ==> #[trigger] a[i] == b[i]
}

pub open spec fn c_filled(row: Seq<u64>, s: State) -> bool {
    forall|x: int, z: int| 0 <= x < 5 && 0 <= z < 64 ==> #[trigger] row[col_c(x, z)] == b2f(theta_c(s, x, z))
}

pub open spec fn c_prime_filled(row: Seq<u64>, s: State) -> bool {
    forall|x: int, z: int|
        0 <= x < 5 && 0 <= z < 64 ==> #[trigger] row[col_c_prime(x, z)] == b2f(c_prime_spec(s, x, z))
}

pub open spec fn a_prime_filled(row: Seq<u64>, s: State) -> bool {
    forall|x: int, y: int, z: int|
        0 <= x < 5 && 0 <= y < 5 && 0 <= z < 64 ==> #[trigger] row[col_a_prime(x, y, z)] == b2f(theta(s, x, y, z))
}

pub open spec fn a_prime_prime_filled(row: Seq<u64>, s: State) -> bool {
    forall|x: int, y: int, h: int|
        0 <= x < 5 && 0 <= y < 5 && 0 <= h < 2 ==> #[trigger] row[col_a_prime_prime(x, y) + h] == chi_limb(
            s,
            x,
            y,
            h,
        )
}

pub open spec fn bits_filled(row: Seq<u64>, s: State) -> bool {
    forall|i: int| 0 <= i < 64 ==> #[trigger] row[col_a_prime_prime_0_0_bit(i)] == b2f(chi(s, 0, 0, i))
}

pub open spec fn iota_filled(row: Seq<u64>, s: State, round: int) -> bool {
    forall|h: int| 0 <= h < 2 ==> #[trigger] row[REG_A_PRIME_PRIME_PRIME_0_0_LO + h] == round_limb(s, round, 0, 0, h)
}

/// `row` holds every intermediate value of round `round` applied to the state `s`.
#[verifier::opaque]
pub open spec fn is_round_row(row: Seq<u64>, s: State, round: int) -> bool {
    &&& row.len() == NUM_COLUMNS
    &&& row[col_step(round)] == 1
    &&& c_filled(row, s)
    &&& c_prime_filled(row, s)
    &&& a_prime_filled(row, s)
    &&& a_prime_prime_filled(row, s)
    &&& bits_filled(row, s)
    &&& iota_filled(row, s, round)
}

/// The output limbs of a round row are the limbs of the round's output lanes.
pub proof fn lemma_round_row_output(row: Seq<u64>, s: State, round: int, x: int, y: int, h: int)
    requires
        is_round_row(row, s, round),
        0 <= x < 5,
        0 <= y < 5,
        0 <= h < 2,
    ensures
        row[col_a_prime_prime_prime(x, y) + h] == round_limb(s, round, x, y, h),
        row[col_a_prime_prime_prime(x, y) + h] < 0x1_0000_0000,
{
    reveal(is_round_row);
    let f = chi_limb_bits(s, x, y, h);
    let g = round_limb_bits(s, round, x, y, h);
    lemma_limb_bound(g, 0);
    if !(x == 0 && y == 0) {
        assert forall|z: int| 0 <= z < 32 implies #[trigger] f(z) == g(z) by {}
        lemma_bits_value_congruent(f, g, 0, 32);
    }
}

proof fn lemma_rho_range(a: int, b: int)
    ensures
        0 <= rho_spec(a, b) < 64,
{
}

/// `B[x, y, z]` as stored: the column of `col_b` holds the rho/pi bit.
pub proof fn lemma_b_column(row: Seq<u64>, s: State, x: int, y: int, z: int)
    requires
        a_prime_filled(row, s),
        0 <= x < 5,
        0 <= y < 5,
        0 <= z < 64,
    ensures
        row[col_b(x, y, z)] == b2f(rho_pi(s, x, y, z)),
{
    let a = (x + 3 * y) % 5;
    lemma_rho_range(a, x);
    assert(row[col_a_prime(a, x, (z + 64 - rho_spec(a, x)) % 64)] == b2f(
        theta(s, a, x, (z + 64 - rho_spec(a, x)) % 64),
    ));
}

/// Writes `C[x, z]`, the parity of column `x` at bit `z`, read from the input limbs.
pub(crate) fn fill_c(row: &mut Vec<u64>, Ghost(s): Ghost<State>)
    requires
        old(row)@.len() == NUM_COLUMNS,
        forall|x: int, y: int, z: int|
            0 <= x < 5 && 0 <= y < 5 && 0 <= z < 64 ==> #[trigger] row_input_bit(old(row)@, x, y, z) == s(x, y, z),
    ensures
        c_filled(final(row)@, s),
        unchanged_outside(final(row)@, old(row)@, REG_C as int, REG_C_PRIME as int),
{
    let ghost pre = row@;
    for x in 0..5
        invariant
            unchanged_outside(row@, pre, REG_C as int, REG_C_PRIME as int),
            pre.len() == NUM_COLUMNS,
            forall|x2: int, z2: int|
                0 <= x2 < x && 0 <= z2 < 64 ==> #[trigger] row@[col_c(x2, z2)] == b2f(theta_c(s, x2, z2)),
            forall|x: int, y: int, z: int|
                0 <= x < 5 && 0 <= y < 5 && 0 <= z < 64 ==> #[trigger] row_input_bit(pre, x, y, z) == s(x, y, z),
    {
        for z in 0..64
            invariant
                0 <= x < 5,
                unchanged_outside(row@, pre, REG_C as int, REG_C_PRIME as int),
                pre.len() == NUM_COLUMNS,
                forall|x2: int, z2: int|
                    0 <= x2 < x && 0 <= z2 < 64 ==> #[trigger] row@[col_c(x2, z2)] == b2f(theta_c(s, x2, z2)),
                forall|z2: int| 0 <= z2 < z ==> #[trigger] row@[col_c(x as int, z2)] == b2f(theta_c(s, x as int, z2)),
                forall|x: int, y: int, z: int|
                    0 <= x < 5 && 0 <= y < 5 && 0 <= z < 64 ==> #[trigger] row_input_bit(pre, x, y, z) == s(x, y, z),
        {
            let h = z / 32;
            let k = z % 32;
            let a0 = limb_bit_of(row[reg_a(x, 0) + h], k);
            let a1 = limb_bit_of(row[reg_a(x, 1) + h], k);
            let a2 = limb_bit_of(row[reg_a(x, 2) + h], k);
            let a3 = limb_bit_of(row[reg_a(x, 3) + h], k);
            let a4 = limb_bit_of(row[reg_a(x, 4) + h], k);
            assert(row_input_bit(pre, x as int, 0, z as int) == s(x as int, 0, z as int));
            assert(row_input_bit(pre, x as int, 1, z as int) == s(x as int, 1, z as int));
            assert(row_input_bit(pre, x as int, 2, z as int) == s(x as int, 2, z as int));
            assert(row_input_bit(pre, x as int, 3, z as int) == s(x as int, 3, z as int));
            assert(row_input_bit(pre, x as int, 4, z as int) == s(x as int, 4, z as int));
            let c = xor(xor(xor(xor(a0, a1), a2), a3), a4);
            row.set(reg_c(x, z), c);
        }
    }
}

/// Writes `C'[x, z] = C[x, z] ^ C[x - 1, z] ^ C[x + 1, z - 1]`.
pub(crate) fn fill_c_prime(row: &mut Vec<u64>, Ghost(s): Ghost<State>)
    requires
        old(row)@.len() == NUM_COLUMNS,
        c_filled(old(row)@, s),
    ensures
        c_prime_filled(final(row)@, s),
        unchanged_outside(final(row)@, old(row)@, REG_C_PRIME as int, REG_A_PRIME as int),
{
    let ghost pre = row@;
    for x in 0..5
        invariant
            unchanged_outside(row@, pre, REG_C_PRIME as int, REG_A_PRIME as int),
            pre.len() == NUM_COLUMNS,
            c_filled(pre, s),
            forall|x2: int, z2: int|
                0 <= x2 < x && 0 <= z2 < 64 ==> #[trigger] row@[col_c_prime(x2, z2)] == b2f(c_prime_spec(s, x2, z2)),
    {
        for z in 0..64
            invariant
                0 <= x < 5,
                unchanged_outside(row@, pre, REG_C_PRIME as int, REG_A_PRIME as int),
                pre.len() == NUM_COLUMNS,
                c_filled(pre, s),
                forall|x2: int, z2: int|
                    0 <= x2 < x && 0 <= z2 < 64 ==> #[trigger] row@[col_c_prime(x2, z2)] == b2f(
                        c_prime_spec(s, x2, z2),
                    ),
                forall|z2: int|
                    0 <= z2 < z ==> #[trigger] row@[col_c_prime(x as int, z2)] == b2f(c_prime_spec(s, x as int, z2)),
        {
            let c0 = row[reg_c(x, z)];
            let c1 = row[reg_c((x + 4) % 5, z)];
            let c2 = row[reg_c((x + 1) % 5, (z + 63) % 64)];
            let v = xor(xor(c0, c1), c2);
            row.set(reg_c_prime(x, z), v);
        }
    }
}

/// Writes the theta output bits `A'[x, y, z] = A[x, y, z] ^ C[x, z] ^ C'[x, z]`.
pub(crate) fn fill_a_prime(row: &mut Vec<u64>, Ghost(s): Ghost<State>)
    requires
        old(row)@.len() == NUM_COLUMNS,
        c_filled(old(row)@, s),
        c_prime_filled(old(row)@, s),
        forall|x: int, y: int, z: int|
            0 <= x < 5 && 0 <= y < 5 && 0 <= z < 64 ==> #[trigger] row_input_bit(old(row)@, x, y, z) == s(x, y, z),
    ensures
        a_prime_filled(final(row)@, s),
        unchanged_outside(final(row)@, old(row)@, REG_A_PRIME as int, REG_A_PRIME_PRIME as int),
{
    let ghost pre = row@;
    for y in 0..5
        invariant
            unchanged_outside(row@, pre, REG_A_PRIME as int, REG_A_PRIME_PRIME as int),
            pre.len() == NUM_COLUMNS,
            c_filled(pre, s),
            c_prime_filled(pre, s),
            forall|x: int, y: int, z: int|
                0 <= x < 5 && 0 <= y < 5 && 0 <= z < 64 ==> #[trigger] row_input_bit(pre, x, y, z) == s(x, y, z),
            forall|x2: int, y2: int, z2: int|
                0 <= x2 < 5 && 0 <= y2 < y && 0 <= z2 < 64 ==> #[trigger] row@[col_a_prime(x2, y2, z2)] == b2f(
                    theta(s, x2, y2, z2),
                ),
    {
        for x in 0..5
            invariant
                0 <= y < 5,
                unchanged_outside(row@, pre, REG_A_PRIME as int, REG_A_PRIME_PRIME as int),
                pre.len() == NUM_COLUMNS,
                c_filled(pre, s),
                c_prime_filled(pre, s),
                forall|x: int, y: int, z: int|
                    0 <= x < 5 && 0 <= y < 5 && 0 <= z < 64 ==> #[trigger] row_input_bit(pre, x, y, z) == s(x, y, z),
                forall|x2: int, y2: int, z2: int|
                    0 <= x2 < 5 && 0 <= y2 < y && 0 <= z2 < 64 ==> #[trigger] row@[col_a_prime(x2, y2, z2)]
                        == b2f(theta(s, x2, y2, z2)),
                forall|x2: int, z2: int|
                    0 <= x2 < x && 0 <= z2 < 64 ==> #[trigger] row@[col_a_prime(x2, y as int, z2)] == b2f(
                        theta(s, x2, y as int, z2),
                    ),
        {
            for z in 0..64
                invariant
                    0 <= y < 5,
                    0 <= x < 5,
                    unchanged_outside(row@, pre, REG_A_PRIME as int, REG_A_PRIME_PRIME as int),
                    pre.len() == NUM_COLUMNS,
                    c_filled(pre, s),
                    c_prime_filled(pre, s),
                    forall|x: int, y: int, z: int|
                        0 <= x < 5 && 0 <= y < 5 && 0 <= z < 64 ==> #[trigger] row_input_bit(pre, x, y, z) == s(
                            x,
                            y,
                            z,
                        ),
                    forall|x2: int, y2: int, z2: int|
                        0 <= x2 < 5 && 0 <= y2 < y && 0 <= z2 < 64 ==> #[trigger] row@[col_a_prime(x2, y2, z2)]
                            == b2f(theta(s, x2, y2, z2)),
                    forall|x2: int, z2: int|
                        0 <= x2 < x && 0 <= z2 < 64 ==> #[trigger] row@[col_a_prime(x2, y as int, z2)] == b2f(
                            theta(s, x2, y as int, z2),
                        ),
                    forall|z2: int|
                        0 <= z2 < z ==> #[trigger] row@[col_a_prime(x as int, y as int, z2)] == b2f(
                            theta(s, x as int, y as int, z2),
                        ),
            {
                let a = limb_bit_of(row[reg_a(x, y) + z / 32], z % 32);
                assert(row_input_bit(pre, x as int, y as int, z as int) == s(x as int, y as int, z as int));
                let c = row[reg_c(x, z)];
                let cp = row[reg_c_prime(x, z)];
                let v = xor(xor(a, c), cp);
                row.set(reg_a_prime(x, y, z), v);
            }
        }
    }
}

/// Bit `z` of lane `(x, y)` after chi, read from the stored `B` bits.
fn chi_bit(row: &Vec<u64>, x: usize, y: usize, z: usize, Ghost(s): Ghost<State>) -> (r: u64)
    requires
        row@.len() == NUM_COLUMNS,
        a_prime_filled(row@, s),
        x < 5,
        y < 5,
        z < 64,
    ensures
        r == b2f(chi(s, x as int, y as int, z as int)),
{
    proof {
        lemma_b_column(row@, s, x as int, y as int, z as int);
        lemma_b_column(row@, s, ((x + 1) % 5) as int, y as int, z as int);
        lemma_b_column(row@, s, ((x + 2) % 5) as int, y as int, z as int);
    }
    let b0 = row[reg_b(x, y, z)];
    let b1 = row[reg_b((x + 1) % 5, y, z)];
    let b2 = row[reg_b((x + 2) % 5, y, z)];
    xor(b0, andn(b1, b2))
}

/// Limb `h` of lane `(x, y)` after chi, summed from bit 31 down to bit 0.
fn chi_limb_value(row: &Vec<u64>, x: usize, y: usize, h: usize, Ghost(s): Ghost<State>) -> (r: u64)
    requires
        row@.len() == NUM_COLUMNS,
        a_prime_filled(row@, s),
        x < 5,
        y < 5,
        h < 2,
    ensures
        r == chi_limb(s, x as int, y as int, h as int),
{
    let mut acc: u64 = 0;
    let mut k: usize = 32;
    while k > 0
        invariant
            k <= 32,
            row@.len() == NUM_COLUMNS,
            a_prime_filled(row@, s),
            x < 5,
            y < 5,
            h < 2,
            acc == bits_value(chi_limb_bits(s, x as int, y as int, h as int), k as int, 32),
        decreases k,
    {
        let ghost f = chi_limb_bits(s, x as int, y as int, h as int);
        proof {
            lemma_limb_bound(f, k as int);
        }
        k = k - 1;
        let b = chi_bit(row, x, y, 32 * h + k, Ghost(s));
        assert(f(k as int) == chi(s, x as int, y as int, (32 * h + k) as int));
        assert(bits_value(f, k as int, 32) == bit_nat(f(k as int)) + 2 * bits_value(f, k + 1, 32));
        acc = acc * 2 + b;
    }
    acc
}

/// Writes the chi output limbs `A''[x, y]`.
pub(crate) fn fill_a_prime_prime(row: &mut Vec<u64>, Ghost(s): Ghost<State>)
    requires
        old(row)@.len() == NUM_COLUMNS,
        a_prime_filled(old(row)@, s),
    ensures
        a_prime_prime_filled(final(row)@, s),
        unchanged_outside(final(row)@, old(row)@, REG_A_PRIME_PRIME as int, REG_A_PRIME_PRIME_0_0_BITS as int),
{
    let ghost pre = row@;
    for y in 0..5
        invariant
            unchanged_outside(row@, pre, REG_A_PRIME_PRIME as int, REG_A_PRIME_PRIME_0_0_BITS as int),
            pre.len() == NUM_COLUMNS,
            a_prime_filled(pre, s),
            forall|x2: int, y2: int, h: int|
                0 <= x2 < 5 && 0 <= y2 < y && 0 <= h < 2 ==> #[trigger] row@[col_a_prime_prime(x2, y2) + h]
                    == chi_limb(s, x2, y2, h),
    {
        for x in 0..5
            invariant
                0 <= y < 5,
                unchanged_outside(row@, pre, REG_A_PRIME_PRIME as int, REG_A_PRIME_PRIME_0_0_BITS as int),
                pre.len() == NUM_COLUMNS,
                a_prime_filled(pre, s),
                forall|x2: int, y2: int, h: int|
                    0 <= x2 < 5 && 0 <= y2 < y && 0 <= h < 2 ==> #[trigger] row@[col_a_prime_prime(x2, y2) + h]
                        == chi_limb(s, x2, y2, h),
                forall|x2: int, h: int|
                    0 <= x2 < x && 0 <= h < 2 ==> #[trigger] row@[col_a_prime_prime(x2, y as int) + h] == chi_limb(
                        s,
                        x2,
                        y as int,
                        h,
                    ),
        {
            proof {
                assert forall|x: int, y: int, z: int|
                    0 <= x < 5 && 0 <= y < 5 && 0 <= z < 64 implies #[trigger] row@[col_a_prime(x, y, z)] == b2f(
                    theta(s, x, y, z),
                ) by {
                    assert(row@[col_a_prime(x, y, z)] == pre[col_a_prime(x, y, z)]);
                }
            }
            let lo = chi_limb_value(row, x, y, 0, Ghost(s));
            let hi = chi_limb_value(row, x, y, 1, Ghost(s));
            let reg_lo = reg_a_prime_prime(x, y);
            row.set(reg_lo, lo);
            row.set(reg_lo + 1, hi);
        }
    }
}

proof fn lemma_join_low(lo: u64, hi: u64, i: u64)
    requires
        lo < 0x1_0000_0000,
        hi < 0x1_0000_0000,
        i < 32,
    ensures
        ((lo | (hi << 32u64)) >> i) & 1 == (((lo as u32) >> (i as u32)) & 1) as u64,
{
    assert(((lo | (hi << 32u64)) >> i) & 1 == (((lo as u32) >> (i as u32)) & 1) as u64) by (bit_vector)
        requires
            lo < 0x1_0000_0000,
            hi < 0x1_0000_0000,
            i < 32,
    ;
}

proof fn lemma_join_high(lo: u64, hi: u64, i: u64)
    requires
        lo < 0x1_0000_0000,
        hi < 0x1_0000_0000,
        32 <= i < 64,
    ensures
        ((lo | (hi << 32u64)) >> i) & 1 == (((hi as u32) >> ((i - 32) as u32)) & 1) as u64,
{
    assert(((lo | (hi << 32u64)) >> i) & 1 == (((hi as u32) >> ((i - 32) as u32)) & 1) as u64) by (bit_vector)
        requires
            lo < 0x1_0000_0000,
            hi < 0x1_0000_0000,
            32 <= i < 64,
    ;
}

proof fn lemma_bit_value(v: u64)
    ensures
        (v & 1) <= 1,
{
    assert((v & 1) <= 1) by (bit_vector);
}

proof fn lemma_xor_low_limb(lo: u64, rc: u64, z: u64)
    requires
        lo < 0x1_0000_0000,
        z < 32,
    ensures
        (((lo ^ (rc & 0xFFFF_FFFF)) as u32 >> (z as u32)) & 1 == 1) == ((((lo as u32) >> (z as u32)) & 1 == 1)
            != ((rc >> z) & 1 == 1)),
        lo ^ (rc & 0xFFFF_FFFF) < 0x1_0000_0000,
{
    assert((((lo ^ (rc & 0xFFFF_FFFF)) as u32 >> (z as u32)) & 1 == 1) == ((((lo as u32) >> (z as u32)) & 1 == 1)
        != ((rc >> z) & 1 == 1)) && lo ^ (rc & 0xFFFF_FFFF) < 0x1_0000_0000) by (bit_vector)
        requires
            lo < 0x1_0000_0000,
            z < 32,
    ;
}

proof fn lemma_xor_high_limb(hi: u64, rc: u64, z: u64)
    requires
        hi < 0x1_0000_0000,
        z < 32,
    ensures
        (((hi ^ (rc >> 32u64)) as u32 >> (z as u32)) & 1 == 1) == ((((hi as u32) >> (z as u32)) & 1 == 1) != ((rc
            >> ((z + 32) as u64)) & 1 == 1)),
        hi ^ (rc >> 32u64) < 0x1_0000_0000,
{
    assert((((hi ^ (rc >> 32u64)) as u32 >> (z as u32)) & 1 == 1) == ((((hi as u32) >> (z as u32)) & 1 == 1) != ((rc
        >> ((z + 32) as u64)) & 1 == 1)) && hi ^ (rc >> 32u64) < 0x1_0000_0000) by (bit_vector)
        requires
            hi < 0x1_0000_0000,
            z < 32,
    ;
}

/// Splits `A''[0, 0]` into its bits and writes `A'''[0, 0] = A''[0, 0] ^ RC`.
pub(crate) fn fill_iota(row: &mut Vec<u64>, round: usize, Ghost(s): Ghost<State>)
    requires
        old(row)@.len() == NUM_COLUMNS,
        a_prime_prime_filled(old(row)@, s),
        round < NUM_ROUNDS,
    ensures
        bits_filled(final(row)@, s),
        iota_filled(final(row)@, s, round as int),
        unchanged_outside(final(row)@, old(row)@, REG_A_PRIME_PRIME_0_0_BITS as int, REG_FILTER as int),
{
    let ghost pre = row@;
    let ghost f0 = chi_limb_bits(s, 0, 0, 0);
    let ghost f1 = chi_limb_bits(s, 0, 0, 1);
    let val_lo = row[reg_a_prime_prime(0, 0)];
    let val_hi = row[reg_a_prime_prime(0, 0) + 1];
    assert(val_lo == chi_limb(s, 0, 0, 0));
    assert(val_hi == chi_limb(s, 0, 0, 1));
    proof {
        lemma_limb_bound(f0, 0);
        lemma_limb_bound(f1, 0);
    }
    let val: u64 = val_lo | (val_hi << 32u64);
    for i in 0..64
        invariant
            unchanged_outside(row@, pre, REG_A_PRIME_PRIME_0_0_BITS as int, REG_FILTER as int),
            pre.len() == NUM_COLUMNS,
            val_lo < 0x1_0000_0000,
            val_hi < 0x1_0000_0000,
            val_lo == bits_value(chi_limb_bits(s, 0, 0, 0), 0, 32),
            val_hi == bits_value(chi_limb_bits(s, 0, 0, 1), 0, 32),
            val == val_lo | (val_hi << 32u64),
            forall|j: int| 0 <= j < i ==> #[trigger] row@[col_a_prime_prime_0_0_bit(j)] == b2f(chi(s, 0, 0, j)),
    {
        let b = (val >> (i as u64)) & 1;
        let ghost f0 = chi_limb_bits(s, 0, 0, 0);
        let ghost f1 = chi_limb_bits(s, 0, 0, 1);
        proof {
            lemma_bit_value(val >> (i as u64));
            if i < 32 {
                lemma_join_low(val_lo, val_hi, i as u64);
                lemma_limb_bit(f0, i as int);
                assert(f0(i as int) == chi(s, 0, 0, i as int));
            } else {
                lemma_join_high(val_lo, val_hi, i as u64);
                lemma_limb_bit(f1, i - 32);
                assert(f1(i - 32) == chi(s, 0, 0, i as int));
            }
        }
        row.set(reg_a_prime_prime_0_0_bit(i), b);
    }
    let rc = rc_value(round);
    let out_lo = val_lo ^ (rc & 0xFFFF_FFFF);
    let out_hi = val_hi ^ (rc >> 32u64);
    proof {
        let g0 = round_limb_bits(s, round as int, 0, 0, 0);
        let g1 = round_limb_bits(s, round as int, 0, 0, 1);
        lemma_xor_low_limb(val_lo, rc, 0);
        lemma_xor_high_limb(val_hi, rc, 0);
        lemma_limb_of_bits(out_lo as u32);
        lemma_limb_of_bits(out_hi as u32);
        assert forall|z: int| 0 <= z < 32 implies #[trigger] g0(z) == limb_bit((out_lo as u32) as u64, z) by {
            lemma_xor_low_limb(val_lo, rc, z as u64);
            lemma_limb_bit(f0, z);
        }
        assert forall|z: int| 0 <= z < 32 implies #[trigger] g1(z) == limb_bit((out_hi as u32) as u64, z) by {
            lemma_xor_high_limb(val_hi, rc, z as u64);
            lemma_limb_bit(f1, z);
        }
        lemma_bits_value_congruent(g0, |z: int| limb_bit((out_lo as u32) as u64, z), 0, 32);
        lemma_bits_value_congruent(g1, |z: int| limb_bit((out_hi as u32) as u64, z), 0, 32);
    }
    row.set(REG_A_PRIME_PRIME_PRIME_0_0_LO, out_lo);
    row.set(REG_A_PRIME_PRIME_PRIME_0_0_LO + 1, out_hi);
}

/// The round's values do not depend on which of two equal states names the input.
pub proof fn lemma_round_row_congruent(row: Seq<u64>, s: State, t: State, round: int)
    requires
        same_state(s, t),
        is_round_row(row, s, round),
    ensures
        is_round_row(row, t, round),
{
    reveal(is_round_row);
    lemma_round_congruent(s, t, round);
    assert forall|x: int, z: int| 0 <= x < 5 && 0 <= z < 64 implies theta_c(s, x, z) == theta_c(t, x, z) by {
        assert(s(x, 0, z) == t(x, 0, z));
        assert(s(x, 1, z) == t(x, 1, z));
        assert(s(x, 2, z) == t(x, 2, z));
        assert(s(x, 3, z) == t(x, 3, z));
        assert(s(x, 4, z) == t(x, 4, z));
    }
    assert forall|x: int, y: int, z: int| 0 <= x < 5 && 0 <= y < 5 && 0 <= z < 64 implies theta(s, x, y, z)
        == theta(t, x, y, z) by {
        assert(s(x, y, z) == t(x, y, z));
    }
    assert forall|x: int, y: int, h: int| 0 <= x < 5 && 0 <= y < 5 && 0 <= h < 2 implies chi_limb(s, x, y, h)
        == chi_limb(t, x, y, h) by {
        assert forall|z: int| 0 <= z < 32 implies #[trigger] chi_limb_bits(s, x, y, h)(z) == chi_limb_bits(
            t,
            x,
            y,
            h,
        )(z) by {
            assert(keccak_round(s, round)(x, y, z + 32 * h) == keccak_round(t, round)(x, y, z + 32 * h));
        }
        lemma_bits_value_congruent(chi_limb_bits(s, x, y, h), chi_limb_bits(t, x, y, h), 0, 32);
    }
    assert forall|i: int| 0 <= i < 64 implies chi(s, 0, 0, i) == chi(t, 0, 0, i) by {
        assert(keccak_round(s, round)(0, 0, i) == keccak_round(t, round)(0, 0, i));
    }
    assert forall|h: int| 0 <= h < 2 implies round_limb(s, round, 0, 0, h) == round_limb(t, round, 0, 0, h) by {
        assert forall|z: int| 0 <= z < 32 implies #[trigger] round_limb_bits(s, round, 0, 0, h)(z)
            == round_limb_bits(t, round, 0, 0, h)(z) by {
            assert(keccak_round(s, round)(0, 0, z + 32 * h) == keccak_round(t, round)(0, 0, z + 32 * h));
        }
        lemma_bits_value_congruent(round_limb_bits(s, round, 0, 0, h), round_limb_bits(t, round, 0, 0, h), 0, 32);
    }
}

} // verus!
