//! Flipping one bit of a stored value of a trace row breaks a constraint.
use crate::columns::{
    col_a, col_a_prime, col_a_prime_prime, col_a_prime_prime_0_0_bit, col_b, col_c,
    col_c_prime, col_step, REG_A, REG_A_PRIME, REG_A_PRIME_PRIME, REG_A_PRIME_PRIME_0_0_BITS,
    REG_A_PRIME_PRIME_PRIME_0_0_LO, REG_C, REG_C_PRIME, REG_FILTER,
};
use crate::completeness::{lemma_pack_bits};
use crate::constraints::{
    chi_bits, chi_residual, general_residuals, input_bits, input_residual, iota_bits, iota_residual, lane_x, lane_y,
    pack_value, split_bits, split_residual, theta_residual, };
use crate::field::{b2f, fsub, lemma_mod_shift, order};
use crate::keccak_stark::is_trace_row;
use crate::limbs::{bits_value, lemma_limb_bit, lemma_limb_bound};
use crate::logic::lemma_poly_gadgets_on_bits;
use crate::permutation::{theta, theta_c, State, NUM_ROUNDS};
use crate::round::{c_prime_spec, chi_limb_bits, is_round_row};
use vstd::prelude::*;

verus! {

/// `row` with bit `k` of column `c` flipped.
pub open spec fn flip(row: Seq<u64>, c: int, k: int) -> Seq<u64> {
    row.update(c, row[c] ^ (1u64 << (k as u64)))
}

/// Column `c` holds a stored value of a round, and `k` is a bit of it: a bit of a
/// 32-bit limb of `A`, `A''` or `A'''[0, 0]`, or the one bit of a `C`, `C'`, `A'`
/// or `bit[i]` entry.
pub open spec fn is_stored_bit(c: int, k: int) -> bool {
    ||| REG_A <= c < REG_C && 0 <= k < 32
    ||| REG_C <= c < REG_A_PRIME_PRIME && k == 0
    ||| REG_A_PRIME_PRIME <= c < REG_A_PRIME_PRIME_0_0_BITS && 0 <= k < 32
    ||| REG_A_PRIME_PRIME_0_0_BITS <= c < REG_A_PRIME_PRIME_PRIME_0_0_LO && k == 0
    ||| REG_A_PRIME_PRIME_PRIME_0_0_LO <= c < REG_FILTER && 0 <= k < 32
}

proof fn lemma_flip_value(v: u64, k: u64)
    requires
        v < 0x1_0000_0000,
        k < 32,
    ensures
        v ^ (1u64 << k) != v,
        v ^ (1u64 << k) < 0x1_0000_0000,
        v <= 1 && k == 0 ==> v ^ (1u64 << k) == 1 - v,
{
    assert(v ^ (1u64 << k) != v && v ^ (1u64 << k) < 0x1_0000_0000 && (v <= 1 && k == 0 ==> v ^ (1u64 << k) == 1
        - v)) by (bit_vector)
        requires
            v < 0x1_0000_0000,
            k < 32,
    ;
}

/// A difference of two distinct field elements is not zero.
proof fn lemma_fsub_nonzero(a: int, b: int)
    requires
        0 <= a < order(),
        0 <= b < order(),
        a != b,
    ensures
        fsub(a, b) != 0,
{
    if a >= b {
        lemma_mod_shift(a - b, 0);
    } else {
        lemma_mod_shift(a - b, -1);
    }
}

/// Limb sums of bits that differ somewhere differ.
proof fn lemma_bits_value_injective(f: spec_fn(int) -> bool, g: spec_fn(int) -> bool, z: int)
    requires
        0 <= z < 32,
        f(z) != g(z),
    ensures
        bits_value(f, 0, 32) != bits_value(g, 0, 32),
{
    lemma_limb_bit(f, z);
    lemma_limb_bit(g, z);
}

/// A zero residual `fsub(p, v)` over field elements means `p == v`.
proof fn lemma_fsub_zero(a: int, b: int)
    requires
        0 <= a < order(),
        0 <= b < order(),
        fsub(a, b) == 0,
    ensures
        a == b,
{
    if a != b {
        lemma_fsub_nonzero(a, b);
    }
}

proof fn lemma_tamper_c(row: Seq<u64>, s: State, round: int, f: u64, x: int, z: int)
    requires
        is_trace_row(row, s, round, f),
        0 <= x < 5,
        0 <= z < 64,
    ensures
        theta_residual(flip(row, col_c(x, z), 0), x, z) != 0,
{
    reveal(is_round_row);
    let t = flip(row, col_c(x, z), 0);
    let c0 = theta_c(s, x, z);
    let c1 = theta_c(s, (x + 4) % 5, z);
    let c2 = theta_c(s, (x + 1) % 5, (z + 63) % 64);
    assert(row[col_c(x, z)] == b2f(c0));
    lemma_flip_value(row[col_c(x, z)], 0);
    assert(t[col_c(x, z)] == b2f(!c0));
    assert(t[col_c((x + 4) % 5, z)] == b2f(c1));
    assert(t[col_c((x + 1) % 5, (z + 63) % 64)] == b2f(c2));
    assert(t[col_c_prime(x, z)] == b2f(c_prime_spec(s, x, z)));
    lemma_poly_gadgets_on_bits(!c0, c1, c2);
    lemma_fsub_nonzero(b2f(c_prime_spec(s, x, z)) as int, b2f(xor_bits(!c0, c1, c2)) as int);
}

pub open spec fn xor_bits(a: bool, b: bool, c: bool) -> bool {
    a != (b != c)
}

proof fn lemma_tamper_c_prime(row: Seq<u64>, s: State, round: int, f: u64, x: int, z: int)
    requires
        is_trace_row(row, s, round, f),
        0 <= x < 5,
        0 <= z < 64,
    ensures
        theta_residual(flip(row, col_c_prime(x, z), 0), x, z) != 0,
{
    reveal(is_round_row);
    let t = flip(row, col_c_prime(x, z), 0);
    let c0 = theta_c(s, x, z);
    let c1 = theta_c(s, (x + 4) % 5, z);
    let c2 = theta_c(s, (x + 1) % 5, (z + 63) % 64);
    assert(row[col_c_prime(x, z)] == b2f(c_prime_spec(s, x, z)));
    lemma_flip_value(row[col_c_prime(x, z)], 0);
    assert(t[col_c(x, z)] == b2f(c0));
    assert(t[col_c((x + 4) % 5, z)] == b2f(c1));
    assert(t[col_c((x + 1) % 5, (z + 63) % 64)] == b2f(c2));
    lemma_poly_gadgets_on_bits(c0, c1, c2);
    lemma_fsub_nonzero(b2f(!c_prime_spec(s, x, z)) as int, b2f(xor_bits(c0, c1, c2)) as int);
}

proof fn lemma_tamper_a_prime(row: Seq<u64>, s: State, round: int, f: u64, x: int, y: int, z: int)
    requires
        is_trace_row(row, s, round, f),
        0 <= x < 5,
        0 <= y < 5,
        0 <= z < 64,
    ensures
        input_residual(flip(row, col_a_prime(x, y, z), 0), x, y, z / 32) != 0,
{
    reveal(is_round_row);
    let h = z / 32;
    let zz = z % 32;
    let t = flip(row, col_a_prime(x, y, z), 0);
    let g = |w: int| s(x, y, w + 32 * h) != (w == zz);
    let bits = input_bits(t, x, y, h);
    lemma_flip_value(row[col_a_prime(x, y, z)], 0);
    assert forall|w: int| 0 <= w < 32 implies #[trigger] bits[w] == b2f(g(w)) by {
        let v = w + 32 * h;
        let a = theta(s, x, y, v);
        let c = theta_c(s, x, v);
        let cp = c_prime_spec(s, x, v);
        assert(row[col_a_prime(x, y, v)] == b2f(a));
        assert(t[col_c(x, v)] == b2f(c));
        assert(t[col_c_prime(x, v)] == b2f(cp));
        if w == zz {
            assert(v == z);
            assert(t[col_a_prime(x, y, v)] == b2f(!a));
            lemma_poly_gadgets_on_bits(!a, c, cp);
        } else {
            assert(t[col_a_prime(x, y, v)] == b2f(a));
            lemma_poly_gadgets_on_bits(a, c, cp);
        }
    }
    lemma_pack_bits(bits, g, 0);
    let limb = row[col_a(x, y) + h];
    crate::completeness::lemma_input_zero(row, s, round, x, y, h);
    let orig = |w: int| s(x, y, w + 32 * h);
    assert forall|w: int| 0 <= w < 32 implies #[trigger] input_bits(row, x, y, h)[w] == b2f(orig(w)) by {
            let v = w + 32 * h;
            let a = theta(s, x, y, v);
            let c = theta_c(s, x, v);
            let cp = c_prime_spec(s, x, v);
            assert(row[col_a_prime(x, y, v)] == b2f(a));
            assert(row[col_c(x, v)] == b2f(c));
            assert(row[col_c_prime(x, v)] == b2f(cp));
            lemma_poly_gadgets_on_bits(a, c, cp);
        }
    lemma_pack_bits(input_bits(row, x, y, h), orig, 0);
    lemma_limb_bound(g, 0);
    lemma_limb_bound(orig, 0);
    assert(limb < 0x1_0000_0000);
    lemma_fsub_zero(bits_value(orig, 0, 32) as int, limb as int);
    lemma_bits_value_injective(g, orig, zz);
    lemma_fsub_nonzero(bits_value(g, 0, 32) as int, limb as int);
}

proof fn lemma_tamper_bit(row: Seq<u64>, s: State, round: int, f: u64, i: int)
    requires
        is_trace_row(row, s, round, f),
        0 <= i < 64,
    ensures
        split_residual(flip(row, col_a_prime_prime_0_0_bit(i), 0), i / 32) != 0,
{
    reveal(is_round_row);
    let h = i / 32;
    let zz = i % 32;
    let t = flip(row, col_a_prime_prime_0_0_bit(i), 0);
    let orig = chi_limb_bits(s, 0, 0, h);
    let g = |w: int| orig(w) != (w == zz);
    lemma_flip_value(row[col_a_prime_prime_0_0_bit(i)], 0);
    assert forall|w: int| 0 <= w < 32 implies #[trigger] split_bits(t, h)[w] == b2f(g(w)) by {
        assert(row[col_a_prime_prime_0_0_bit(w + 32 * h)] == b2f(orig(w)));
    }
    assert forall|w: int| 0 <= w < 32 implies #[trigger] split_bits(row, h)[w] == b2f(orig(w)) by {
        assert(row[col_a_prime_prime_0_0_bit(w + 32 * h)] == b2f(orig(w)));
    }
    lemma_pack_bits(split_bits(t, h), g, 0);
    lemma_pack_bits(split_bits(row, h), orig, 0);
    let limb = row[col_a_prime_prime(0, 0) + h];
    crate::completeness::lemma_split_zero(row, s, round, h);
    lemma_limb_bound(g, 0);
    lemma_limb_bound(orig, 0);
    assert(limb == bits_value(orig, 0, 32));
    lemma_bits_value_injective(g, orig, zz);
    lemma_fsub_nonzero(bits_value(g, 0, 32) as int, limb as int);
}

proof fn lemma_tamper_a(row: Seq<u64>, s: State, round: int, f: u64, x: int, y: int, h: int, k: int)
    requires
        is_trace_row(row, s, round, f),
        0 <= x < 5,
        0 <= y < 5,
        0 <= h < 2,
        0 <= k < 32,
    ensures
        input_residual(flip(row, col_a(x, y) + h, k), x, y, h) != 0,
{
    let c = col_a(x, y) + h;
    let t = flip(row, c, k);
    let limb = row[c];
    assert(limb < 0x1_0000_0000);
    lemma_flip_value(limb, k as u64);
    assert(input_bits(t, x, y, h) =~= input_bits(row, x, y, h));
    crate::completeness::lemma_input_zero(row, s, round, x, y, h);
    let p = pack_value(input_bits(row, x, y, h), 0);
    lemma_pack_range(input_bits(row, x, y, h));
    lemma_fsub_zero(p, limb as int);
    lemma_fsub_nonzero(p, t[c] as int);
}

proof fn lemma_tamper_a_prime_prime(row: Seq<u64>, s: State, round: int, f: u64, x: int, y: int, h: int, k: int)
    requires
        is_trace_row(row, s, round, f),
        0 <= x < 5,
        0 <= y < 5,
        0 <= h < 2,
        0 <= k < 32,
    ensures
        chi_residual(flip(row, col_a_prime_prime(x, y) + h, k), x, y, h) != 0,
{
    reveal(is_round_row);
    let c = col_a_prime_prime(x, y) + h;
    let t = flip(row, c, k);
    let limb = row[c];
    lemma_limb_bound(chi_limb_bits(s, x, y, h), 0);
    lemma_flip_value(limb, k as u64);
    assert forall|z: int| 0 <= z < 64 implies #[trigger] col_b(x, y, z) < REG_A_PRIME_PRIME by {
        crate::round::lemma_b_column(row, s, x, y, z);
        let a = (x + 3 * y) % 5;
        assert(0 <= crate::permutation::rho_spec(a, x) < 64);
    }
    assert forall|xx: int, z: int| 0 <= xx < 5 && 0 <= z < 64 implies #[trigger] col_b(xx, y, z) < REG_A_PRIME_PRIME by {
        let a = (xx + 3 * y) % 5;
        assert(0 <= crate::permutation::rho_spec(a, xx) < 64);
    }
    assert(chi_bits(t, x, y, h) =~= chi_bits(row, x, y, h));
    crate::completeness::lemma_chi_zero(row, s, round, x, y, h);
    let p = pack_value(chi_bits(row, x, y, h), 0);
    lemma_pack_range(chi_bits(row, x, y, h));
    lemma_fsub_zero(p, limb as int);
    lemma_fsub_nonzero(p, t[c] as int);
}

proof fn lemma_tamper_a_prime_prime_prime(row: Seq<u64>, s: State, round: int, f: u64, h: int, k: int)
    requires
        is_trace_row(row, s, round, f),
        0 <= round < NUM_ROUNDS,
        0 <= h < 2,
        0 <= k < 32,
    ensures
        iota_residual(flip(row, REG_A_PRIME_PRIME_PRIME_0_0_LO + h, k), h) != 0,
{
    reveal(is_round_row);
    let c = REG_A_PRIME_PRIME_PRIME_0_0_LO + h;
    let t = flip(row, c, k);
    let limb = row[c];
    lemma_limb_bound(crate::round::round_limb_bits(s, round, 0, 0, h), 0);
    lemma_flip_value(limb, k as u64);
    assert(iota_bits(t, h) =~= iota_bits(row, h)) by {
        assert forall|w: int| 0 <= w < 32 implies #[trigger] iota_bits(t, h)[w] == iota_bits(row, h)[w] by {
            lemma_rc_select_frame(row, t, w + 32 * h, NUM_ROUNDS as int);
        }
    }
    crate::completeness::lemma_iota_zero(row, s, round, h);
    let p = pack_value(iota_bits(row, h), 0);
    lemma_pack_range(iota_bits(row, h));
    lemma_fsub_zero(p, limb as int);
    lemma_fsub_nonzero(p, t[c] as int);
}

/// The round-constant selection reads the round flags only.
proof fn lemma_rc_select_frame(a: Seq<u64>, b: Seq<u64>, i: int, n: int)
    requires
        0 <= n <= NUM_ROUNDS,
        a.len() == b.len(),
        b.len() >= NUM_ROUNDS,
        forall|j: int| 0 <= j < NUM_ROUNDS ==> #[trigger] a[col_step(j)] == b[col_step(j)],
    ensures
        crate::constraints::rc_select(a, i, n) == crate::constraints::rc_select(b, i, n),
    decreases n,
{
    if n > 0 {
        lemma_rc_select_frame(a, b, i, n - 1);
        assert(a[col_step(n - 1)] == b[col_step(n - 1)]);
    }
}

/// A packed value is a field element.
proof fn lemma_pack_range(bits: Seq<u64>)
    ensures
        0 <= pack_value(bits, 0) < order(),
{
}

proof fn lemma_lane_index(x: int, y: int, h: int)
    requires
        0 <= x < 5,
        0 <= y < 5,
        0 <= h < 2,
    ensures
        ({
            let k = 2 * (5 * x + y) + h;
            &&& lane_x(k / 2) == x
            &&& lane_y(k / 2) == y
            &&& k % 2 == h
            &&& 0 <= k < 50
        }),
{
    let k = 2 * (5 * x + y) + h;
    vstd::arithmetic::div_mod::lemma_fundamental_div_mod_converse(k, 2, 5 * x + y, h);
    vstd::arithmetic::div_mod::lemma_fundamental_div_mod_converse(5 * x + y, 5, x, y);
}

/// Tamper sensitivity: flipping one bit of a stored value of a trace row (an input
/// limb, `C`, `C'`, `A'`, an `A''` limb, a bit of `A''[0, 0]`, or a limb of
/// `A'''[0, 0]`) leaves some general constraint with a non-zero residual.
pub proof fn lemma_tamper_detected(row: Seq<u64>, s: State, round: int, f: u64, c: int, k: int)
    requires
        is_trace_row(row, s, round, f),
        0 <= round < NUM_ROUNDS,
        is_stored_bit(c, k),
    ensures
        exists|j: int|
            0 <= j < general_residuals(flip(row, c, k)).len() && #[trigger] general_residuals(flip(row, c, k))[j]
                != 0,
{
    let t = flip(row, c, k);
    let g = general_residuals(t);
    if REG_A <= c < REG_C {
        let lane = (c - REG_A) / 2;
        let h = (c - REG_A) % 2;
        let x = lane % 5;
        let y = lane / 5;
        assert(c == col_a(x, y) + h);
        lemma_tamper_a(row, s, round, f, x, y, h, k);
        lemma_lane_index(x, y, h);
        let j = 322 + 2 * (5 * x + y) + h;
        assert(g[j] == input_residual(t, x, y, h) as u64);
        assert(g[j] != 0);
    } else if REG_C <= c < REG_C_PRIME {
        let x = (c - REG_C) / 64;
        let z = (c - REG_C) % 64;
        assert(c == col_c(x, z));
        lemma_tamper_c(row, s, round, f, x, z);
        let j = 2 + 64 * x + z;
        assert(g[j] == theta_residual(t, x, z) as u64);
        assert(g[j] != 0);
    } else if REG_C_PRIME <= c < REG_A_PRIME {
        let x = (c - REG_C_PRIME) / 64;
        let z = (c - REG_C_PRIME) % 64;
        assert(c == col_c_prime(x, z));
        lemma_tamper_c_prime(row, s, round, f, x, z);
        let j = 2 + 64 * x + z;
        assert(g[j] == theta_residual(t, x, z) as u64);
        assert(g[j] != 0);
    } else if REG_A_PRIME <= c < REG_A_PRIME_PRIME {
        let y = (c - REG_A_PRIME) / 320;
        let x = (c - REG_A_PRIME) % 320 / 64;
        let z = (c - REG_A_PRIME) % 64;
        assert(c == col_a_prime(x, y, z));
        lemma_tamper_a_prime(row, s, round, f, x, y, z);
        let h = z / 32;
        lemma_lane_index(x, y, h);
        let j = 322 + 2 * (5 * x + y) + h;
        assert(g[j] == input_residual(t, x, y, h) as u64);
        assert(g[j] != 0);
    } else if REG_A_PRIME_PRIME <= c < REG_A_PRIME_PRIME_0_0_BITS {
        let y = (c - REG_A_PRIME_PRIME) / 10;
        let x = (c - REG_A_PRIME_PRIME) % 10 / 2;
        let h = (c - REG_A_PRIME_PRIME) % 2;
        assert(c == col_a_prime_prime(x, y) + h);
        lemma_tamper_a_prime_prime(row, s, round, f, x, y, h, k);
        lemma_lane_index(x, y, h);
        let j = 692 + 2 * (5 * x + y) + h;
        assert(g[j] == chi_residual(t, x, y, h) as u64);
        assert(g[j] != 0);
    } else if REG_A_PRIME_PRIME_0_0_BITS <= c < REG_A_PRIME_PRIME_PRIME_0_0_LO {
        let i = c - REG_A_PRIME_PRIME_0_0_BITS;
        assert(c == col_a_prime_prime_0_0_bit(i));
        lemma_tamper_bit(row, s, round, f, i);
        let j = 742 + i / 32;
        assert(g[j] == split_residual(t, i / 32) as u64);
        assert(g[j] != 0);
    } else {
        let h = c - REG_A_PRIME_PRIME_PRIME_0_0_LO;
        lemma_tamper_a_prime_prime_prime(row, s, round, f, h, k);
        let j = 744 + h;
        assert(g[j] == iota_residual(t, h) as u64);
        assert(g[j] != 0);
    }
}

} // verus!
