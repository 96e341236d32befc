//! A table built by the trace generator satisfies every constraint.
use crate::columns::{
    col_a, col_a_prime, col_a_prime_prime, col_a_prime_prime_0_0_bit, col_a_prime_prime_prime, col_c,
    col_c_prime, col_step, NUM_COLUMNS, NUM_PUBLIC_INPUTS, REG_A, REG_A_PRIME, REG_A_PRIME_PRIME,
    REG_A_PRIME_PRIME_0_0_BITS, REG_A_PRIME_PRIME_PRIME_0_0_LO, REG_C, REG_C_PRIME, REG_FILTER,
};
use crate::constraints::{
    chi_bits, chi_residual, first_row_residuals, flag_residual, general_residuals, input_bits, input_residual,
    iota_bits, iota_residual, is_field_row, lane_x, lane_y, output_residual, chain_residual, pack_value,
    parity_residual, rc_select, split_bits, split_residual, theta_residual, transition_residuals, val,
};
use crate::field::{b2f, fadd, fmul, fsub, lemma_mod_shift, order, ORDER};
use crate::keccak_stark::{filter_of, input_of, is_table_row, is_trace_row, keccak_f_limb, public_input_of};
use crate::table_laws::{is_table, lemma_table_chaining, lemma_table_output_is_keccak_f};
use crate::limbs::{
    bits_value, lemma_limb_bound, lemma_limb_of_bits, limb_bit, };
use crate::logic::lemma_poly_gadgets_on_bits;
use crate::permutation::{
    chi, keccak_f, rc_bit, rho_pi, rounds, state_of_lanes, theta, theta_c, xor, State, NUM_INPUTS, NUM_ROUNDS,
};
use crate::round::{
    c_prime_spec, chi_limb, chi_limb_bits, is_round_row, lemma_b_column, round_limb,
    round_limb_bits, row_state,
};
use vstd::arithmetic::div_mod::lemma_fundamental_div_mod_converse;
use vstd::prelude::*;

verus! {

pub proof fn lemma_small_add(a: int, b: int)
    requires
        0 <= a,
        0 <= b,
        a + b < order(),
    ensures
        fadd(a, b) == a + b,
{
    lemma_mod_shift(a + b, 0);
}

pub proof fn lemma_field_zero(v: int)
    ensures
        fsub(v, v) == 0,
        fmul(0, v) == 0,
        fmul(v, 0) == 0,
{
    lemma_mod_shift(0, 0);
}

/// Packing field bits from the top gives the place-value sum of the bits.
pub proof fn lemma_pack_bits(bits: Seq<u64>, g: spec_fn(int) -> bool, lo: int)
    requires
        bits.len() == 32,
        0 <= lo <= 32,
        forall|z: int| 0 <= z < 32 ==> #[trigger] bits[z] == b2f(g(z)),
    ensures
        pack_value(bits, lo) == bits_value(g, lo, 32),
    decreases 32 - lo,
{
    if lo < 32 {
        lemma_pack_bits(bits, g, lo + 1);
        lemma_limb_bound(g, lo + 1);
        let acc = bits_value(g, lo + 1, 32) as int;
        lemma_small_add(acc, acc);
        lemma_small_add(2 * acc, bits[lo] as int);
    }
}

/// Every entry of a trace row is a field element (in fact below `2^32`).
pub proof fn lemma_trace_row_is_field_row(row: Seq<u64>, s: State, round: int, filter: u64)
    requires
        is_trace_row(row, s, round, filter),
        0 <= round < NUM_ROUNDS,
        filter <= 1,
    ensures
        is_field_row(row, NUM_COLUMNS as int),
{
    reveal(is_round_row);
    assert forall|i: int| 0 <= i < NUM_COLUMNS implies #[trigger] row[i] < ORDER by {
        if i < REG_A {
            if i != round {
                assert(row[col_step(i)] == 0);
            }
        } else if i < REG_C {
            let j = (i - REG_A) / 2;
            let h = (i - REG_A) % 2;
            lemma_fundamental_div_mod_converse(j, 5, j / 5, j % 5);
            assert(i == col_a(j % 5, j / 5) + h);
            assert(row[col_a(j % 5, j / 5) + h] < 0x1_0000_0000);
        } else if i < REG_C_PRIME {
            let x = (i - REG_C) / 64;
            let z = (i - REG_C) % 64;
            assert(i == col_c(x, z));
            assert(row[col_c(x, z)] == b2f(theta_c(s, x, z)));
        } else if i < REG_A_PRIME {
            let x = (i - REG_C_PRIME) / 64;
            let z = (i - REG_C_PRIME) % 64;
            assert(i == col_c_prime(x, z));
            assert(row[col_c_prime(x, z)] == b2f(c_prime_spec(s, x, z)));
        } else if i < REG_A_PRIME_PRIME {
            let y = (i - REG_A_PRIME) / 320;
            let x = (i - REG_A_PRIME) % 320 / 64;
            let z = (i - REG_A_PRIME) % 64;
            assert(i == col_a_prime(x, y, z));
            assert(row[col_a_prime(x, y, z)] == b2f(theta(s, x, y, z)));
        } else if i < REG_A_PRIME_PRIME_0_0_BITS {
            let y = (i - REG_A_PRIME_PRIME) / 10;
            let x = (i - REG_A_PRIME_PRIME) % 10 / 2;
            let h = (i - REG_A_PRIME_PRIME) % 2;
            assert(i == col_a_prime_prime(x, y) + h);
            lemma_limb_bound(chi_limb_bits(s, x, y, h), 0);
            assert(row[col_a_prime_prime(x, y) + h] == chi_limb(s, x, y, h));
        } else if i < REG_A_PRIME_PRIME_PRIME_0_0_LO {
            assert(i == col_a_prime_prime_0_0_bit(i - REG_A_PRIME_PRIME_0_0_BITS));
            assert(row[col_a_prime_prime_0_0_bit(i - REG_A_PRIME_PRIME_0_0_BITS)] == b2f(
                chi(s, 0, 0, i - REG_A_PRIME_PRIME_0_0_BITS),
            ));
        } else if i < REG_FILTER {
            let h = i - REG_A_PRIME_PRIME_PRIME_0_0_LO;
            lemma_limb_bound(round_limb_bits(s, round, 0, 0, h), 0);
            assert(row[REG_A_PRIME_PRIME_PRIME_0_0_LO + h] == round_limb(s, round, 0, 0, h));
        }
    }
}

pub proof fn lemma_theta_zero(row: Seq<u64>, s: State, round: int, x: int, z: int)
    requires
        is_round_row(row, s, round),
        0 <= x < 5,
        0 <= z < 64,
    ensures
        theta_residual(row, x, z) == 0,
{
    reveal(is_round_row);
    let c0 = theta_c(s, x, z);
    let c1 = theta_c(s, (x + 4) % 5, z);
    let c2 = theta_c(s, (x + 1) % 5, (z + 63) % 64);
    assert(row[col_c(x, z)] == b2f(c0));
    assert(row[col_c((x + 4) % 5, z)] == b2f(c1));
    assert(row[col_c((x + 1) % 5, (z + 63) % 64)] == b2f(c2));
    assert(row[col_c_prime(x, z)] == b2f(c_prime_spec(s, x, z)));
    lemma_poly_gadgets_on_bits(c0, c1, c2);
    lemma_field_zero(b2f(c_prime_spec(s, x, z)) as int);
}

pub proof fn lemma_input_zero(row: Seq<u64>, s: State, round: int, x: int, y: int, h: int)
    requires
        is_trace_row(row, s, round, row[REG_FILTER as int]),
        0 <= x < 5,
        0 <= y < 5,
        0 <= h < 2,
    ensures
        input_residual(row, x, y, h) == 0,
{
    reveal(is_round_row);
    let limb = row[col_a(x, y) + h];
    assert(limb < 0x1_0000_0000);
    let g = |z: int| limb_bit(((limb as u32) as u64), z);
    let bits = input_bits(row, x, y, h);
    assert forall|z: int| 0 <= z < 32 implies #[trigger] bits[z] == b2f(g(z)) by {
        let w = z + 32 * h;
        let a = theta(s, x, y, w);
        let c = theta_c(s, x, w);
        let cp = c_prime_spec(s, x, w);
        assert(row[col_a_prime(x, y, w)] == b2f(a));
        assert(row[col_c(x, w)] == b2f(c));
        assert(row[col_c_prime(x, w)] == b2f(cp));
        lemma_poly_gadgets_on_bits(a, c, cp);
        assert(row_state(row)(x, y, w) == s(x, y, w));
        assert(w / 32 == h);
        assert(w % 32 == z);
    }
    lemma_pack_bits(bits, g, 0);
    lemma_limb_of_bits(limb as u32);
    lemma_field_zero(limb as int);
}

proof fn lemma_parity_arith(a0: bool, a1: bool, a2: bool, a3: bool, a4: bool, c: bool)
    requires
        c == xor(xor(xor(xor(a0, a1), a2), a3), a4),
    ensures
        ({
            let sum = fadd(
                fadd(fadd(fadd(b2f(a0) as int, b2f(a1) as int), b2f(a2) as int), b2f(a3) as int),
                b2f(a4) as int,
            );
            let d = fsub(sum, b2f(c) as int);
            fmul(fmul(d, fsub(d, 2)), fsub(d, 4)) == 0
        }),
{
    let v0 = b2f(a0) as int;
    let v1 = b2f(a1) as int;
    let v2 = b2f(a2) as int;
    let v3 = b2f(a3) as int;
    let v4 = b2f(a4) as int;
    lemma_small_add(v0, v1);
    lemma_small_add(v0 + v1, v2);
    lemma_small_add(v0 + v1 + v2, v3);
    lemma_small_add(v0 + v1 + v2 + v3, v4);
    let sum = v0 + v1 + v2 + v3 + v4;
    let d = sum - b2f(c) as int;
    assert(d == 0 || d == 2 || d == 4);
    lemma_mod_shift(d, 0);
    lemma_mod_shift(0, 0);
    lemma_field_zero(fsub(d, 4));
    lemma_field_zero(fsub(d, 2));
    lemma_field_zero(d);
    lemma_field_zero(fmul(d, fsub(d, 2)));
}

proof fn lemma_parity_zero(row: Seq<u64>, s: State, round: int, x: int, z: int)
    requires
        is_round_row(row, s, round),
        0 <= x < 5,
        0 <= z < 64,
    ensures
        parity_residual(row, x, z) == 0,
{
    reveal(is_round_row);
    assert(row[col_a_prime(x, 0, z)] == b2f(theta(s, x, 0, z)));
    assert(row[col_a_prime(x, 1, z)] == b2f(theta(s, x, 1, z)));
    assert(row[col_a_prime(x, 2, z)] == b2f(theta(s, x, 2, z)));
    assert(row[col_a_prime(x, 3, z)] == b2f(theta(s, x, 3, z)));
    assert(row[col_a_prime(x, 4, z)] == b2f(theta(s, x, 4, z)));
    assert(row[col_c_prime(x, z)] == b2f(c_prime_spec(s, x, z)));
    lemma_parity_arith(
        theta(s, x, 0, z),
        theta(s, x, 1, z),
        theta(s, x, 2, z),
        theta(s, x, 3, z),
        theta(s, x, 4, z),
        c_prime_spec(s, x, z),
    );
}

pub proof fn lemma_chi_zero(row: Seq<u64>, s: State, round: int, x: int, y: int, h: int)
    requires
        is_round_row(row, s, round),
        0 <= x < 5,
        0 <= y < 5,
        0 <= h < 2,
    ensures
        chi_residual(row, x, y, h) == 0,
{
    reveal(is_round_row);
    let bits = chi_bits(row, x, y, h);
    let g = chi_limb_bits(s, x, y, h);
    assert forall|z: int| 0 <= z < 32 implies #[trigger] bits[z] == b2f(g(z)) by {
        let w = z + 32 * h;
        lemma_b_column(row, s, x, y, w);
        lemma_b_column(row, s, (x + 1) % 5, y, w);
        lemma_b_column(row, s, (x + 2) % 5, y, w);
        let b1 = rho_pi(s, (x + 1) % 5, y, w);
        let b2 = rho_pi(s, (x + 2) % 5, y, w);
        lemma_poly_gadgets_on_bits(b1, b2, b2);
        lemma_poly_gadgets_on_bits(rho_pi(s, x, y, w), !b1 && b2, b2);
    }
    lemma_pack_bits(bits, g, 0);
    assert(row[col_a_prime_prime(x, y) + h] == chi_limb(s, x, y, h));
    lemma_field_zero(chi_limb(s, x, y, h) as int);
}

pub proof fn lemma_split_zero(row: Seq<u64>, s: State, round: int, h: int)
    requires
        is_round_row(row, s, round),
        0 <= h < 2,
    ensures
        split_residual(row, h) == 0,
{
    reveal(is_round_row);
    let bits = split_bits(row, h);
    let g = chi_limb_bits(s, 0, 0, h);
    assert forall|z: int| 0 <= z < 32 implies #[trigger] bits[z] == b2f(g(z)) by {
        assert(row[col_a_prime_prime_0_0_bit(z + 32 * h)] == b2f(chi(s, 0, 0, z + 32 * h)));
    }
    lemma_pack_bits(bits, g, 0);
    assert(row[col_a_prime_prime(0, 0) + h] == chi_limb(s, 0, 0, h));
    lemma_field_zero(chi_limb(s, 0, 0, h) as int);
}

/// With one round flag set, the weighted sum selects that round's constant bit.
proof fn lemma_rc_select(row: Seq<u64>, round: int, i: int, n: int)
    requires
        row.len() == NUM_COLUMNS,
        0 <= round < NUM_ROUNDS,
        0 <= n <= NUM_ROUNDS,
        row[col_step(round)] == 1,
        forall|j: int| 0 <= j < NUM_ROUNDS && j != round ==> #[trigger] row[col_step(j)] == 0,
    ensures
        rc_select(row, i, n) == (if round < n { b2f(rc_bit(round, i)) as int } else { 0 }),
    decreases n,
{
    if n > 0 {
        lemma_rc_select(row, round, i, n - 1);
        let b = b2f(rc_bit(n - 1, i)) as int;
        lemma_mod_shift(b, 0);
        lemma_mod_shift(0, 0);
        let prev = rc_select(row, i, n - 1);
        if n - 1 == round {
            assert(fmul(1, b) == b);
            lemma_small_add(prev, b);
        } else {
            assert(fmul(0, b) == 0);
            lemma_small_add(prev, 0);
        }
    }
}

pub proof fn lemma_iota_zero(row: Seq<u64>, s: State, round: int, h: int)
    requires
        is_trace_row(row, s, round, row[REG_FILTER as int]),
        0 <= round < NUM_ROUNDS,
        0 <= h < 2,
    ensures
        iota_residual(row, h) == 0,
{
    reveal(is_round_row);
    let bits = iota_bits(row, h);
    let g = round_limb_bits(s, round, 0, 0, h);
    assert forall|z: int| 0 <= z < 32 implies #[trigger] bits[z] == b2f(g(z)) by {
        let w = z + 32 * h;
        lemma_rc_select(row, round, w, NUM_ROUNDS as int);
        assert(row[col_a_prime_prime_0_0_bit(w)] == b2f(chi(s, 0, 0, w)));
        lemma_poly_gadgets_on_bits(chi(s, 0, 0, w), rc_bit(round, w), false);
    }
    lemma_pack_bits(bits, g, 0);
    assert(row[REG_A_PRIME_PRIME_PRIME_0_0_LO + h] == round_limb(s, round, 0, 0, h));
    lemma_field_zero(round_limb(s, round, 0, 0, h) as int);
}

/// Every general constraint vanishes on a trace row whose filter is a bit that is on
/// only on the last round.
pub proof fn lemma_general_zero(row: Seq<u64>, s: State, round: int, f: u64)
    requires
        is_trace_row(row, s, round, f),
        0 <= round < NUM_ROUNDS,
        f <= 1,
        f == 1 ==> round == NUM_ROUNDS - 1,
    ensures
        forall|j: int| 0 <= j < general_residuals(row).len() ==> #[trigger] general_residuals(row)[j] == 0,
{
    reveal(is_round_row);
    lemma_mod_shift(0, 0);
    lemma_mod_shift(1, 0);
    lemma_field_zero(1);
    lemma_field_zero(0);
    lemma_field_zero(fsub(0, 1));
    if f == 1 {
        assert(row[col_step(NUM_ROUNDS - 1)] == 1);
    }
    assert forall|x: int, z: int| 0 <= x < 5 && 0 <= z < 64 implies #[trigger] theta_residual(row, x, z) == 0 by {
        lemma_theta_zero(row, s, round, x, z);
    }
    assert forall|x: int, z: int| 0 <= x < 5 && 0 <= z < 64 implies #[trigger] parity_residual(row, x, z) == 0 by {
        lemma_parity_zero(row, s, round, x, z);
    }
    assert forall|x: int, y: int, h: int| 0 <= x < 5 && 0 <= y < 5 && 0 <= h < 2 implies #[trigger] input_residual(
        row,
        x,
        y,
        h,
    ) == 0 by {
        lemma_input_zero(row, s, round, x, y, h);
    }
    assert forall|x: int, y: int, h: int| 0 <= x < 5 && 0 <= y < 5 && 0 <= h < 2 implies #[trigger] chi_residual(
        row,
        x,
        y,
        h,
    ) == 0 by {
        lemma_chi_zero(row, s, round, x, y, h);
    }
    assert forall|h: int| 0 <= h < 2 implies #[trigger] split_residual(row, h) == 0 by {
        lemma_split_zero(row, s, round, h);
    }
    assert forall|h: int| 0 <= h < 2 implies #[trigger] iota_residual(row, h) == 0 by {
        lemma_iota_zero(row, s, round, h);
    }
    let g = general_residuals(row);
    assert forall|j: int| 0 <= j < g.len() implies #[trigger] g[j] == 0 by {
        if j < 2 {
        } else if j < 322 {
            let k = j - 2;
            assert(0 <= k / 64 < 5 && 0 <= k % 64 < 64);
            assert(theta_residual(row, k / 64, k % 64) == 0);
        } else if j < 372 {
            let k = j - 322;
            assert(0 <= lane_x(k / 2) < 5 && 0 <= lane_y(k / 2) < 5 && 0 <= k % 2 < 2);
            assert(input_residual(row, lane_x(k / 2), lane_y(k / 2), k % 2) == 0);
        } else if j < 692 {
            let k = j - 372;
            assert(0 <= k / 64 < 5 && 0 <= k % 64 < 64);
            assert(parity_residual(row, k / 64, k % 64) == 0);
        } else if j < 742 {
            let k = j - 692;
            assert(0 <= lane_x(k / 2) < 5 && 0 <= lane_y(k / 2) < 5 && 0 <= k % 2 < 2);
            assert(chi_residual(row, lane_x(k / 2), lane_y(k / 2), k % 2) == 0);
        } else if j < 744 {
            assert(split_residual(row, j - 742) == 0);
        } else {
            assert(iota_residual(row, j - 744) == 0);
        }
    }
}

/// On row 0 of a table the first-row constraints vanish.
pub proof fn lemma_first_row_zero(row: Seq<u64>, s: State, f: u64)
    requires
        is_trace_row(row, s, 0, f),
    ensures
        forall|j: int| 0 <= j < first_row_residuals(row).len() ==> #[trigger] first_row_residuals(row)[j] == 0,
{
    reveal(is_round_row);
    lemma_field_zero(1);
    assert forall|j: int| 0 <= j < first_row_residuals(row).len() implies #[trigger] first_row_residuals(row)[j]
        == 0 by {
        if j > 0 {
            assert(row[col_step(j)] == 0);
        }
    }
}

/// The lanes of Keccak-f applied to `input`, assembled from their limbs.
pub open spec fn keccak_f_lanes(input: Seq<u64>) -> Seq<u64> {
    Seq::new(
        25,
        |j: int|
            (keccak_f_limb(input, j % 5, j / 5, 0) + 0x1_0000_0000 * keccak_f_limb(input, j % 5, j / 5, 1)) as u64,
    )
}

proof fn lemma_join_limbs(lo: u64, hi: u64, v: u64)
    requires
        lo < 0x1_0000_0000,
        hi < 0x1_0000_0000,
        v == lo + 0x1_0000_0000 * hi,
    ensures
        v & 0xFFFF_FFFF == lo,
        v >> 32u64 == hi,
{
    assert(v & 0xFFFF_FFFF == lo && v >> 32u64 == hi) by (bit_vector)
        requires
            lo < 0x1_0000_0000,
            hi < 0x1_0000_0000,
            v == lo + 0x1_0000_0000 * hi,
    ;
}

/// The public inputs of the lanes of Keccak-f are the limbs of those lanes.
pub proof fn lemma_public_input_limbs(input: Seq<u64>, x: int, y: int, h: int)
    requires
        input.len() == 25,
        0 <= x < 5,
        0 <= y < 5,
        0 <= h < 2,
    ensures
        public_input_of(keccak_f_lanes(input), 2 * (5 * y + x) + h) == keccak_f_limb(input, x, y, h),
{
    let j = 5 * y + x;
    let i = 2 * j + h;
    lemma_fundamental_div_mod_converse(i, 2, j, h);
    lemma_fundamental_div_mod_converse(j, 5, y, x);
    let lo = keccak_f_limb(input, x, y, 0);
    let hi = keccak_f_limb(input, x, y, 1);
    lemma_limb_bound(|z: int| keccak_f(state_of_lanes(input))(x, y, z + 32 * 0), 0);
    lemma_limb_bound(|z: int| keccak_f(state_of_lanes(input))(x, y, z + 32 * 1), 0);
    lemma_join_limbs(lo as u64, hi as u64, (lo + 0x1_0000_0000 * hi) as u64);
}

proof fn lemma_flags_zero(l: Seq<u64>, n: Seq<u64>, r: int)
    requires
        0 <= r < NUM_ROUNDS,
        l.len() == NUM_COLUMNS,
        n.len() == NUM_COLUMNS,
        l[col_step(r)] == 1,
        forall|j: int| 0 <= j < NUM_ROUNDS && j != r ==> #[trigger] l[col_step(j)] == 0,
        n[col_step((r + 1) % NUM_ROUNDS as int)] == 1,
        forall|j: int| 0 <= j < NUM_ROUNDS && j != (r + 1) % NUM_ROUNDS as int ==> #[trigger] n[col_step(j)] == 0,
    ensures
        forall|j: int| 0 <= j < NUM_ROUNDS ==> #[trigger] flag_residual(l, n, j) == 0,
{
    lemma_field_zero(0);
    lemma_field_zero(1);
    assert forall|j: int| 0 <= j < NUM_ROUNDS implies #[trigger] flag_residual(l, n, j) == 0 by {
        if j != r {
            assert(l[col_step(j)] == 0);
            assert(n[col_step((j + 1) % NUM_ROUNDS as int)] == 0);
        }
    }
}

/// The basic facts of one table row: its width, its filter and its round flags.
proof fn lemma_table_row_basics(inputs: Seq<[u64; NUM_INPUTS]>, rows: Seq<Vec<u64>>, i: int)
    requires
        is_table(inputs, rows),
        0 <= i < rows.len(),
    ensures
        rows[i]@.len() == NUM_COLUMNS,
        rows[i]@[REG_FILTER as int] == filter_of(inputs.len() as int, i),
        rows[i]@[col_step(i % NUM_ROUNDS as int)] == 1,
        forall|j: int| 0 <= j < NUM_ROUNDS && j != i % NUM_ROUNDS as int ==> #[trigger] rows[i]@[col_step(j)] == 0,
{
    reveal(is_table);
    assert(is_table_row(inputs, rows[i]@, i));
}

#[verifier::spinoff_prover]
#[verifier::rlimit(60)]
proof fn lemma_output_zero(
    inputs: Seq<[u64; NUM_INPUTS]>,
    rows: Seq<Vec<u64>>,
    output: Seq<u64>,
    pi: Seq<u64>,
    i: int,
    x: int,
    y: int,
    h: int,
)
    requires
        is_table(inputs, rows),
        rows.len() >= NUM_ROUNDS * inputs.len(),
        forall|b: int| 0 <= b < inputs.len() ==> keccak_f_lanes(#[trigger] inputs[b]@) == output,
        pi.len() == NUM_PUBLIC_INPUTS,
        forall|j: int| 0 <= j < NUM_PUBLIC_INPUTS ==> #[trigger] pi[j] == public_input_of(output, j),
        0 <= i < rows.len(),
        0 <= x < 5,
        0 <= y < 5,
        0 <= h < 2,
    ensures
        output_residual(rows[i]@, pi, x, y, h) == 0,
{
    let l = rows[i]@;
    let q = i / NUM_ROUNDS as int;
    lemma_table_row_basics(inputs, rows, i);
    lemma_mod_shift(0, 0);
    lemma_mod_shift(1, 0);
    let out = val(l, col_a_prime_prime_prime(x, y) + h);
    if l[REG_FILTER as int] == 1 {
        lemma_fundamental_div_mod_converse(i, NUM_ROUNDS as int, q, NUM_ROUNDS - 1);
        lemma_table_output_is_keccak_f(inputs, rows, q, x, y, h);
        lemma_public_input_limbs(inputs[q]@, x, y, h);
        assert(pi[2 * (5 * y + x) + h] == public_input_of(output, 2 * (5 * y + x) + h));
        lemma_field_zero(out);
        lemma_field_zero(1);
    } else {
        lemma_field_zero(fsub(out, pi[2 * (5 * y + x) + h] as int));
    }
}

#[verifier::spinoff_prover]
#[verifier::rlimit(60)]
proof fn lemma_chain_zero(inputs: Seq<[u64; NUM_INPUTS]>, rows: Seq<Vec<u64>>, i: int, x: int, y: int, h: int)
    requires
        is_table(inputs, rows),
        0 <= i,
        i + 1 < rows.len(),
        0 <= x < 5,
        0 <= y < 5,
        0 <= h < 2,
    ensures
        chain_residual(rows[i]@, rows[i + 1]@, x, y, h) == 0,
{
    let l = rows[i]@;
    let n = rows[i + 1]@;
    lemma_table_row_basics(inputs, rows, i);
    lemma_table_row_basics(inputs, rows, i + 1);
    lemma_mod_shift(0, 0);
    lemma_mod_shift(1, 0);
    let out = val(l, col_a_prime_prime_prime(x, y) + h);
    if l[col_step(NUM_ROUNDS - 1)] == 1 {
        lemma_field_zero(1);
        lemma_field_zero(fsub(out, val(n, col_a(x, y) + h)));
    } else {
        lemma_table_chaining(inputs, rows, i, x, y, h);
        lemma_field_zero(out);
        lemma_field_zero(fsub(1, val(l, col_step(NUM_ROUNDS - 1))));
    }
}

/// On two consecutive rows of a table whose public inputs are the output of every
/// permutation in it, the transition constraints vanish.
#[verifier::spinoff_prover]
#[verifier::rlimit(60)]
proof fn lemma_table_flags(inputs: Seq<[u64; NUM_INPUTS]>, rows: Seq<Vec<u64>>, i: int)
    requires
        is_table(inputs, rows),
        0 <= i,
        i + 1 < rows.len(),
    ensures
        forall|j: int| 0 <= j < NUM_ROUNDS ==> #[trigger] flag_residual(rows[i]@, rows[i + 1]@, j) == 0,
{
    reveal(is_table);
    let l = rows[i]@;
    let n = rows[i + 1]@;
    let q = i / NUM_ROUNDS as int;
    let r = i % NUM_ROUNDS as int;
    assert(is_table_row(inputs, l, i));
    assert(is_table_row(inputs, n, i + 1));
    if r + 1 < NUM_ROUNDS {
        lemma_fundamental_div_mod_converse(i + 1, NUM_ROUNDS as int, q, r + 1);
    } else {
        lemma_fundamental_div_mod_converse(i + 1, NUM_ROUNDS as int, q + 1, 0);
    }
    let rn = (i + 1) % NUM_ROUNDS as int;
    assert(rn == (r + 1) % NUM_ROUNDS as int);
    lemma_flags_zero(l, n, r);
}

proof fn lemma_transition_seq_zero(l: Seq<u64>, n: Seq<u64>, pi: Seq<u64>)
    requires
        forall|j: int| 0 <= j < NUM_ROUNDS ==> #[trigger] flag_residual(l, n, j) == 0,
        forall|x: int, y: int, h: int|
            0 <= x < 5 && 0 <= y < 5 && 0 <= h < 2 ==> #[trigger] output_residual(l, pi, x, y, h) == 0,
        forall|x: int, y: int, h: int|
            0 <= x < 5 && 0 <= y < 5 && 0 <= h < 2 ==> #[trigger] chain_residual(l, n, x, y, h) == 0,
    ensures
        forall|j: int|
            0 <= j < transition_residuals(l, n, pi).len() ==> #[trigger] transition_residuals(l, n, pi)[j] == 0,
{
    let t = transition_residuals(l, n, pi);
    assert forall|j: int| 0 <= j < t.len() implies #[trigger] t[j] == 0 by {
        if j < 24 {
            assert(flag_residual(l, n, j) == 0);
        } else if j < 74 {
            let k = j - 24;
            assert(0 <= lane_x(k / 2) < 5 && 0 <= lane_y(k / 2) < 5 && 0 <= k % 2 < 2);
            assert(output_residual(l, pi, lane_x(k / 2), lane_y(k / 2), k % 2) == 0);
        } else {
            let k = j - 74;
            assert(0 <= lane_x(k / 2) < 5 && 0 <= lane_y(k / 2) < 5 && 0 <= k % 2 < 2);
            assert(chain_residual(l, n, lane_x(k / 2), lane_y(k / 2), k % 2) == 0);
        }
    }
}

#[verifier::spinoff_prover]
#[verifier::rlimit(60)]
pub proof fn lemma_transition_zero(
    inputs: Seq<[u64; NUM_INPUTS]>,
    rows: Seq<Vec<u64>>,
    output: Seq<u64>,
    pi: Seq<u64>,
    i: int,
)
    requires
        is_table(inputs, rows),
        rows.len() >= NUM_ROUNDS * inputs.len(),
        forall|b: int| 0 <= b < inputs.len() ==> keccak_f_lanes(#[trigger] inputs[b]@) == output,
        pi.len() == NUM_PUBLIC_INPUTS,
        forall|j: int| 0 <= j < NUM_PUBLIC_INPUTS ==> #[trigger] pi[j] == public_input_of(output, j),
        0 <= i,
        i + 1 < rows.len(),
    ensures
        forall|j: int|
            0 <= j < transition_residuals(rows[i]@, rows[i + 1]@, pi).len() ==> #[trigger] transition_residuals(
                rows[i]@,
                rows[i + 1]@,
                pi,
            )[j] == 0,
{
    let l = rows[i]@;
    let n = rows[i + 1]@;
    lemma_table_flags(inputs, rows, i);
    assert forall|x: int, y: int, h: int| 0 <= x < 5 && 0 <= y < 5 && 0 <= h < 2 implies #[trigger] output_residual(
        l,
        pi,
        x,
        y,
        h,
    ) == 0 by {
        lemma_output_zero(inputs, rows, output, pi, i, x, y, h);
    }
    assert forall|x: int, y: int, h: int| 0 <= x < 5 && 0 <= y < 5 && 0 <= h < 2 implies #[trigger] chain_residual(
        l,
        n,
        x,
        y,
        h,
    ) == 0 by {
        lemma_chain_zero(inputs, rows, i, x, y, h);
    }
    lemma_transition_seq_zero(l, n, pi);
}

/// Completeness: a table built from inputs whose permutations all have the
/// output `output`, with the public inputs of `output`, satisfies every
/// constraint: its rows are field rows, the general constraints vanish on each
/// row, the transition constraints on each row but the last, and the first-row
/// constraints on the first row.
#[verifier::spinoff_prover]
#[verifier::rlimit(60)]
pub proof fn lemma_table_satisfies_constraints(
    inputs: Seq<[u64; NUM_INPUTS]>,
    rows: Seq<Vec<u64>>,
    output: Seq<u64>,
    pi: Seq<u64>,
    i: int,
)
    requires
        is_table(inputs, rows),
        rows.len() >= NUM_ROUNDS * inputs.len(),
        forall|b: int| 0 <= b < inputs.len() ==> keccak_f_lanes(#[trigger] inputs[b]@) == output,
        pi.len() == NUM_PUBLIC_INPUTS,
        forall|j: int| 0 <= j < NUM_PUBLIC_INPUTS ==> #[trigger] pi[j] == public_input_of(output, j),
        0 <= i < rows.len(),
    ensures
        is_field_row(rows[i]@, NUM_COLUMNS as int),
        forall|j: int|
            0 <= j < general_residuals(rows[i]@).len() ==> #[trigger] general_residuals(rows[i]@)[j] == 0,
        i + 1 < rows.len() ==> forall|j: int|
            0 <= j < transition_residuals(rows[i]@, rows[i + 1]@, pi).len() ==> #[trigger] transition_residuals(
                rows[i]@,
                rows[i + 1]@,
                pi,
            )[j] == 0,
        i == 0 ==> forall|j: int|
            0 <= j < first_row_residuals(rows[i]@).len() ==> #[trigger] first_row_residuals(rows[i]@)[j] == 0,
{
    reveal(is_table);
    assert(is_table_row(inputs, rows[i]@, i));
    let r = i % NUM_ROUNDS as int;
    let s = rounds(state_of_lanes(input_of(inputs, i)), r as nat);
    let f = filter_of(inputs.len() as int, i);
    lemma_trace_row_is_field_row(rows[i]@, s, r, f);
    lemma_general_zero(rows[i]@, s, r, f);
    if i + 1 < rows.len() {
        lemma_transition_zero(inputs, rows, output, pi, i);
    }
    if i == 0 {
        lemma_first_row_zero(rows[i]@, s, f);
    }
}

} // verus!
