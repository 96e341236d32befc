//! Facts about whole tables built by the trace generator.
use crate::columns::{col_a, col_a_prime_prime_prime, col_step};
use crate::keccak_stark::{input_of, is_table_row, keccak_f_limb};
use crate::limbs::{lemma_bits_value_congruent, lemma_limb_of_bits, limb_bit};
use crate::permutation::{keccak_f, keccak_round, rounds, state_of_lanes, NUM_INPUTS, NUM_ROUNDS};
use crate::round::{lemma_round_row_output, round_limb_bits, row_state};
use vstd::arithmetic::div_mod::lemma_fundamental_div_mod_converse;
use vstd::prelude::*;

verus! {

/// A table as the generator returns it: each row is the row of its index.
#[verifier::opaque]
pub open spec fn is_table(inputs: Seq<[u64; NUM_INPUTS]>, rows: Seq<Vec<u64>>) -> bool {
    forall|i: int| 0 <= i < rows.len() ==> is_table_row(inputs, #[trigger] rows[i]@, i)
}

/// Round trip: the last row of the block of input `b` holds, as the limbs of its
/// output lanes, the Keccak-f permutation of that input.
pub proof fn lemma_table_output_is_keccak_f(
    inputs: Seq<[u64; NUM_INPUTS]>,
    rows: Seq<Vec<u64>>,
    b: int,
    x: int,
    y: int,
    h: int,
)
    requires
        is_table(inputs, rows),
        rows.len() >= NUM_ROUNDS * inputs.len(),
        0 <= b < inputs.len(),
        0 <= x < 5,
        0 <= y < 5,
        0 <= h < 2,
    ensures
        rows[NUM_ROUNDS * b + NUM_ROUNDS - 1]@[col_a_prime_prime_prime(x, y) + h] == keccak_f_limb(inputs[b]@, x, y, h),
{
    reveal(is_table);
    let i = NUM_ROUNDS * b + NUM_ROUNDS - 1;
    lemma_fundamental_div_mod_converse(i, NUM_ROUNDS as int, b, NUM_ROUNDS - 1);
    assert(is_table_row(inputs, rows[i]@, i));
    let s0 = state_of_lanes(inputs[b]@);
    let s = rounds(s0, (NUM_ROUNDS - 1) as nat);
    assert(input_of(inputs, i) == inputs[b]@);
    lemma_round_row_output(rows[i]@, s, NUM_ROUNDS - 1, x, y, h);
    assert(keccak_f(s0) == keccak_round(s, NUM_ROUNDS - 1));
    lemma_bits_value_congruent(
        round_limb_bits(s, NUM_ROUNDS - 1, x, y, h),
        |z: int| keccak_f(s0)(x, y, z + 32 * h),
        0,
        32,
    );
}

/// Chaining: on every row but the last of a block, the next row's input limbs are
/// this row's output limbs.
pub proof fn lemma_table_chaining(
    inputs: Seq<[u64; NUM_INPUTS]>,
    rows: Seq<Vec<u64>>,
    i: int,
    x: int,
    y: int,
    h: int,
)
    requires
        is_table(inputs, rows),
        0 <= i,
        i + 1 < rows.len(),
        rows[i]@[col_step(NUM_ROUNDS - 1)] != 1,
        0 <= x < 5,
        0 <= y < 5,
        0 <= h < 2,
    ensures
        rows[i + 1]@[col_a(x, y) + h] == rows[i]@[col_a_prime_prime_prime(x, y) + h],
{
    reveal(is_table);
    let q = i / NUM_ROUNDS as int;
    let r = i % NUM_ROUNDS as int;
    assert(is_table_row(inputs, rows[i]@, i));
    assert(is_table_row(inputs, rows[i + 1]@, i + 1));
    assert(r != NUM_ROUNDS - 1);
    lemma_fundamental_div_mod_converse(i + 1, NUM_ROUNDS as int, q, r + 1);
    assert(input_of(inputs, i + 1) == input_of(inputs, i));
    let s0 = state_of_lanes(input_of(inputs, i));
    let s = rounds(s0, r as nat);
    let next = rows[i + 1]@;
    assert(rounds(s0, (r + 1) as nat) == keccak_round(s, r));
    lemma_round_row_output(rows[i]@, s, r, x, y, h);
    let v = next[col_a(x, y) + h];
    assert(v < 0x1_0000_0000);
    lemma_limb_of_bits(v as u32);
    assert forall|z: int| 0 <= z < 32 implies #[trigger] round_limb_bits(s, r, x, y, h)(z) == limb_bit(
        (v as u32) as u64,
        z,
    ) by {
        assert(row_state(next)(x, y, z + 32 * h) == keccak_round(s, r)(x, y, z + 32 * h));
        assert((z + 32 * h) / 32 == h);
        assert((z + 32 * h) % 32 == z);
    }
    lemma_bits_value_congruent(round_limb_bits(s, r, x, y, h), |z: int| limb_bit((v as u32) as u64, z), 0, 32);
}

} // verus!
