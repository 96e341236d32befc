//! The trace generator: one row per round, 24 rows per permutation, padded to
//! a power of two; and the public inputs.
use crate::columns::{
    col_a, col_a_prime_prime_prime, col_step, reg_a, reg_a_prime_prime_prime, reg_step, NUM_COLUMNS,
    NUM_PUBLIC_INPUTS, REG_A, REG_C, REG_FILTER,
};
use crate::limbs::{bits_value, lemma_limb_bit, lemma_two_pow_32, lemma_two_pow_mono, two_pow};
use crate::permutation::{
    keccak_f, keccak_round, rounds, same_state, state_of_lanes, State, NUM_INPUTS, NUM_ROUNDS,
};
use crate::round::{
    fill_a_prime, fill_a_prime_prime, fill_c, fill_c_prime, fill_iota, is_round_row, lemma_round_row_congruent,
    lemma_round_row_output, round_limb_bits, row_input_bit, row_state, unchanged_outside,
};
use crate::table_laws::is_table;
use vstd::arithmetic::div_mod::lemma_fundamental_div_mod_converse;
use vstd::prelude::*;

verus! {

/// The arithmetization of Keccak-f: builds trace tables and public inputs.
#[derive(Clone, Copy)]
pub struct KeccakStark {}

/// Row `row` is round `round` of a permutation whose state before the round is `s`,
/// with the given filter: its round flag, every derived value, and limbs that fit in
/// 32 bits.
pub open spec fn is_trace_row(row: Seq<u64>, s: State, round: int, filter: u64) -> bool {
    &&& row.len() == NUM_COLUMNS
    &&& row[col_step(round)] == 1
    &&& is_round_row(row, s, round)
    &&& same_state(row_state(row), s)
    &&& forall|j: int| 0 <= j < NUM_ROUNDS && j != round ==> #[trigger] row[col_step(j)] == 0
    &&& row[REG_FILTER as int] == filter
    &&& forall|x: int, y: int, h: int|
        0 <= x < 5 && 0 <= y < 5 && 0 <= h < 2 ==> #[trigger] row[col_a(x, y) + h] < 0x1_0000_0000
}

/// The all-zero input of a padding block.
pub open spec fn zero_lanes() -> Seq<u64> {
    Seq::new(NUM_INPUTS as nat, |i: int| 0u64)
}

/// The input lanes of the permutation that row `i` of a table belongs to.
pub open spec fn input_of(inputs: Seq<[u64; NUM_INPUTS]>, i: int) -> Seq<u64> {
    if i < NUM_ROUNDS * inputs.len() {
        inputs[i / NUM_ROUNDS as int]@
    } else {
        zero_lanes()
    }
}

/// The filter of row `i` in a table of `num_inputs` real permutations: one on the
/// last row of each of them.
pub open spec fn filter_of(num_inputs: int, i: int) -> u64 {
    if i < NUM_ROUNDS * num_inputs && i % NUM_ROUNDS as int == NUM_ROUNDS - 1 {
        1
    } else {
        0
    }
}

/// The smallest power of two that is at least `n`, searched from `2^e` up.
pub open spec fn pow2_ceil_from(n: nat, e: nat) -> nat
    decreases 64 - e,
{
    if e >= 64 || two_pow(e) >= n {
        two_pow(e)
    } else {
        pow2_ceil_from(n, e + 1)
    }
}

/// The length of a table: the smallest power of two at least
/// `max(24 * num_inputs, min_rows)`.
pub open spec fn table_len(num_inputs: nat, min_rows: nat) -> nat {
    let n: nat = if NUM_ROUNDS * num_inputs > min_rows {
        (NUM_ROUNDS * num_inputs) as nat
    } else {
        min_rows
    };
    pow2_ceil_from(n, 0)
}

/// Row `i` of a table built from `inputs`.
pub open spec fn is_table_row(inputs: Seq<[u64; NUM_INPUTS]>, row: Seq<u64>, i: int) -> bool {
    is_trace_row(
        row,
        rounds(state_of_lanes(input_of(inputs, i)), (i % NUM_ROUNDS as int) as nat),
        i % NUM_ROUNDS as int,
        filter_of(inputs.len() as int, i),
    )
}

/// Limb `h` of lane `(x, y)` of Keccak-f applied to `input`.
pub open spec fn keccak_f_limb(input: Seq<u64>, x: int, y: int, h: int) -> nat {
    bits_value(|z: int| keccak_f(state_of_lanes(input))(x, y, z + 32 * h), 0, 32)
}

/// Public input `i`: low limb of lane `i / 2` for even `i`, high limb for odd `i`.
pub open spec fn public_input_of(output: Seq<u64>, i: int) -> u64 {
    if i % 2 == 0 {
        output[i / 2] & 0xFFFF_FFFF
    } else {
        output[i / 2] >> 32u64
    }
}

proof fn lemma_split_lane(v: u64, z: u64)
    requires
        z < 32,
    ensures
        ((((v & 0xFFFF_FFFF) as u32) >> (z as u32)) & 1 == 1) == ((v >> z) & 1 == 1),
        ((((v >> 32u64) as u32) >> (z as u32)) & 1 == 1) == ((v >> ((z + 32) as u64)) & 1 == 1),
        v & 0xFFFF_FFFF < 0x1_0000_0000,
        v >> 32u64 < 0x1_0000_0000,
{
    assert(((((v & 0xFFFF_FFFF) as u32) >> (z as u32)) & 1 == 1) == ((v >> z) & 1 == 1) && ((((v >> 32u64) as u32)
        >> (z as u32)) & 1 == 1) == ((v >> ((z + 32) as u64)) & 1 == 1) && v & 0xFFFF_FFFF < 0x1_0000_0000 && v
        >> 32u64 < 0x1_0000_0000) by (bit_vector)
        requires
            z < 32,
    ;
}

/// The next row's input, copied from a round row's output, is the round's output state.
proof fn lemma_next_state(prev: Seq<u64>, next: Seq<u64>, s: State, round: int)
    requires
        is_round_row(prev, s, round),
        next.len() == NUM_COLUMNS,
        forall|x: int, y: int, h: int|
            0 <= x < 5 && 0 <= y < 5 && 0 <= h < 2 ==> #[trigger] next[col_a(x, y) + h]
                == prev[col_a_prime_prime_prime(x, y) + h],
    ensures
        same_state(row_state(next), keccak_round(s, round)),
        forall|x: int, y: int, h: int|
            0 <= x < 5 && 0 <= y < 5 && 0 <= h < 2 ==> #[trigger] next[col_a(x, y) + h] < 0x1_0000_0000,
{
    assert forall|x: int, y: int, h: int| 0 <= x < 5 && 0 <= y < 5 && 0 <= h < 2 implies #[trigger] next[col_a(x, y)
        + h] < 0x1_0000_0000 by {
        lemma_round_row_output(prev, s, round, x, y, h);
    }
    assert forall|x: int, y: int, z: int| 0 <= x < 5 && 0 <= y < 5 && 0 <= z < 64 implies #[trigger] row_state(
        next,
    )(x, y, z) == keccak_round(s, round)(x, y, z) by {
        let h = z / 32;
        let k = z % 32;
        lemma_round_row_output(prev, s, round, x, y, h);
        lemma_limb_bit(round_limb_bits(s, round, x, y, h), k);
        assert(round_limb_bits(s, round, x, y, h)(k) == keccak_round(s, round)(x, y, z));
    }
}

/// Row `i` of a table held as columns.
pub open spec fn row_of(columns: Seq<Vec<u64>>, i: int) -> Seq<u64> {
    Seq::new(NUM_COLUMNS as nat, |c: int| columns[c]@[i])
}

/// The smallest power of two that is at least `n`.
fn next_power_of_two(n: usize) -> (p: usize)
    requires
        n <= 0x8000_0000,
    ensures
        p == pow2_ceil_from(n as nat, 0),
        p >= n,
{
    let mut p: usize = 1;
    let ghost mut e: nat = 0;
    proof {
        lemma_two_pow_32();
        reveal_with_fuel(two_pow, 2);
        assert(two_pow(32) == 2 * two_pow(31));
    }
    while p < n
        invariant
            n <= 0x8000_0000,
            p == two_pow(e),
            p >= 1,
            e <= 31,
            two_pow(31) == 0x8000_0000,
            pow2_ceil_from(n as nat, 0) == pow2_ceil_from(n as nat, e),
        decreases 32 - e,
    {
        proof {
            if e >= 31 {
                lemma_two_pow_mono(31, e);
            }
            assert(two_pow(e + 1) == 2 * two_pow(e));
        }
        p = p * 2;
        proof {
            e = e + 1;
        }
    }
    p
}

/// A copy of a row.
fn copy_row(row: &Vec<u64>) -> (r: Vec<u64>)
    ensures
        r@ == row@,
{
    let mut r: Vec<u64> = Vec::new();
    for i in 0..row.len()
        invariant
            r@ == row@.subrange(0, i as int),
    {
        r.push(row[i]);
        assert(r@ =~= row@.subrange(0, i + 1));
    }
    assert(r@ =~= row@);
    r
}

/// The columns of a table of rows of `NUM_COLUMNS` entries.
fn transpose(rows: &Vec<Vec<u64>>) -> (columns: Vec<Vec<u64>>)
    requires
        forall|i: int| 0 <= i < rows@.len() ==> (#[trigger] rows@[i])@.len() == NUM_COLUMNS,
    ensures
        columns@.len() == NUM_COLUMNS,
        forall|c: int| 0 <= c < NUM_COLUMNS ==> (#[trigger] columns@[c])@.len() == rows@.len(),
        forall|c: int, i: int| 0 <= c < NUM_COLUMNS && 0 <= i < rows@.len() ==> #[trigger] columns@[c]@[i] == rows@[i]@[c],
{
    let mut columns: Vec<Vec<u64>> = Vec::new();
    for c in 0..NUM_COLUMNS
        invariant
            forall|i: int| 0 <= i < rows@.len() ==> (#[trigger] rows@[i])@.len() == NUM_COLUMNS,
            columns@.len() == c,
            forall|c2: int| 0 <= c2 < c ==> (#[trigger] columns@[c2])@.len() == rows@.len(),
            forall|c2: int, i: int| 0 <= c2 < c && 0 <= i < rows@.len() ==> #[trigger] columns@[c2]@[i] == rows@[i]@[c2],
    {
        let mut column: Vec<u64> = Vec::new();
        for i in 0..rows.len()
            invariant
                c < NUM_COLUMNS,
                forall|i: int| 0 <= i < rows@.len() ==> (#[trigger] rows@[i])@.len() == NUM_COLUMNS,
                column@.len() == i,
                forall|i2: int| 0 <= i2 < i ==> #[trigger] column@[i2] == rows@[i2]@[c as int],
        {
            column.push(rows[i][c]);
        }
        columns.push(column);
    }
    columns
}

/// Setting the filter keeps every other fact of a trace row.
proof fn lemma_set_filter(row: Seq<u64>, s: State, round: int, f: u64)
    requires
        is_trace_row(row, s, round, 0),
        0 <= round < NUM_ROUNDS,
    ensures
        is_trace_row(row.update(REG_FILTER as int, f), s, round, f),
{
    let row2 = row.update(REG_FILTER as int, f);
    assert forall|i: int| 0 <= i < NUM_COLUMNS && i != REG_FILTER implies #[trigger] row2[i] == row[i] by {}
    assert(same_state(row_state(row2), s)) by {
        assert forall|x: int, y: int, z: int| 0 <= x < 5 && 0 <= y < 5 && 0 <= z < 64 implies #[trigger] row_state(
            row2,
        )(x, y, z) == s(x, y, z) by {
            assert(row2[col_a(x, y) + z / 32] == row[col_a(x, y) + z / 32]);
            assert(row_state(row)(x, y, z) == s(x, y, z));
        }
    }
    reveal(is_round_row);
    assert(is_round_row(row2, s, round));
}

impl KeccakStark {
    pub fn new() -> (r: KeccakStark) {
        KeccakStark {  }
    }

    /// Fills every derived column of round `round` from the row's input limbs.
    pub fn generate_trace_row_for_round(&self, row: &mut Vec<u64>, round: usize)
        requires
            old(row)@.len() == NUM_COLUMNS,
            round < NUM_ROUNDS,
        ensures
            is_round_row(final(row)@, row_state(old(row)@), round as int),
            final(row)@[col_step(round as int)] == 1,
            forall|i: int|
                0 <= i < REG_C && i != round ==> #[trigger] final(row)@[i] == old(row)@[i],
            final(row)@[REG_FILTER as int] == old(row)@[REG_FILTER as int],
            final(row)@.len() == NUM_COLUMNS,
    {
        let ghost s = row_state(row@);
        let ghost pre = row@;
        row.set(reg_step(round), 1);
        assert forall|x: int, y: int, z: int|
            0 <= x < 5 && 0 <= y < 5 && 0 <= z < 64 implies #[trigger] row_input_bit(row@, x, y, z) == s(x, y, z) by {
            assert(row@[col_a(x, y) + z / 32] == pre[col_a(x, y) + z / 32]);
        }
        let ghost r1 = row@;
        fill_c(row, Ghost(s));
        assert forall|x: int, y: int, z: int|
            0 <= x < 5 && 0 <= y < 5 && 0 <= z < 64 implies #[trigger] row_input_bit(row@, x, y, z) == s(x, y, z) by {
            assert(row@[col_a(x, y) + z / 32] == r1[col_a(x, y) + z / 32]);
        }
        fill_c_prime(row, Ghost(s));
        assert forall|x: int, y: int, z: int|
            0 <= x < 5 && 0 <= y < 5 && 0 <= z < 64 implies #[trigger] row_input_bit(row@, x, y, z) == s(x, y, z) by {
            assert(row@[col_a(x, y) + z / 32] == pre[col_a(x, y) + z / 32]);
        }
        fill_a_prime(row, Ghost(s));
        fill_a_prime_prime(row, Ghost(s));
        fill_iota(row, round, Ghost(s));
        proof {
            reveal(is_round_row);
        }
        assert(row@[col_step(round as int)] == 1);
    }

    /// The 24 rows of one permutation of `input`, with the filter off.
    pub fn generate_trace_rows_for_perm(&self, input: [u64; NUM_INPUTS]) -> (rows: Vec<Vec<u64>>)
        ensures
            rows@.len() == NUM_ROUNDS,
            forall|r: int|
                0 <= r < NUM_ROUNDS ==> is_trace_row(
                    #[trigger] rows@[r]@,
                    rounds(state_of_lanes(input@), r as nat),
                    r,
                    0,
                ),
    {
        let ghost s0 = state_of_lanes(input@);
        let mut row0: Vec<u64> = vec![0u64; NUM_COLUMNS];
        for x in 0..5
            invariant
                s0 == state_of_lanes(input@),
                row0@.len() == NUM_COLUMNS,
                forall|i: int| 0 <= i < NUM_COLUMNS && !(REG_A <= i < REG_C) ==> #[trigger] row0@[i] == 0,
                forall|x2: int, y2: int, z: int|
                    0 <= x2 < x && 0 <= y2 < 5 && 0 <= z < 64 ==> #[trigger] row_input_bit(row0@, x2, y2, z) == s0(
                        x2,
                        y2,
                        z,
                    ),
                forall|x2: int, y2: int, h: int|
                    0 <= x2 < x && 0 <= y2 < 5 && 0 <= h < 2 ==> #[trigger] row0@[col_a(x2, y2) + h] < 0x1_0000_0000,
        {
            for y in 0..5
                invariant
                    0 <= x < 5,
                    s0 == state_of_lanes(input@),
                    row0@.len() == NUM_COLUMNS,
                    forall|i: int| 0 <= i < NUM_COLUMNS && !(REG_A <= i < REG_C) ==> #[trigger] row0@[i] == 0,
                    forall|x2: int, y2: int, z: int|
                        0 <= x2 < x && 0 <= y2 < 5 && 0 <= z < 64 ==> #[trigger] row_input_bit(row0@, x2, y2, z)
                            == s0(x2, y2, z),
                    forall|x2: int, y2: int, h: int|
                        0 <= x2 < x && 0 <= y2 < 5 && 0 <= h < 2 ==> #[trigger] row0@[col_a(x2, y2) + h]
                            < 0x1_0000_0000,
                    forall|y2: int, z: int|
                        0 <= y2 < y && 0 <= z < 64 ==> #[trigger] row_input_bit(row0@, x as int, y2, z) == s0(
                            x as int,
                            y2,
                            z,
                        ),
                    forall|y2: int, h: int|
                        0 <= y2 < y && 0 <= h < 2 ==> #[trigger] row0@[col_a(x as int, y2) + h] < 0x1_0000_0000,
            {
                let input_xy = input[y * 5 + x];
                let reg_lo = reg_a(x, y);
                let ghost before = row0@;
                row0.set(reg_lo, input_xy & 0xFFFF_FFFF);
                row0.set(reg_lo + 1, input_xy >> 32u64);
                proof {
                    assert forall|x2: int, y2: int, z: int|
                        0 <= x2 < 5 && 0 <= y2 < 5 && 0 <= z < 64 && (x2 != x || y2 != y) implies #[trigger] row_input_bit(
                        row0@,
                        x2,
                        y2,
                        z,
                    ) == row_input_bit(before, x2, y2, z) by {
                        assert(row0@[col_a(x2, y2) + z / 32] == before[col_a(x2, y2) + z / 32]);
                    }
                    assert forall|x2: int, y2: int, h: int|
                        0 <= x2 < 5 && 0 <= y2 < 5 && 0 <= h < 2 && (x2 != x || y2 != y) implies #[trigger] row0@[col_a(
                        x2,
                        y2,
                    ) + h] == before[col_a(x2, y2) + h] by {}
                    lemma_split_lane(input_xy, 0);
                    assert forall|z: int| 0 <= z < 64 implies #[trigger] row_input_bit(row0@, x as int, y as int, z)
                        == s0(x as int, y as int, z) by {
                        if z < 32 {
                            lemma_split_lane(input_xy, z as u64);
                        } else {
                            lemma_split_lane(input_xy, (z - 32) as u64);
                        }
                    }
                }
            }
        }
        let ghost pre0 = row0@;
        self.generate_trace_row_for_round(&mut row0, 0);
        proof {
            assert(same_state(row_state(row0@), row_state(pre0))) by {
                assert forall|x: int, y: int, z: int| 0 <= x < 5 && 0 <= y < 5 && 0 <= z < 64 implies #[trigger] row_state(
                    row0@,
                )(x, y, z) == row_state(pre0)(x, y, z) by {
                    assert(row0@[col_a(x, y) + z / 32] == pre0[col_a(x, y) + z / 32]);
                }
            }
            lemma_round_row_congruent(row0@, row_state(pre0), s0, 0);
            assert(rounds(s0, 0) == s0);
        }
        let mut rows: Vec<Vec<u64>> = Vec::new();
        rows.push(row0);
        for round in 1..24
            invariant
                s0 == state_of_lanes(input@),
                rows@.len() == round,
                forall|r: int|
                    0 <= r < round ==> is_trace_row(#[trigger] rows@[r]@, rounds(s0, r as nat), r, 0),
        {
            let mut row: Vec<u64> = vec![0u64; NUM_COLUMNS];
            self.copy_output_to_input(&rows[round - 1], &mut row);
            let ghost pre = row@;
            let ghost prev = rows@[round - 1]@;
            proof {
                lemma_next_state(prev, pre, rounds(s0, (round - 1) as nat), round - 1);
                assert(rounds(s0, round as nat) == keccak_round(rounds(s0, (round - 1) as nat), round - 1));
            }
            self.generate_trace_row_for_round(&mut row, round);
            proof {
                assert(same_state(row_state(row@), row_state(pre))) by {
                    assert forall|x: int, y: int, z: int| 0 <= x < 5 && 0 <= y < 5 && 0 <= z < 64 implies #[trigger] row_state(
                        row@,
                    )(x, y, z) == row_state(pre)(x, y, z) by {
                        assert(row@[col_a(x, y) + z / 32] == pre[col_a(x, y) + z / 32]);
                    }
                }
                lemma_round_row_congruent(row@, row_state(pre), rounds(s0, round as nat), round as int);
                assert forall|x: int, y: int, h: int| 0 <= x < 5 && 0 <= y < 5 && 0 <= h < 2 implies #[trigger] row@[col_a(
                    x,
                    y,
                ) + h] < 0x1_0000_0000 by {
                    assert(row@[col_a(x, y) + h] == pre[col_a(x, y) + h]);
                }
            }
            rows.push(row);
        }
        proof {
            reveal(is_table);
        }
        rows
    }

    /// Copies the output limbs of a round row into the input limbs of the next row.
    pub fn copy_output_to_input(&self, prev_row: &Vec<u64>, next_row: &mut Vec<u64>)
        requires
            prev_row@.len() == NUM_COLUMNS,
            old(next_row)@.len() == NUM_COLUMNS,
        ensures
            forall|x: int, y: int, h: int|
                0 <= x < 5 && 0 <= y < 5 && 0 <= h < 2 ==> #[trigger] final(next_row)@[col_a(x, y) + h]
                    == prev_row@[col_a_prime_prime_prime(x, y) + h],
            unchanged_outside(final(next_row)@, old(next_row)@, REG_A as int, REG_C as int),
    {
        let ghost pre = next_row@;
        for x in 0..5
            invariant
                prev_row@.len() == NUM_COLUMNS,
                pre.len() == NUM_COLUMNS,
                unchanged_outside(next_row@, pre, REG_A as int, REG_C as int),
                forall|x2: int, y2: int, h: int|
                    0 <= x2 < x && 0 <= y2 < 5 && 0 <= h < 2 ==> #[trigger] next_row@[col_a(x2, y2) + h]
                        == prev_row@[col_a_prime_prime_prime(x2, y2) + h],
        {
            for y in 0..5
                invariant
                    0 <= x < 5,
                    prev_row@.len() == NUM_COLUMNS,
                    pre.len() == NUM_COLUMNS,
                    unchanged_outside(next_row@, pre, REG_A as int, REG_C as int),
                    forall|x2: int, y2: int, h: int|
                        0 <= x2 < x && 0 <= y2 < 5 && 0 <= h < 2 ==> #[trigger] next_row@[col_a(x2, y2) + h]
                            == prev_row@[col_a_prime_prime_prime(x2, y2) + h],
                    forall|y2: int, h: int|
                        0 <= y2 < y && 0 <= h < 2 ==> #[trigger] next_row@[col_a(x as int, y2) + h]
                            == prev_row@[col_a_prime_prime_prime(x as int, y2) + h],
            {
                let in_lo = reg_a(x, y);
                let out_lo = reg_a_prime_prime_prime(x, y);
                next_row.set(in_lo, prev_row[out_lo]);
                next_row.set(in_lo + 1, prev_row[out_lo + 1]);
            }
        }
    }
    /// The rows of a table: a 24-row block for each input, with the filter on its
    /// last row, then blocks of the all-zero input, cut at the table's length.
    pub fn generate_trace_rows(&self, inputs: Vec<[u64; NUM_INPUTS]>, min_rows: usize) -> (rows: Vec<Vec<u64>>)
        requires
            inputs@.len() <= 0x100_0000,
            min_rows <= 0x8000_0000,
        ensures
            rows@.len() == table_len(inputs@.len(), min_rows as nat),
            rows@.len() >= NUM_ROUNDS * inputs@.len(),
            rows@.len() >= min_rows,
            forall|i: int| 0 <= i < rows@.len() ==> is_table_row(inputs@, #[trigger] rows@[i]@, i),
            is_table(inputs@, rows@),
    {
        let k = inputs.len();
        let n = k * NUM_ROUNDS;
        let target = if n > min_rows {
            n
        } else {
            min_rows
        };
        let num_rows = next_power_of_two(target);
        let mut rows: Vec<Vec<u64>> = Vec::new();
        for b in 0..k
            invariant
                k == inputs@.len(),
                k <= 0x100_0000,
                rows@.len() == NUM_ROUNDS * b,
                forall|i: int| 0 <= i < rows@.len() ==> is_table_row(inputs@, #[trigger] rows@[i]@, i),
        {
            let block = self.generate_trace_rows_for_perm(inputs[b]);
            for r in 0..24
                invariant
                    k == inputs@.len(),
                    b < k,
                    k <= 0x100_0000,
                    rows@.len() == NUM_ROUNDS * b + r,
                    block@.len() == NUM_ROUNDS,
                    forall|r2: int|
                        0 <= r2 < NUM_ROUNDS ==> is_trace_row(
                            #[trigger] block@[r2]@,
                            rounds(state_of_lanes(inputs@[b as int]@), r2 as nat),
                            r2,
                            0,
                        ),
                    forall|i: int| 0 <= i < rows@.len() ==> is_table_row(inputs@, #[trigger] rows@[i]@, i),
            {
                let mut row = copy_row(&block[r]);
                let ghost plain = row@;
                if r == 23 {
                    row.set(REG_FILTER, 1);
                }
                proof {
                    if r == 23 {
                        lemma_set_filter(plain, rounds(state_of_lanes(inputs@[b as int]@), r as nat), r as int, 1);
                    }
                    let i = NUM_ROUNDS * b + r;
                    lemma_fundamental_div_mod_converse(i as int, NUM_ROUNDS as int, b as int, r as int);
                    assert(is_trace_row(
                        block@[r as int]@,
                        rounds(state_of_lanes(inputs@[b as int]@), r as nat),
                        r as int,
                        0,
                    ));
                    assert(is_table_row(inputs@, row@, i as int));
                }
                rows.push(row);
            }
        }
        let pad = self.generate_trace_rows_for_perm([0u64; NUM_INPUTS]);
        proof {
            assert([0u64; NUM_INPUTS]@ =~= zero_lanes());
        }
        while rows.len() < num_rows
            invariant
                k == inputs@.len(),
                num_rows == table_len(inputs@.len(), min_rows as nat),
                NUM_ROUNDS * k <= rows@.len() <= num_rows,
                pad@.len() == NUM_ROUNDS,
                forall|r2: int|
                    0 <= r2 < NUM_ROUNDS ==> is_trace_row(
                        #[trigger] pad@[r2]@,
                        rounds(state_of_lanes(zero_lanes()), r2 as nat),
                        r2,
                        0,
                    ),
                forall|i: int| 0 <= i < rows@.len() ==> is_table_row(inputs@, #[trigger] rows@[i]@, i),
            decreases num_rows - rows@.len(),
        {
            let i = rows.len();
            let row = copy_row(&pad[i % NUM_ROUNDS]);
            proof {
                assert(is_trace_row(
                    pad@[(i % NUM_ROUNDS) as int]@,
                    rounds(state_of_lanes(zero_lanes()), (i % NUM_ROUNDS) as nat),
                    (i % NUM_ROUNDS) as int,
                    0,
                ));
            }
            rows.push(row);
        }
        proof {
            reveal(is_table);
        }
        rows
    }

    /// The table's columns: entry `i` of column `c` is column `c` of row `i`.
    pub fn generate_trace(&self, inputs: Vec<[u64; NUM_INPUTS]>, min_rows: usize) -> (columns: Vec<Vec<u64>>)
        requires
            inputs@.len() <= 0x100_0000,
            min_rows <= 0x8000_0000,
        ensures
            columns@.len() == NUM_COLUMNS,
            forall|c: int| 0 <= c < NUM_COLUMNS ==> (#[trigger] columns@[c])@.len() == table_len(inputs@.len(), min_rows as nat),
            forall|i: int|
                0 <= i < table_len(inputs@.len(), min_rows as nat) ==> is_table_row(inputs@, #[trigger] row_of(columns@, i), i),
    {
        let rows = self.generate_trace_rows(inputs, min_rows);
        let columns = transpose(&rows);
        proof {
            assert forall|i: int| 0 <= i < rows@.len() implies is_table_row(inputs@, #[trigger] row_of(columns@, i), i) by {
                assert(row_of(columns@, i) =~= rows@[i]@);
            }
        }
        columns
    }

    /// The public inputs for a permutation output: the low then the high limb of
    /// each lane, lanes in order `5 * y + x`.
    pub fn generate_public_inputs(&self, output: [u64; NUM_INPUTS]) -> (pi: [u64; NUM_PUBLIC_INPUTS])
        ensures
            forall|i: int| 0 <= i < NUM_PUBLIC_INPUTS ==> #[trigger] pi@[i] == public_input_of(output@, i),
    {
        let mut pi = [0u64; NUM_PUBLIC_INPUTS];
        for i in 0..NUM_INPUTS
            invariant
                forall|j: int| 0 <= j < 2 * i ==> #[trigger] pi@[j] == public_input_of(output@, j),
        {
            pi[2 * i] = output[i] & 0xFFFF_FFFF;
            pi[2 * i + 1] = output[i] >> 32u64;
        }
        pi
    }
}

} // verus!
