use keccak_stark::columns::{
    reg_a, reg_a_prime, reg_a_prime_prime, reg_a_prime_prime_0_0_bit, reg_a_prime_prime_prime, reg_c,
    reg_c_prime, reg_step, REG_FILTER,
};
use keccak_stark::field::{f_add, f_mul, f_sub, ORDER};
use keccak_stark::{KeccakStark, Residuals, NUM_COLUMNS, NUM_INPUTS, NUM_PUBLIC_INPUTS, NUM_ROUNDS};
use tiny_keccak::keccakf;

fn reference_output(input: [u64; NUM_INPUTS]) -> [u64; NUM_INPUTS] {
    let mut state = input;
    keccakf(&mut state);
    state
}

fn sample_input(seed: u64) -> [u64; NUM_INPUTS] {
    let mut input = [0u64; NUM_INPUTS];
    let mut v = seed;
    for lane in input.iter_mut() {
        v = v.wrapping_mul(6364136223846793005).wrapping_add(1442695040888963407);
        *lane = v;
    }
    input
}

fn all_zero(v: &[u64]) -> bool {
    v.iter().all(|&r| r == 0)
}

fn residuals(stark: &KeccakStark, rows: &[Vec<u64>], i: usize, pi: &[u64; NUM_PUBLIC_INPUTS]) -> Residuals {
    let next = if i + 1 < rows.len() { &rows[i + 1] } else { &rows[0] };
    stark.eval_packed_generic(&rows[i], next, pi)
}

fn output_lanes(row: &[u64]) -> [u64; NUM_INPUTS] {
    let mut out = [0u64; NUM_INPUTS];
    for x in 0..5 {
        for y in 0..5 {
            let lo = row[reg_a_prime_prime_prime(x, y)];
            let hi = row[reg_a_prime_prime_prime(x, y) + 1];
            out[5 * y + x] = lo | (hi << 32);
        }
    }
    out
}

/// Checks every constraint of a table: general ones on all rows, transition
/// ones on all rows but the last, first-row ones on row 0.
fn table_satisfies(stark: &KeccakStark, rows: &[Vec<u64>], pi: &[u64; NUM_PUBLIC_INPUTS]) -> bool {
    for i in 0..rows.len() {
        let r = residuals(stark, rows, i, pi);
        if !all_zero(&r.general) {
            return false;
        }
        if i + 1 < rows.len() && !all_zero(&r.transition) {
            return false;
        }
        if i == 0 && !all_zero(&r.first_row) {
            return false;
        }
    }
    true
}

#[test]
fn test_keccak_multi() {
    let input: [u64; NUM_INPUTS] = rand::random();
    let stark = KeccakStark::new();
    let rows = stark.generate_trace_rows(vec![input], 1000);
    assert_eq!(rows.len(), 1024);
    let expected = reference_output(input);
    assert_eq!(output_lanes(&rows[NUM_ROUNDS - 1]), expected);
    let public_inputs = stark.generate_public_inputs(expected);
    for j in 0..NUM_INPUTS {
        assert_eq!(public_inputs[2 * j], expected[j] & 0xFFFF_FFFF);
        assert_eq!(public_inputs[2 * j + 1], expected[j] >> 32);
    }
    assert_eq!(rows[24][reg_step(0)], 1);
    for i in 24..1024 {
        assert_eq!(rows[i][REG_FILTER], 0);
    }
    for i in 0..48 {
        let r = residuals(&stark, &rows, i, &public_inputs);
        assert!(all_zero(&r.general));
        assert!(all_zero(&r.transition));
    }
}

#[test]
fn round_trip_matches_reference_permutation() {
    let stark = KeccakStark::new();
    for seed in 0..3u64 {
        let input = sample_input(seed);
        let rows = stark.generate_trace_rows_for_perm(input);
        assert_eq!(rows.len(), NUM_ROUNDS);
        assert_eq!(output_lanes(&rows[NUM_ROUNDS - 1]), reference_output(input));
    }
}

#[test]
fn round_trip_of_zero_state() {
    let stark = KeccakStark::new();
    let rows = stark.generate_trace_rows_for_perm([0u64; NUM_INPUTS]);
    let out = output_lanes(&rows[NUM_ROUNDS - 1]);
    assert_eq!(out[0], 0xF1258F7940E1DDE7);
    assert_eq!(out, reference_output([0u64; NUM_INPUTS]));
}

#[test]
fn generated_table_satisfies_all_constraints() {
    let stark = KeccakStark::new();
    let input = sample_input(7);
    let rows = stark.generate_trace_rows(vec![input], 0);
    assert_eq!(rows.len(), 32);
    let pi = stark.generate_public_inputs(reference_output(input));
    assert!(table_satisfies(&stark, &rows, &pi));
}

#[test]
fn wrong_public_inputs_are_rejected() {
    let stark = KeccakStark::new();
    let input = sample_input(8);
    let rows = stark.generate_trace_rows(vec![input], 0);
    let mut output = reference_output(input);
    output[3] ^= 1 << 40;
    let pi = stark.generate_public_inputs(output);
    let r = residuals(&stark, &rows, NUM_ROUNDS - 1, &pi);
    assert!(all_zero(&r.general));
    assert!(!all_zero(&r.transition));
}

#[test]
fn filter_marks_last_row_of_each_real_instance() {
    let stark = KeccakStark::new();
    let inputs = vec![sample_input(1), sample_input(2), sample_input(3)];
    let rows = stark.generate_trace_rows(inputs.clone(), 0);
    assert_eq!(rows.len(), 128);
    for i in 0..rows.len() {
        let expected = if i < 72 && i % 24 == 23 { 1 } else { 0 };
        assert_eq!(rows[i][REG_FILTER], expected, "row {}", i);
    }
    for (b, input) in inputs.iter().enumerate() {
        assert_eq!(output_lanes(&rows[24 * b + 23]), reference_output(*input));
    }
}

#[test]
fn chaining_between_rows_of_a_block() {
    let stark = KeccakStark::new();
    let rows = stark.generate_trace_rows(vec![sample_input(4), sample_input(5)], 0);
    for i in 0..rows.len() - 1 {
        if rows[i][reg_step(NUM_ROUNDS - 1)] != 1 {
            for x in 0..5 {
                for y in 0..5 {
                    assert_eq!(rows[i + 1][reg_a(x, y)], rows[i][reg_a_prime_prime_prime(x, y)]);
                    assert_eq!(rows[i + 1][reg_a(x, y) + 1], rows[i][reg_a_prime_prime_prime(x, y) + 1]);
                }
            }
        }
    }
}

#[test]
fn min_rows_not_a_multiple_of_rounds() {
    let stark = KeccakStark::new();
    let rows = stark.generate_trace_rows(vec![sample_input(6)], 100);
    assert_eq!(rows.len(), 128);
    for (i, row) in rows.iter().enumerate() {
        assert_eq!(row.len(), NUM_COLUMNS);
        for r in 0..NUM_ROUNDS {
            let expected = if r == i % NUM_ROUNDS { 1 } else { 0 };
            assert_eq!(row[reg_step(r)], expected);
        }
    }
    let pi = stark.generate_public_inputs(reference_output(sample_input(6)));
    assert!(table_satisfies(&stark, &rows, &pi));
}

#[test]
fn empty_input_list_gives_one_padding_row() {
    let stark = KeccakStark::new();
    let rows = stark.generate_trace_rows(vec![], 0);
    assert_eq!(rows.len(), 1);
    assert_eq!(rows[0][reg_step(0)], 1);
    assert_eq!(rows[0][REG_FILTER], 0);
}

#[test]
fn table_length_is_next_power_of_two() {
    let stark = KeccakStark::new();
    assert_eq!(stark.generate_trace_rows(vec![sample_input(1)], 24).len(), 32);
    assert_eq!(stark.generate_trace_rows(vec![sample_input(1)], 64).len(), 64);
    assert_eq!(stark.generate_trace_rows(vec![sample_input(1); 3], 65).len(), 128);
}

#[test]
fn trace_columns_are_the_transposed_rows() {
    let stark = KeccakStark::new();
    let input = sample_input(9);
    let rows = stark.generate_trace_rows(vec![input], 0);
    let columns = stark.generate_trace(vec![input], 0);
    assert_eq!(columns.len(), NUM_COLUMNS);
    for c in [0, reg_a(1, 2), reg_c(3, 5), REG_FILTER] {
        assert_eq!(columns[c].len(), rows.len());
        for i in 0..rows.len() {
            assert_eq!(columns[c][i], rows[i][c]);
        }
    }
}

#[test]
fn public_inputs_are_lo_then_hi_limbs() {
    let stark = KeccakStark::new();
    let mut output = [0u64; NUM_INPUTS];
    output[0] = 0x0123_4567_89AB_CDEF;
    output[24] = 0xFFFF_FFFF_0000_0002;
    let pi = stark.generate_public_inputs(output);
    assert_eq!(pi.len(), 50);
    assert_eq!(pi[0], 0x89AB_CDEF);
    assert_eq!(pi[1], 0x0123_4567);
    assert_eq!(pi[48], 0x0000_0002);
    assert_eq!(pi[49], 0xFFFF_FFFF);
    assert_eq!(pi[2], 0);
}

fn tampered_is_rejected(column: usize, flip: u64, row_index: usize) -> bool {
    let stark = KeccakStark::new();
    let input = sample_input(11);
    let mut rows = stark.generate_trace_rows(vec![input], 0);
    let pi = stark.generate_public_inputs(reference_output(input));
    rows[row_index][column] ^= flip;
    !table_satisfies(&stark, &rows, &pi)
}

#[test]
fn tampering_with_any_field_is_detected() {
    assert!(tampered_is_rejected(reg_a(2, 3), 1 << 5, 4));
    assert!(tampered_is_rejected(reg_a(0, 0) + 1, 1 << 31, 0));
    assert!(tampered_is_rejected(reg_c(4, 63), 1, 10));
    assert!(tampered_is_rejected(reg_c_prime(1, 17), 1, 2));
    assert!(tampered_is_rejected(reg_a_prime(3, 4, 40), 1, 7));
    assert!(tampered_is_rejected(reg_a_prime_prime(2, 2) + 1, 1 << 9, 12));
    assert!(tampered_is_rejected(reg_a_prime_prime_0_0_bit(33), 1, 5));
    assert!(tampered_is_rejected(reg_a_prime_prime_prime(0, 0), 1 << 3, 22));
    assert!(tampered_is_rejected(reg_a_prime_prime_prime(0, 0) + 1, 1, 23));
}

#[test]
fn field_arithmetic_wraps_at_the_order() {
    assert_eq!(f_add(ORDER - 1, 1), 0);
    assert_eq!(f_add(5, 7), 12);
    assert_eq!(f_sub(0, 1), ORDER - 1);
    assert_eq!(f_sub(9, 4), 5);
    assert_eq!(f_mul(ORDER - 1, ORDER - 1), 1);
    assert_eq!(f_mul(1 << 32, 1 << 32), 0xFFFF_FFFF);
}

#[test]
fn residual_counts() {
    let stark = KeccakStark::new();
    let rows = stark.generate_trace_rows(vec![sample_input(2)], 0);
    let pi = stark.generate_public_inputs(reference_output(sample_input(2)));
    let r = residuals(&stark, &rows, 0, &pi);
    assert_eq!(r.general.len(), 746);
    assert_eq!(r.transition.len(), 124);
    assert_eq!(r.first_row.len(), 24);
    assert!(all_zero(&r.first_row));
    let r1 = residuals(&stark, &rows, 1, &pi);
    assert!(!all_zero(&r1.first_row));
    assert_eq!(stark.constraint_degree(), 3);
}
