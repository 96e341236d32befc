//! The constraint evaluator: every identity that a valid table satisfies, as
//! residuals over the Goldilocks field that vanish on valid rows.
use crate::columns::{
    col_a, col_a_prime, col_a_prime_prime, col_a_prime_prime_0_0_bit, col_a_prime_prime_prime, col_b, col_c,
    col_c_prime, col_step, reg_a, reg_a_prime, reg_a_prime_prime, reg_a_prime_prime_0_0_bit,
    reg_a_prime_prime_prime, reg_b, reg_c, reg_c_prime, reg_step, NUM_COLUMNS, NUM_PUBLIC_INPUTS, REG_FILTER,
};
use crate::field::{b2f, f_add, f_mul, f_sub, fadd, fmul, fsub, ORDER};
use crate::keccak_stark::KeccakStark;
use crate::logic::{andn_gen, andn_poly, xor3_gen, xor3_poly, xor_gen, xor_poly};
use crate::permutation::{rc_bit, rc_value_bit, NUM_ROUNDS};
use vstd::prelude::*;

verus! {

/// The residuals of all constraints on a row and the row after it.
pub struct Residuals {
    /// Constraints that must vanish on every row.
    pub general: Vec<u64>,
    /// Constraints that must vanish on every row but the last.
    pub transition: Vec<u64>,
    /// Constraints that must vanish on the first row.
    pub first_row: Vec<u64>,
}

/// Every entry of `row` is a field element.
pub open spec fn is_field_row(row: Seq<u64>, len: int) -> bool {
    &&& row.len() == len
    &&& forall|i: int| 0 <= i < len ==> #[trigger] row[i] < ORDER
}

/// The place-value sum of `bits[lo..]` in the field, summed from the top:
/// `acc = 2 acc + bits[z]` for `z` from the last index down to `lo`.
pub open spec fn pack_value(bits: Seq<u64>, lo: int) -> int
    decreases bits.len() - lo,
{
    if lo >= bits.len() {
        0
    } else {
        let acc = pack_value(bits, lo + 1);
        fadd(fadd(acc, acc), bits[lo] as int)
    }
}

pub open spec fn val(row: Seq<u64>, c: int) -> int {
    row[c] as int
}

/// `sum_r step[r] * RC_bit(r, i)` over the first `n` rounds.
pub open spec fn rc_select(row: Seq<u64>, i: int, n: int) -> int
    decreases n,
{
    if n <= 0 {
        0
    } else {
        fadd(rc_select(row, i, n - 1), fmul(val(row, col_step(n - 1)), b2f(rc_bit(n - 1, i)) as int))
    }
}

/// Lane `j` of the order in which lanes are checked: `x = j / 5`, `y = j % 5`.
pub open spec fn lane_x(j: int) -> int {
    j / 5
}

pub open spec fn lane_y(j: int) -> int {
    j % 5
}

/// `C'[x, z] - xor3(C[x, z], C[x - 1, z], C[x + 1, z - 1])`.
pub open spec fn theta_residual(l: Seq<u64>, x: int, z: int) -> int {
    fsub(
        val(l, col_c_prime(x, z)),
        xor3_poly(val(l, col_c(x, z)), val(l, col_c((x + 4) % 5, z)), val(l, col_c((x + 1) % 5, (z + 63) % 64))),
    )
}

/// The bits `xor3(A'[x, y, z], C[x, z], C'[x, z])` of limb `h` of input lane `(x, y)`.
pub open spec fn input_bits(l: Seq<u64>, x: int, y: int, h: int) -> Seq<u64> {
    Seq::new(
        32,
        |z: int|
            xor3_poly(
                val(l, col_a_prime(x, y, z + 32 * h)),
                val(l, col_c(x, z + 32 * h)),
                val(l, col_c_prime(x, z + 32 * h)),
            ) as u64,
    )
}

pub open spec fn input_residual(l: Seq<u64>, x: int, y: int, h: int) -> int {
    fsub(pack_value(input_bits(l, x, y, h), 0), val(l, col_a(x, y) + h))
}

/// `sum_y A'[x, y, z] - C'[x, z]`.
pub open spec fn parity_diff(l: Seq<u64>, x: int, z: int) -> int {
    let sum = fadd(
        fadd(
            fadd(fadd(val(l, col_a_prime(x, 0, z)), val(l, col_a_prime(x, 1, z))), val(l, col_a_prime(x, 2, z))),
            val(l, col_a_prime(x, 3, z)),
        ),
        val(l, col_a_prime(x, 4, z)),
    );
    fsub(sum, val(l, col_c_prime(x, z)))
}

/// `diff (diff - 2) (diff - 4)`.
pub open spec fn parity_residual(l: Seq<u64>, x: int, z: int) -> int {
    let d = parity_diff(l, x, z);
    fmul(fmul(d, fsub(d, 2)), fsub(d, 4))
}

/// The bits `xor(B[x, y, z], andn(B[x + 1, y, z], B[x + 2, y, z]))` of limb `h` of lane `(x, y)`.
pub open spec fn chi_bits(l: Seq<u64>, x: int, y: int, h: int) -> Seq<u64> {
    Seq::new(
        32,
        |z: int|
            xor_poly(
                val(l, col_b(x, y, z + 32 * h)),
                andn_poly(val(l, col_b((x + 1) % 5, y, z + 32 * h)), val(l, col_b((x + 2) % 5, y, z + 32 * h))),
            ) as u64,
    )
}

pub open spec fn chi_residual(l: Seq<u64>, x: int, y: int, h: int) -> int {
    fsub(pack_value(chi_bits(l, x, y, h), 0), val(l, col_a_prime_prime(x, y) + h))
}

/// The stored bits of limb `h` of `A''[0, 0]`.
pub open spec fn split_bits(l: Seq<u64>, h: int) -> Seq<u64> {
    Seq::new(32, |z: int| l[col_a_prime_prime_0_0_bit(z + 32 * h)])
}

pub open spec fn split_residual(l: Seq<u64>, h: int) -> int {
    fsub(pack_value(split_bits(l, h), 0), val(l, col_a_prime_prime(0, 0) + h))
}

/// The bits `xor(bit[i], RC_bit(round, i))` of limb `h` of `A'''[0, 0]`.
pub open spec fn iota_bits(l: Seq<u64>, h: int) -> Seq<u64> {
    Seq::new(
        32,
        |z: int|
            xor_poly(
                val(l, col_a_prime_prime_0_0_bit(z + 32 * h)),
                rc_select(l, z + 32 * h, NUM_ROUNDS as int),
            ) as u64,
    )
}

pub open spec fn iota_residual(l: Seq<u64>, h: int) -> int {
    fsub(pack_value(iota_bits(l, h), 0), val(l, col_a_prime_prime_prime(0, 0) + h))
}

/// The constraints on every row, in order: the filter is a bit; the filter is
/// off but on the last round; theta; input limbs; parity; chi; the split of
/// `A''[0, 0]`; iota.
pub open spec fn general_residuals(l: Seq<u64>) -> Seq<u64> {
    let filter = val(l, REG_FILTER as int);
    seq![
        fmul(filter, fsub(filter, 1)) as u64,
        fmul(fsub(1, val(l, col_step(NUM_ROUNDS - 1))), filter) as u64,
    ] + Seq::new(320, |k: int| theta_residual(l, k / 64, k % 64) as u64) + Seq::new(
        50,
        |k: int| input_residual(l, lane_x(k / 2), lane_y(k / 2), k % 2) as u64,
    ) + Seq::new(320, |k: int| parity_residual(l, k / 64, k % 64) as u64) + Seq::new(
        50,
        |k: int| chi_residual(l, lane_x(k / 2), lane_y(k / 2), k % 2) as u64,
    ) + Seq::new(2, |h: int| split_residual(l, h) as u64) + Seq::new(2, |h: int| iota_residual(l, h) as u64)
}

/// `next.step[(r + 1) % 24] - local.step[r]`.
pub open spec fn flag_residual(l: Seq<u64>, n: Seq<u64>, r: int) -> int {
    fsub(val(n, col_step((r + 1) % NUM_ROUNDS as int)), val(l, col_step(r)))
}

/// `filter (A'''[x, y] limb h - public input)`.
pub open spec fn output_residual(l: Seq<u64>, pi: Seq<u64>, x: int, y: int, h: int) -> int {
    fmul(val(l, REG_FILTER as int), fsub(val(l, col_a_prime_prime_prime(x, y) + h), pi[2 * (5 * y + x) + h] as int))
}

/// `(1 - step[23]) (A'''[x, y] limb h - next A[x, y] limb h)`.
pub open spec fn chain_residual(l: Seq<u64>, n: Seq<u64>, x: int, y: int, h: int) -> int {
    fmul(
        fsub(1, val(l, col_step(NUM_ROUNDS - 1))),
        fsub(val(l, col_a_prime_prime_prime(x, y) + h), val(n, col_a(x, y) + h)),
    )
}

/// The constraints between a row and the next, in order: round flags advance;
/// outputs match the public inputs where the filter is on; each round's output
/// is the next round's input.
pub open spec fn transition_residuals(l: Seq<u64>, n: Seq<u64>, pi: Seq<u64>) -> Seq<u64> {
    Seq::new(24, |r: int| flag_residual(l, n, r) as u64) + Seq::new(
        50,
        |k: int| output_residual(l, pi, lane_x(k / 2), lane_y(k / 2), k % 2) as u64,
    ) + Seq::new(50, |k: int| chain_residual(l, n, lane_x(k / 2), lane_y(k / 2), k % 2) as u64)
}

/// On the first row the first round flag is one and the others zero.
pub open spec fn first_row_residuals(l: Seq<u64>) -> Seq<u64> {
    Seq::new(
        24,
        |r: int|
            if r == 0 {
                fsub(val(l, col_step(0)), 1) as u64
            } else {
                l[col_step(r)]
            },
    )
}

/// `pack_value(bits, 0)`.
fn pack(bits: &Vec<u64>) -> (r: u64)
    requires
        forall|i: int| 0 <= i < bits@.len() ==> #[trigger] bits@[i] < ORDER,
    ensures
        r == pack_value(bits@, 0),
        r < ORDER,
{
    let mut acc: u64 = 0;
    let mut k: usize = bits.len();
    while k > 0
        invariant
            k <= bits@.len(),
            forall|i: int| 0 <= i < bits@.len() ==> #[trigger] bits@[i] < ORDER,
            acc == pack_value(bits@, k as int),
            acc < ORDER,
        decreases k,
    {
        k = k - 1;
        let d = f_add(acc, acc);
        acc = f_add(d, bits[k]);
    }
    acc
}

/// `rc_select(local, i, 24)`.
fn select_rc_bit(local: &Vec<u64>, i: usize) -> (r: u64)
    requires
        is_field_row(local@, NUM_COLUMNS as int),
        i < 64,
    ensures
        r == rc_select(local@, i as int, NUM_ROUNDS as int),
        r < ORDER,
{
    let mut acc: u64 = 0;
    for r in 0..NUM_ROUNDS
        invariant
            is_field_row(local@, NUM_COLUMNS as int),
            i < 64,
            acc == rc_select(local@, i as int, r as int),
            acc < ORDER,
    {
        let this_round = local[reg_step(r)];
        let this_round_constant = rc_value_bit(r, i);
        let t = f_mul(this_round, this_round_constant);
        acc = f_add(acc, t);
    }
    acc
}

fn theta_residual_at(l: &Vec<u64>, x: usize, z: usize) -> (r: u64)
    requires
        is_field_row(l@, NUM_COLUMNS as int),
        x < 5,
        z < 64,
    ensures
        r == theta_residual(l@, x as int, z as int),
{
    let xor = xor3_gen(l[reg_c(x, z)], l[reg_c((x + 4) % 5, z)], l[reg_c((x + 1) % 5, (z + 63) % 64)]);
    f_sub(l[reg_c_prime(x, z)], xor)
}

fn input_residual_at(l: &Vec<u64>, x: usize, y: usize, h: usize) -> (r: u64)
    requires
        is_field_row(l@, NUM_COLUMNS as int),
        x < 5,
        y < 5,
        h < 2,
    ensures
        r == input_residual(l@, x as int, y as int, h as int),
{
    let mut bits: Vec<u64> = Vec::new();
    for z in 0..32
        invariant
            is_field_row(l@, NUM_COLUMNS as int),
            x < 5,
            y < 5,
            h < 2,
            bits@ =~= input_bits(l@, x as int, y as int, h as int).subrange(0, z as int),
            forall|i: int| 0 <= i < bits@.len() ==> #[trigger] bits@[i] < ORDER,
    {
        let b = xor3_gen(l[reg_a_prime(x, y, z + 32 * h)], l[reg_c(x, z + 32 * h)], l[reg_c_prime(x, z + 32 * h)]);
        bits.push(b);
    }
    assert(bits@ =~= input_bits(l@, x as int, y as int, h as int));
    let computed = pack(&bits);
    f_sub(computed, l[reg_a(x, y) + h])
}

fn parity_residual_at(l: &Vec<u64>, x: usize, z: usize) -> (r: u64)
    requires
        is_field_row(l@, NUM_COLUMNS as int),
        x < 5,
        z < 64,
    ensures
        r == parity_residual(l@, x as int, z as int),
{
    let s01 = f_add(l[reg_a_prime(x, 0, z)], l[reg_a_prime(x, 1, z)]);
    let s012 = f_add(s01, l[reg_a_prime(x, 2, z)]);
    let s0123 = f_add(s012, l[reg_a_prime(x, 3, z)]);
    let sum = f_add(s0123, l[reg_a_prime(x, 4, z)]);
    let diff = f_sub(sum, l[reg_c_prime(x, z)]);
    let d2 = f_sub(diff, 2);
    let d4 = f_sub(diff, 4);
    let t = f_mul(diff, d2);
    f_mul(t, d4)
}

fn chi_residual_at(l: &Vec<u64>, x: usize, y: usize, h: usize) -> (r: u64)
    requires
        is_field_row(l@, NUM_COLUMNS as int),
        x < 5,
        y < 5,
        h < 2,
    ensures
        r == chi_residual(l@, x as int, y as int, h as int),
{
    let mut bits: Vec<u64> = Vec::new();
    for z in 0..32
        invariant
            is_field_row(l@, NUM_COLUMNS as int),
            x < 5,
            y < 5,
            h < 2,
            bits@ =~= chi_bits(l@, x as int, y as int, h as int).subrange(0, z as int),
            forall|i: int| 0 <= i < bits@.len() ==> #[trigger] bits@[i] < ORDER,
    {
        let andn = andn_gen(l[reg_b((x + 1) % 5, y, z + 32 * h)], l[reg_b((x + 2) % 5, y, z + 32 * h)]);
        let b = xor_gen(l[reg_b(x, y, z + 32 * h)], andn);
        bits.push(b);
    }
    assert(bits@ =~= chi_bits(l@, x as int, y as int, h as int));
    let computed = pack(&bits);
    f_sub(computed, l[reg_a_prime_prime(x, y) + h])
}

fn split_residual_at(l: &Vec<u64>, h: usize) -> (r: u64)
    requires
        is_field_row(l@, NUM_COLUMNS as int),
        h < 2,
    ensures
        r == split_residual(l@, h as int),
{
    let mut bits: Vec<u64> = Vec::new();
    for z in 0..32
        invariant
            is_field_row(l@, NUM_COLUMNS as int),
            h < 2,
            bits@ =~= split_bits(l@, h as int).subrange(0, z as int),
            forall|i: int| 0 <= i < bits@.len() ==> #[trigger] bits@[i] < ORDER,
    {
        bits.push(l[reg_a_prime_prime_0_0_bit(z + 32 * h)]);
    }
    assert(bits@ =~= split_bits(l@, h as int));
    let computed = pack(&bits);
    f_sub(computed, l[reg_a_prime_prime(0, 0) + h])
}

fn iota_residual_at(l: &Vec<u64>, h: usize) -> (r: u64)
    requires
        is_field_row(l@, NUM_COLUMNS as int),
        h < 2,
    ensures
        r == iota_residual(l@, h as int),
{
    let mut bits: Vec<u64> = Vec::new();
    for z in 0..32
        invariant
            is_field_row(l@, NUM_COLUMNS as int),
            h < 2,
            bits@ =~= iota_bits(l@, h as int).subrange(0, z as int),
            forall|i: int| 0 <= i < bits@.len() ==> #[trigger] bits@[i] < ORDER,
    {
        let rc_bit_i = select_rc_bit(l, z + 32 * h);
        let b = xor_gen(l[reg_a_prime_prime_0_0_bit(z + 32 * h)], rc_bit_i);
        bits.push(b);
    }
    assert(bits@ =~= iota_bits(l@, h as int));
    let computed = pack(&bits);
    f_sub(computed, l[reg_a_prime_prime_prime(0, 0) + h])
}

impl KeccakStark {
    /// The largest total degree of a constraint, reached by the parity check.
    pub fn constraint_degree(&self) -> (d: usize)
        ensures
            d == 3,
    {
        3
    }

    /// Evaluates every constraint on `local` and the row after it, `next`.
    /// A valid table makes each residual zero: the general ones on every row,
    /// the transition ones on every row but the last, and the first-row ones on
    /// the first row.
    pub fn eval_packed_generic(
        &self,
        local: &Vec<u64>,
        next: &Vec<u64>,
        public_inputs: &[u64; NUM_PUBLIC_INPUTS],
    ) -> (res: Residuals)
        requires
            is_field_row(local@, NUM_COLUMNS as int),
            is_field_row(next@, NUM_COLUMNS as int),
            is_field_row(public_inputs@, NUM_PUBLIC_INPUTS as int),
        ensures
            res.general@ == general_residuals(local@),
            res.transition@ == transition_residuals(local@, next@, public_inputs@),
            res.first_row@ == first_row_residuals(local@),
    {
        let ghost l = local@;
        let ghost n = next@;
        let ghost pi = public_inputs@;
        // Round flags: the first row is round 0, and the flags advance cyclically.
        let mut first_row: Vec<u64> = Vec::new();
        let mut transition: Vec<u64> = Vec::new();
        for r in 0..NUM_ROUNDS
            invariant
                l == local@,
                n == next@,
                is_field_row(l, NUM_COLUMNS as int),
                is_field_row(n, NUM_COLUMNS as int),
                first_row@ =~= first_row_residuals(l).subrange(0, r as int),
                transition@ =~= transition_residuals(l, n, pi).subrange(0, r as int),
        {
            if r == 0 {
                first_row.push(f_sub(local[reg_step(0)], 1));
            } else {
                first_row.push(local[reg_step(r)]);
            }
            transition.push(f_sub(next[reg_step((r + 1) % NUM_ROUNDS)], local[reg_step(r)]));
        }
        assert(first_row@ =~= first_row_residuals(l));

        let mut general: Vec<u64> = Vec::new();
        let filter = local[REG_FILTER];
        general.push(f_mul(filter, f_sub(filter, 1)));
        let not_final_step = f_sub(1, local[reg_step(NUM_ROUNDS - 1)]);
        general.push(f_mul(not_final_step, filter));
        assert(general@ =~= general_residuals(l).subrange(0, 2));

        // Outputs match the public inputs on the row where the filter is on.
        for k in 0..50
            invariant
                l == local@,
                n == next@,
                pi == public_inputs@,
                is_field_row(l, NUM_COLUMNS as int),
                is_field_row(pi, NUM_PUBLIC_INPUTS as int),
                transition@ =~= transition_residuals(l, n, pi).subrange(0, 24 + k),
        {
            let x = k / 2 / 5;
            let y = k / 2 % 5;
            let h = k % 2;
            let output = public_inputs[2 * (5 * y + x) + h];
            let local_output = local[reg_a_prime_prime_prime(x, y) + h];
            transition.push(f_mul(local[REG_FILTER], f_sub(local_output, output)));
        }

        for k in 0..320
            invariant
                l == local@,
                is_field_row(l, NUM_COLUMNS as int),
                general@ =~= general_residuals(l).subrange(0, 2 + k),
        {
            general.push(theta_residual_at(local, k / 64, k % 64));
        }
        for k in 0..50
            invariant
                l == local@,
                is_field_row(l, NUM_COLUMNS as int),
                general@ =~= general_residuals(l).subrange(0, 322 + k),
        {
            general.push(input_residual_at(local, k / 2 / 5, k / 2 % 5, k % 2));
        }
        for k in 0..320
            invariant
                l == local@,
                is_field_row(l, NUM_COLUMNS as int),
                general@ =~= general_residuals(l).subrange(0, 372 + k),
        {
            general.push(parity_residual_at(local, k / 64, k % 64));
        }
        for k in 0..50
            invariant
                l == local@,
                is_field_row(l, NUM_COLUMNS as int),
                general@ =~= general_residuals(l).subrange(0, 692 + k),
        {
            general.push(chi_residual_at(local, k / 2 / 5, k / 2 % 5, k % 2));
        }
        for h in 0..2
            invariant
                l == local@,
                is_field_row(l, NUM_COLUMNS as int),
                general@ =~= general_residuals(l).subrange(0, 742 + h),
        {
            general.push(split_residual_at(local, h));
        }
        for h in 0..2
            invariant
                l == local@,
                is_field_row(l, NUM_COLUMNS as int),
                general@ =~= general_residuals(l).subrange(0, 744 + h),
        {
            general.push(iota_residual_at(local, h));
        }
        assert(general@ =~= general_residuals(l));

        // Each round's output is the next round's input, but across blocks.
        for k in 0..50
            invariant
                l == local@,
                n == next@,
                is_field_row(l, NUM_COLUMNS as int),
                is_field_row(n, NUM_COLUMNS as int),
                transition@ =~= transition_residuals(l, n, pi).subrange(0, 74 + k),
        {
            let x = k / 2 / 5;
            let y = k / 2 % 5;
            let h = k % 2;
            let output = local[reg_a_prime_prime_prime(x, y) + h];
            let input = next[reg_a(x, y) + h];
            let not_last_round = f_sub(1, local[reg_step(NUM_ROUNDS - 1)]);
            transition.push(f_mul(not_last_round, f_sub(output, input)));
        }
        assert(transition@ =~= transition_residuals(l, n, pi));
        Residuals { general, transition, first_row }
    }
}

} // verus!
