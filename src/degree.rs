//! Each constraint is a fixed polynomial expression in the entries of the row,
//! the next row and the public inputs, of total degree at most 3.
use crate::columns::{
    col_a, col_a_prime, col_a_prime_prime, col_a_prime_prime_0_0_bit, col_a_prime_prime_prime, col_b, col_c,
    col_c_prime, col_step, REG_FILTER,
};
use crate::constraints::{
    first_row_residuals, general_residuals, lane_x, lane_y, transition_residuals, chi_bits, chi_residual, input_bits, input_residual, iota_bits, iota_residual, pack_value, parity_residual,
    rc_select, split_bits, split_residual, theta_residual, };
use crate::field::{b2f, fadd, fmul, fsub};
use crate::logic::{andn_poly, xor3_poly, xor_poly};
use crate::permutation::{rc_bit, NUM_ROUNDS};
use vstd::prelude::*;

verus! {

/// A polynomial expression over the entries of a row, the next row and the public inputs.
pub enum Expr {
    Local(int),
    Next(int),
    Public(int),
    Const(int),
    Add(Box<Expr>, Box<Expr>),
    Sub(Box<Expr>, Box<Expr>),
    Mul(Box<Expr>, Box<Expr>),
}

/// The value of `e` in the field.
pub open spec fn eval(e: Expr, l: Seq<u64>, n: Seq<u64>, pi: Seq<u64>) -> int
    decreases e,
{
    match e {
        Expr::Local(c) => l[c] as int,
        Expr::Next(c) => n[c] as int,
        Expr::Public(i) => pi[i] as int,
        Expr::Const(v) => v,
        Expr::Add(a, b) => fadd(eval(*a, l, n, pi), eval(*b, l, n, pi)),
        Expr::Sub(a, b) => fsub(eval(*a, l, n, pi), eval(*b, l, n, pi)),
        Expr::Mul(a, b) => fmul(eval(*a, l, n, pi), eval(*b, l, n, pi)),
    }
}

pub open spec fn max(a: nat, b: nat) -> nat {
    if a >= b {
        a
    } else {
        b
    }
}

/// A bound on the total degree of the polynomial that `e` expands to.
pub open spec fn degree(e: Expr) -> nat
    decreases e,
{
    match e {
        Expr::Local(_) => 1,
        Expr::Next(_) => 1,
        Expr::Public(_) => 1,
        Expr::Const(_) => 0,
        Expr::Add(a, b) => max(degree(*a), degree(*b)),
        Expr::Sub(a, b) => max(degree(*a), degree(*b)),
        Expr::Mul(a, b) => degree(*a) + degree(*b),
    }
}

pub open spec fn e_add(a: Expr, b: Expr) -> Expr {
    Expr::Add(Box::new(a), Box::new(b))
}

pub open spec fn e_sub(a: Expr, b: Expr) -> Expr {
    Expr::Sub(Box::new(a), Box::new(b))
}

pub open spec fn e_mul(a: Expr, b: Expr) -> Expr {
    Expr::Mul(Box::new(a), Box::new(b))
}

pub open spec fn xor_expr(x: Expr, y: Expr) -> Expr {
    e_sub(e_add(x, y), e_mul(x, e_add(y, y)))
}

pub open spec fn xor3_expr(x: Expr, y: Expr, z: Expr) -> Expr {
    xor_expr(x, xor_expr(y, z))
}

pub open spec fn andn_expr(x: Expr, y: Expr) -> Expr {
    e_mul(e_sub(Expr::Const(1), x), y)
}

/// `2 acc + bits[z]` from the last bit down to `lo`.
pub open spec fn pack_expr(bits: Seq<Expr>, lo: int) -> Expr
    decreases bits.len() - lo,
{
    if lo >= bits.len() {
        Expr::Const(0)
    } else {
        e_add(e_mul(Expr::Const(2), pack_expr(bits, lo + 1)), bits[lo])
    }
}

pub open spec fn rc_select_expr(i: int, r: int) -> Expr
    decreases r,
{
    if r <= 0 {
        Expr::Const(0)
    } else {
        e_add(rc_select_expr(i, r - 1), e_mul(Expr::Local(col_step(r - 1)), Expr::Const(b2f(rc_bit(r - 1, i)) as int)))
    }
}

pub open spec fn theta_expr(x: int, z: int) -> Expr {
    e_sub(
        Expr::Local(col_c_prime(x, z)),
        xor3_expr(
            Expr::Local(col_c(x, z)),
            Expr::Local(col_c((x + 4) % 5, z)),
            Expr::Local(col_c((x + 1) % 5, (z + 63) % 64)),
        ),
    )
}

pub open spec fn input_bit_exprs(x: int, y: int, h: int) -> Seq<Expr> {
    Seq::new(
        32,
        |z: int|
            xor3_expr(
                Expr::Local(col_a_prime(x, y, z + 32 * h)),
                Expr::Local(col_c(x, z + 32 * h)),
                Expr::Local(col_c_prime(x, z + 32 * h)),
            ),
    )
}

pub open spec fn input_expr(x: int, y: int, h: int) -> Expr {
    e_sub(pack_expr(input_bit_exprs(x, y, h), 0), Expr::Local(col_a(x, y) + h))
}

pub open spec fn parity_expr(x: int, z: int) -> Expr {
    let sum = e_add(
        e_add(
            e_add(
                e_add(Expr::Local(col_a_prime(x, 0, z)), Expr::Local(col_a_prime(x, 1, z))),
                Expr::Local(col_a_prime(x, 2, z)),
            ),
            Expr::Local(col_a_prime(x, 3, z)),
        ),
        Expr::Local(col_a_prime(x, 4, z)),
    );
    let d = e_sub(sum, Expr::Local(col_c_prime(x, z)));
    e_mul(e_mul(d, e_sub(d, Expr::Const(2))), e_sub(d, Expr::Const(4)))
}

pub open spec fn chi_bit_exprs(x: int, y: int, h: int) -> Seq<Expr> {
    Seq::new(
        32,
        |z: int|
            xor_expr(
                Expr::Local(col_b(x, y, z + 32 * h)),
                andn_expr(Expr::Local(col_b((x + 1) % 5, y, z + 32 * h)), Expr::Local(col_b((x + 2) % 5, y, z + 32 * h))),
            ),
    )
}

pub open spec fn chi_expr(x: int, y: int, h: int) -> Expr {
    e_sub(pack_expr(chi_bit_exprs(x, y, h), 0), Expr::Local(col_a_prime_prime(x, y) + h))
}

pub open spec fn split_expr(h: int) -> Expr {
    e_sub(
        pack_expr(Seq::new(32, |z: int| Expr::Local(col_a_prime_prime_0_0_bit(z + 32 * h))), 0),
        Expr::Local(col_a_prime_prime(0, 0) + h),
    )
}

pub open spec fn iota_expr(h: int) -> Expr {
    e_sub(
        pack_expr(
            Seq::new(
                32,
                |z: int|
                    xor_expr(
                        Expr::Local(col_a_prime_prime_0_0_bit(z + 32 * h)),
                        rc_select_expr(z + 32 * h, NUM_ROUNDS as int),
                    ),
            ),
            0,
        ),
        Expr::Local(col_a_prime_prime_prime(0, 0) + h),
    )
}

/// Packing keeps the largest degree of the bits.
proof fn lemma_pack_expr_degree(bits: Seq<Expr>, lo: int, d: nat)
    requires
        forall|z: int| 0 <= z < bits.len() ==> degree(#[trigger] bits[z]) <= d,
        0 <= lo,
    ensures
        degree(pack_expr(bits, lo)) <= d,
    decreases bits.len() - lo,
{
    reveal_with_fuel(degree, 3);
    if lo < bits.len() {
        lemma_pack_expr_degree(bits, lo + 1, d);
    }
}

/// Packing expressions evaluates as packing their values.
proof fn lemma_pack_expr_eval(bits: Seq<Expr>, vals: Seq<u64>, lo: int, l: Seq<u64>, n: Seq<u64>, pi: Seq<u64>)
    requires
        bits.len() == vals.len(),
        0 <= lo,
        forall|z: int| 0 <= z < bits.len() ==> eval(#[trigger] bits[z], l, n, pi) == vals[z] as int,
    ensures
        eval(pack_expr(bits, lo), l, n, pi) == pack_value(vals, lo),
    decreases bits.len() - lo,
{
    reveal_with_fuel(eval, 3);
    if lo < bits.len() {
        lemma_pack_expr_eval(bits, vals, lo + 1, l, n, pi);
    }
}

proof fn lemma_rc_select_expr(i: int, r: int, l: Seq<u64>, n: Seq<u64>, pi: Seq<u64>)
    ensures
        eval(rc_select_expr(i, r), l, n, pi) == rc_select(l, i, r),
        degree(rc_select_expr(i, r)) <= 1,
    decreases r,
{
    reveal_with_fuel(eval, 3);
    reveal_with_fuel(degree, 3);
    if r > 0 {
        lemma_rc_select_expr(i, r - 1, l, n, pi);
    }
}

proof fn lemma_xor_expr(x: Expr, y: Expr, l: Seq<u64>, n: Seq<u64>, pi: Seq<u64>)
    ensures
        eval(xor_expr(x, y), l, n, pi) == xor_poly(eval(x, l, n, pi), eval(y, l, n, pi)),
        degree(xor_expr(x, y)) == degree(x) + degree(y),
{
    reveal_with_fuel(eval, 4);
    reveal_with_fuel(degree, 4);
}

proof fn lemma_andn_expr(x: Expr, y: Expr, l: Seq<u64>, n: Seq<u64>, pi: Seq<u64>)
    ensures
        eval(andn_expr(x, y), l, n, pi) == andn_poly(eval(x, l, n, pi), eval(y, l, n, pi)),
        degree(andn_expr(x, y)) == degree(x) + degree(y),
{
    reveal_with_fuel(eval, 4);
    reveal_with_fuel(degree, 4);
}

proof fn lemma_xor3_expr(x: Expr, y: Expr, z: Expr, l: Seq<u64>, n: Seq<u64>, pi: Seq<u64>)
    ensures
        eval(xor3_expr(x, y, z), l, n, pi) == xor3_poly(eval(x, l, n, pi), eval(y, l, n, pi), eval(z, l, n, pi)),
        degree(xor3_expr(x, y, z)) == degree(x) + degree(y) + degree(z),
{
    lemma_xor_expr(y, z, l, n, pi);
    lemma_xor_expr(x, xor_expr(y, z), l, n, pi);
}

proof fn lemma_theta_expr(x: int, z: int, l: Seq<u64>, n: Seq<u64>, pi: Seq<u64>)
    ensures
        eval(theta_expr(x, z), l, n, pi) == theta_residual(l, x, z),
        degree(theta_expr(x, z)) <= 3,
{
    let a = Expr::Local(col_c(x, z));
    let b = Expr::Local(col_c((x + 4) % 5, z));
    let c = Expr::Local(col_c((x + 1) % 5, (z + 63) % 64));
    lemma_xor3_expr(a, b, c, l, n, pi);
    reveal_with_fuel(eval, 2);
    reveal_with_fuel(degree, 2);
}

proof fn lemma_input_expr(x: int, y: int, h: int, l: Seq<u64>, n: Seq<u64>, pi: Seq<u64>)
    ensures
        eval(input_expr(x, y, h), l, n, pi) == input_residual(l, x, y, h),
        degree(input_expr(x, y, h)) <= 3,
{
    let bits = input_bit_exprs(x, y, h);
    let vals = input_bits(l, x, y, h);
    assert forall|z: int| 0 <= z < bits.len() implies eval(#[trigger] bits[z], l, n, pi) == vals[z] as int && degree(
        bits[z],
    ) <= 3 by {
        lemma_xor3_expr(
            Expr::Local(col_a_prime(x, y, z + 32 * h)),
            Expr::Local(col_c(x, z + 32 * h)),
            Expr::Local(col_c_prime(x, z + 32 * h)),
            l,
            n,
            pi,
        );
    }
    lemma_pack_expr_eval(bits, vals, 0, l, n, pi);
    lemma_pack_expr_degree(bits, 0, 3);
    reveal_with_fuel(eval, 2);
    reveal_with_fuel(degree, 2);
}

proof fn lemma_parity_expr(x: int, z: int, l: Seq<u64>, n: Seq<u64>, pi: Seq<u64>)
    ensures
        eval(parity_expr(x, z), l, n, pi) == parity_residual(l, x, z),
        degree(parity_expr(x, z)) <= 3,
{
    reveal_with_fuel(eval, 8);
    reveal_with_fuel(degree, 8);
}

proof fn lemma_chi_expr(x: int, y: int, h: int, l: Seq<u64>, n: Seq<u64>, pi: Seq<u64>)
    ensures
        eval(chi_expr(x, y, h), l, n, pi) == chi_residual(l, x, y, h),
        degree(chi_expr(x, y, h)) <= 3,
{
    let bits = chi_bit_exprs(x, y, h);
    let vals = chi_bits(l, x, y, h);
    assert forall|z: int| 0 <= z < bits.len() implies eval(#[trigger] bits[z], l, n, pi) == vals[z] as int && degree(
        bits[z],
    ) <= 3 by {
        let b1 = Expr::Local(col_b((x + 1) % 5, y, z + 32 * h));
        let b2 = Expr::Local(col_b((x + 2) % 5, y, z + 32 * h));
        lemma_andn_expr(b1, b2, l, n, pi);
        lemma_xor_expr(Expr::Local(col_b(x, y, z + 32 * h)), andn_expr(b1, b2), l, n, pi);
    }
    lemma_pack_expr_eval(bits, vals, 0, l, n, pi);
    lemma_pack_expr_degree(bits, 0, 3);
    reveal_with_fuel(eval, 2);
    reveal_with_fuel(degree, 2);
}

proof fn lemma_split_expr(h: int, l: Seq<u64>, n: Seq<u64>, pi: Seq<u64>)
    ensures
        eval(split_expr(h), l, n, pi) == split_residual(l, h),
        degree(split_expr(h)) <= 3,
{
    let bits = Seq::new(32, |z: int| Expr::Local(col_a_prime_prime_0_0_bit(z + 32 * h)));
    let vals = split_bits(l, h);
    assert forall|z: int| 0 <= z < bits.len() implies eval(#[trigger] bits[z], l, n, pi) == vals[z] as int && degree(
        bits[z],
    ) <= 3 by {}
    lemma_pack_expr_eval(bits, vals, 0, l, n, pi);
    lemma_pack_expr_degree(bits, 0, 3);
    reveal_with_fuel(eval, 2);
    reveal_with_fuel(degree, 2);
}

proof fn lemma_iota_expr(h: int, l: Seq<u64>, n: Seq<u64>, pi: Seq<u64>)
    ensures
        eval(iota_expr(h), l, n, pi) == iota_residual(l, h),
        degree(iota_expr(h)) <= 3,
{
    let bits = Seq::new(
        32,
        |z: int|
            xor_expr(
                Expr::Local(col_a_prime_prime_0_0_bit(z + 32 * h)),
                rc_select_expr(z + 32 * h, NUM_ROUNDS as int),
            ),
    );
    let vals = iota_bits(l, h);
    assert forall|z: int| 0 <= z < bits.len() implies eval(#[trigger] bits[z], l, n, pi) == vals[z] as int && degree(
        bits[z],
    ) <= 3 by {
        lemma_rc_select_expr(z + 32 * h, NUM_ROUNDS as int, l, n, pi);
        lemma_xor_expr(
            Expr::Local(col_a_prime_prime_0_0_bit(z + 32 * h)),
            rc_select_expr(z + 32 * h, NUM_ROUNDS as int),
            l,
            n,
            pi,
        );
    }
    lemma_pack_expr_eval(bits, vals, 0, l, n, pi);
    lemma_pack_expr_degree(bits, 0, 3);
    reveal_with_fuel(eval, 2);
    reveal_with_fuel(degree, 2);
}

/// Constraint `j` of the constraints on every row, in the evaluator's order.
pub open spec fn general_expr(j: int) -> Expr {
    let filter = Expr::Local(REG_FILTER as int);
    if j == 0 {
        e_mul(filter, e_sub(filter, Expr::Const(1)))
    } else if j == 1 {
        e_mul(e_sub(Expr::Const(1), Expr::Local(col_step(NUM_ROUNDS - 1))), filter)
    } else if j < 322 {
        theta_expr((j - 2) / 64, (j - 2) % 64)
    } else if j < 372 {
        input_expr(lane_x((j - 322) / 2), lane_y((j - 322) / 2), (j - 322) % 2)
    } else if j < 692 {
        parity_expr((j - 372) / 64, (j - 372) % 64)
    } else if j < 742 {
        chi_expr(lane_x((j - 692) / 2), lane_y((j - 692) / 2), (j - 692) % 2)
    } else if j < 744 {
        split_expr(j - 742)
    } else {
        iota_expr(j - 744)
    }
}

/// Constraint `j` of the transition constraints, in the evaluator's order.
pub open spec fn transition_expr(j: int) -> Expr {
    if j < 24 {
        e_sub(Expr::Next(col_step((j + 1) % NUM_ROUNDS as int)), Expr::Local(col_step(j)))
    } else if j < 74 {
        let x = lane_x((j - 24) / 2);
        let y = lane_y((j - 24) / 2);
        let h = (j - 24) % 2;
        e_mul(
            Expr::Local(REG_FILTER as int),
            e_sub(Expr::Local(col_a_prime_prime_prime(x, y) + h), Expr::Public(2 * (5 * y + x) + h)),
        )
    } else {
        let x = lane_x((j - 74) / 2);
        let y = lane_y((j - 74) / 2);
        let h = (j - 74) % 2;
        e_mul(
            e_sub(Expr::Const(1), Expr::Local(col_step(NUM_ROUNDS - 1))),
            e_sub(Expr::Local(col_a_prime_prime_prime(x, y) + h), Expr::Next(col_a(x, y) + h)),
        )
    }
}

/// Constraint `r` of the first-row constraints.
pub open spec fn first_row_expr(r: int) -> Expr {
    if r == 0 {
        e_sub(Expr::Local(col_step(0)), Expr::Const(1))
    } else {
        Expr::Local(col_step(r))
    }
}

/// Degree bound: each constraint that the evaluator emits is a fixed polynomial
/// expression of total degree at most 3, whose value on any row, next row and
/// public inputs is the residual.
pub proof fn lemma_constraint_degree(l: Seq<u64>, n: Seq<u64>, pi: Seq<u64>)
    ensures
        forall|j: int|
            0 <= j < general_residuals(l).len() ==> degree(#[trigger] general_expr(j)) <= 3 && eval(
                general_expr(j),
                l,
                n,
                pi,
            ) == general_residuals(l)[j] as int,
        forall|j: int|
            0 <= j < transition_residuals(l, n, pi).len() ==> degree(#[trigger] transition_expr(j)) <= 3 && eval(
                transition_expr(j),
                l,
                n,
                pi,
            ) == transition_residuals(l, n, pi)[j] as int,
        forall|r: int|
            0 <= r < first_row_residuals(l).len() ==> degree(#[trigger] first_row_expr(r)) <= 3 && eval(
                first_row_expr(r),
                l,
                n,
                pi,
            ) == first_row_residuals(l)[r] as int,
{
    reveal_with_fuel(eval, 4);
    reveal_with_fuel(degree, 4);
    assert forall|j: int| 0 <= j < general_residuals(l).len() implies degree(#[trigger] general_expr(j)) <= 3 && eval(
        general_expr(j),
        l,
        n,
        pi,
    ) == general_residuals(l)[j] as int by {
        if j < 2 {
        } else if j < 322 {
            lemma_theta_expr((j - 2) / 64, (j - 2) % 64, l, n, pi);
        } else if j < 372 {
            lemma_input_expr(lane_x((j - 322) / 2), lane_y((j - 322) / 2), (j - 322) % 2, l, n, pi);
        } else if j < 692 {
            lemma_parity_expr((j - 372) / 64, (j - 372) % 64, l, n, pi);
        } else if j < 742 {
            lemma_chi_expr(lane_x((j - 692) / 2), lane_y((j - 692) / 2), (j - 692) % 2, l, n, pi);
        } else if j < 744 {
            lemma_split_expr(j - 742, l, n, pi);
        } else {
            lemma_iota_expr(j - 744, l, n, pi);
        }
    }
}

} // verus!
