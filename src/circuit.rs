//! The constraints as executable expression terms: the description from which an
//! arithmetic circuit is built, one gate per operation. Each term is proved to be
//! the expression of `degree`, whose value is the native residual.
use crate::columns::{
    reg_a, reg_a_prime, reg_a_prime_prime, reg_a_prime_prime_0_0_bit, reg_a_prime_prime_prime, reg_b, reg_c,
    reg_c_prime, reg_step, REG_FILTER,
};
use crate::constraints::{first_row_residuals, general_residuals, transition_residuals};
use crate::degree::{
    degree, eval, lemma_constraint_degree,
    chi_bit_exprs, chi_expr, e_add, e_mul, e_sub, first_row_expr, general_expr, input_bit_exprs, input_expr,
    iota_expr, pack_expr, parity_expr, rc_select_expr, split_expr, theta_expr, transition_expr, xor3_expr,
    xor_expr, andn_expr, Expr,
};
use crate::completeness::{keccak_f_lanes, lemma_table_satisfies_constraints};
use crate::columns::NUM_PUBLIC_INPUTS;
use crate::field::b2f;
use crate::keccak_stark::public_input_of;
use crate::table_laws::is_table;
use crate::keccak_stark::KeccakStark;
use crate::permutation::{rc_bit, rc_value_bit, NUM_INPUTS, NUM_ROUNDS};
use vstd::prelude::*;

verus! {

/// An expression over the entries of a row (`Local`), the next row (`Next`) and the
/// public inputs (`Public`).
pub enum Term {
    Local(usize),
    Next(usize),
    Public(usize),
    Const(u64),
    Add(Box<Term>, Box<Term>),
    Sub(Box<Term>, Box<Term>),
    Mul(Box<Term>, Box<Term>),
}

/// The expression that a term stands for.
pub open spec fn term_expr(t: Term) -> Expr
    decreases t,
{
    match t {
        Term::Local(c) => Expr::Local(c as int),
        Term::Next(c) => Expr::Next(c as int),
        Term::Public(i) => Expr::Public(i as int),
        Term::Const(v) => Expr::Const(v as int),
        Term::Add(a, b) => e_add(term_expr(*a), term_expr(*b)),
        Term::Sub(a, b) => e_sub(term_expr(*a), term_expr(*b)),
        Term::Mul(a, b) => e_mul(term_expr(*a), term_expr(*b)),
    }
}

/// A copy of a term.
pub fn copy_term(t: &Term) -> (r: Term)
    ensures
        term_expr(r) == term_expr(*t),
    decreases t,
{
    match t {
        Term::Local(c) => Term::Local(*c),
        Term::Next(c) => Term::Next(*c),
        Term::Public(i) => Term::Public(*i),
        Term::Const(v) => Term::Const(*v),
        Term::Add(a, b) => Term::Add(Box::new(copy_term(a)), Box::new(copy_term(b))),
        Term::Sub(a, b) => Term::Sub(Box::new(copy_term(a)), Box::new(copy_term(b))),
        Term::Mul(a, b) => Term::Mul(Box::new(copy_term(a)), Box::new(copy_term(b))),
    }
}

fn add_t(a: Term, b: Term) -> (r: Term)
    ensures
        term_expr(r) == e_add(term_expr(a), term_expr(b)),
{
    Term::Add(Box::new(a), Box::new(b))
}

fn sub_t(a: Term, b: Term) -> (r: Term)
    ensures
        term_expr(r) == e_sub(term_expr(a), term_expr(b)),
{
    Term::Sub(Box::new(a), Box::new(b))
}

fn mul_t(a: Term, b: Term) -> (r: Term)
    ensures
        term_expr(r) == e_mul(term_expr(a), term_expr(b)),
{
    Term::Mul(Box::new(a), Box::new(b))
}

fn xor_term(x: Term, y: Term) -> (r: Term)
    ensures
        term_expr(r) == xor_expr(term_expr(x), term_expr(y)),
{
    let x2 = copy_term(&x);
    let y2 = copy_term(&y);
    let y3 = copy_term(&y);
    sub_t(add_t(x, y), mul_t(x2, add_t(y2, y3)))
}

fn xor3_term(x: Term, y: Term, z: Term) -> (r: Term)
    ensures
        term_expr(r) == xor3_expr(term_expr(x), term_expr(y), term_expr(z)),
{
    xor_term(x, xor_term(y, z))
}

fn andn_term(x: Term, y: Term) -> (r: Term)
    ensures
        term_expr(r) == andn_expr(term_expr(x), term_expr(y)),
{
    mul_t(sub_t(Term::Const(1), x), y)
}

pub open spec fn term_exprs(ts: Seq<Term>) -> Seq<Expr> {
    Seq::new(ts.len(), |i: int| term_expr(ts[i]))
}

proof fn lemma_term_exprs_push(ts: Seq<Term>, t: Term)
    ensures
        term_exprs(ts.push(t)) == term_exprs(ts).push(term_expr(t)),
{
    assert(term_exprs(ts.push(t)) =~= term_exprs(ts).push(term_expr(t)));
}

/// `2 acc + bits[z]` from the last bit down to the first.
fn pack_term(bits: &Vec<Term>) -> (r: Term)
    ensures
        term_expr(r) == pack_expr(term_exprs(bits@), 0),
{
    let mut acc = Term::Const(0);
    let mut k: usize = bits.len();
    while k > 0
        invariant
            k <= bits@.len(),
            term_expr(acc) == pack_expr(term_exprs(bits@), k as int),
        decreases k,
    {
        k = k - 1;
        let b = copy_term(&bits[k]);
        acc = add_t(mul_t(Term::Const(2), acc), b);
    }
    acc
}

fn rc_select_term(i: usize) -> (r: Term)
    requires
        i < 64,
    ensures
        term_expr(r) == rc_select_expr(i as int, NUM_ROUNDS as int),
{
    let mut acc = Term::Const(0);
    for r in 0..NUM_ROUNDS
        invariant
            i < 64,
            term_expr(acc) == rc_select_expr(i as int, r as int),
    {
        let c = rc_value_bit(r, i);
        assert(c as int == b2f(rc_bit(r as int, i as int)) as int);
        acc = add_t(acc, mul_t(Term::Local(reg_step(r)), Term::Const(c)));
    }
    acc
}

fn theta_term(x: usize, z: usize) -> (r: Term)
    requires
        x < 5,
        z < 64,
    ensures
        term_expr(r) == theta_expr(x as int, z as int),
{
    let xor = xor3_term(
        Term::Local(reg_c(x, z)),
        Term::Local(reg_c((x + 4) % 5, z)),
        Term::Local(reg_c((x + 1) % 5, (z + 63) % 64)),
    );
    sub_t(Term::Local(reg_c_prime(x, z)), xor)
}

fn input_term(x: usize, y: usize, h: usize) -> (r: Term)
    requires
        x < 5,
        y < 5,
        h < 2,
    ensures
        term_expr(r) == input_expr(x as int, y as int, h as int),
{
    let mut bits: Vec<Term> = Vec::new();
    for z in 0..32
        invariant
            x < 5,
            y < 5,
            h < 2,
            term_exprs(bits@) =~= input_bit_exprs(x as int, y as int, h as int).subrange(0, z as int),
    {
        let b = xor3_term(
            Term::Local(reg_a_prime(x, y, z + 32 * h)),
            Term::Local(reg_c(x, z + 32 * h)),
            Term::Local(reg_c_prime(x, z + 32 * h)),
        );
        let ghost before = bits@;
        bits.push(b);
        proof {
            lemma_term_exprs_push(before, bits@[bits@.len() - 1]);
            assert(bits@ == before.push(bits@[bits@.len() - 1]));
        }
    }
    assert(term_exprs(bits@) =~= input_bit_exprs(x as int, y as int, h as int));
    sub_t(pack_term(&bits), Term::Local(reg_a(x, y) + h))
}

fn parity_term(x: usize, z: usize) -> (r: Term)
    requires
        x < 5,
        z < 64,
    ensures
        term_expr(r) == parity_expr(x as int, z as int),
{
    let s01 = add_t(Term::Local(reg_a_prime(x, 0, z)), Term::Local(reg_a_prime(x, 1, z)));
    let s012 = add_t(s01, Term::Local(reg_a_prime(x, 2, z)));
    let s0123 = add_t(s012, Term::Local(reg_a_prime(x, 3, z)));
    let sum = add_t(s0123, Term::Local(reg_a_prime(x, 4, z)));
    let d = sub_t(sum, Term::Local(reg_c_prime(x, z)));
    let d2 = copy_term(&d);
    let d3 = copy_term(&d);
    mul_t(mul_t(d, sub_t(d2, Term::Const(2))), sub_t(d3, Term::Const(4)))
}

fn chi_term(x: usize, y: usize, h: usize) -> (r: Term)
    requires
        x < 5,
        y < 5,
        h < 2,
    ensures
        term_expr(r) == chi_expr(x as int, y as int, h as int),
{
    let mut bits: Vec<Term> = Vec::new();
    for z in 0..32
        invariant
            x < 5,
            y < 5,
            h < 2,
            term_exprs(bits@) =~= chi_bit_exprs(x as int, y as int, h as int).subrange(0, z as int),
    {
        let andn = andn_term(
            Term::Local(reg_b((x + 1) % 5, y, z + 32 * h)),
            Term::Local(reg_b((x + 2) % 5, y, z + 32 * h)),
        );
        let ghost before = bits@;
        bits.push(xor_term(Term::Local(reg_b(x, y, z + 32 * h)), andn));
        proof {
            lemma_term_exprs_push(before, bits@[bits@.len() - 1]);
            assert(bits@ == before.push(bits@[bits@.len() - 1]));
        }
    }
    assert(term_exprs(bits@) =~= chi_bit_exprs(x as int, y as int, h as int));
    sub_t(pack_term(&bits), Term::Local(reg_a_prime_prime(x, y) + h))
}

fn split_term(h: usize) -> (r: Term)
    requires
        h < 2,
    ensures
        term_expr(r) == split_expr(h as int),
{
    let mut bits: Vec<Term> = Vec::new();
    let ghost target = Seq::new(32, |z: int| Expr::Local(crate::columns::col_a_prime_prime_0_0_bit(z + 32 * h)));
    for z in 0..32
        invariant
            h < 2,
            target == Seq::new(32, |z: int| Expr::Local(crate::columns::col_a_prime_prime_0_0_bit(z + 32 * h))),
            term_exprs(bits@) =~= target.subrange(0, z as int),
    {
        let ghost before = bits@;
        bits.push(Term::Local(reg_a_prime_prime_0_0_bit(z + 32 * h)));
        proof {
            lemma_term_exprs_push(before, bits@[bits@.len() - 1]);
            assert(bits@ == before.push(bits@[bits@.len() - 1]));
        }
    }
    assert(term_exprs(bits@) =~= target);
    sub_t(pack_term(&bits), Term::Local(reg_a_prime_prime(0, 0) + h))
}

fn iota_term(h: usize) -> (r: Term)
    requires
        h < 2,
    ensures
        term_expr(r) == iota_expr(h as int),
{
    let mut bits: Vec<Term> = Vec::new();
    let ghost target = Seq::new(
        32,
        |z: int|
            xor_expr(
                Expr::Local(crate::columns::col_a_prime_prime_0_0_bit(z + 32 * h)),
                rc_select_expr(z + 32 * h, NUM_ROUNDS as int),
            ),
    );
    for z in 0..32
        invariant
            h < 2,
            target == Seq::new(
                32,
                |z: int|
                    xor_expr(
                        Expr::Local(crate::columns::col_a_prime_prime_0_0_bit(z + 32 * h)),
                        rc_select_expr(z + 32 * h, NUM_ROUNDS as int),
                    ),
            ),
            term_exprs(bits@) =~= target.subrange(0, z as int),
    {
        let rc_bit_i = rc_select_term(z + 32 * h);
        let ghost before = bits@;
        bits.push(xor_term(Term::Local(reg_a_prime_prime_0_0_bit(z + 32 * h)), rc_bit_i));
        proof {
            lemma_term_exprs_push(before, bits@[bits@.len() - 1]);
            assert(bits@ == before.push(bits@[bits@.len() - 1]));
        }
    }
    assert(term_exprs(bits@) =~= target);
    sub_t(pack_term(&bits), Term::Local(reg_a_prime_prime_prime(0, 0) + h))
}

/// The constraints as terms, grouped and ordered as the evaluator's residuals.
pub struct ConstraintTerms {
    pub general: Vec<Term>,
    pub transition: Vec<Term>,
    pub first_row: Vec<Term>,
}

/// `terms` are the constraint terms.
pub open spec fn are_constraint_terms(terms: ConstraintTerms) -> bool {
    &&& terms.general@.len() == 746
    &&& terms.transition@.len() == 124
    &&& terms.first_row@.len() == 24
    &&& forall|j: int| 0 <= j < 746 ==> term_expr(#[trigger] terms.general@[j]) == general_expr(j)
    &&& forall|j: int| 0 <= j < 124 ==> term_expr(#[trigger] terms.transition@[j]) == transition_expr(j)
    &&& forall|j: int| 0 <= j < 24 ==> term_expr(#[trigger] terms.first_row@[j]) == first_row_expr(j)
}

/// The circuit and the evaluator agree: on any row, next row and public inputs,
/// each constraint term evaluates in the field to the residual that the evaluator
/// returns for it, and has degree at most 3.
pub proof fn lemma_terms_match_residuals(terms: ConstraintTerms, l: Seq<u64>, n: Seq<u64>, pi: Seq<u64>)
    requires
        are_constraint_terms(terms),
    ensures
        forall|j: int|
            0 <= j < terms.general@.len() ==> eval(term_expr(#[trigger] terms.general@[j]), l, n, pi)
                == general_residuals(l)[j] as int && degree(term_expr(terms.general@[j])) <= 3,
        forall|j: int|
            0 <= j < terms.transition@.len() ==> eval(term_expr(#[trigger] terms.transition@[j]), l, n, pi)
                == transition_residuals(l, n, pi)[j] as int && degree(term_expr(terms.transition@[j])) <= 3,
        forall|j: int|
            0 <= j < terms.first_row@.len() ==> eval(term_expr(#[trigger] terms.first_row@[j]), l, n, pi)
                == first_row_residuals(l)[j] as int && degree(term_expr(terms.first_row@[j])) <= 3,
{
    lemma_constraint_degree(l, n, pi);
    assert forall|j: int| 0 <= j < terms.general@.len() implies eval(term_expr(#[trigger] terms.general@[j]), l, n, pi)
        == general_residuals(l)[j] as int && degree(term_expr(terms.general@[j])) <= 3 by {
        assert(term_expr(terms.general@[j]) == general_expr(j));
    }
    assert forall|j: int| 0 <= j < terms.transition@.len() implies eval(
        term_expr(#[trigger] terms.transition@[j]),
        l,
        n,
        pi,
    ) == transition_residuals(l, n, pi)[j] as int && degree(term_expr(terms.transition@[j])) <= 3 by {
        assert(term_expr(terms.transition@[j]) == transition_expr(j));
    }
    assert forall|j: int| 0 <= j < terms.first_row@.len() implies eval(
        term_expr(#[trigger] terms.first_row@[j]),
        l,
        n,
        pi,
    ) == first_row_residuals(l)[j] as int && degree(term_expr(terms.first_row@[j])) <= 3 by {
        assert(term_expr(terms.first_row@[j]) == first_row_expr(j));
    }
}

/// On a table built by the generator, with the public inputs of the output of
/// every permutation in it, the circuit's constraint terms vanish exactly where
/// the evaluator's residuals do: the general terms on every row (whatever the next
/// row), the transition terms on each row and the next, the first-row terms on
/// row 0.
#[verifier::spinoff_prover]
pub proof fn lemma_table_satisfies_terms(
    terms: ConstraintTerms,
    inputs: Seq<[u64; NUM_INPUTS]>,
    rows: Seq<Vec<u64>>,
    output: Seq<u64>,
    pi: Seq<u64>,
    i: int,
)
    requires
        are_constraint_terms(terms),
        is_table(inputs, rows),
        rows.len() >= NUM_ROUNDS * inputs.len(),
        forall|b: int| 0 <= b < inputs.len() ==> keccak_f_lanes(#[trigger] inputs[b]@) == output,
        pi.len() == NUM_PUBLIC_INPUTS,
        forall|j: int| 0 <= j < NUM_PUBLIC_INPUTS ==> #[trigger] pi[j] == public_input_of(output, j),
        0 <= i < rows.len(),
    ensures
        forall|n: Seq<u64>, j: int|
            0 <= j < terms.general@.len() ==> #[trigger] eval(term_expr(terms.general@[j]), rows[i]@, n, pi) == 0,
        i + 1 < rows.len() ==> forall|j: int|
            0 <= j < terms.transition@.len() ==> #[trigger] eval(
                term_expr(terms.transition@[j]),
                rows[i]@,
                rows[i + 1]@,
                pi,
            ) == 0,
        i == 0 ==> forall|j: int|
            0 <= j < terms.first_row@.len() ==> #[trigger] eval(term_expr(terms.first_row@[j]), rows[i]@, rows[i]@, pi)
                == 0,
{
    lemma_table_satisfies_constraints(inputs, rows, output, pi, i);
    assert forall|n: Seq<u64>, j: int| 0 <= j < terms.general@.len() implies #[trigger] eval(
        term_expr(terms.general@[j]),
        rows[i]@,
        n,
        pi,
    ) == 0 by {
        lemma_terms_match_residuals(terms, rows[i]@, n, pi);
        assert(general_residuals(rows[i]@)[j] == 0);
    }
    if i + 1 < rows.len() {
        lemma_terms_match_residuals(terms, rows[i]@, rows[i + 1]@, pi);
    }
    if i == 0 {
        lemma_terms_match_residuals(terms, rows[i]@, rows[i]@, pi);
    }
}

impl KeccakStark {
    /// The constraints as terms: the description that the circuit evaluator builds
    /// gates from, in the order of the evaluator's residuals.
    pub fn constraint_terms(&self) -> (terms: ConstraintTerms)
        ensures
            are_constraint_terms(terms),
    {
        let mut first_row: Vec<Term> = Vec::new();
        let mut transition: Vec<Term> = Vec::new();
        for r in 0..NUM_ROUNDS
            invariant
                first_row@.len() == r,
                transition@.len() == r,
                forall|j: int| 0 <= j < r ==> term_expr(#[trigger] first_row@[j]) == first_row_expr(j),
                forall|j: int| 0 <= j < r ==> term_expr(#[trigger] transition@[j]) == transition_expr(j),
        {
            if r == 0 {
                first_row.push(sub_t(Term::Local(reg_step(0)), Term::Const(1)));
            } else {
                first_row.push(Term::Local(reg_step(r)));
            }
            transition.push(sub_t(Term::Next(reg_step((r + 1) % NUM_ROUNDS)), Term::Local(reg_step(r))));
        }
        for k in 0..50
            invariant
                transition@.len() == 24 + k,
                forall|j: int| 0 <= j < 24 + k ==> term_expr(#[trigger] transition@[j]) == transition_expr(j),
        {
            let x = k / 2 / 5;
            let y = k / 2 % 5;
            let h = k % 2;
            let diff = sub_t(Term::Local(reg_a_prime_prime_prime(x, y) + h), Term::Public(2 * (5 * y + x) + h));
            transition.push(mul_t(Term::Local(REG_FILTER), diff));
        }
        for k in 0..50
            invariant
                transition@.len() == 74 + k,
                forall|j: int| 0 <= j < 74 + k ==> term_expr(#[trigger] transition@[j]) == transition_expr(j),
        {
            let x = k / 2 / 5;
            let y = k / 2 % 5;
            let h = k % 2;
            let not_last = sub_t(Term::Const(1), Term::Local(reg_step(NUM_ROUNDS - 1)));
            let diff = sub_t(Term::Local(reg_a_prime_prime_prime(x, y) + h), Term::Next(reg_a(x, y) + h));
            transition.push(mul_t(not_last, diff));
        }

        let mut general: Vec<Term> = Vec::new();
        general.push(mul_t(Term::Local(REG_FILTER), sub_t(Term::Local(REG_FILTER), Term::Const(1))));
        general.push(mul_t(sub_t(Term::Const(1), Term::Local(reg_step(NUM_ROUNDS - 1))), Term::Local(REG_FILTER)));
        for k in 0..320
            invariant
                general@.len() == 2 + k,
                forall|j: int| 0 <= j < 2 + k ==> term_expr(#[trigger] general@[j]) == general_expr(j),
        {
            general.push(theta_term(k / 64, k % 64));
        }
        for k in 0..50
            invariant
                general@.len() == 322 + k,
                forall|j: int| 0 <= j < 322 + k ==> term_expr(#[trigger] general@[j]) == general_expr(j),
        {
            general.push(input_term(k / 2 / 5, k / 2 % 5, k % 2));
        }
        for k in 0..320
            invariant
                general@.len() == 372 + k,
                forall|j: int| 0 <= j < 372 + k ==> term_expr(#[trigger] general@[j]) == general_expr(j),
        {
            general.push(parity_term(k / 64, k % 64));
        }
        for k in 0..50
            invariant
                general@.len() == 692 + k,
                forall|j: int| 0 <= j < 692 + k ==> term_expr(#[trigger] general@[j]) == general_expr(j),
        {
            general.push(chi_term(k / 2 / 5, k / 2 % 5, k % 2));
        }
        for h in 0..2
            invariant
                general@.len() == 742 + h,
                forall|j: int| 0 <= j < 742 + h ==> term_expr(#[trigger] general@[j]) == general_expr(j),
        {
            general.push(split_term(h));
        }
        for h in 0..2
            invariant
                general@.len() == 744 + h,
                forall|j: int| 0 <= j < 744 + h ==> term_expr(#[trigger] general@[j]) == general_expr(j),
        {
            general.push(iota_term(h));
        }
        ConstraintTerms { general, transition, first_row }
    }
}

} // verus!
