use keccak_stark::circuit::Term;
use keccak_stark::columns::reg_c;
use keccak_stark::field::{f_add, f_mul, f_sub};
use keccak_stark::{KeccakStark, NUM_INPUTS, NUM_PUBLIC_INPUTS};
use tiny_keccak::keccakf;

fn eval_term(t: &Term, l: &[u64], n: &[u64], pi: &[u64]) -> u64 {
    match t {
        Term::Local(c) => l[*c],
        Term::Next(c) => n[*c],
        Term::Public(i) => pi[*i],
        Term::Const(v) => *v,
        Term::Add(a, b) => f_add(eval_term(a, l, n, pi), eval_term(b, l, n, pi)),
        Term::Sub(a, b) => f_sub(eval_term(a, l, n, pi), eval_term(b, l, n, pi)),
        Term::Mul(a, b) => f_mul(eval_term(a, l, n, pi), eval_term(b, l, n, pi)),
    }
}

fn term_degree(t: &Term) -> usize {
    match t {
        Term::Local(_) | Term::Next(_) | Term::Public(_) => 1,
        Term::Const(_) => 0,
        Term::Add(a, b) | Term::Sub(a, b) => term_degree(a).max(term_degree(b)),
        Term::Mul(a, b) => term_degree(a) + term_degree(b),
    }
}

fn input() -> [u64; NUM_INPUTS] {
    let mut s = [0u64; NUM_INPUTS];
    for (i, lane) in s.iter_mut().enumerate() {
        *lane = (i as u64 + 1).wrapping_mul(0x9E37_79B9_7F4A_7C15);
    }
    s
}

fn check_pair(stark: &KeccakStark, l: &Vec<u64>, n: &Vec<u64>, pi: &[u64; NUM_PUBLIC_INPUTS]) {
    let terms = stark.constraint_terms();
    let native = stark.eval_packed_generic(l, n, pi);
    for (t, r) in terms.general.iter().zip(native.general.iter()) {
        assert_eq!(eval_term(t, l, n, pi), *r);
    }
    for (t, r) in terms.transition.iter().zip(native.transition.iter()) {
        assert_eq!(eval_term(t, l, n, pi), *r);
    }
    for (t, r) in terms.first_row.iter().zip(native.first_row.iter()) {
        assert_eq!(eval_term(t, l, n, pi), *r);
    }
}

#[test]
fn terms_evaluate_to_native_residuals() {
    let stark = KeccakStark::new();
    let rows = stark.generate_trace_rows(vec![input()], 0);
    let mut out = input();
    keccakf(&mut out);
    let pi = stark.generate_public_inputs(out);
    for i in [0usize, 5, 22, 23, 30] {
        check_pair(&stark, &rows[i], &rows[(i + 1) % rows.len()], &pi);
    }
    let mut tampered = rows[3].clone();
    tampered[reg_c(2, 9)] ^= 1;
    check_pair(&stark, &tampered, &rows[4], &pi);
}

#[test]
fn terms_have_degree_at_most_three() {
    let stark = KeccakStark::new();
    let terms = stark.constraint_terms();
    assert_eq!(terms.general.len(), 746);
    assert_eq!(terms.transition.len(), 124);
    assert_eq!(terms.first_row.len(), 24);
    let max = terms
        .general
        .iter()
        .chain(terms.transition.iter())
        .chain(terms.first_row.iter())
        .map(term_degree)
        .max()
        .unwrap();
    assert_eq!(max, 3);
    assert_eq!(stark.constraint_degree(), 3);
}
