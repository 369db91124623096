use bellperson::canon::proc_lc;
use bellperson::eval::eval_lc;
use bellperson::{Fr, Index, LinearCombination, Variable};

fn var_in(i: usize) -> Variable {
    Variable::new_unchecked(Index::Input(i))
}

fn var_aux(i: usize) -> Variable {
    Variable::new_unchecked(Index::Aux(i))
}

#[test]
fn canonicalization_is_order_insensitive() {
    let a = var_in(1);
    let b = var_aux(0);
    let c = var_aux(2);
    let lc1 = LinearCombination::zero()
        .add_term(Fr::from_u64(5), c)
        .add_term(Fr::from_u64(3), a)
        .add_term(Fr::from_u64(7), b)
        .add_term(Fr::from_u64(2), a);
    let lc2 = LinearCombination::zero()
        .add_term(Fr::from_u64(7), b)
        .add_term(Fr::from_u64(2), a)
        .add_term(Fr::from_u64(5), c)
        .add_term(Fr::from_u64(3), a);
    let c1 = proc_lc(&lc1);
    let c2 = proc_lc(&lc2);
    assert_eq!(c1, c2);
    // Inputs sort before auxiliaries; within a kind, ascending index.
    assert_eq!(c1.len(), 3);
    assert!(c1[0].0 == a && c1[0].1 == Fr::from_u64(5));
    assert!(c1[1].0 == b && c1[1].1 == Fr::from_u64(7));
    assert!(c1[2].0 == c && c1[2].1 == Fr::from_u64(5));
}

#[test]
fn canonicalization_is_idempotent() {
    let lc = LinearCombination::zero()
        .add_term(Fr::from_u64(3), var_aux(1))
        .add_term(Fr::from_u64(4), var_in(0))
        .add_term(Fr::from_u64(9), var_aux(1));
    let once = proc_lc(&lc);
    let mut rebuilt = LinearCombination::zero();
    for (v, coeff) in &once {
        rebuilt = rebuilt.add_term(*coeff, *v);
    }
    let twice = proc_lc(&rebuilt);
    assert_eq!(once, twice);
}

#[test]
fn cancelled_terms_vanish() {
    let v = var_aux(0);
    let minus_three = Fr::from_limbs(
        0xfffffffefffffffe,
        0x53bda402fffe5bfe,
        0x3339d80809a1d805,
        0x73eda753299d7d48,
    );
    let lc = LinearCombination::zero()
        .add_term(Fr::from_u64(3), v)
        .add_term(minus_three, v);
    let canonical = proc_lc(&lc);
    assert_eq!(canonical.len(), 0);
}

#[test]
fn zero_coefficient_terms_vanish() {
    let lc = LinearCombination::zero()
        .add_term(Fr::zero(), var_aux(0))
        .add_term(Fr::from_u64(2), var_aux(1));
    let canonical = proc_lc(&lc);
    assert_eq!(canonical.len(), 1);
    assert!(canonical[0].0 == var_aux(1));
}

#[test]
fn eval_agrees_with_canonical_eval() {
    let inputs = vec![
        (Fr::one(), "ONE".to_string()),
        (Fr::from_u64(11), "x".to_string()),
    ];
    let aux = vec![
        (Fr::from_u64(6), "p".to_string()),
        (Fr::from_u64(13), "q".to_string()),
    ];
    let lc = LinearCombination::zero()
        .add_term(Fr::from_u64(5), var_aux(1))
        .add_term(Fr::from_u64(3), var_in(1))
        .add_term(Fr::from_u64(4), var_aux(0))
        .add_term(Fr::from_u64(9), var_in(1));
    let raw = eval_lc(&lc, &inputs, &aux);
    let mut canonical = LinearCombination::zero();
    for (v, coeff) in &proc_lc(&lc) {
        canonical = canonical.add_term(*coeff, *v);
    }
    let folded = eval_lc(&canonical, &inputs, &aux);
    assert!(raw == folded);
    // 5*13 + (3+9)*11 + 4*6 = 65 + 132 + 24 = 221
    assert!(raw == Fr::from_u64(221));
}

#[test]
fn field_arithmetic_reduces_modulo_the_order() {
    // (r - 1) + 2 must wrap to 1: evaluate (r-1)*ONE + 2*ONE.
    let neg_one = Fr::neg_one();
    let inputs = vec![(Fr::one(), "ONE".to_string())];
    let aux: Vec<(Fr, String)> = Vec::new();
    let lc = LinearCombination::zero()
        .add_term(neg_one, var_in(0))
        .add_term(Fr::from_u64(2), var_in(0));
    let r = eval_lc(&lc, &inputs, &aux);
    assert!(r == Fr::one());
    // (r - 1) * (r - 1) = r^2 - 2r + 1 = 1 (mod r).
    let aux2 = vec![(neg_one, "m".to_string())];
    let lc2 = LinearCombination::zero().add_term(neg_one, var_aux(0));
    let sq = eval_lc(&lc2, &inputs, &aux2);
    assert!(sq == Fr::one());
}

#[test]
fn is_zero_detects_only_zero() {
    assert!(Fr::zero().is_zero());
    assert!(!Fr::one().is_zero());
    assert!(!Fr::neg_one().is_zero());
    assert!(!Fr::from_u64(0x10000000).is_zero());
}

#[test]
fn le_bytes_to_u64s_reads_little_endian_words() {
    let bytes: Vec<u8> = vec![1, 2, 3, 4, 5, 6, 7, 8, 0xff, 0, 0, 0, 0, 0, 0, 0];
    let words = bellperson::le_bytes_to_u64s(&bytes);
    assert_eq!(words.len(), 2);
    assert_eq!(words[0], 0x0807060504030201);
    assert_eq!(words[1], 0xff);
    let empty: Vec<u8> = Vec::new();
    assert_eq!(bellperson::le_bytes_to_u64s(&empty).len(), 0);
}
