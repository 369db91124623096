use bellperson::{DummyDemo, Fr, LinearCombination, TestConstraintSystem};

fn chain_system(coeff_a: u64, swap: bool) -> TestConstraintSystem {
    let mut cs = TestConstraintSystem::new();
    let x = cs.alloc_input("x", Ok(Fr::from_u64(3))).unwrap();
    let y = cs.alloc_aux("y", Ok(Fr::from_u64(4))).unwrap();
    let z = cs.alloc_aux("z", Ok(Fr::from_u64(12))).unwrap();
    let a = if swap {
        LinearCombination::zero()
            .add_term(Fr::from_u64(2), y)
            .add_term(Fr::from_u64(coeff_a), x)
    } else {
        LinearCombination::zero()
            .add_term(Fr::from_u64(coeff_a), x)
            .add_term(Fr::from_u64(2), y)
    };
    cs.enforce(
        "gate",
        a,
        LinearCombination::zero().add_var(y),
        LinearCombination::zero().add_var(z),
    );
    cs
}

#[test]
fn fingerprint_is_64_lowercase_hex_chars() {
    let cs = chain_system(1, false);
    let h = cs.hash();
    assert_eq!(h.len(), 64);
    for ch in h.chars() {
        assert!(ch.is_ascii_hexdigit());
        assert!(!ch.is_ascii_uppercase());
    }
}

#[test]
fn fingerprint_ignores_term_order_and_names() {
    let h1 = chain_system(5, false).hash();
    let h2 = chain_system(5, true).hash();
    assert_eq!(h1, h2);

    // Renaming paths does not change the fingerprint.
    let mut cs = TestConstraintSystem::new();
    let x = cs.alloc_input("renamed_x", Ok(Fr::from_u64(3))).unwrap();
    let y = cs.alloc_aux("other_y", Ok(Fr::from_u64(4))).unwrap();
    let z = cs.alloc_aux("other_z", Ok(Fr::from_u64(12))).unwrap();
    cs.enforce(
        "renamed_gate",
        LinearCombination::zero()
            .add_term(Fr::from_u64(5), x)
            .add_term(Fr::from_u64(2), y),
        LinearCombination::zero().add_var(y),
        LinearCombination::zero().add_var(z),
    );
    assert_eq!(cs.hash(), h1);
}

#[test]
fn fingerprint_changes_with_structure() {
    let base = chain_system(5, false).hash();
    // A different coefficient changes the digest.
    assert_ne!(base, chain_system(6, false).hash());
    // An extra constraint changes the digest.
    let mut cs = chain_system(5, false);
    let one = TestConstraintSystem::one();
    cs.enforce(
        "extra",
        LinearCombination::zero().add_var(one),
        LinearCombination::zero().add_var(one),
        LinearCombination::zero().add_var(one),
    );
    assert_ne!(base, cs.hash());
}

#[test]
fn fingerprint_merges_duplicate_terms_before_hashing() {
    // 5x split as 2x + 3x hashes identically to a single 5x term.
    let mut split = TestConstraintSystem::new();
    let x = split.alloc_input("x", Ok(Fr::from_u64(3))).unwrap();
    let y = split.alloc_aux("y", Ok(Fr::from_u64(4))).unwrap();
    let z = split.alloc_aux("z", Ok(Fr::from_u64(12))).unwrap();
    split.enforce(
        "gate",
        LinearCombination::zero()
            .add_term(Fr::from_u64(2), x)
            .add_term(Fr::from_u64(2), y)
            .add_term(Fr::from_u64(3), x),
        LinearCombination::zero().add_var(y),
        LinearCombination::zero().add_var(z),
    );
    assert_eq!(split.hash(), chain_system(5, false).hash());
}

#[test]
fn pretty_print_renders_canonical_constraints() {
    let mut cs = TestConstraintSystem::new();
    let a = cs.alloc_aux("a", Ok(Fr::from_u64(2))).unwrap();
    let b = cs.alloc_aux("b", Ok(Fr::from_u64(3))).unwrap();
    cs.enforce(
        "mul",
        LinearCombination::zero().add_var(a),
        LinearCombination::zero().add_var(b),
        LinearCombination::zero()
            .add_term(Fr::from_u64(2), a)
            .add_term(Fr::from_u64(2), a),
    );
    let expected_coeff = format!("2^2 . 0x{}4 . ", "0".repeat(63));
    let expected = format!("\nmul: (`a`) * (`b`) = ({}`a`)\n", expected_coeff);
    assert_eq!(cs.pretty_print(), expected);
}

#[test]
fn pretty_print_renders_negone_empty_and_one() {
    let mut cs = TestConstraintSystem::new();
    let a = cs.alloc_aux("a", Ok(Fr::from_u64(2))).unwrap();
    cs.enforce(
        "gate",
        LinearCombination::zero().add_term(Fr::neg_one(), a),
        LinearCombination::zero().add_var(a),
        LinearCombination::zero()
            .add_var(a)
            .add_term(Fr::neg_one(), a),
    );
    assert_eq!(cs.pretty_print(), "\ngate: ( - `a`) * (`a`) = (0)\n");
}

#[test]
fn dummy_demo_synthesizes_a_satisfied_chain() {
    let mut cs = TestConstraintSystem::new();
    let demo = DummyDemo {
        public: 2,
        private: 3,
    };
    demo.synthesize(&mut cs).unwrap();
    assert_eq!(cs.num_constraints(), 5);
    assert_eq!(cs.num_inputs(), 3);
    assert!(cs.is_satisfied());
    assert_eq!(cs.hash().len(), 64);
    // The chain squares from two: inputs are 2 and 4.
    assert!(cs.verify(&vec![Fr::from_u64(2), Fr::from_u64(4)]));
}

#[test]
fn fingerprint_golden_value() {
    let mut cs = TestConstraintSystem::new();
    let demo = DummyDemo {
        public: 2,
        private: 3,
    };
    demo.synthesize(&mut cs).unwrap();
    assert_eq!(
        cs.hash(),
        "ff2f8b16600afc8a1652ca82d7c35530f5ddcfcb0f0a0e08fb654388e6996fc6"
    );
}
