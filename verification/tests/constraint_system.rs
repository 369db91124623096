use bellperson::{Fr, LinearCombination, SynthesisError, TestConstraintSystem};

#[test]
fn test_cs() {
    let mut cs = TestConstraintSystem::new();
    assert!(cs.is_satisfied());
    assert_eq!(cs.num_constraints(), 0);
    cs.push_namespace("a");
    let a = cs.alloc_aux("var", Ok(Fr::from_u64(10))).unwrap();
    cs.pop_namespace();
    cs.push_namespace("b");
    let b = cs.alloc_aux("var", Ok(Fr::from_u64(4))).unwrap();
    cs.pop_namespace();
    let c = cs.alloc_aux("product", Ok(Fr::from_u64(40))).unwrap();

    cs.enforce(
        "mult",
        LinearCombination::zero().add_var(a),
        LinearCombination::zero().add_var(b),
        LinearCombination::zero().add_var(c),
    );
    assert!(cs.is_satisfied());
    assert_eq!(cs.num_constraints(), 1);

    cs.set("a/var", Fr::from_u64(4));

    let one = TestConstraintSystem::one();
    cs.enforce(
        "eq",
        LinearCombination::zero().add_var(a),
        LinearCombination::zero().add_var(one),
        LinearCombination::zero().add_var(b),
    );

    assert!(!cs.is_satisfied());
    assert!(cs.which_is_unsatisfied() == Some("mult".to_string()));

    assert!(cs.get("product") == Fr::from_u64(40));

    cs.set("product", Fr::from_u64(16));
    assert!(cs.is_satisfied());

    cs.push_namespace("test1");
    cs.push_namespace("test2");
    cs.alloc_aux("hehe", Ok(Fr::one())).unwrap();
    cs.pop_namespace();
    cs.pop_namespace();

    assert!(cs.get("test1/test2/hehe") == Fr::one());
}

#[test]
fn namespaces_give_joined_paths() {
    let mut cs = TestConstraintSystem::new();
    cs.push_namespace("a");
    cs.push_namespace("b");
    let v = cs.alloc_aux("var", Ok(Fr::from_u64(7))).unwrap();
    cs.pop_namespace();
    cs.pop_namespace();
    assert!(cs.get("a/b/var") == Fr::from_u64(7));
    let _ = v;
}

#[test]
fn compute_path_joins_segments() {
    let ns = vec!["a".to_string(), "b".to_string()];
    assert_eq!(bellperson::compute_path(&ns, "var"), "a/b/var");
    let empty: Vec<String> = Vec::new();
    assert_eq!(bellperson::compute_path(&empty, "top"), "top");
}

#[test]
fn get_after_set_returns_written_value() {
    let mut cs = TestConstraintSystem::new();
    let _ = cs.alloc_aux("w", Ok(Fr::from_u64(5))).unwrap();
    assert!(cs.get("w") == Fr::from_u64(5));
    cs.set("w", Fr::from_u64(123));
    assert!(cs.get("w") == Fr::from_u64(123));
}

#[test]
fn alloc_error_is_propagated_and_state_unchanged() {
    let mut cs = TestConstraintSystem::new();
    let r = cs.alloc_aux("w", Err(SynthesisError::AssignmentMissing));
    assert!(r == Err(SynthesisError::AssignmentMissing));
    assert_eq!(cs.num_inputs(), 1);
    assert_eq!(cs.num_constraints(), 0);
    let r2 = cs.alloc_input("x", Err(SynthesisError::DivisionByZero));
    assert!(r2 == Err(SynthesisError::DivisionByZero));
    assert_eq!(cs.num_inputs(), 1);
}

#[test]
fn error_descriptions_are_nonempty() {
    assert!(!SynthesisError::AssignmentMissing.describe().is_empty());
    assert_eq!(
        SynthesisError::DivisionByZero.describe(),
        "division by zero"
    );
    assert!(!SynthesisError::IoError("gone".to_string()).describe().is_empty());
    assert!(!SynthesisError::Unsatisfiable.describe().is_empty());
}

#[test]
fn get_input_checks_recorded_path() {
    let mut cs = TestConstraintSystem::new();
    let _ = cs.alloc_input("x", Ok(Fr::from_u64(9))).unwrap();
    assert!(cs.get_input(0, "ONE") == Fr::one());
    assert!(cs.get_input(1, "x") == Fr::from_u64(9));
}

#[test]
fn verify_compares_inputs_after_fixed_slot() {
    let mut cs = TestConstraintSystem::new();
    let _ = cs.alloc_input("x", Ok(Fr::from_u64(2))).unwrap();
    let _ = cs.alloc_input("y", Ok(Fr::from_u64(3))).unwrap();
    assert!(cs.verify(&vec![Fr::from_u64(2), Fr::from_u64(3)]));
    assert!(!cs.verify(&vec![Fr::from_u64(2), Fr::from_u64(4)]));
    assert!(!cs.verify(&vec![Fr::from_u64(3), Fr::from_u64(2)]));
}

#[test]
fn which_is_unsatisfied_reports_first_in_insertion_order() {
    let mut cs = TestConstraintSystem::new();
    let a = cs.alloc_aux("a", Ok(Fr::from_u64(2))).unwrap();
    let b = cs.alloc_aux("b", Ok(Fr::from_u64(3))).unwrap();
    let one = TestConstraintSystem::one();
    // 2 * 1 = 3 fails; recorded first.
    cs.enforce(
        "first",
        LinearCombination::zero().add_var(a),
        LinearCombination::zero().add_var(one),
        LinearCombination::zero().add_var(b),
    );
    // 3 * 1 = 2 fails; recorded second, never reported.
    cs.enforce(
        "second",
        LinearCombination::zero().add_var(b),
        LinearCombination::zero().add_var(one),
        LinearCombination::zero().add_var(a),
    );
    assert!(!cs.is_satisfied());
    assert_eq!(cs.which_is_unsatisfied(), Some("first".to_string()));
}
