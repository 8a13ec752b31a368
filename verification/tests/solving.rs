use acvm::blackbox::solve_range_opcode;
use acvm::field::FIELD_MODULUS;
use acvm::{
    BlackBoxFuncCall, ErrorLocation, Expression, FieldValue, FunctionInput, Opcode,
    OpcodeResolutionError, WitnessStore, solve,
};

fn store_with(entries: &[(u32, u64)]) -> WitnessStore {
    let mut store = WitnessStore::new();
    for (w, v) in entries {
        assert!(store.set(*w, FieldValue::from_u64(*v)));
    }
    store
}

fn range_circuit(witness: u32, bits: u32) -> Vec<Opcode> {
    vec![Opcode::BlackBoxFuncCall(BlackBoxFuncCall::Range {
        input: FunctionInput::witness(witness, bits),
    })]
}

#[test]
fn range_succeeds_at_exact_width() {
    // value 255 has bit length 8: declared width 8 succeeds
    let store = store_with(&[(0, 255)]);
    let input = FunctionInput::witness(0, 8);
    assert_eq!(solve_range_opcode(&store, &input, true), Ok(()));
}

#[test]
fn range_fails_one_bit_short() {
    // value 255 with declared width 7 is unsatisfiable
    let store = store_with(&[(0, 255)]);
    let input = FunctionInput::witness(0, 7);
    assert_eq!(
        solve_range_opcode(&store, &input, false),
        Err(OpcodeResolutionError::UnsatisfiedConstrain {
            opcode_location: ErrorLocation::Unresolved,
        })
    );
}

#[test]
fn range_scenario_fits() {
    // circuit = [Range(witness 0, 4 bits)], witness 0 = 15: success
    let result = solve(&range_circuit(0, 4), store_with(&[(0, 15)]), true);
    let solved = result.expect("15 fits in 4 bits");
    assert_eq!(solved.get(0), Some(FieldValue::from_u64(15)));
}

#[test]
fn range_scenario_overflows() {
    // witness 0 = 16 does not fit 4 bits: unsatisfiable at opcode 0
    let result = solve(&range_circuit(0, 4), store_with(&[(0, 16)]), false);
    assert_eq!(
        result,
        Err(OpcodeResolutionError::UnsatisfiedConstrain {
            opcode_location: ErrorLocation::Resolved(0),
        })
    );
}

#[test]
fn solving_twice_is_identical() {
    let circuit = vec![
        Opcode::AssertZero(Expression {
            mul_terms: vec![],
            linear_combinations: vec![(FieldValue::from_u64(2), 0)],
            q_c: FieldValue::from_u64(6).neg(),
        }),
        Opcode::BlackBoxFuncCall(BlackBoxFuncCall::Xor {
            lhs: FunctionInput::witness(0, 4),
            rhs: FunctionInput::constant(FieldValue::from_u64(5), 4),
            output: 1,
        }),
    ];
    let first = solve(&circuit, WitnessStore::new(), true).expect("solvable");
    let second = solve(&circuit, WitnessStore::new(), true).expect("solvable");
    assert_eq!(first, second);
    assert_eq!(first.get(0), second.get(0));
    assert_eq!(first.get(1), second.get(1));
}

#[test]
fn blackbox_members_are_deterministic() {
    let and_call = |store: WitnessStore| {
        let circuit = vec![Opcode::BlackBoxFuncCall(BlackBoxFuncCall::And {
            lhs: FunctionInput::witness(0, 4),
            rhs: FunctionInput::witness(1, 4),
            output: 2,
        })];
        solve(&circuit, store, true).expect("solvable")
    };
    let a = and_call(store_with(&[(0, 12), (1, 10)]));
    let b = and_call(store_with(&[(0, 12), (1, 10)]));
    assert_eq!(a.get(2), b.get(2));
    assert_eq!(a.get(2), Some(FieldValue::from_u64(8)));
}

#[test]
fn initial_assignment_is_kept() {
    // monotonicity: every caller-supplied witness keeps its value
    let circuit = vec![Opcode::AssertZero(Expression {
        mul_terms: vec![],
        linear_combinations: vec![
            (FieldValue::one(), 0),
            (FieldValue::one().neg(), 1),
        ],
        q_c: FieldValue::zero(),
    })];
    let solved = solve(&circuit, store_with(&[(0, 41)]), true).expect("solvable");
    assert_eq!(solved.get(0), Some(FieldValue::from_u64(41)));
    assert_eq!(solved.get(1), Some(FieldValue::from_u64(41)));
}

#[test]
fn cyclic_circuit_terminates_not_solvable() {
    // witness 0's only definition needs witness 1 and vice versa
    let needs_both = || Expression {
        mul_terms: vec![],
        linear_combinations: vec![
            (FieldValue::one(), 0),
            (FieldValue::one().neg(), 1),
        ],
        q_c: FieldValue::zero(),
    };
    let circuit = vec![
        Opcode::AssertZero(needs_both()),
        Opcode::AssertZero(needs_both()),
    ];
    assert_eq!(
        solve(&circuit, WitnessStore::new(), true),
        Err(OpcodeResolutionError::OpcodeNotSolvable {
            opcode_location: ErrorLocation::Resolved(0),
        })
    );
}

#[test]
fn relaxed_mode_skips_width_check() {
    // witness 0 holds 255 (bit length 8) but is declared 4 bits wide where
    // an opcode reads it; no explicit range opcode anywhere
    let circuit = vec![Opcode::BlackBoxFuncCall(BlackBoxFuncCall::And {
        lhs: FunctionInput::witness(0, 4),
        rhs: FunctionInput::constant(FieldValue::from_u64(15), 4),
        output: 1,
    })];
    let solved = solve(&circuit, store_with(&[(0, 255)]), false).expect("relaxed mode solves");
    assert_eq!(solved.get(1), Some(FieldValue::from_u64(15)));
}

#[test]
fn pedantic_mode_fails_at_reading_opcode() {
    let circuit = vec![Opcode::BlackBoxFuncCall(BlackBoxFuncCall::And {
        lhs: FunctionInput::witness(0, 4),
        rhs: FunctionInput::constant(FieldValue::from_u64(15), 4),
        output: 1,
    })];
    assert_eq!(
        solve(&circuit, store_with(&[(0, 255)]), true),
        Err(OpcodeResolutionError::UnsatisfiedConstrain {
            opcode_location: ErrorLocation::Resolved(0),
        })
    );
}

#[test]
fn linear_term_is_solved() {
    // 2 * w0 - 6 == 0, so w0 == 3
    let circuit = vec![Opcode::AssertZero(Expression {
        mul_terms: vec![],
        linear_combinations: vec![(FieldValue::from_u64(2), 0)],
        q_c: FieldValue::from_u64(6).neg(),
    })];
    let solved = solve(&circuit, WitnessStore::new(), true).expect("solvable");
    assert_eq!(solved.get(0), Some(FieldValue::from_u64(3)));
}

#[test]
fn product_defines_output_witness() {
    // w0 * w1 - w2 == 0 with w0 = 6, w1 = 7 assigns w2 = 42
    let circuit = vec![Opcode::AssertZero(Expression {
        mul_terms: vec![(FieldValue::one(), 0, 1)],
        linear_combinations: vec![(FieldValue::one().neg(), 2)],
        q_c: FieldValue::zero(),
    })];
    let solved = solve(&circuit, store_with(&[(0, 6), (1, 7)]), true).expect("solvable");
    assert_eq!(solved.get(2), Some(FieldValue::from_u64(42)));
}

#[test]
fn opcodes_out_of_dependency_order() {
    // opcode 0 needs witness 1, which only opcode 1 defines: two passes
    let circuit = vec![
        Opcode::AssertZero(Expression {
            mul_terms: vec![],
            linear_combinations: vec![
                (FieldValue::one(), 0),
                (FieldValue::one().neg(), 1),
            ],
            q_c: FieldValue::zero(),
        }),
        Opcode::AssertZero(Expression {
            mul_terms: vec![],
            linear_combinations: vec![(FieldValue::one(), 1)],
            q_c: FieldValue::from_u64(5).neg(),
        }),
    ];
    let solved = solve(&circuit, WitnessStore::new(), true).expect("solvable");
    assert_eq!(solved.get(0), Some(FieldValue::from_u64(5)));
    assert_eq!(solved.get(1), Some(FieldValue::from_u64(5)));
}

#[test]
fn fully_known_expression_is_verified() {
    // 41 - 41 == 0 holds; 41 - 40 == 0 does not
    let check = |expected: u64| {
        vec![Opcode::AssertZero(Expression {
            mul_terms: vec![],
            linear_combinations: vec![(FieldValue::one(), 0)],
            q_c: FieldValue::from_u64(expected).neg(),
        })]
    };
    assert!(solve(&check(41), store_with(&[(0, 41)]), true).is_ok());
    assert_eq!(
        solve(&check(40), store_with(&[(0, 41)]), true),
        Err(OpcodeResolutionError::UnsatisfiedConstrain {
            opcode_location: ErrorLocation::Resolved(0),
        })
    );
}

#[test]
fn conflicting_blackbox_write_is_a_circuit_defect() {
    // the output witness already holds a different value
    let circuit = vec![Opcode::BlackBoxFuncCall(BlackBoxFuncCall::And {
        lhs: FunctionInput::constant(FieldValue::from_u64(12), 4),
        rhs: FunctionInput::constant(FieldValue::from_u64(10), 4),
        output: 0,
    })];
    assert_eq!(
        solve(&circuit, store_with(&[(0, 9)]), true),
        Err(OpcodeResolutionError::Conflict {
            opcode_location: ErrorLocation::Resolved(0),
        })
    );
    // an equal value already present is accepted
    assert!(solve(&circuit, store_with(&[(0, 8)]), true).is_ok());
}

#[test]
fn width_beyond_field_is_malformed() {
    let circuit = vec![Opcode::BlackBoxFuncCall(BlackBoxFuncCall::Xor {
        lhs: FunctionInput::constant(FieldValue::from_u64(1), 16),
        rhs: FunctionInput::constant(FieldValue::from_u64(2), 16),
        output: 0,
    })];
    match solve(&circuit, WitnessStore::new(), true) {
        Err(OpcodeResolutionError::MalformedOperand { .. }) => {},
        other => panic!("expected a malformed-operand failure, got {:?}", other),
    }
}

#[test]
fn xor_and_exact_values() {
    let circuit = vec![
        Opcode::BlackBoxFuncCall(BlackBoxFuncCall::And {
            lhs: FunctionInput::witness(0, 4),
            rhs: FunctionInput::witness(1, 4),
            output: 2,
        }),
        Opcode::BlackBoxFuncCall(BlackBoxFuncCall::Xor {
            lhs: FunctionInput::witness(0, 4),
            rhs: FunctionInput::witness(1, 4),
            output: 3,
        }),
    ];
    let solved = solve(&circuit, store_with(&[(0, 0b1100), (1, 0b1010)]), true).expect("solvable");
    assert_eq!(solved.get(2), Some(FieldValue::from_u64(0b1000)));
    assert_eq!(solved.get(3), Some(FieldValue::from_u64(0b0110)));
}

#[test]
fn empty_circuit_returns_inputs() {
    let solved = solve(&vec![], store_with(&[(0, 1)]), true).expect("nothing to solve");
    assert_eq!(solved.get(0), Some(FieldValue::from_u64(1)));
    assert_eq!(solved.len(), 1);
}

#[test]
fn constant_range_input_is_checked() {
    // a literal input to Range is checked against the declared width too
    let circuit = vec![Opcode::BlackBoxFuncCall(BlackBoxFuncCall::Range {
        input: FunctionInput::constant(FieldValue::from_u64(FIELD_MODULUS - 1), 4),
    })];
    assert_eq!(
        solve(&circuit, WitnessStore::new(), true),
        Err(OpcodeResolutionError::UnsatisfiedConstrain {
            opcode_location: ErrorLocation::Resolved(0),
        })
    );
}
