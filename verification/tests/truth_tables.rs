use truth_table::catalog::Catalog;
use truth_table::netlist::{Instance, LogicOp, NetlistError};
use truth_table::resolve::{resolve, DependencyNode};
use truth_table::table::{compute_truth_table, evaluate, TableRow};

fn strings(names: &[&str]) -> Vec<String> {
    names.iter().map(|n| n.to_string()).collect()
}

/// The full-adder sum netlist: out is 1 exactly when an odd number of
/// cin, a0, b0 are 1.
fn full_adder_instances() -> Vec<Instance> {
    vec![
        Instance::new(LogicOp::Driver, "cin", &[]),
        Instance::new(LogicOp::Driver, "a0", &[]),
        Instance::new(LogicOp::Driver, "b0", &[]),
        Instance::new(LogicOp::Not, "ncin", &["cin"]),
        Instance::new(LogicOp::Not, "na0", &["a0"]),
        Instance::new(LogicOp::Not, "nb0", &["b0"]),
        Instance::new(LogicOp::And, "f5", &["cin", "na0", "nb0"]),
        Instance::new(LogicOp::And, "f6", &["ncin", "na0", "b0"]),
        Instance::new(LogicOp::And, "f7", &["cin", "a0", "b0"]),
        Instance::new(LogicOp::And, "f8", &["ncin", "a0", "nb0"]),
        Instance::new(LogicOp::Or, "out", &["f5", "f6", "f7", "f8"]),
    ]
}

/// The value the table assigns to one input vector, reading the rows as a
/// mapping.
fn value_for(table: &[TableRow], key: &[bool]) -> bool {
    for row in table {
        if row.inputs == key {
            return row.output;
        }
    }
    panic!("no row for the given assignment");
}

#[test]
fn test() {
    let instances = [
        Instance::new(LogicOp::Driver, "cin", &[]),
        Instance::new(LogicOp::Driver, "a0", &[]),
        Instance::new(LogicOp::Driver, "b0", &[]),
        Instance::new(LogicOp::Not, "ncin", &["cin"]),
        Instance::new(LogicOp::Not, "na0", &["a0"]),
        Instance::new(LogicOp::Not, "nb0", &["b0"]),
        Instance::new(LogicOp::And, "f5", &["cin", "na0", "nb0"]),
        Instance::new(LogicOp::And, "f6", &["ncin", "na0", "b0"]),
        Instance::new(LogicOp::And, "f7", &["cin", "a0", "b0"]),
        Instance::new(LogicOp::And, "f8", &["ncin", "a0", "nb0"]),
        Instance::new(LogicOp::Or, "out", &["f5", "f6", "f7", "f8"]),
    ];

    let _ = compute_truth_table(
        instances.to_vec(),
        "out".to_string(),
        vec!["cin".to_string(), "a0".to_string(), "b0".to_string()],
    );
}

#[test]
fn full_adder_sum_table() {
    let table = compute_truth_table(
        full_adder_instances(),
        "out".to_string(),
        strings(&["cin", "a0", "b0"]),
    )
    .unwrap();
    assert_eq!(table.len(), 8);
    // out = 1 exactly for assignments with an odd number of ones.
    for row in &table {
        let ones = row.inputs.iter().filter(|b| **b).count();
        assert_eq!(row.output, ones % 2 == 1);
    }
    // The four odd rows named explicitly, as (cin, a0, b0).
    assert!(value_for(&table, &[false, false, true]));
    assert!(value_for(&table, &[false, true, false]));
    assert!(value_for(&table, &[true, false, false]));
    assert!(value_for(&table, &[true, true, true]));
    assert!(!value_for(&table, &[false, false, false]));
    assert!(!value_for(&table, &[true, true, false]));
    assert!(!value_for(&table, &[true, false, true]));
    assert!(!value_for(&table, &[false, true, true]));
}

#[test]
fn all_assignment_keys_present_and_distinct() {
    let table = compute_truth_table(
        full_adder_instances(),
        "out".to_string(),
        strings(&["cin", "a0", "b0"]),
    )
    .unwrap();
    assert_eq!(table.len(), 8);
    for row in &table {
        assert_eq!(row.inputs.len(), 3);
    }
    for i in 0..table.len() {
        for j in 0..i {
            assert_ne!(table[i].inputs, table[j].inputs);
        }
    }
}

#[test]
fn evaluation_is_deterministic() {
    let first = compute_truth_table(
        full_adder_instances(),
        "out".to_string(),
        strings(&["cin", "a0", "b0"]),
    )
    .unwrap();
    let second = compute_truth_table(
        full_adder_instances(),
        "out".to_string(),
        strings(&["cin", "a0", "b0"]),
    )
    .unwrap();
    assert_eq!(first, second);
    for row in &first {
        assert_eq!(value_for(&second, &row.inputs), row.output);
    }
}

#[test]
fn double_negation_matches_plain_signal() {
    let doubled = vec![
        Instance::new(LogicOp::Driver, "a", &[]),
        Instance::new(LogicOp::Not, "na", &["a"]),
        Instance::new(LogicOp::Not, "nna", &["na"]),
    ];
    let plain = vec![Instance::new(LogicOp::Driver, "a", &[])];
    let table_doubled =
        compute_truth_table(doubled, "nna".to_string(), strings(&["a"])).unwrap();
    let table_plain = compute_truth_table(plain, "a".to_string(), strings(&["a"])).unwrap();
    assert_eq!(table_doubled.len(), 2);
    for row in &table_plain {
        assert_eq!(value_for(&table_doubled, &row.inputs), row.output);
    }
}

#[test]
fn and_or_match_full_boolean_semantics() {
    let instances = vec![
        Instance::new(LogicOp::Driver, "a", &[]),
        Instance::new(LogicOp::Driver, "b", &[]),
        Instance::new(LogicOp::Driver, "c", &[]),
        Instance::new(LogicOp::And, "allof", &["a", "b", "c"]),
        Instance::new(LogicOp::Or, "anyof", &["a", "b", "c"]),
    ];
    let inputs = strings(&["a", "b", "c"]);
    let conj =
        compute_truth_table(instances.clone(), "allof".to_string(), inputs.clone()).unwrap();
    let disj = compute_truth_table(instances, "anyof".to_string(), inputs).unwrap();
    assert_eq!(conj.len(), 8);
    assert_eq!(disj.len(), 8);
    for row in &conj {
        assert_eq!(row.output, row.inputs.iter().all(|b| *b));
    }
    for row in &disj {
        assert_eq!(row.output, row.inputs.iter().any(|b| *b));
    }
}

#[test]
fn fanned_out_signal_evaluates_consistently() {
    // The signals a and na each feed two AND gates; a && !a is false under
    // both references, so the OR of the two gates is constantly false.
    let instances = vec![
        Instance::new(LogicOp::Driver, "a", &[]),
        Instance::new(LogicOp::Not, "na", &["a"]),
        Instance::new(LogicOp::And, "left", &["a", "na"]),
        Instance::new(LogicOp::And, "right", &["na", "a"]),
        Instance::new(LogicOp::Or, "out", &["left", "right"]),
    ];
    let table = compute_truth_table(instances, "out".to_string(), strings(&["a"])).unwrap();
    assert_eq!(table.len(), 2);
    for row in &table {
        assert!(!row.output);
    }
}

#[test]
fn direct_cycle_is_detected() {
    let instances = vec![Instance::new(LogicOp::Not, "x", &["x"])];
    let result = compute_truth_table(instances, "x".to_string(), strings(&[]));
    assert_eq!(result, Err(NetlistError::CombinationalCycle("x".to_string())));
}

#[test]
fn transitive_cycle_is_detected() {
    let instances = vec![
        Instance::new(LogicOp::Not, "a", &["b"]),
        Instance::new(LogicOp::Not, "b", &["a"]),
    ];
    let result = compute_truth_table(instances, "a".to_string(), strings(&[]));
    assert_eq!(result, Err(NetlistError::CombinationalCycle("a".to_string())));
}

#[test]
fn unknown_input_signal_is_reported() {
    let instances = vec![
        Instance::new(LogicOp::Driver, "a", &[]),
        Instance::new(LogicOp::And, "out", &["a", "zzz"]),
    ];
    let result = compute_truth_table(instances, "out".to_string(), strings(&["a"]));
    assert_eq!(result, Err(NetlistError::UnknownSignal("zzz".to_string())));
}

#[test]
fn unknown_output_signal_is_reported() {
    let instances = vec![Instance::new(LogicOp::Driver, "a", &[])];
    let result = compute_truth_table(instances, "q".to_string(), strings(&["a"]));
    assert_eq!(result, Err(NetlistError::UnknownSignal("q".to_string())));
}

#[test]
fn duplicate_output_is_rejected() {
    let instances = vec![
        Instance::new(LogicOp::Driver, "a", &[]),
        Instance::new(LogicOp::Driver, "b", &[]),
        Instance::new(LogicOp::Not, "b", &["a"]),
    ];
    let result = compute_truth_table(instances, "b".to_string(), strings(&["a", "b"]));
    assert_eq!(result, Err(NetlistError::DuplicateOutput("b".to_string())));
}

#[test]
fn not_gate_arity_is_checked() {
    let instances = vec![
        Instance::new(LogicOp::Driver, "a", &[]),
        Instance::new(LogicOp::Driver, "b", &[]),
        Instance::new(LogicOp::Not, "n", &["a", "b"]),
    ];
    let result = compute_truth_table(instances, "n".to_string(), strings(&["a", "b"]));
    assert_eq!(result, Err(NetlistError::ArityMismatch("n".to_string(), 1, 2)));
}

#[test]
fn and_gate_needs_an_operand() {
    let instances = vec![Instance::new(LogicOp::And, "g", &[])];
    let result = compute_truth_table(instances, "g".to_string(), strings(&[]));
    assert_eq!(result, Err(NetlistError::ArityMismatch("g".to_string(), 1, 0)));
}

#[test]
fn driver_takes_no_operand() {
    let instances = vec![
        Instance::new(LogicOp::Driver, "a", &[]),
        Instance::new(LogicOp::Driver, "d", &["a"]),
    ];
    let result = compute_truth_table(instances, "d".to_string(), strings(&["a", "d"]));
    assert_eq!(result, Err(NetlistError::ArityMismatch("d".to_string(), 0, 1)));
}

#[test]
fn undeclared_driver_is_reported() {
    let instances = vec![
        Instance::new(LogicOp::Driver, "a", &[]),
        Instance::new(LogicOp::Not, "out", &["a"]),
    ];
    let result = compute_truth_table(instances, "out".to_string(), strings(&[]));
    assert_eq!(result, Err(NetlistError::UndeclaredDriver("a".to_string())));
}

#[test]
fn unreachable_declared_input_is_a_free_bit() {
    // b is declared but unreachable from out: it doubles the rows without
    // changing the output, which follows a alone.
    let instances = vec![
        Instance::new(LogicOp::Driver, "a", &[]),
        Instance::new(LogicOp::Driver, "b", &[]),
        Instance::new(LogicOp::Not, "out", &["a"]),
    ];
    let table =
        compute_truth_table(instances, "out".to_string(), strings(&["a", "b"])).unwrap();
    assert_eq!(table.len(), 4);
    for row in &table {
        assert_eq!(row.output, !row.inputs[0]);
    }
}

#[test]
fn output_may_be_a_primary_input() {
    let instances = vec![Instance::new(LogicOp::Driver, "a", &[])];
    let table = compute_truth_table(instances, "a".to_string(), strings(&["a"])).unwrap();
    assert_eq!(table.len(), 2);
    assert!(!value_for(&table, &[false]));
    assert!(value_for(&table, &[true]));
}

#[test]
fn rows_follow_the_binary_order_of_the_index() {
    // Bit j of the row index is assigned to the j-th primary input, least
    // significant bit first.
    let instances = vec![
        Instance::new(LogicOp::Driver, "a", &[]),
        Instance::new(LogicOp::Driver, "b", &[]),
        Instance::new(LogicOp::And, "out", &["a", "b"]),
    ];
    let table =
        compute_truth_table(instances, "out".to_string(), strings(&["a", "b"])).unwrap();
    assert_eq!(table.len(), 4);
    assert_eq!(table[0].inputs, vec![false, false]);
    assert_eq!(table[1].inputs, vec![true, false]);
    assert_eq!(table[2].inputs, vec![false, true]);
    assert_eq!(table[3].inputs, vec![true, true]);
    assert_eq!(
        table.iter().map(|r| r.output).collect::<Vec<bool>>(),
        vec![false, false, false, true]
    );
}

#[test]
fn empty_netlist_has_no_output() {
    let result = compute_truth_table(vec![], "out".to_string(), strings(&[]));
    assert_eq!(result, Err(NetlistError::UnknownSignal("out".to_string())));
}

#[test]
fn catalog_build_and_lookup() {
    let catalog = Catalog::build(vec![
        Instance::new(LogicOp::Driver, "a", &[]),
        Instance::new(LogicOp::Not, "na", &["a"]),
    ])
    .unwrap();
    let found = catalog.lookup(&"na".to_string()).unwrap();
    assert_eq!(found.op, LogicOp::Not);
    assert_eq!(found.output, "na");
    assert_eq!(found.inputs, vec!["a".to_string()]);
    assert!(catalog.lookup(&"q".to_string()).is_none());
}

#[test]
fn resolver_duplicates_fanned_out_signals() {
    let catalog = Catalog::build(vec![
        Instance::new(LogicOp::Driver, "a", &[]),
        Instance::new(LogicOp::Not, "na", &["a"]),
        Instance::new(LogicOp::And, "out", &["a", "na"]),
    ])
    .unwrap();
    let tree = resolve(&catalog, &"out".to_string()).unwrap();
    assert_eq!(tree.signal, "out");
    assert_eq!(tree.children.len(), 2);
    // The signal a appears once as a direct operand and once under na.
    assert_eq!(tree.children[0].signal, "a");
    assert_eq!(tree.children[1].signal, "na");
    assert_eq!(tree.children[1].children[0].signal, "a");
}

#[test]
fn evaluate_a_single_driver_tree() {
    let node = DependencyNode {
        signal: "a".to_string(),
        op: LogicOp::Driver,
        children: vec![],
    };
    let table = evaluate(&node, &strings(&["a"])).unwrap();
    assert_eq!(table.len(), 2);
    assert!(!table[0].output);
    assert!(table[1].output);
    let missing = evaluate(&node, &strings(&[]));
    assert_eq!(missing, Err(NetlistError::UndeclaredDriver("a".to_string())));
}
