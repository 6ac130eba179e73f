use regexxx::compilers::forward_compiler::{Compiler, ForwardCompiler};

#[test]
fn forward_compiler_test_expr_0() {
    let mut machine = ForwardCompiler::from_expr_0().unwrap();
    assert_eq!(
        machine.automata_refs.len(),
        1,
        "Expression 0 (nothing) pushes one machine"
    );
    assert_eq!(
        machine.delta.len(),
        2,
        "Expression 0 (nothing) pushes two states"
    );
    let [machine_a_q0, machine_a_f] = machine.automata_refs[0];
    assert_eq!(
        machine.delta[machine_a_q0],
        (None, [None, None]),
        "Expression 0 (nothing) cannot transition from q0"
    );
    assert_eq!(
        machine.delta[machine_a_f],
        (None, [None, None]),
        "Expression 0 (nothing) cannot transition from f"
    );
    assert_ne!(
        machine_a_q0, machine_a_f,
        "Expression 0 (nothing) starts and ends on different states"
    );

    // run twice to make sure pushing expressions isn't affected by prior pushed expressions
    ForwardCompiler::expr_0(&mut machine).unwrap();
    assert_eq!(
        machine.automata_refs.len(),
        2,
        "(Repeated) Expression 0 (nothing) pushes one machine"
    );
    assert_eq!(
        machine.delta.len(),
        4,
        "(Repeated) Expression 0 (nothing) pushes two states"
    );
}

#[test]
fn forward_compiler_test_expr_1() {
    let mut machine = ForwardCompiler::from_expr_1().unwrap();

    assert_eq!(
        machine.automata_refs.len(),
        1,
        "Expression 1 (epsilon) pushes one automata ref"
    );
    assert_eq!(
        machine.delta.len(),
        1,
        "Expression 1 (epsilon) pushes one state"
    );
    assert_eq!(
        machine.delta[0],
        (None, [None, None]),
        "Expression 1 (epsilon) does not transition from q0"
    );
    let [machine_a_q0, machine_a_f] = &machine.automata_refs[machine.automata_refs.len() - 1];
    assert_eq!(
        machine_a_q0, machine_a_f,
        "Expression 1 (epsilon) starts and ends on the same state"
    );
    // run twice to make sure pushing expressions isn't affected by prior pushed expressions
    ForwardCompiler::expr_1(&mut machine).unwrap();
    assert_eq!(
        machine.automata_refs.len(),
        2,
        "(Repeated) Expression 1 (epsilon) pushes one automata ref"
    );
    assert_eq!(
        machine.delta.len(),
        2,
        "(Repeated) Expression 1 (epsilon) pushes one state"
    );
}

#[test]
fn forward_compiler_test_expr_a() {
    let mut machine = ForwardCompiler::from_expr_a('a').unwrap();

    assert_eq!(
        machine.automata_refs.len(),
        1,
        "Expression 'a' (literal) pushes one automata ref"
    );
    assert_eq!(
        machine.delta.len(),
        2,
        "Expression 'a' (literal) pushes two states"
    );
    let [machine_a_q0, machine_a_f] = machine.automata_refs[0];
    assert_eq!(
        machine.delta[machine_a_q0],
        (Some('a'), [Some(machine_a_f), None]),
        "Expression 'a' (literal) transitions from q0 to f along 'a'"
    );
    assert_eq!(
        machine.delta[machine_a_f],
        (None, [None, None]),
        "Expression 'a' (literal) cannot transition from f"
    );
    assert_ne!(
        machine_a_q0, machine_a_f,
        "Expression 'a' (literal) starts and ends on different states"
    );
    // run twice to make sure pushing expressions isn't affected by prior pushed expressions
    ForwardCompiler::expr_a(&mut machine, 'b').unwrap();
    assert_eq!(
        machine.automata_refs.len(),
        2,
        "(Repeated) Expression 'a' (literal) pushes one automata ref"
    );
    assert_eq!(
        machine.delta.len(),
        4,
        "(Repeated) Expression 'a' (literal) pushes two states"
    );
}

#[test]
fn forward_compiler_test_concatenate() {
    let mut machine = ForwardCompiler::from_expr_a('a').unwrap();
    let [_machine_a_q0, machine_a_f] = machine.automata_refs[0];
    ForwardCompiler::expr_a(&mut machine, 'b').unwrap();
    assert_eq!(
        4,
        machine.delta.len(),
        "Expect four states before concatenation"
    );
    assert_eq!(
        2,
        machine.automata_refs.len(),
        "Expect two machines before concatenation"
    );
    let [machine_b_q0, _machine_b_f] = machine.automata_refs[1];
    ForwardCompiler::concatenate(&mut machine).unwrap();
    assert_eq!(
        4,
        machine.delta.len(),
        "Concatenation does not create new states"
    );
    assert_eq!(
        1,
        machine.automata_refs.len(),
        "Concatenation is a binary operation, i.e. concatenation returns one less machine"
    );
    let [_machine_c_q0, _machine_c_f] = machine.automata_refs[0];
    assert_eq!(
        machine.delta[machine_a_f],
        (None, [Some(machine_b_q0), None]),
        "Concatenation transitions machine_a to machine_b along epsilon"
    );
}

#[test]
fn test_star() {
    let mut machine = ForwardCompiler::from_expr_a('a').unwrap();
    let [machine_a_q0, machine_a_f] = machine.automata_refs[0];
    assert_eq!(
        machine.automata_refs.len(),
        1,
        "Star is unary, length of automatons won't change (pre-assertion)"
    );
    assert_eq!(
        machine.delta.len(),
        2,
        "Star pushes three new states (pre-assertion)"
    );
    ForwardCompiler::star(&mut machine).unwrap();
    assert_eq!(
        machine.automata_refs.len(),
        1,
        "Star is unary, length of automatons won't change"
    );
    assert_eq!(machine.delta.len(), 5, "Star pushes three new states");
    let [machine_b_q0, machine_b_f] = machine.automata_refs[0];
    let machine_b_intermediary_q = machine.delta[machine_a_f].1[0].unwrap();
    assert_eq!(
        machine.delta[machine_b_intermediary_q],
        (None, [Some(machine_a_q0), Some(machine_b_f)]),
        "(1) New intermediary state is a union of machine_a's q0 and new f, \
         (2) machine_a's f transtions to new intermediary state along epsilon"
    );
    assert_ne!(machine_a_q0, machine_b_q0, "Star pushes new initial state");
    assert_ne!(machine_a_f, machine_b_f, "Star pushes new final state");
}

#[test]
fn test_union() {
    let mut machine = ForwardCompiler::from_expr_a('a').unwrap();
    let [machine_a_q0, machine_a_f] = machine.automata_refs[0];
    ForwardCompiler::expr_a(&mut machine, 'b').unwrap();
    let [machine_b_q0, machine_b_f] = machine.automata_refs[1];
    assert_eq!(
        machine.automata_refs.len(),
        2,
        "Union removes one automaton (pre-assertion)"
    );
    assert_eq!(
        machine.delta.len(),
        4,
        "Union pushes two states (pre-assertion)"
    );
    ForwardCompiler::union(&mut machine).unwrap();
    assert_eq!(
        machine.automata_refs.len(),
        1,
        "Union is a binary operation, consuming one automaton"
    );
    assert_eq!(
        machine.delta.len(),
        6,
        "Union requires two additional states"
    );
    let [machine_c_q0, machine_c_f] = machine.automata_refs[0];
    assert_eq!(
        machine.delta[machine_c_q0],
        (None, [Some(machine_a_q0), Some(machine_b_q0)]),
        "q0 of machine_c transitions to q0 of machine_a and machine_b along epsilon"
    );
    assert_eq!(
        machine.delta[machine_a_f],
        (None, [Some(machine_c_f), None]),
        "f of machine_a transitions to f of machine_c along epsilon"
    );
    assert_eq!(
        machine.delta[machine_b_f],
        (None, [Some(machine_c_f), None]),
        "f of machine_b transitions to f of machine_c along epsilon"
    );
}
