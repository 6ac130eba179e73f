use regexxx::anfa::ANFA;
use regexxx::{accept, from, AutomataError, DeltaQ};

fn empty_machine() -> ANFA {
    ANFA {
        automata_refs: Vec::new(),
        delta: Vec::new(),
        finalized: None,
    }
}

#[test]
fn literal_edge_carries_the_symbol() {
    for c in ['a', 'z', '0', 'é', '\u{10FFFF}'] {
        let machine = ANFA::from_expr_a(c).unwrap();
        let [q0, f] = machine.automata_refs[0];
        assert_eq!(machine.delta[q0], (Some(c), [Some(f), None]));
        assert_eq!(machine.delta[f], (None, [None, None]));
    }
}

#[test]
fn nothing_and_epsilon_fragments() {
    let mut machine = ANFA::from_expr_a('x').unwrap();
    machine.expr_0().unwrap();
    let [q0, f] = machine.automata_refs[1];
    assert_eq!((q0, f), (2, 3));
    assert_eq!(machine.delta[q0], (None, [None, None]));
    assert_eq!(machine.delta[f], (None, [None, None]));
    machine.expr_1().unwrap();
    assert_eq!(machine.automata_refs[2], [4, 4]);
    assert_eq!(machine.delta.len(), 5);
}

#[test]
fn concatenate_with_epsilon_patches_its_only_state() {
    let mut machine = ANFA::from_expr_1().unwrap();
    machine.expr_a('b').unwrap();
    machine.concatenate().unwrap();
    assert_eq!(machine.delta.len(), 3);
    assert_eq!(machine.automata_refs, vec![[0, 2]]);
    assert_eq!(machine.delta[0], (None, [Some(1), None]));
}

#[test]
fn star_and_union_exact_tables() {
    let mut machine = ANFA::from_expr_a('a').unwrap();
    machine.star().unwrap();
    assert_eq!(
        machine.delta,
        vec![
            (Some('a'), [Some(1), None]),
            (None, [Some(3), None]),
            (None, [Some(3), None]),
            (None, [Some(0), Some(4)]),
            (None, [None, None]),
        ]
    );
    assert_eq!(machine.automata_refs, vec![[2, 4]]);

    let mut machine = ANFA::from_expr_a('a').unwrap();
    machine.expr_a('b').unwrap();
    machine.union().unwrap();
    assert_eq!(
        machine.delta,
        vec![
            (Some('a'), [Some(1), None]),
            (None, [Some(5), None]),
            (Some('b'), [Some(3), None]),
            (None, [Some(5), None]),
            (None, [Some(0), Some(2)]),
            (None, [None, None]),
        ]
    );
    assert_eq!(machine.automata_refs, vec![[4, 5]]);
}

#[test]
fn operators_need_operands() {
    let mut machine = ANFA::from_expr_a('a').unwrap();
    assert_eq!(machine.concatenate(), Err(AutomataError::InsufficientOperands));
    assert_eq!(machine.union(), Err(AutomataError::InsufficientOperands));
    assert_eq!(machine.delta.len(), 2);
    assert_eq!(machine.automata_refs.len(), 1);
    let mut empty = empty_machine();
    assert_eq!(empty.star(), Err(AutomataError::InsufficientOperands));
    assert_eq!(empty.concatenate(), Err(AutomataError::InsufficientOperands));
    assert_eq!(empty.union(), Err(AutomataError::InsufficientOperands));
    assert!(empty.delta.is_empty());
}

#[test]
fn consumed_fragment_is_refused() {
    let mut machine = ANFA::from_expr_a('a').unwrap();
    machine.expr_a('b').unwrap();
    let consumed = machine.automata_refs[0];
    machine.concatenate().unwrap();
    // put the already concatenated fragment 'a' back on the stack
    machine.automata_refs.push(consumed);
    let delta_before = machine.delta.clone();
    let refs_before = machine.automata_refs.clone();
    assert_eq!(machine.concatenate(), Err(AutomataError::DanglingStateViolation));
    assert_eq!(machine.union(), Err(AutomataError::DanglingStateViolation));
    assert_eq!(machine.star(), Err(AutomataError::DanglingStateViolation));
    assert_eq!(machine.delta, delta_before);
    assert_eq!(machine.automata_refs, refs_before);
}

#[test]
fn fragment_outside_the_table_is_refused() {
    let mut machine = ANFA::from_expr_a('a').unwrap();
    machine.automata_refs.push([0, 7]);
    assert_eq!(machine.star(), Err(AutomataError::DanglingStateViolation));
    assert_eq!(machine.delta.len(), 2);
}

#[test]
fn finalize_keeps_the_last_choice() {
    let mut machine = ANFA::from_expr_a('a').unwrap();
    assert_eq!(machine.finalized, None);
    machine.finalize([0, 1]);
    machine.expr_a('b').unwrap();
    assert_eq!(machine.finalized, Some([0, 1]));
    machine.finalize([2, 3]);
    assert_eq!(machine.finalized, Some([2, 3]));
    assert_eq!(machine.delta.len(), 4);
}

#[test]
fn is_dangling_reports_free_final_states() {
    let mut machine = ANFA::from_expr_a('a').unwrap();
    assert!(!machine.is_dangling(0));
    assert!(machine.is_dangling(1));
    assert!(!machine.is_dangling(2));
    machine.expr_a('b').unwrap();
    machine.concatenate().unwrap();
    assert!(!machine.is_dangling(1));
    assert!(machine.is_dangling(3));
}

#[test]
fn value_concatenation_needs_match_states() {
    assert!(from::concatenation(accept::nothing().unwrap(), accept::literal('a').unwrap()).is_err());
    assert!(from::concatenation(accept::literal('a').unwrap(), accept::nothing().unwrap()).is_err());
    let joined =
        from::concatenation(accept::epsilon().unwrap(), accept::literal('a').unwrap()).unwrap();
    assert_eq!(joined.delta.len(), 3);
    assert_eq!(joined.q0, 0);
    assert_eq!(joined.f, vec![2]);
    assert_eq!(joined.delta[0].get(&None).unwrap(), &vec![1]);
}

#[test]
fn value_star_exact_shape() {
    let machine = from::star(accept::literal('a').unwrap()).unwrap();
    assert_eq!(machine.q0, 2);
    assert_eq!(machine.f, vec![1, 2]);
    assert_eq!(machine.delta[2].get(&None).unwrap(), &vec![0]);
    assert_eq!(machine.delta[1].get(&None).unwrap(), &vec![2]);
    assert_eq!(machine.delta[0].get(&Some('a')).unwrap(), &vec![1]);
}

#[test]
fn value_union_exact_shape() {
    let machine = from::union(
        accept::literal('a').unwrap(),
        from::star(accept::literal('b').unwrap()).unwrap(),
    )
    .unwrap();
    // the second operand's initial state was its state 2, now 3 + 2
    assert_eq!(machine.q0, 2);
    assert_eq!(machine.delta[2].get(&None).unwrap(), &vec![0, 5]);
    assert_eq!(machine.f, vec![1, 4, 5]);
    assert_eq!(machine.delta[3].get(&Some('b')).unwrap(), &vec![4]);
    assert_eq!(machine.delta.len(), 6);
}

#[test]
fn transition_map_operations() {
    let mut first = DeltaQ::new();
    assert_eq!(first.len(), 0);
    assert_eq!(first.insert(Some('a'), vec![1]), None);
    assert_eq!(first.insert(None, vec![2]), None);
    assert_eq!(first.insert(Some('a'), vec![3, 4]), Some(vec![1]));
    first.add_target(None, 5);
    first.add_target(Some('b'), 6);
    assert_eq!(first.len(), 3);
    assert_eq!(first.get(&Some('a')).unwrap(), &vec![3, 4]);
    assert_eq!(first.get(&None).unwrap(), &vec![2, 5]);
    assert_eq!(first.get(&Some('b')).unwrap(), &vec![6]);
    assert!(first.get(&Some('c')).is_none());

    // the same map built in another order is equal
    let mut second = DeltaQ::new();
    second.insert(Some('b'), vec![6]);
    second.insert(None, vec![2, 5]);
    second.insert(Some('a'), vec![3, 4]);
    assert!(first == second);
    second.add_target(Some('b'), 7);
    assert!(first != second);

    let shifted = first.shifted(10);
    assert_eq!(shifted.get(&Some('a')).unwrap(), &vec![13, 14]);
    assert_eq!(shifted.get(&None).unwrap(), &vec![12, 15]);
    let mut values = shifted.values();
    values.sort();
    assert_eq!(values, vec![vec![12, 15], vec![13, 14], vec![16]]);
}
