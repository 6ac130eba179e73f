use regexxx::accept;
use regexxx::FA;

#[test]
fn test_accepts_epsilon() {
    let accepts_epsilon_automaton: FA = accept::epsilon().unwrap();
    assert_eq!(
        1,
        accepts_epsilon_automaton.delta.len(),
        "Must only have one state"
    );
    assert_eq!(
        1,
        accepts_epsilon_automaton.f.len(),
        "Must only have one state in set of F (match states)"
    );
    assert_eq!(
        accepts_epsilon_automaton.q0, accepts_epsilon_automaton.f[0],
        "q0 (start state) must be in set of F (match states)."
    );
    assert_eq!(
        0,
        accepts_epsilon_automaton.delta[0].len(),
        "Machine must have zero transitions"
    );
}

#[test]
fn test_from_literal() {
    let character_literal_automata: FA = accept::literal('a').unwrap();
    assert!(
        character_literal_automata.delta[character_literal_automata.q0].contains_key(&Some('a')),
        "Input literal must be preserved"
    );
    assert_eq!(
        2,
        character_literal_automata.delta.len(),
        "Must only have two states"
    );
    assert_eq!(
        1,
        character_literal_automata.f.len(),
        "Must only have one state in set of F (match states)"
    );
    assert_ne!(
        character_literal_automata.q0, character_literal_automata.f[0],
        "q0 (start state) must not be in set of F (match states)."
    );
    assert_eq!(
        1,
        character_literal_automata.delta[character_literal_automata.q0].len(),
        "Machine requires one transition from q0"
    );
    assert_eq!(
        character_literal_automata.delta[character_literal_automata.q0].values()[0][0],
        character_literal_automata.f[0],
        "Machine must transition from q0 to one of F"
    );
    assert_eq!(
        0,
        character_literal_automata.delta[character_literal_automata.f[0]].len(),
        "Machine must not transition from match states"
    );
}

#[test]
fn test_accepts_nothing() {
    let accepts_nothing_automaton: FA = accept::nothing().unwrap();
    assert_eq!(
        1,
        accepts_nothing_automaton.delta.len(),
        "Machine must have only one state"
    );
    assert_eq!(
        0,
        accepts_nothing_automaton.delta[0].len(),
        "Machine must have zero transitions"
    );
    assert_eq!(
        0, accepts_nothing_automaton.q0,
        "q0 (start state) must be first state"
    );
    assert_eq!(
        0,
        accepts_nothing_automaton.f.len(),
        "F must be empty set, must not have match states"
    );
}

#[test]
fn literal_keeps_other_labels_out() {
    let machine = accept::literal('x').unwrap();
    assert!(machine.delta[0].contains_key(&Some('x')));
    assert!(!machine.delta[0].contains_key(&Some('y')));
    assert!(!machine.delta[0].contains_key(&None));
    assert_eq!(machine.delta[0].get(&Some('x')).unwrap(), &vec![1]);
    assert!(machine.delta[1].get(&Some('x')).is_none());
}
