use regexxx::compilers::bidirectional_compiler::{BidirectionalCompiler, Compilers};
use regexxx::compilers::forward_compiler::ForwardCompiler;
use regexxx::{accept, from, AutomataError, ANFA, FA};

type Dual = BidirectionalCompiler<ForwardCompiler>;

/// Adds to `set` every state reachable from it along epsilon edges.
fn epsilon_closure(m: &ANFA, set: &mut Vec<bool>) {
    let mut pending: Vec<usize> = (0..set.len()).filter(|&q| set[q]).collect();
    while let Some(q) = pending.pop() {
        let (label, targets) = m.delta[q];
        if label.is_none() {
            for t in targets.iter().flatten() {
                if !set[*t] {
                    set[*t] = true;
                    pending.push(*t);
                }
            }
        }
    }
}

/// Whether the finalized automaton `m` accepts `word`.
fn accepts(m: &ANFA, word: &str) -> bool {
    let [q0, f] = m.finalized.expect("automaton is finalized");
    let n = m.delta.len();
    let mut current = vec![false; n];
    current[q0] = true;
    epsilon_closure(m, &mut current);
    for c in word.chars() {
        let mut next = vec![false; n];
        for q in 0..n {
            if current[q] && m.delta[q].0 == Some(c) {
                if let Some(t) = m.delta[q].1[0] {
                    next[t] = true;
                }
            }
        }
        epsilon_closure(m, &mut next);
        current = next;
    }
    current[f]
}

/// Whether the value-style automaton `m` accepts `word`.
fn fa_accepts(m: &FA, word: &str) -> bool {
    let n = m.delta.len();
    let close = |set: &mut Vec<bool>| {
        let mut pending: Vec<usize> = (0..n).filter(|&q| set[q]).collect();
        while let Some(q) = pending.pop() {
            if let Some(targets) = m.delta[q].get(&None) {
                for &t in targets {
                    if !set[t] {
                        set[t] = true;
                        pending.push(t);
                    }
                }
            }
        }
    };
    let mut current = vec![false; n];
    current[m.q0] = true;
    close(&mut current);
    for c in word.chars() {
        let mut next = vec![false; n];
        for q in 0..n {
            if current[q] {
                if let Some(targets) = m.delta[q].get(&Some(c)) {
                    for &t in targets {
                        next[t] = true;
                    }
                }
            }
        }
        close(&mut next);
        current = next;
    }
    m.f.iter().any(|&q| current[q])
}

const WORDS: [&str; 20] = [
    "", "a", "b", "c", "aa", "ab", "ba", "bb", "abc", "abcc", "aabc", "abd", "bc", "cba", "aaa",
    "aab", "abab", "bbb", "aba", "aaaa",
];

#[test]
fn concatenation_is_associative_on_abc() {
    // (a . b) . c
    let mut left = ANFA::from_expr_a('a').unwrap();
    left.expr_a('b').unwrap();
    left.concatenate().unwrap();
    left.expr_a('c').unwrap();
    left.concatenate().unwrap();
    let top = left.automata_refs[0];
    left.finalize(top);
    // a . (b . c)
    let mut right = ANFA::from_expr_a('a').unwrap();
    right.expr_a('b').unwrap();
    right.expr_a('c').unwrap();
    right.concatenate().unwrap();
    right.concatenate().unwrap();
    let top = right.automata_refs[0];
    right.finalize(top);

    assert_eq!(left.delta, right.delta);
    assert_eq!(left.automata_refs, right.automata_refs);
    for word in WORDS {
        assert_eq!(accepts(&left, word), word == "abc", "(a.b).c on {:?}", word);
        assert_eq!(accepts(&right, word), word == "abc", "a.(b.c) on {:?}", word);
    }
}

#[test]
fn star_of_literal_accepts_repetitions() {
    let mut machine = ANFA::from_expr_a('a').unwrap();
    machine.star().unwrap();
    let top = machine.automata_refs[0];
    machine.finalize(top);
    for word in ["", "a", "aa", "aaa", "aaaa", "aaaaaaaaaa"] {
        assert!(accepts(&machine, word), "a* accepts {:?}", word);
    }
    for word in ["b", "ab", "ba", "aab", "aba", "c"] {
        assert!(!accepts(&machine, word), "a* rejects {:?}", word);
    }
}

#[test]
fn union_of_literals_accepts_either() {
    let mut machine = ANFA::from_expr_a('a').unwrap();
    machine.expr_a('b').unwrap();
    machine.union().unwrap();
    let top = machine.automata_refs[0];
    machine.finalize(top);
    for word in WORDS {
        assert_eq!(
            accepts(&machine, word),
            word == "a" || word == "b",
            "a|b on {:?}",
            word
        );
    }
}

#[test]
fn dual_compiler_builds_a_or_b_star_b() {
    let [mut forward, mut coverage] = Dual::from_expr_a('a').unwrap();
    Dual::expr_a(&mut forward, &mut coverage, 'b').unwrap();
    Dual::union(&mut forward, &mut coverage).unwrap();
    Dual::star(&mut forward, &mut coverage).unwrap();
    Dual::expr_a(&mut forward, &mut coverage, 'b').unwrap();
    Dual::concatenate(&mut forward, &mut coverage).unwrap();
    assert_eq!(forward.automata_refs.len(), coverage.automata_refs.len());

    // a second concatenation has a single operand on each side
    let forward_before = forward.delta.clone();
    let coverage_before = coverage.delta.clone();
    assert_eq!(
        Dual::concatenate(&mut forward, &mut coverage),
        Err(AutomataError::InsufficientOperands)
    );
    assert_eq!(forward.delta, forward_before);
    assert_eq!(coverage.delta, coverage_before);
    assert_eq!(forward.automata_refs.len(), 1);
    assert_eq!(coverage.automata_refs.len(), 1);

    let top = forward.automata_refs[0];
    forward.finalize(top);
    let matches = |w: &str| w.ends_with('b') && w.chars().all(|c| c == 'a' || c == 'b');
    for word in WORDS {
        assert_eq!(accepts(&forward, word), matches(word), "(a|b)*b on {:?}", word);
    }
    for word in ["abbab", "aaaab", "bab", "abba"] {
        assert_eq!(accepts(&forward, word), matches(word), "(a|b)*b on {:?}", word);
    }
}

#[test]
fn value_concatenation_after_star_enters_the_star() {
    // a . (b*): the second operand's initial state is not its first state
    let machine = from::concatenation(
        accept::literal('a').unwrap(),
        from::star(accept::literal('b').unwrap()).unwrap(),
    )
    .unwrap();
    for word in ["a", "ab", "abb", "abbb"] {
        assert!(fa_accepts(&machine, word), "a.b* accepts {:?}", word);
    }
    for word in ["", "b", "ba", "aab", "abab"] {
        assert!(!fa_accepts(&machine, word), "a.b* rejects {:?}", word);
    }
}

#[test]
fn value_union_with_starred_operand() {
    // a | (b*)
    let machine = from::union(
        accept::literal('a').unwrap(),
        from::star(accept::literal('b').unwrap()).unwrap(),
    )
    .unwrap();
    for word in ["", "a", "b", "bb", "bbb"] {
        assert!(fa_accepts(&machine, word), "a|b* accepts {:?}", word);
    }
    for word in ["aa", "ab", "ba", "c"] {
        assert!(!fa_accepts(&machine, word), "a|b* rejects {:?}", word);
    }
}

#[test]
fn value_automata_languages() {
    let epsilon = accept::epsilon().unwrap();
    assert!(fa_accepts(&epsilon, ""));
    assert!(!fa_accepts(&epsilon, "a"));
    let nothing = accept::nothing().unwrap();
    assert!(!fa_accepts(&nothing, ""));
    assert!(!fa_accepts(&nothing, "a"));
    let star = from::star(from::concatenation(
        accept::literal('a').unwrap(),
        accept::literal('b').unwrap(),
    )
    .unwrap())
    .unwrap();
    for word in ["", "ab", "abab", "ababab"] {
        assert!(fa_accepts(&star, word), "(ab)* accepts {:?}", word);
    }
    for word in ["a", "b", "aba", "ba", "abb"] {
        assert!(!fa_accepts(&star, word), "(ab)* rejects {:?}", word);
    }
}
