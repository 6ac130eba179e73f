//! Acceptors, the smallest automata.
use crate::fa::{DeltaQ, QSet, FA};
use vstd::prelude::*;

verus! {

/// Returns an automaton accepting the empty word: one state, initial and
/// matching, with no transition.
pub fn epsilon() -> (r: Result<FA, &'static str>)
    ensures
        r is Ok,
        r->Ok_0.delta@.len() == 1,
        r->Ok_0.table() == seq![Map::<Option<char>, Seq<usize>>::empty()],
        r->Ok_0.q0 == 0,
        r->Ok_0.f@ == seq![0usize],
        r->Ok_0.wf(),
{
    let r = FA { delta: vec![DeltaQ::new()], q0: 0, f: vec![0] };
    proof {
        assert(r.table() =~= seq![Map::<Option<char>, Seq<usize>>::empty()]);
        assert(r.f@ =~= seq![0usize]);
    }
    Ok(r)
}

/// Returns an automaton accepting the one-symbol word `c`: state 0 leads
/// to the match state 1 on `c`.
pub fn literal(c: char) -> (r: Result<FA, &'static str>)
    ensures
        r is Ok,
        r->Ok_0.delta@.len() == 2,
        r->Ok_0.table() == seq![
            map![Some(c) => seq![1usize]],
            Map::<Option<char>, Seq<usize>>::empty(),
        ],
        r->Ok_0.q0 == 0,
        r->Ok_0.f@ == seq![1usize],
        r->Ok_0.wf(),
{
    let mut delta_q0 = DeltaQ::new();
    let targets: QSet = vec![1];
    match delta_q0.insert(Some(c), targets) {
        Some(_) => {
            return Err("Unexpected error, a new transition map already had the label");
        },
        None => {},
    }
    let r = FA { delta: vec![delta_q0, DeltaQ::new()], q0: 0, f: vec![1] };
    proof {
        assert(targets@ =~= seq![1usize]);
        assert(delta_q0@ =~= map![Some(c) => seq![1usize]]);
        assert(r.table() =~= seq![
            map![Some(c) => seq![1usize]],
            Map::<Option<char>, Seq<usize>>::empty(),
        ]);
        assert(r.f@ =~= seq![1usize]);
    }
    Ok(r)
}

/// Returns an automaton accepting nothing: one initial state, no
/// transition, no match state.
pub fn nothing() -> (r: Result<FA, &'static str>)
    ensures
        r is Ok,
        r->Ok_0.delta@.len() == 1,
        r->Ok_0.table() == seq![Map::<Option<char>, Seq<usize>>::empty()],
        r->Ok_0.q0 == 0,
        r->Ok_0.f@.len() == 0,
        r->Ok_0.wf(),
{
    let r = FA { delta: vec![DeltaQ::new()], q0: 0, f: Vec::new() };
    proof {
        assert(r.table() =~= seq![Map::<Option<char>, Seq<usize>>::empty()]);
    }
    Ok(r)
}

} // verus!
