//! The standard construction: the operations of [ANFA] as they stand, giving
//! an automaton for matching.
pub use crate::compilers::Compiler;
use crate::anfa::{
    empty_transition, lemma_live_operands, single_transition, AutomataError, QId, ANFA,
};
use vstd::prelude::*;

verus! {

/// Builds the Thompson automaton of the operation sequence.
pub struct ForwardCompiler {}

impl Compiler for ForwardCompiler {
    /// The star appends three states; no other operation appends more.
    open spec fn states_per_step() -> nat {
        3
    }

    /// Returns a new automaton whose only fragment accepts nothing.
    fn from_expr_0() -> (r: Result<ANFA, AutomataError>)
        ensures
            r->Ok_0.delta@ == seq![empty_transition(), empty_transition()],
            r->Ok_0.automata_refs@ == seq![[0usize, 1usize]],
            r->Ok_0.finalized is None,
    {
        let mut machine_a = ANFA::new();
        match ForwardCompiler::expr_0(&mut machine_a) {
            Ok(()) => Ok(machine_a),
            Err(e) => Err(e),
        }
    }

    /// Returns a new automaton whose only fragment accepts the empty word.
    fn from_expr_1() -> (r: Result<ANFA, AutomataError>)
        ensures
            r->Ok_0.delta@ == seq![empty_transition()],
            r->Ok_0.automata_refs@ == seq![[0usize, 0usize]],
            r->Ok_0.finalized is None,
    {
        let mut machine_a = ANFA::new();
        match ForwardCompiler::expr_1(&mut machine_a) {
            Ok(()) => Ok(machine_a),
            Err(e) => Err(e),
        }
    }

    /// Returns a new automaton whose only fragment accepts the word `c`.
    fn from_expr_a(c: char) -> (r: Result<ANFA, AutomataError>)
        ensures
            r->Ok_0.delta@ == seq![single_transition(Some(c), 1), empty_transition()],
            r->Ok_0.automata_refs@ == seq![[0usize, 1usize]],
            r->Ok_0.finalized is None,
    {
        let mut machine_a = ANFA::new();
        match ForwardCompiler::expr_a(&mut machine_a, c) {
            Ok(()) => Ok(machine_a),
            Err(e) => Err(e),
        }
    }

    /// Pushes a fragment that accepts nothing. See [ANFA::expr_0].
    fn expr_0(anfa: &mut ANFA) -> (r: Result<(), AutomataError>)
        ensures
            ({
                let m = old(anfa).delta@.len() as QId;
                final(anfa).pushed_from(
                    *old(anfa),
                    seq![empty_transition(), empty_transition()],
                    [m, (m + 1) as QId],
                )
            }),
            old(anfa).wf() ==> final(anfa).wf(),
    {
        anfa.expr_0()
    }

    /// Pushes a fragment that accepts the empty word. See [ANFA::expr_1].
    fn expr_1(anfa: &mut ANFA) -> (r: Result<(), AutomataError>)
        ensures
            ({
                let m = old(anfa).delta@.len() as QId;
                final(anfa).pushed_from(*old(anfa), seq![empty_transition()], [m, m])
            }),
            old(anfa).wf() ==> final(anfa).wf(),
    {
        anfa.expr_1()
    }

    /// Pushes a fragment that accepts the word `c`. See [ANFA::expr_a].
    fn expr_a(anfa: &mut ANFA, c: char) -> (r: Result<(), AutomataError>)
        ensures
            ({
                let m = old(anfa).delta@.len() as QId;
                final(anfa).pushed_from(
                    *old(anfa),
                    seq![single_transition(Some(c), (m + 1) as QId), empty_transition()],
                    [m, (m + 1) as QId],
                )
            }),
            old(anfa).wf() ==> final(anfa).wf(),
    {
        anfa.expr_a(c)
    }

    /// Replaces the two top fragments by their concatenation. See [ANFA::concatenate].
    fn concatenate(anfa: &mut ANFA) -> (r: Result<(), AutomataError>)
        ensures
            r == old(anfa).operands_result(2),
            r is Ok ==> final(anfa).concatenated_from(*old(anfa)),
            old(anfa).wf() ==> final(anfa).wf(),
    {
        proof {
            if anfa.live() {
                lemma_live_operands(*anfa, 2);
            }
        }
        anfa.concatenate()
    }

    /// Replaces the top fragment by its star. See [ANFA::star].
    fn star(anfa: &mut ANFA) -> (r: Result<(), AutomataError>)
        ensures
            r == old(anfa).operands_result(1),
            r is Ok ==> final(anfa).starred_from(*old(anfa)),
            old(anfa).wf() ==> final(anfa).wf(),
    {
        proof {
            if anfa.live() {
                lemma_live_operands(*anfa, 1);
            }
        }
        anfa.star()
    }

    /// Replaces the two top fragments by their union. See [ANFA::union].
    fn union(anfa: &mut ANFA) -> (r: Result<(), AutomataError>)
        ensures
            r == old(anfa).operands_result(2),
            r is Ok ==> final(anfa).united_from(*old(anfa)),
            old(anfa).wf() ==> final(anfa).wf(),
    {
        proof {
            if anfa.live() {
                lemma_live_operands(*anfa, 2);
            }
        }
        anfa.union()
    }
}

} // verus!
