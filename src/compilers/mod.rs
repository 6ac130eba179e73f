//! Construction strategies that build automata from one sequence of
//! operations, each into a table that the caller owns.
use crate::anfa::{AutomataError, ANFA};
use vstd::prelude::*;

pub mod bidirectional_compiler;
pub mod forward_compiler;

verus! {

/// What any strategy's operator that consumes the `k` top fragments and
/// pushes one gives: it fails for want of operands exactly when the stack
/// holds fewer than `k`, otherwise succeeds or refuses a fragment that is
/// no longer live; a failure changes nothing.
pub open spec fn operator_outcome(
    before: ANFA,
    after: ANFA,
    r: Result<(), AutomataError>,
    k: int,
) -> bool {
    &&& (r == Err::<(), AutomataError>(AutomataError::InsufficientOperands))
        <==> before.automata_refs@.len() < k
    &&& r != Err::<(), AutomataError>(AutomataError::InternalInvariantViolation)
    &&& r is Err ==> after == before
    &&& r is Ok ==> after.automata_refs@.len() == before.automata_refs@.len() - k + 1
}

/// A strategy for building an automaton: the operations of [ANFA], applied
/// to a table passed in by the caller. Every strategy keeps the stack of
/// fragments in step with the operations (each primitive pushes one fragment,
/// star replaces one, concatenation and union replace two by one), fails
/// only by changing nothing, never refuses operands that are all live, and
/// appends at most `states_per_step()` states per operation.
pub trait Compiler {
    /// The most states that one operation appends to the table.
    spec fn states_per_step() -> nat;

    /// Returns a new automaton whose only fragment accepts nothing.
    fn from_expr_0() -> (r: Result<ANFA, AutomataError>)
        ensures
            r is Ok,
            r->Ok_0.automata_refs@.len() == 1,
            r->Ok_0.delta@.len() <= Self::states_per_step(),
            r->Ok_0.live(),
    ;

    /// Returns a new automaton whose only fragment accepts the empty word.
    fn from_expr_1() -> (r: Result<ANFA, AutomataError>)
        ensures
            r is Ok,
            r->Ok_0.automata_refs@.len() == 1,
            r->Ok_0.delta@.len() <= Self::states_per_step(),
            r->Ok_0.live(),
    ;

    /// Returns a new automaton whose only fragment accepts the word `c`.
    fn from_expr_a(c: char) -> (r: Result<ANFA, AutomataError>)
        ensures
            r is Ok,
            r->Ok_0.automata_refs@.len() == 1,
            r->Ok_0.delta@.len() <= Self::states_per_step(),
            r->Ok_0.live(),
    ;

    /// Pushes a fragment that accepts nothing.
    fn expr_0(anfa: &mut ANFA) -> (r: Result<(), AutomataError>)
        requires
            old(anfa).delta@.len() + Self::states_per_step() <= usize::MAX,
        ensures
            r is Ok,
            final(anfa).automata_refs@.len() == old(anfa).automata_refs@.len() + 1,
            old(anfa).live() ==> final(anfa).live(),
            old(anfa).delta@.len() <= final(anfa).delta@.len() <= old(anfa).delta@.len()
                + Self::states_per_step(),
    ;

    /// Pushes a fragment that accepts the empty word.
    fn expr_1(anfa: &mut ANFA) -> (r: Result<(), AutomataError>)
        requires
            old(anfa).delta@.len() + Self::states_per_step() <= usize::MAX,
        ensures
            r is Ok,
            final(anfa).automata_refs@.len() == old(anfa).automata_refs@.len() + 1,
            old(anfa).live() ==> final(anfa).live(),
            old(anfa).delta@.len() <= final(anfa).delta@.len() <= old(anfa).delta@.len()
                + Self::states_per_step(),
    ;

    /// Pushes a fragment that accepts the word `c`.
    fn expr_a(anfa: &mut ANFA, c: char) -> (r: Result<(), AutomataError>)
        requires
            old(anfa).delta@.len() + Self::states_per_step() <= usize::MAX,
        ensures
            r is Ok,
            final(anfa).automata_refs@.len() == old(anfa).automata_refs@.len() + 1,
            old(anfa).live() ==> final(anfa).live(),
            old(anfa).delta@.len() <= final(anfa).delta@.len() <= old(anfa).delta@.len()
                + Self::states_per_step(),
    ;

    /// Replaces the two top fragments by their concatenation.
    fn concatenate(anfa: &mut ANFA) -> (r: Result<(), AutomataError>)
        requires
            old(anfa).delta@.len() + Self::states_per_step() <= usize::MAX,
        ensures
            operator_outcome(*old(anfa), *final(anfa), r, 2),
            old(anfa).live() && old(anfa).automata_refs@.len() >= 2 ==> r is Ok,
            old(anfa).live() ==> final(anfa).live(),
            old(anfa).delta@.len() <= final(anfa).delta@.len() <= old(anfa).delta@.len()
                + Self::states_per_step(),
    ;

    /// Replaces the top fragment by its star.
    fn star(anfa: &mut ANFA) -> (r: Result<(), AutomataError>)
        requires
            old(anfa).delta@.len() + Self::states_per_step() <= usize::MAX,
        ensures
            operator_outcome(*old(anfa), *final(anfa), r, 1),
            old(anfa).live() && old(anfa).automata_refs@.len() >= 1 ==> r is Ok,
            old(anfa).live() ==> final(anfa).live(),
            old(anfa).delta@.len() <= final(anfa).delta@.len() <= old(anfa).delta@.len()
                + Self::states_per_step(),
    ;

    /// Replaces the two top fragments by their union.
    fn union(anfa: &mut ANFA) -> (r: Result<(), AutomataError>)
        requires
            old(anfa).delta@.len() + Self::states_per_step() <= usize::MAX,
        ensures
            operator_outcome(*old(anfa), *final(anfa), r, 2),
            old(anfa).live() && old(anfa).automata_refs@.len() >= 2 ==> r is Ok,
            old(anfa).live() ==> final(anfa).live(),
            old(anfa).delta@.len() <= final(anfa).delta@.len() <= old(anfa).delta@.len()
                + Self::states_per_step(),
    ;
}

} // verus!
