//! Drives two strategies in lockstep from one sequence of operations: the
//! forward construction for matching, and a second one (for instance a
//! coverage construction) into a table of its own.
use crate::anfa::{empty_transition, single_transition, AutomataError, QId, ANFA};
use crate::compilers::forward_compiler::ForwardCompiler;
pub use crate::compilers::Compiler;
use crate::compilers::operator_outcome;
use core::marker::PhantomData;
use vstd::prelude::*;

verus! {

/// Both automata keep their fragments live and hold as many of them.
pub open spec fn in_lockstep(forward_machine: ANFA, coverage_machine: ANFA) -> bool {
    &&& forward_machine.live()
    &&& coverage_machine.live()
    &&& forward_machine.automata_refs@.len() == coverage_machine.automata_refs@.len()
}

/// From two automata in lockstep, a paired step either succeeded on both
/// sides and left them in lockstep, or failed on both for want of operands
/// and changed neither.
pub open spec fn stays_in_lockstep(
    forward_before: ANFA,
    coverage_before: ANFA,
    forward_after: ANFA,
    coverage_after: ANFA,
    r: Result<((), ()), AutomataError>,
) -> bool {
    in_lockstep(forward_before, coverage_before) ==> {
        ||| (r is Ok && in_lockstep(forward_after, coverage_after))
        ||| (r == Err::<((), ()), AutomataError>(AutomataError::InsufficientOperands)
            && forward_after == forward_before && coverage_after == coverage_before)
    }
}

/// The outcome of a paired step: the forward error if the forward side
/// failed, else the coverage error if that side failed, else success.
pub open spec fn paired_result(
    forward: Result<(), AutomataError>,
    coverage: Result<(), AutomataError>,
) -> Result<((), ()), AutomataError> {
    match (forward, coverage) {
        (Err(e), _) => Err(e),
        (Ok(()), Err(e)) => Err(e),
        (Ok(()), Ok(())) => Ok(((), ())),
    }
}

/// The operations of [Compiler], each applied to a pair of automata: one
/// built by the forward strategy, one by a second strategy.
pub trait Compilers {
    /// Both tables have room for one more operation of their strategy.
    spec fn has_room(forward_machine: ANFA, coverage_machine: ANFA) -> bool;

    /// Returns a pair of new automata whose only fragment accepts nothing.
    fn from_expr_0() -> (r: Result<[ANFA; 2], AutomataError>)
        ensures
            r is Ok,
            in_lockstep(r->Ok_0[0], r->Ok_0[1]),
    ;

    /// Returns a pair of new automata whose only fragment accepts the empty word.
    fn from_expr_1() -> (r: Result<[ANFA; 2], AutomataError>)
        ensures
            r is Ok,
            in_lockstep(r->Ok_0[0], r->Ok_0[1]),
    ;

    /// Returns a pair of new automata whose only fragment accepts the word `c`.
    fn from_expr_a(c: char) -> (r: Result<[ANFA; 2], AutomataError>)
        ensures
            r is Ok,
            in_lockstep(r->Ok_0[0], r->Ok_0[1]),
    ;

    /// Pushes a fragment that accepts nothing onto both automata.
    fn expr_0(forward_machine: &mut ANFA, coverage_machine: &mut ANFA) -> (r: Result<
        ((), ()),
        AutomataError,
    >)
        requires
            Self::has_room(*old(forward_machine), *old(coverage_machine)),
        ensures
            r is Ok,
            stays_in_lockstep(
                *old(forward_machine),
                *old(coverage_machine),
                *final(forward_machine),
                *final(coverage_machine),
                r,
            ),
    ;

    /// Pushes a fragment that accepts the empty word onto both automata.
    fn expr_1(forward_machine: &mut ANFA, coverage_machine: &mut ANFA) -> (r: Result<
        ((), ()),
        AutomataError,
    >)
        requires
            Self::has_room(*old(forward_machine), *old(coverage_machine)),
        ensures
            r is Ok,
            stays_in_lockstep(
                *old(forward_machine),
                *old(coverage_machine),
                *final(forward_machine),
                *final(coverage_machine),
                r,
            ),
    ;

    /// Pushes a fragment that accepts the word `c` onto both automata.
    fn expr_a(forward_machine: &mut ANFA, coverage_machine: &mut ANFA, c: char) -> (r: Result<
        ((), ()),
        AutomataError,
    >)
        requires
            Self::has_room(*old(forward_machine), *old(coverage_machine)),
        ensures
            r is Ok,
            stays_in_lockstep(
                *old(forward_machine),
                *old(coverage_machine),
                *final(forward_machine),
                *final(coverage_machine),
                r,
            ),
    ;

    /// Concatenates the two top fragments of both automata.
    fn concatenate(forward_machine: &mut ANFA, coverage_machine: &mut ANFA) -> (r: Result<
        ((), ()),
        AutomataError,
    >)
        requires
            Self::has_room(*old(forward_machine), *old(coverage_machine)),
        ensures
            stays_in_lockstep(
                *old(forward_machine),
                *old(coverage_machine),
                *final(forward_machine),
                *final(coverage_machine),
                r,
            ),
    ;

    /// Replaces the top fragment of both automata by its star.
    fn star(forward_machine: &mut ANFA, coverage_machine: &mut ANFA) -> (r: Result<
        ((), ()),
        AutomataError,
    >)
        requires
            Self::has_room(*old(forward_machine), *old(coverage_machine)),
        ensures
            stays_in_lockstep(
                *old(forward_machine),
                *old(coverage_machine),
                *final(forward_machine),
                *final(coverage_machine),
                r,
            ),
    ;

    /// Replaces the two top fragments of both automata by their union.
    fn union(forward_machine: &mut ANFA, coverage_machine: &mut ANFA) -> (r: Result<
        ((), ()),
        AutomataError,
    >)
        requires
            Self::has_room(*old(forward_machine), *old(coverage_machine)),
        ensures
            stays_in_lockstep(
                *old(forward_machine),
                *old(coverage_machine),
                *final(forward_machine),
                *final(coverage_machine),
                r,
            ),
    ;
}

/// Builds with [ForwardCompiler] on the first automaton and with `C` on the
/// second. Both calls of a step are always made, forward first; a failure
/// on one side is not undone on the other.
pub struct BidirectionalCompiler<C> {
    coverage: PhantomData<C>,
}

impl<C: Compiler> Compilers for BidirectionalCompiler<C> {
    open spec fn has_room(forward_machine: ANFA, coverage_machine: ANFA) -> bool {
        &&& forward_machine.delta@.len() + ForwardCompiler::states_per_step() <= usize::MAX
        &&& coverage_machine.delta@.len() + C::states_per_step() <= usize::MAX
    }

    fn from_expr_0() -> (r: Result<[ANFA; 2], AutomataError>)
        ensures
            r->Ok_0[0].delta@ == seq![empty_transition(), empty_transition()],
            r->Ok_0[0].automata_refs@ == seq![[0usize, 1usize]],
    {
        match (ForwardCompiler::from_expr_0(), C::from_expr_0()) {
            (Ok(forward_machine_a), Ok(coverage_machine_a)) => {
                Ok([forward_machine_a, coverage_machine_a])
            },
            (Err(forward_machine_error), _) => Err(forward_machine_error),
            (_, Err(coverage_machine_error)) => Err(coverage_machine_error),
        }
    }

    fn from_expr_1() -> (r: Result<[ANFA; 2], AutomataError>)
        ensures
            r->Ok_0[0].delta@ == seq![empty_transition()],
            r->Ok_0[0].automata_refs@ == seq![[0usize, 0usize]],
    {
        match (ForwardCompiler::from_expr_1(), C::from_expr_1()) {
            (Ok(forward_machine_a), Ok(coverage_machine_a)) => {
                Ok([forward_machine_a, coverage_machine_a])
            },
            (Err(forward_machine_error), _) => Err(forward_machine_error),
            (_, Err(coverage_machine_error)) => Err(coverage_machine_error),
        }
    }

    fn from_expr_a(c: char) -> (r: Result<[ANFA; 2], AutomataError>)
        ensures
            r->Ok_0[0].delta@ == seq![single_transition(Some(c), 1), empty_transition()],
            r->Ok_0[0].automata_refs@ == seq![[0usize, 1usize]],
    {
        match (ForwardCompiler::from_expr_a(c), C::from_expr_a(c)) {
            (Ok(forward_machine_a), Ok(coverage_machine_a)) => {
                Ok([forward_machine_a, coverage_machine_a])
            },
            (Err(forward_machine_error), _) => Err(forward_machine_error),
            (_, Err(coverage_machine_error)) => Err(coverage_machine_error),
        }
    }

    fn expr_0(forward_machine: &mut ANFA, coverage_machine: &mut ANFA) -> (r: Result<
        ((), ()),
        AutomataError,
    >)
        ensures
            ({
                let m = old(forward_machine).delta@.len() as QId;
                final(forward_machine).pushed_from(
                    *old(forward_machine),
                    seq![empty_transition(), empty_transition()],
                    [m, (m + 1) as QId],
                )
            }),
            old(coverage_machine).delta@.len() <= final(coverage_machine).delta@.len(),
            final(coverage_machine).delta@.len() <= old(coverage_machine).delta@.len()
                + C::states_per_step(),
    {
        let forward = ForwardCompiler::expr_0(forward_machine);
        let coverage = C::expr_0(coverage_machine);
        match (forward, coverage) {
            (Ok(()), Ok(())) => Ok(((), ())),
            (Err(forward_machine_error), _) => Err(forward_machine_error),
            (_, Err(coverage_machine_error)) => Err(coverage_machine_error),
        }
    }

    fn expr_1(forward_machine: &mut ANFA, coverage_machine: &mut ANFA) -> (r: Result<
        ((), ()),
        AutomataError,
    >)
        ensures
            ({
                let m = old(forward_machine).delta@.len() as QId;
                final(forward_machine).pushed_from(
                    *old(forward_machine),
                    seq![empty_transition()],
                    [m, m],
                )
            }),
            old(coverage_machine).delta@.len() <= final(coverage_machine).delta@.len(),
            final(coverage_machine).delta@.len() <= old(coverage_machine).delta@.len()
                + C::states_per_step(),
    {
        let forward = ForwardCompiler::expr_1(forward_machine);
        let coverage = C::expr_1(coverage_machine);
        match (forward, coverage) {
            (Ok(()), Ok(())) => Ok(((), ())),
            (Err(forward_machine_error), _) => Err(forward_machine_error),
            (_, Err(coverage_machine_error)) => Err(coverage_machine_error),
        }
    }

    fn expr_a(forward_machine: &mut ANFA, coverage_machine: &mut ANFA, c: char) -> (r: Result<
        ((), ()),
        AutomataError,
    >)
        ensures
            ({
                let m = old(forward_machine).delta@.len() as QId;
                final(forward_machine).pushed_from(
                    *old(forward_machine),
                    seq![single_transition(Some(c), (m + 1) as QId), empty_transition()],
                    [m, (m + 1) as QId],
                )
            }),
            old(coverage_machine).delta@.len() <= final(coverage_machine).delta@.len(),
            final(coverage_machine).delta@.len() <= old(coverage_machine).delta@.len()
                + C::states_per_step(),
    {
        let forward = ForwardCompiler::expr_a(forward_machine, c);
        let coverage = C::expr_a(coverage_machine, c);
        match (forward, coverage) {
            (Ok(()), Ok(())) => Ok(((), ())),
            (Err(forward_machine_error), _) => Err(forward_machine_error),
            (_, Err(coverage_machine_error)) => Err(coverage_machine_error),
        }
    }

    fn concatenate(forward_machine: &mut ANFA, coverage_machine: &mut ANFA) -> (r: Result<
        ((), ()),
        AutomataError,
    >)
        ensures
            old(forward_machine).operands_result(2) is Ok
                ==> final(forward_machine).concatenated_from(*old(forward_machine)),
            old(forward_machine).operands_result(2) is Err ==> *final(forward_machine)
                == *old(forward_machine),
            exists|coverage: Result<(), AutomataError>|
                r == paired_result(old(forward_machine).operands_result(2), coverage)
                    && operator_outcome(
                    *old(coverage_machine),
                    *final(coverage_machine),
                    coverage,
                    2,
                ),
            old(coverage_machine).delta@.len() <= final(coverage_machine).delta@.len(),
            final(coverage_machine).delta@.len() <= old(coverage_machine).delta@.len()
                + C::states_per_step(),
    {
        let forward = ForwardCompiler::concatenate(forward_machine);
        let coverage = C::concatenate(coverage_machine);
        let r = match (forward, coverage) {
            (Ok(()), Ok(())) => Ok(((), ())),
            (Err(forward_machine_error), _) => Err(forward_machine_error),
            (_, Err(coverage_machine_error)) => Err(coverage_machine_error),
        };
        assert(r == paired_result(forward, coverage));
        r
    }

    fn star(forward_machine: &mut ANFA, coverage_machine: &mut ANFA) -> (r: Result<
        ((), ()),
        AutomataError,
    >)
        ensures
            old(forward_machine).operands_result(1) is Ok
                ==> final(forward_machine).starred_from(*old(forward_machine)),
            old(forward_machine).operands_result(1) is Err ==> *final(forward_machine)
                == *old(forward_machine),
            exists|coverage: Result<(), AutomataError>|
                r == paired_result(old(forward_machine).operands_result(1), coverage)
                    && operator_outcome(
                    *old(coverage_machine),
                    *final(coverage_machine),
                    coverage,
                    1,
                ),
            old(coverage_machine).delta@.len() <= final(coverage_machine).delta@.len(),
            final(coverage_machine).delta@.len() <= old(coverage_machine).delta@.len()
                + C::states_per_step(),
    {
        let forward = ForwardCompiler::star(forward_machine);
        let coverage = C::star(coverage_machine);
        let r = match (forward, coverage) {
            (Ok(()), Ok(())) => Ok(((), ())),
            (Err(forward_machine_error), _) => Err(forward_machine_error),
            (_, Err(coverage_machine_error)) => Err(coverage_machine_error),
        };
        assert(r == paired_result(forward, coverage));
        r
    }

    fn union(forward_machine: &mut ANFA, coverage_machine: &mut ANFA) -> (r: Result<
        ((), ()),
        AutomataError,
    >)
        ensures
            old(forward_machine).operands_result(2) is Ok
                ==> final(forward_machine).united_from(*old(forward_machine)),
            old(forward_machine).operands_result(2) is Err ==> *final(forward_machine)
                == *old(forward_machine),
            exists|coverage: Result<(), AutomataError>|
                r == paired_result(old(forward_machine).operands_result(2), coverage)
                    && operator_outcome(
                    *old(coverage_machine),
                    *final(coverage_machine),
                    coverage,
                    2,
                ),
            old(coverage_machine).delta@.len() <= final(coverage_machine).delta@.len(),
            final(coverage_machine).delta@.len() <= old(coverage_machine).delta@.len()
                + C::states_per_step(),
    {
        let forward = ForwardCompiler::union(forward_machine);
        let coverage = C::union(coverage_machine);
        let r = match (forward, coverage) {
            (Ok(()), Ok(())) => Ok(((), ())),
            (Err(forward_machine_error), _) => Err(forward_machine_error),
            (_, Err(coverage_machine_error)) => Err(coverage_machine_error),
        };
        assert(r == paired_result(forward, coverage));
        r
    }
}

} // verus!
