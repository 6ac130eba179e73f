//! Thompson-style construction of nondeterministic finite automata: an
//! append-only state table, fragments described by their entry and final
//! states, and the operators that wire fragments together.
use vstd::prelude::*;

pub mod anfa;
pub mod compilers;
pub mod fa;
pub mod accept;
pub mod from;

pub use anfa::{AutomataError, AutomataRef, DeltaFunction, QId, Transition, ANFA};
pub use fa::{DeltaQ, QSet, FA};

verus! {

} // verus!
