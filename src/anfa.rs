//! An automaton under construction by Thompson's construction: an
//! append-only state table plus a stack of the fragments built so far.
use vstd::prelude::*;

verus! {

/// Identifier of a state: its index in the state table.
pub type QId = usize;

/// A transition along an optional label to zero, one, or two states.
/// A `None` label is an epsilon transition. A `None` target is no transition.
/// Targets are ordered: when the second is `Some`, the first is `Some` as well,
/// and two targets (a fork) only occur on an epsilon transition.
pub type Transition = (Option<char>, [Option<QId>; 2]);

/// The state table: entry `q` holds the outgoing transition of state `q`.
pub type DeltaFunction = Vec<Transition>;

/// The initial and final states of a fragment: `[q0, f]`.
pub type AutomataRef = [QId; 2];

/// Why a construction step was refused.
#[derive(Debug, Clone, Copy, PartialEq, Eq, Structural)]
pub enum AutomataError {
    /// The operator needs more fragments than the stack holds.
    InsufficientOperands,
    /// An operand's final state already carries a transition (or lies outside the table).
    DanglingStateViolation,
    /// An internal bookkeeping check failed; never produced by a correct table.
    InternalInvariantViolation,
}

/// A state with no outgoing transition.
pub open spec fn empty_transition() -> Transition {
    (None, [None, None])
}

/// One edge from a state to `to`, labelled by `label` (`None`: epsilon).
pub open spec fn single_transition(label: Option<char>, to: QId) -> Transition {
    (label, [Some(to), None])
}

/// Two epsilon edges, to `p` and to `q`.
pub open spec fn fork_transition(p: QId, q: QId) -> Transition {
    (None, [Some(p), Some(q)])
}

/// `t` has no outgoing edge.
pub open spec fn no_transition(t: Transition) -> bool {
    &&& t.0 is None
    &&& t.1[0] is None
    &&& t.1[1] is None
}

/// `t` is one of the three shapes, and each of its targets is below `n`.
pub open spec fn well_shaped(t: Transition, n: int) -> bool {
    ||| t == empty_transition()
    ||| (t.1[0] is Some && t.1[1] is None && t.1[0]->0 < n)
    ||| (t.0 is None && t.1[0] is Some && t.1[1] is Some && t.1[0]->0 < n && t.1[1]->0 < n)
}

/// The fragment `a` followed by the fragment `b`.
pub open spec fn concat_ref(a: AutomataRef, b: AutomataRef) -> AutomataRef {
    [a[0], b[1]]
}

/// The table once the final state of `a` is pointed at the entry of `b`.
pub open spec fn concat_delta(delta: Seq<Transition>, a: AutomataRef, b: AutomataRef) -> Seq<
    Transition,
> {
    delta.update(a[1] as int, single_transition(None, b[0]))
}

/// The table once the star of `a` is built: three states appended at the
/// end (entry, fork, final), and the final state of `a` pointed at the fork.
pub open spec fn star_delta(delta: Seq<Transition>, a: AutomataRef) -> Seq<Transition> {
    let m = delta.len();
    delta.update(a[1] as int, single_transition(None, (m + 1) as QId)).push(
        single_transition(None, (m + 1) as QId),
    ).push(fork_transition(a[0], (m + 2) as QId)).push(empty_transition())
}

/// The table once the union of `a` and `b` is built: a fork and a final
/// state appended, and the final states of both pointed at the new one.
pub open spec fn union_delta(delta: Seq<Transition>, a: AutomataRef, b: AutomataRef) -> Seq<
    Transition,
> {
    let m = delta.len();
    delta.update(a[1] as int, single_transition(None, (m + 1) as QId)).update(
        b[1] as int,
        single_transition(None, (m + 1) as QId),
    ).push(fork_transition(a[0], b[0])).push(empty_transition())
}

/// Appending well-shaped states and pushing a fragment that lies inside the
/// table keeps it well formed; if the fragment's final state is new and
/// dangling, every fragment still has its own dangling final state.
proof fn lemma_push_keeps_invariants(
    before: ANFA,
    after: ANFA,
    appended: Seq<Transition>,
    frag: AutomataRef,
)
    requires
        after.pushed_from(before, appended, frag),
        forall|i: int|
            0 <= i < appended.len() ==> #[trigger] well_shaped(
                appended[i],
                after.delta@.len() as int,
            ),
        frag[0] < after.delta@.len(),
        frag[1] < after.delta@.len(),
        frag[1] >= before.delta@.len(),
        no_transition(after.delta@[frag[1] as int]),
    ensures
        before.wf() ==> after.wf(),
        before.live() ==> after.live(),
{
    let n = before.delta@.len();
    let n2 = after.delta@.len();
    if before.wf() {
        assert forall|q: int| 0 <= q < n2 implies #[trigger] well_shaped(
            after.delta@[q],
            n2 as int,
        ) by {
            if q < n {
                assert(well_shaped(before.delta@[q], n as int));
                assert(after.delta@[q] == before.delta@[q]);
            } else {
                assert(after.delta@[q] == appended[q - n]);
            }
        }
        assert forall|i: int| 0 <= i < after.automata_refs@.len() implies (
        #[trigger] after.automata_refs@[i])[0] < n2
            && after.automata_refs@[i][1] < n2 by {
            if i < before.automata_refs@.len() {
                assert(after.automata_refs@[i] == before.automata_refs@[i]);
            }
        }
    }
    if before.live() {
        let refs = after.automata_refs@;
        let k = before.automata_refs@.len();
        assert forall|i: int| 0 <= i < refs.len() implies after.dangles(#[trigger] refs[i][1]) by {
            if i < k {
                assert(refs[i] == before.automata_refs@[i]);
                assert(before.dangles(before.automata_refs@[i][1]));
                assert(after.delta@[refs[i][1] as int] == before.delta@[refs[i][1] as int]);
            }
        }
        assert forall|i: int, j: int|
            0 <= i < refs.len() && 0 <= j < refs.len() && i != j implies (#[trigger] refs[i])[1]
                != (#[trigger] refs[j])[1] by {
            if i < k && j < k {
                assert(refs[i] == before.automata_refs@[i]);
                assert(refs[j] == before.automata_refs@[j]);
            } else if i < k {
                assert(refs[i] == before.automata_refs@[i]);
            } else if j < k {
                assert(refs[j] == before.automata_refs@[j]);
            }
        }
    }
}

/// Pointing the dangling final states `fs` of the `k` top fragments at
/// existing states `tos`, appending well-shaped states, and replacing those
/// fragments by one whose final state is either new or one of theirs not
/// patched, keeps the invariants.
proof fn lemma_patch_keeps_invariants(
    before: ANFA,
    after: ANFA,
    k: int,
    fs: Seq<int>,
    tos: Seq<QId>,
    frag: AutomataRef,
)
    requires
        0 < k <= before.automata_refs@.len(),
        fs.len() == tos.len(),
        forall|j: int|
            0 <= j < fs.len() ==> exists|i: int|
                0 <= i < k && before.top(i)[1] as int == #[trigger] fs[j],
        forall|j: int| 0 <= j < fs.len() ==> (#[trigger] tos[j]) < after.delta@.len(),
        before.delta@.len() <= after.delta@.len(),
        forall|j: int|
            0 <= j < fs.len() ==> after.delta@[#[trigger] fs[j]] == single_transition(
                None,
                tos[j],
            ),
        forall|q: int|
            0 <= q < before.delta@.len() && !fs.contains(q) ==> #[trigger] after.delta@[q]
                == before.delta@[q],
        forall|q: int|
            before.delta@.len() <= q < after.delta@.len() ==> #[trigger] well_shaped(
                after.delta@[q],
                after.delta@.len() as int,
            ),
        after.automata_refs@ == before.below(k).push(frag),
        frag[0] < after.delta@.len(),
        frag[1] < after.delta@.len(),
        before.live() ==> forall|j: int| 0 <= j < fs.len() ==> frag[1] as int != #[trigger] fs[j],
        frag[1] >= before.delta@.len() || exists|i: int| 0 <= i < k && before.top(i)[1] == frag[1],
        before.live() ==> no_transition(after.delta@[frag[1] as int]),
        forall|i: int| 0 <= i < k ==> before.dangles(#[trigger] before.top(i)[1]),
    ensures
        before.wf() ==> after.wf(),
        before.live() ==> after.live(),
{
    let n = before.delta@.len();
    let n2 = after.delta@.len();
    let kk = before.automata_refs@.len() - k;
    if before.wf() {
        assert forall|q: int| 0 <= q < n2 implies #[trigger] well_shaped(
            after.delta@[q],
            n2 as int,
        ) by {
            if q < n {
                assert(well_shaped(before.delta@[q], n as int));
                if fs.contains(q) {
                    let j = choose|j: int| 0 <= j < fs.len() && fs[j] == q;
                    assert(after.delta@[fs[j]] == single_transition(None, tos[j]));
                    assert(tos[j] < n2);
                    assert(well_shaped(single_transition(None, tos[j]), n2 as int));
                } else {
                    assert(after.delta@[q] == before.delta@[q]);
                }
            }
        }
        assert forall|i: int| 0 <= i < after.automata_refs@.len() implies (
        #[trigger] after.automata_refs@[i])[0] < n2
            && after.automata_refs@[i][1] < n2 by {
            if i < kk {
                assert(after.automata_refs@[i] == before.automata_refs@[i]);
            }
        }
    }
    if before.live() {
        let refs = after.automata_refs@;
        let old_refs = before.automata_refs@;
        assert forall|i: int| 0 <= i < refs.len() implies after.dangles(#[trigger] refs[i][1]) by {
            if i < kk {
                assert(refs[i] == old_refs[i]);
                assert(before.dangles(old_refs[i][1]));
                let q = refs[i][1] as int;
                if fs.contains(q) {
                    let j = choose|j: int| 0 <= j < fs.len() && fs[j] == q;
                    let t = choose|t: int|
                        0 <= t < k && before.top(t)[1] as int == #[trigger] fs[j];
                    assert(old_refs[old_refs.len() - 1 - t] == before.top(t));
                    assert(old_refs[i][1] != old_refs[old_refs.len() - 1 - t][1]);
                }
            }
        }
        assert forall|i: int, j: int|
            0 <= i < refs.len() && 0 <= j < refs.len() && i != j implies (#[trigger] refs[i])[1]
                != (#[trigger] refs[j])[1] by {
            if i < kk && j < kk {
                assert(refs[i] == old_refs[i]);
                assert(refs[j] == old_refs[j]);
            } else if i < kk {
                assert(refs[i] == old_refs[i]);
                assert(before.dangles(old_refs[i][1]));
                if frag[1] < n {
                    let t = choose|t: int| 0 <= t < k && before.top(t)[1] == frag[1];
                    assert(old_refs[old_refs.len() - 1 - t] == before.top(t));
                }
            } else if j < kk {
                assert(refs[j] == old_refs[j]);
                assert(before.dangles(old_refs[j][1]));
                if frag[1] < n {
                    let t = choose|t: int| 0 <= t < k && before.top(t)[1] == frag[1];
                    assert(old_refs[old_refs.len() - 1 - t] == before.top(t));
                }
            }
        }
    }
}

/// An automaton built by pushing fragments onto a stack and combining them.
#[derive(Debug)]
pub struct ANFA {
    /// The fragments built so far, the last one on top.
    pub automata_refs: Vec<AutomataRef>,
    /// The state table; it only grows, and indices never change.
    pub delta: DeltaFunction,
    /// The overall entry and exit, once chosen by `finalize`.
    pub finalized: Option<AutomataRef>,
}

impl ANFA {
    /// Every transition is well shaped and every fragment lies inside the table.
    pub open spec fn wf(&self) -> bool {
        let n = self.delta@.len();
        &&& forall|q: int| 0 <= q < n ==> #[trigger] well_shaped(self.delta@[q], n as int)
        &&& forall|i: int|
            0 <= i < self.automata_refs@.len() ==> (#[trigger] self.automata_refs@[i])[0] < n
                && self.automata_refs@[i][1] < n
    }

    /// State `q` exists and has no outgoing transition yet.
    pub open spec fn dangles(&self, q: QId) -> bool {
        &&& q < self.delta@.len()
        &&& no_transition(self.delta@[q as int])
    }

    /// Well formed, and every fragment on the stack still has its own
    /// dangling final state.
    pub open spec fn live(&self) -> bool {
        let refs = self.automata_refs@;
        &&& self.wf()
        &&& forall|i: int| 0 <= i < refs.len() ==> self.dangles(#[trigger] refs[i][1])
        &&& forall|i: int, j: int|
            0 <= i < refs.len() && 0 <= j < refs.len() && i != j ==> (#[trigger] refs[i])[1]
                != (#[trigger] refs[j])[1]
    }

    /// Fragment `i` from the top of the stack (0: the top one).
    pub open spec fn top(&self, i: int) -> AutomataRef {
        self.automata_refs@[self.automata_refs@.len() - 1 - i]
    }

    /// The stack without its `k` top fragments.
    pub open spec fn below(&self, k: int) -> Seq<AutomataRef> {
        self.automata_refs@.take(self.automata_refs@.len() - k)
    }

    /// The outcome of an operator that consumes the `k` top fragments.
    pub open spec fn operands_result(&self, k: int) -> Result<(), AutomataError> {
        if self.automata_refs@.len() < k {
            Err(AutomataError::InsufficientOperands)
        } else if exists|i: int| 0 <= i < k && !self.dangles(#[trigger] self.top(i)[1]) {
            Err(AutomataError::DanglingStateViolation)
        } else {
            Ok(())
        }
    }

    /// `self` is `before` with one more fragment on the stack, made of the
    /// states `appended`, which were added to the end of the table.
    pub open spec fn pushed_from(
        &self,
        before: ANFA,
        appended: Seq<Transition>,
        frag: AutomataRef,
    ) -> bool {
        &&& self.delta@ == before.delta@ + appended
        &&& self.automata_refs@ == before.automata_refs@.push(frag)
        &&& self.finalized == before.finalized
    }

    /// `self` is `before` after its two top fragments were concatenated.
    pub open spec fn concatenated_from(&self, before: ANFA) -> bool {
        let a = before.top(1);
        let b = before.top(0);
        &&& self.delta@ == concat_delta(before.delta@, a, b)
        &&& self.automata_refs@ == before.below(2).push(concat_ref(a, b))
        &&& self.finalized == before.finalized
    }

    /// `self` is `before` after the star of its top fragment was built.
    pub open spec fn starred_from(&self, before: ANFA) -> bool {
        let a = before.top(0);
        let m = before.delta@.len();
        &&& self.delta@ == star_delta(before.delta@, a)
        &&& self.automata_refs@ == before.below(1).push([m as QId, (m + 2) as QId])
        &&& self.finalized == before.finalized
    }

    /// `self` is `before` after the union of its two top fragments was built.
    pub open spec fn united_from(&self, before: ANFA) -> bool {
        let a = before.top(1);
        let b = before.top(0);
        let m = before.delta@.len();
        &&& self.delta@ == union_delta(before.delta@, a, b)
        &&& self.automata_refs@ == before.below(2).push([m as QId, (m + 1) as QId])
        &&& self.finalized == before.finalized
    }

    /// An automaton with no states and no fragments.
    pub(crate) fn new() -> (r: ANFA)
        ensures
            r.delta@.len() == 0,
            r.automata_refs@.len() == 0,
            r.finalized is None,
            r.live(),
    {
        ANFA { automata_refs: Vec::new(), delta: Vec::new(), finalized: None }
    }

    /// Whether state `q` exists and has no outgoing transition yet.
    pub fn is_dangling(&self, q: QId) -> (r: bool)
        ensures
            r == self.dangles(q),
    {
        if q < self.delta.len() {
            let t = &self.delta[q];
            t.0.is_none() && t.1[0].is_none() && t.1[1].is_none()
        } else {
            false
        }
    }

    /// Returns a new automaton whose only fragment accepts nothing. See [ANFA::expr_0].
    pub fn from_expr_0() -> (r: Result<ANFA, AutomataError>)
        ensures
            r is Ok,
            r->Ok_0.delta@ == seq![empty_transition(), empty_transition()],
            r->Ok_0.automata_refs@ == seq![[0usize, 1usize]],
            r->Ok_0.finalized is None,
            r->Ok_0.live(),
    {
        let mut machine_a = ANFA::new();
        match machine_a.expr_0() {
            Ok(()) => Ok(machine_a),
            Err(e) => Err(e),
        }
    }

    /// Pushes a fragment that accepts nothing: two fresh states, an entry
    /// and a final state, with no transition between them.
    pub fn expr_0(&mut self) -> (r: Result<(), AutomataError>)
        requires
            old(self).delta@.len() + 2 <= usize::MAX,
        ensures
            r is Ok,
            ({
                let m = old(self).delta@.len() as QId;
                final(self).pushed_from(
                    *old(self),
                    seq![empty_transition(), empty_transition()],
                    [m, (m + 1) as QId],
                )
            }),
            old(self).wf() ==> final(self).wf(),
            old(self).live() ==> final(self).live(),
    {
        let q0 = self.delta.len();
        let f = q0 + 1;
        let machine_a: AutomataRef = [q0, f];
        // the entry state, with no transition
        self.delta.push((None, [None, None]));
        // the final state
        self.delta.push((None, [None, None]));
        self.automata_refs.push(machine_a);
        proof {
            assert(self.delta@ =~= old(self).delta@ + seq![empty_transition(), empty_transition()]);
            lemma_push_keeps_invariants(
                *old(self),
                *self,
                seq![empty_transition(), empty_transition()],
                machine_a,
            );
        }
        Ok(())
    }

    /// Pushes a fragment that accepts the empty word: one fresh state that is
    /// both its entry and its final state.
    pub fn expr_1(&mut self) -> (r: Result<(), AutomataError>)
        requires
            old(self).delta@.len() + 1 <= usize::MAX,
        ensures
            r is Ok,
            ({
                let m = old(self).delta@.len() as QId;
                final(self).pushed_from(*old(self), seq![empty_transition()], [m, m])
            }),
            old(self).wf() ==> final(self).wf(),
            old(self).live() ==> final(self).live(),
    {
        let q0 = self.delta.len();
        let f = q0;
        let machine_a: AutomataRef = [q0, f];
        // the state that is both entry and final
        self.delta.push((None, [None, None]));
        self.automata_refs.push(machine_a);
        proof {
            assert(self.delta@ =~= old(self).delta@ + seq![empty_transition()]);
            lemma_push_keeps_invariants(*old(self), *self, seq![empty_transition()], machine_a);
        }
        Ok(())
    }

    /// Pushes a fragment that accepts the one-symbol word `c`: an entry state
    /// with an edge labelled `c` to a fresh final state.
    pub fn expr_a(&mut self, c: char) -> (r: Result<(), AutomataError>)
        requires
            old(self).delta@.len() + 2 <= usize::MAX,
        ensures
            r is Ok,
            ({
                let m = old(self).delta@.len() as QId;
                final(self).pushed_from(
                    *old(self),
                    seq![single_transition(Some(c), (m + 1) as QId), empty_transition()],
                    [m, (m + 1) as QId],
                )
            }),
            old(self).wf() ==> final(self).wf(),
            old(self).live() ==> final(self).live(),
    {
        let q0 = self.delta.len();
        let f = q0 + 1;
        let machine_a: AutomataRef = [q0, f];
        // the entry state, with an edge to `f` labelled `c`
        self.delta.push((Some(c), [Some(f), None]));
        // the final state
        self.delta.push((None, [None, None]));
        self.automata_refs.push(machine_a);
        proof {
            let appended = seq![single_transition(Some(c), f), empty_transition()];
            assert(self.delta@ =~= old(self).delta@ + appended);
            assert(well_shaped(appended[0], self.delta@.len() as int));
            lemma_push_keeps_invariants(*old(self), *self, appended, machine_a);
        }
        Ok(())
    }

    /// Returns a new automaton whose only fragment accepts the empty word. See [ANFA::expr_1].
    pub fn from_expr_1() -> (r: Result<ANFA, AutomataError>)
        ensures
            r is Ok,
            r->Ok_0.delta@ == seq![empty_transition()],
            r->Ok_0.automata_refs@ == seq![[0usize, 0usize]],
            r->Ok_0.finalized is None,
            r->Ok_0.live(),
    {
        let mut machine_a = ANFA::new();
        match machine_a.expr_1() {
            Ok(()) => Ok(machine_a),
            Err(e) => Err(e),
        }
    }

    /// Returns a new automaton whose only fragment accepts the word `c`. See [ANFA::expr_a].
    pub fn from_expr_a(c: char) -> (r: Result<ANFA, AutomataError>)
        ensures
            r is Ok,
            r->Ok_0.delta@ == seq![single_transition(Some(c), 1), empty_transition()],
            r->Ok_0.automata_refs@ == seq![[0usize, 1usize]],
            r->Ok_0.finalized is None,
            r->Ok_0.live(),
    {
        let mut machine_a = ANFA::new();
        match machine_a.expr_a(c) {
            Ok(()) => Ok(machine_a),
            Err(e) => Err(e),
        }
    }

    /// Concatenates the two top fragments `a` and `b` (`b` on top): the final
    /// state of `a` gets an epsilon edge to the entry of `b`, and the two are
    /// replaced by one fragment from the entry of `a` to the final state of
    /// `b`. No state is added. Fails, changing nothing, when the stack holds
    /// fewer than two fragments, or when the final state of either already
    /// carries a transition.
    pub fn concatenate(&mut self) -> (r: Result<(), AutomataError>)
        ensures
            r == old(self).operands_result(2),
            r is Ok ==> final(self).concatenated_from(*old(self)),
            r is Err ==> *final(self) == *old(self),
            old(self).wf() ==> final(self).wf(),
            old(self).live() ==> final(self).live(),
    {
        let n = self.automata_refs.len();
        if n < 2 {
            return Err(AutomataError::InsufficientOperands);
        }
        let a = self.automata_refs[n - 2];
        let b = self.automata_refs[n - 1];
        if !self.is_dangling(a[1]) || !self.is_dangling(b[1]) {
            proof {
                if !self.dangles(a[1]) {
                    assert(!self.dangles(self.top(1)[1]));
                } else {
                    assert(!self.dangles(self.top(0)[1]));
                }
            }
            return Err(AutomataError::DanglingStateViolation);
        }
        proof {
            assert forall|i: int| 0 <= i < 2 implies self.dangles(#[trigger] self.top(i)[1]) by {}
        }
        let machine_b = match self.automata_refs.pop() {
            None => {
                return Err(AutomataError::InternalInvariantViolation);
            },
            Some(machine_b) => machine_b,
        };
        let machine_a = match self.automata_refs.pop() {
            None => {
                return Err(AutomataError::InternalInvariantViolation);
            },
            Some(machine_a) => machine_a,
        };
        let machine_c: AutomataRef = [machine_a[0], machine_b[1]];
        // point the final state of `a` at the entry of `b`
        self.delta.set(machine_a[1], (None, [Some(machine_b[0]), None]));
        self.automata_refs.push(machine_c);
        proof {
            let before = *old(self);
            assert(self.automata_refs@ =~= before.below(2).push(concat_ref(a, b)));
            assert(before.top(1)[1] as int == seq![a[1] as int][0]);
            assert(before.top(0)[1] == b[1]);
            assert(before.automata_refs@[n - 2] == a);
            if before.wf() {
                assert(before.automata_refs@[n - 1] == b);
                lemma_patch_keeps_invariants(
                    before,
                    *self,
                    2,
                    seq![a[1] as int],
                    seq![b[0]],
                    machine_c,
                );
            }
        }
        Ok(())
    }

    /// Replaces the top fragment `a` by its star: three states are appended,
    /// an entry `E` with an epsilon edge to a fork `U`, the fork with epsilon
    /// edges to the entry of `a` and to a new final state `F`; the final state
    /// of `a` gets an epsilon edge back to `U`. The new fragment runs from `E`
    /// to `F`. Fails, changing nothing, when the stack is empty or when the
    /// final state of `a` already carries a transition.
    pub fn star(&mut self) -> (r: Result<(), AutomataError>)
        requires
            old(self).delta@.len() + 3 <= usize::MAX,
        ensures
            r == old(self).operands_result(1),
            r is Ok ==> final(self).starred_from(*old(self)),
            r is Err ==> *final(self) == *old(self),
            old(self).wf() ==> final(self).wf(),
            old(self).live() ==> final(self).live(),
    {
        let n = self.automata_refs.len();
        if n < 1 {
            return Err(AutomataError::InsufficientOperands);
        }
        let a = self.automata_refs[n - 1];
        if !self.is_dangling(a[1]) {
            proof {
                assert(!self.dangles(self.top(0)[1]));
            }
            return Err(AutomataError::DanglingStateViolation);
        }
        proof {
            assert forall|i: int| 0 <= i < 1 implies self.dangles(#[trigger] self.top(i)[1]) by {}
        }
        let machine_a = match self.automata_refs.pop() {
            None => {
                return Err(AutomataError::InternalInvariantViolation);
            },
            Some(machine_a) => machine_a,
        };
        let machine_b_q0 = self.delta.len();
        let machine_b_q = machine_b_q0 + 1;
        let machine_b_f = machine_b_q0 + 2;
        let machine_b: AutomataRef = [machine_b_q0, machine_b_f];
        // the entry, with an epsilon edge to the fork
        self.delta.push((None, [Some(machine_b_q), None]));
        // the fork, into `a` or out to the final state
        self.delta.push((None, [Some(machine_a[0]), Some(machine_b_f)]));
        // the final state
        self.delta.push((None, [None, None]));
        // point the final state of `a` back at the fork
        self.delta.set(machine_a[1], (None, [Some(machine_b_q), None]));
        self.automata_refs.push(machine_b);
        proof {
            let before = *old(self);
            assert(self.delta@ =~= star_delta(before.delta@, a));
            assert(self.automata_refs@ =~= before.below(1).push(machine_b));
            assert(before.top(0)[1] as int == seq![a[1] as int][0]);
            if before.wf() {
                assert(before.automata_refs@[n - 1] == a);
                let m = before.delta@.len() as int;
                assert(forall|q: int|
                    m <= q < m + 3 ==> #[trigger] well_shaped(self.delta@[q], m + 3));
                lemma_patch_keeps_invariants(
                    before,
                    *self,
                    1,
                    seq![a[1] as int],
                    seq![machine_b_q],
                    machine_b,
                );
            }
        }
        Ok(())
    }

    /// Replaces the two top fragments `a` and `b` (`b` on top) by their
    /// union: a fork `U` with epsilon edges to the entries of `a` and `b`, and
    /// a new final state `F`, are appended; the final states of `a` and `b`
    /// get epsilon edges to `F`. The new fragment runs from `U` to `F`. Fails,
    /// changing nothing, when the stack holds fewer than two fragments, or
    /// when the final state of either already carries a transition.
    pub fn union(&mut self) -> (r: Result<(), AutomataError>)
        requires
            old(self).delta@.len() + 2 <= usize::MAX,
        ensures
            r == old(self).operands_result(2),
            r is Ok ==> final(self).united_from(*old(self)),
            r is Err ==> *final(self) == *old(self),
            old(self).wf() ==> final(self).wf(),
            old(self).live() ==> final(self).live(),
    {
        let n = self.automata_refs.len();
        if n < 2 {
            return Err(AutomataError::InsufficientOperands);
        }
        let a = self.automata_refs[n - 2];
        let b = self.automata_refs[n - 1];
        if !self.is_dangling(a[1]) || !self.is_dangling(b[1]) {
            proof {
                if !self.dangles(a[1]) {
                    assert(!self.dangles(self.top(1)[1]));
                } else {
                    assert(!self.dangles(self.top(0)[1]));
                }
            }
            return Err(AutomataError::DanglingStateViolation);
        }
        proof {
            assert forall|i: int| 0 <= i < 2 implies self.dangles(#[trigger] self.top(i)[1]) by {}
        }
        let machine_c_q0 = self.delta.len();
        let machine_c_f = machine_c_q0 + 1;
        let machine_c: AutomataRef = [machine_c_q0, machine_c_f];
        let machine_b = match self.automata_refs.pop() {
            None => {
                return Err(AutomataError::InternalInvariantViolation);
            },
            Some(machine_b) => machine_b,
        };
        let machine_a = match self.automata_refs.pop() {
            None => {
                return Err(AutomataError::InternalInvariantViolation);
            },
            Some(machine_a) => machine_a,
        };
        // the fork into `a` or `b`
        self.delta.push((None, [Some(machine_a[0]), Some(machine_b[0])]));
        // the final state
        self.delta.push((None, [None, None]));
        // point the final states of `a` and `b` at the new final state
        self.delta.set(machine_a[1], (None, [Some(machine_c_f), None]));
        self.delta.set(machine_b[1], (None, [Some(machine_c_f), None]));
        self.automata_refs.push(machine_c);
        proof {
            let before = *old(self);
            assert(self.delta@ =~= union_delta(before.delta@, a, b));
            assert(self.automata_refs@ =~= before.below(2).push(machine_c));
            let fs = seq![a[1] as int, b[1] as int];
            assert(before.top(1)[1] as int == fs[0]);
            assert(before.top(0)[1] as int == fs[1]);
            if before.wf() {
                assert(before.automata_refs@[n - 1] == b);
                assert(before.automata_refs@[n - 2] == a);
                let m = before.delta@.len() as int;
                assert(forall|q: int|
                    m <= q < m + 2 ==> #[trigger] well_shaped(self.delta@[q], m + 2));
                lemma_patch_keeps_invariants(
                    before,
                    *self,
                    2,
                    fs,
                    seq![machine_c_f, machine_c_f],
                    machine_c,
                );
            }
        }
        Ok(())
    }

    /// Sets the overall entry and exit of the automaton to those of `r`.
    /// A later call overrides an earlier one.
    pub fn finalize(&mut self, r: AutomataRef)
        ensures
            final(self).finalized == Some(r),
            final(self).delta@ == old(self).delta@,
            final(self).automata_refs@ == old(self).automata_refs@,
    {
        self.finalized = Some(r);
    }
}

/// On a stack whose fragments all have their own dangling final state, an
/// operator that consumes `k` fragments fails only for want of operands.
pub proof fn lemma_live_operands(m: ANFA, k: int)
    requires
        m.live(),
        0 <= k,
    ensures
        m.operands_result(k) is Ok <==> m.automata_refs@.len() >= k,
        m.automata_refs@.len() < k ==> m.operands_result(k) == Err::<(), AutomataError>(
            AutomataError::InsufficientOperands,
        ),
{
    if m.automata_refs@.len() >= k {
        assert forall|i: int| 0 <= i < k implies m.dangles(#[trigger] m.top(i)[1]) by {
            let j = m.automata_refs@.len() - 1 - i;
            assert(m.automata_refs@[j] == m.top(i));
        }
    }
}

/// Concatenation is associative: for fragments `a`, `b`, `c` whose final
/// states are distinct states of the table, building `(a . b) . c` and
/// building `a . (b . c)` give the same table and the same fragment.
pub proof fn lemma_concatenate_associative(
    delta: Seq<Transition>,
    a: AutomataRef,
    b: AutomataRef,
    c: AutomataRef,
)
    requires
        a[1] < delta.len(),
        b[1] < delta.len(),
        a[1] != b[1],
    ensures
        concat_delta(concat_delta(delta, a, b), concat_ref(a, b), c) == concat_delta(
            concat_delta(delta, b, c),
            a,
            concat_ref(b, c),
        ),
        concat_ref(concat_ref(a, b), c) == concat_ref(a, concat_ref(b, c)),
{
    assert(concat_delta(concat_delta(delta, a, b), concat_ref(a, b), c) =~= concat_delta(
        concat_delta(delta, b, c),
        a,
        concat_ref(b, c),
    ));
    assert(concat_ref(concat_ref(a, b), c) =~= concat_ref(a, concat_ref(b, c)));
}

} // verus!
