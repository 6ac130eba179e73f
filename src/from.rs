//! New automata built from whole automata: concatenation, star and union.
use crate::anfa::QId;
use crate::fa::{
    add_target_map, lemma_link_all, link_all, shift_map, shift_qset, shift_seq, shift_table,
    table_view, targets_below, DeltaQ, QSet, FA,
};
use vstd::prelude::*;

verus! {

/// A bound on every target also holds for any larger bound.
proof fn lemma_targets_below_mono(table: Seq<Map<Option<char>, Seq<QId>>>, n: int, m: int)
    requires
        targets_below(table, n),
        n <= m,
    ensures
        targets_below(table, m),
{
}

/// Shifting a table moves every bound on its targets by the same amount.
proof fn lemma_shift_table_below(table: Seq<Map<Option<char>, Seq<QId>>>, n: int, by: int)
    requires
        targets_below(table, n),
        0 <= by,
        n + by <= usize::MAX + 1,
    ensures
        targets_below(shift_table(table, by), n + by),
{
    let shifted = shift_table(table, by);
    assert forall|q: int, k: Option<char>, j: int|
        0 <= q < shifted.len() && #[trigger] shifted[q].contains_key(k) && 0 <= j
            < shifted[q][k].len() implies #[trigger] shifted[q][k][j] < n + by by {
        assert(table[q].contains_key(k));
        assert(table[q][k][j] < n);
    }
}

/// Two tables whose targets are below `n` keep them below `n` side by side.
proof fn lemma_targets_below_append(
    t1: Seq<Map<Option<char>, Seq<QId>>>,
    t2: Seq<Map<Option<char>, Seq<QId>>>,
    n: int,
)
    requires
        targets_below(t1, n),
        targets_below(t2, n),
    ensures
        targets_below(t1 + t2, n),
{
    let t = t1 + t2;
    assert forall|q: int, k: Option<char>, j: int|
        0 <= q < t.len() && #[trigger] t[q].contains_key(k) && 0 <= j < t[q][k].len()
            implies #[trigger] t[q][k][j] < n by {
        if q < t1.len() {
            assert(t[q] == t1[q]);
        } else {
            assert(t[q] == t2[q - t1.len()]);
        }
    }
}

/// Gives each state of `fs`, in order, an epsilon edge to `to`.
fn link_match_states(delta: &mut Vec<DeltaQ>, fs: &QSet, to: QId)
    requires
        forall|i: int| 0 <= i < fs@.len() ==> #[trigger] fs@[i] < old(delta)@.len(),
    ensures
        table_view(final(delta)@) == link_all(table_view(old(delta)@), fs@, to),
{
    let mut i: usize = 0;
    while i < fs.len()
        invariant
            i <= fs@.len(),
            delta@.len() == old(delta)@.len(),
            forall|j: int| 0 <= j < fs@.len() ==> #[trigger] fs@[j] < old(delta)@.len(),
            table_view(delta@) == link_all(table_view(old(delta)@), fs@.take(i as int), to),
        decreases fs@.len() - i,
    {
        let match_i = fs[i];
        let ghost before = table_view(delta@);
        delta[match_i].add_target(None, to);
        i = i + 1;
        proof {
            let prefix = fs@.take(i as int);
            assert(prefix.drop_last() =~= fs@.take(i - 1));
            assert(prefix.last() == match_i);
            assert(table_view(delta@) =~= before.update(
                match_i as int,
                add_target_map(before[match_i as int], None, to),
            ));
        }
    }
    proof {
        assert(fs@.take(fs@.len() as int) =~= fs@);
    }
}

/// Appends the states of `other`, each target moved up by `by`.
fn append_shifted(delta: &mut Vec<DeltaQ>, other: &Vec<DeltaQ>, by: usize)
    requires
        forall|q: int, k: Option<char>, j: int|
            0 <= q < other@.len() && #[trigger] other@[q]@.contains_key(k) && 0 <= j
                < other@[q]@[k].len() ==> #[trigger] other@[q]@[k][j] + by <= usize::MAX,
    ensures
        table_view(final(delta)@) == table_view(old(delta)@) + shift_table(
            table_view(other@),
            by as int,
        ),
{
    let mut i: usize = 0;
    while i < other.len()
        invariant
            i <= other@.len(),
            forall|q: int, k: Option<char>, j: int|
                0 <= q < other@.len() && #[trigger] other@[q]@.contains_key(k) && 0 <= j
                    < other@[q]@[k].len() ==> #[trigger] other@[q]@[k][j] + by <= usize::MAX,
            table_view(delta@) == table_view(old(delta)@) + shift_table(
                table_view(other@.take(i as int)),
                by as int,
            ),
        decreases other@.len() - i,
    {
        let ghost before = table_view(delta@);
        let shifted = other[i].shifted(by);
        delta.push(shifted);
        i = i + 1;
        proof {
            assert(table_view(other@.take(i as int)) =~= table_view(other@.take(i - 1)).push(
                other@[i - 1]@,
            ));
            assert(table_view(delta@) =~= before.push(shifted@));
            assert(table_view(delta@) =~= table_view(old(delta)@) + shift_table(
                table_view(other@.take(i as int)),
                by as int,
            ));
        }
    }
    proof {
        assert(other@.take(other@.len() as int) =~= other@);
    }
}

/// Every target of `fa`'s table plus `by` fits in a state identifier.
proof fn lemma_shift_fits(fa: FA, by: int)
    requires
        fa.wf(),
        0 <= by,
        fa.delta@.len() + by <= usize::MAX,
    ensures
        forall|q: int, k: Option<char>, j: int|
            0 <= q < fa.delta@.len() && #[trigger] fa.delta@[q]@.contains_key(k) && 0 <= j
                < fa.delta@[q]@[k].len() ==> #[trigger] fa.delta@[q]@[k][j] + by <= usize::MAX,
{
    assert forall|q: int, k: Option<char>, j: int|
        0 <= q < fa.delta@.len() && #[trigger] fa.delta@[q]@.contains_key(k) && 0 <= j
            < fa.delta@[q]@[k].len() implies #[trigger] fa.delta@[q]@[k][j] + by <= usize::MAX by {
        assert(fa.table()[q] == fa.delta@[q]@);
        assert(fa.table()[q][k][j] < fa.delta@.len());
    }
}

/// Returns the concatenation of `machine_a` and `machine_b`: the states of
/// `machine_b` are appended after those of `machine_a`, every match state of
/// `machine_a` gets an epsilon edge to the initial state of `machine_b`, the
/// initial state stays that of `machine_a`, and the match states become
/// those of `machine_b`. Fails when either has no match state.
pub fn concatenation(machine_a: FA, machine_b: FA) -> (r: Result<FA, &'static str>)
    requires
        machine_a.wf(),
        machine_b.wf(),
        machine_a.delta@.len() + machine_b.delta@.len() <= usize::MAX,
    ensures
        r is Err <==> machine_a.f@.len() == 0 || machine_b.f@.len() == 0,
        r is Ok ==> {
            let n = machine_a.delta@.len();
            &&& r->Ok_0.delta@.len() == n + machine_b.delta@.len()
            &&& r->Ok_0.table() == link_all(
                machine_a.table(),
                machine_a.f@,
                (n + machine_b.q0) as QId,
            ) + shift_table(machine_b.table(), n as int)
            &&& r->Ok_0.q0 == machine_a.q0
            &&& r->Ok_0.f@ == shift_seq(machine_b.f@, n as int)
            &&& r->Ok_0.wf()
        },
{
    if machine_a.f.len() == 0 || machine_b.f.len() == 0 {
        return Err("No match states, cannot concatenate machine");
    }
    let mut machine_c: FA = machine_a;
    // the initial state of machine_b, once its states follow those of machine_a
    let machine_b_next_q0 = machine_c.delta.len();
    let to = machine_b_next_q0 + machine_b.q0;
    // point every match state of machine_a at the initial state of machine_b
    link_match_states(&mut machine_c.delta, &machine_c.f, to);
    // append the states of machine_b, shifted
    proof {
        lemma_shift_fits(machine_b, machine_b_next_q0 as int);
    }
    append_shifted(&mut machine_c.delta, &machine_b.delta, machine_b_next_q0);
    // the match states of machine_b, shifted
    let next_machine_c_matches = shift_qset(&machine_b.f, machine_b_next_q0);
    machine_c.f = next_machine_c_matches;
    proof {
        let n = machine_a.delta@.len() as int;
        let total = n + machine_b.delta@.len();
        lemma_link_all(machine_a.table(), machine_a.f@, to, total);
        lemma_targets_below_mono(machine_a.table(), n, total);
        lemma_shift_table_below(machine_b.table(), machine_b.delta@.len() as int, n);
        lemma_targets_below_append(
            link_all(machine_a.table(), machine_a.f@, to),
            shift_table(machine_b.table(), n),
            total,
        );
        assert(machine_c.delta@.len() == machine_c.table().len());
    }
    Ok(machine_c)
}

/// Returns the star of `machine_a`: a new state is appended and becomes the
/// initial state; it is a match state with an epsilon edge to the former
/// initial state, and every former match state gets an epsilon edge to it.
pub fn star(machine_a: FA) -> (r: Result<FA, &'static str>)
    requires
        machine_a.wf(),
        machine_a.delta@.len() + 1 <= usize::MAX,
    ensures
        r is Ok,
        ({
            let n = machine_a.delta@.len();
            &&& r->Ok_0.delta@.len() == n + 1
            &&& r->Ok_0.table() == link_all(
                machine_a.table().push(map![None => seq![machine_a.q0]]),
                machine_a.f@,
                n as QId,
            )
            &&& r->Ok_0.q0 == n
            &&& r->Ok_0.f@ == machine_a.f@.push(n as QId)
            &&& r->Ok_0.wf()
        }),
{
    let mut machine_b = machine_a;
    let machine_a_q0 = machine_b.q0;
    machine_b.q0 = machine_b.delta.len();
    let mut delta_q0 = DeltaQ::new();
    let targets: QSet = vec![machine_a_q0];
    match delta_q0.insert(None, targets) {
        Some(_) => {
            return Err("Unexpected error, a new transition map already had the label");
        },
        None => {},
    }
    machine_b.delta.push(delta_q0);
    // for each match state, add an epsilon transition to the new initial state
    proof {
        assert forall|i: int| 0 <= i < machine_b.f@.len() implies #[trigger] machine_b.f@[i]
            < machine_b.delta@.len() by {
            assert(machine_a.f@[i] < machine_a.delta@.len());
        }
    }
    link_match_states(&mut machine_b.delta, &machine_b.f, machine_b.q0);
    machine_b.f.push(machine_b.q0);
    proof {
        let n = machine_a.delta@.len() as int;
        let pushed = machine_a.table().push(map![None => seq![machine_a.q0]]);
        assert(targets@ =~= seq![machine_a_q0]);
        assert(delta_q0@ =~= map![None => seq![machine_a.q0]]);
        assert(table_view(machine_a.delta@.push(delta_q0)) =~= pushed);
        assert(targets_below(pushed, n + 1)) by {
            assert forall|q: int, k: Option<char>, j: int|
                0 <= q < pushed.len() && #[trigger] pushed[q].contains_key(k) && 0 <= j
                    < pushed[q][k].len() implies #[trigger] pushed[q][k][j] < n + 1 by {
                if q < n {
                    assert(pushed[q] == machine_a.table()[q]);
                }
            }
        }
        lemma_link_all(pushed, machine_a.f@, n as QId, n + 1);
        assert forall|i: int| 0 <= i < machine_b.f@.len() implies #[trigger] machine_b.f@[i]
            < machine_b.delta@.len() by {
            if i < machine_a.f@.len() {
                assert(machine_b.f@[i] == machine_a.f@[i]);
            }
        }
        assert(machine_b.delta@.len() == machine_b.table().len());
    }
    Ok(machine_b)
}

/// Returns the union of `machine_a` and `machine_b`: after the states of
/// `machine_a` comes a new initial state with epsilon edges to the initial
/// states of both, then the states of `machine_b`, shifted; the match states
/// are those of both.
pub fn union(machine_a: FA, machine_b: FA) -> (r: Result<FA, &'static str>)
    requires
        machine_a.wf(),
        machine_b.wf(),
        machine_a.delta@.len() + machine_b.delta@.len() + 1 <= usize::MAX,
    ensures
        r is Ok,
        ({
            let n = machine_a.delta@.len();
            let shift = n + 1;
            &&& r->Ok_0.delta@.len() == shift + machine_b.delta@.len()
            &&& r->Ok_0.table() == machine_a.table().push(
                map![None => seq![machine_a.q0, (shift + machine_b.q0) as QId]],
            ) + shift_table(machine_b.table(), shift as int)
            &&& r->Ok_0.q0 == n
            &&& r->Ok_0.f@ == machine_a.f@ + shift_seq(machine_b.f@, shift as int)
            &&& r->Ok_0.wf()
        }),
{
    // the new initial state, with an epsilon edge to the initial state of machine_a
    let mut machine_c_delta_q0 = DeltaQ::new();
    let targets: QSet = vec![machine_a.q0];
    match machine_c_delta_q0.insert(None, targets) {
        Some(_) => {
            return Err("Unexpected error, a new transition map already had the label");
        },
        None => {},
    }
    // the initial state of machine_b once its states follow the new one
    let machine_b_shift = machine_a.delta.len() + 1;
    machine_c_delta_q0.add_target(None, machine_b_shift + machine_b.q0);
    let ghost a_table = machine_a.table();
    let ghost a_f = machine_a.f@;
    let ghost a_q0 = machine_a.q0;
    let ghost a_delta = machine_a.delta@;
    let mut machine_c = FA { f: machine_a.f, q0: machine_a.delta.len(), delta: machine_a.delta };
    machine_c.delta.push(machine_c_delta_q0);
    // the states of machine_b, shifted
    proof {
        lemma_shift_fits(machine_b, machine_b_shift as int);
    }
    append_shifted(&mut machine_c.delta, &machine_b.delta, machine_b_shift);
    // the match states of machine_b, shifted
    let shifted_matches = shift_qset(&machine_b.f, machine_b_shift);
    let ghost c_delta = machine_c.delta@;
    let mut i: usize = 0;
    while i < shifted_matches.len()
        invariant
            machine_c.delta@ == c_delta,
            machine_c.q0 == a_delta.len(),
            i <= shifted_matches@.len(),
            machine_c.f@ == a_f + shifted_matches@.take(i as int),
        decreases shifted_matches@.len() - i,
    {
        machine_c.f.push(shifted_matches[i]);
        i = i + 1;
        proof {
            assert(machine_c.f@ =~= a_f + shifted_matches@.take(i as int));
        }
    }
    proof {
        let n = a_table.len() as int;
        let shift = n + 1;
        let first = map![None => seq![a_q0, (shift + machine_b.q0) as QId]];
        assert(targets@ =~= seq![a_q0]);
        assert(seq![a_q0].push((shift + machine_b.q0) as QId) =~= seq![
            a_q0,
            (shift + machine_b.q0) as QId,
        ]);
        assert(machine_c_delta_q0@ =~= first);
        assert(shifted_matches@.take(shifted_matches@.len() as int) =~= shifted_matches@);
        let total = shift + machine_b.delta@.len();
        let pushed = a_table.push(first);
        assert(table_view(a_delta.push(machine_c_delta_q0)) =~= pushed);
        assert(machine_c.table() == pushed + shift_table(machine_b.table(), shift));
        assert(targets_below(pushed, total)) by {
            assert forall|q: int, k: Option<char>, j: int|
                0 <= q < pushed.len() && #[trigger] pushed[q].contains_key(k) && 0 <= j
                    < pushed[q][k].len() implies #[trigger] pushed[q][k][j] < total by {
                if q < n {
                    assert(pushed[q] == a_table[q]);
                }
            }
        }
        lemma_shift_table_below(machine_b.table(), machine_b.delta@.len() as int, shift);
        lemma_targets_below_append(pushed, shift_table(machine_b.table(), shift), total);
        assert forall|i: int| 0 <= i < machine_c.f@.len() implies #[trigger] machine_c.f@[i]
            < total by {
            if i < a_f.len() {
                assert(machine_c.f@[i] == a_f[i]);
            } else {
                assert(machine_c.f@[i] == shifted_matches@[i - a_f.len()]);
                assert(machine_b.f@[i - a_f.len()] < machine_b.delta@.len());
            }
        }
        assert(machine_c.delta@.len() == machine_c.table().len());
    }
    Ok(machine_c)
}

} // verus!
