//! Finite automata as plain values: a table with, for each state, a map from
//! labels to sets of states, an initial state and a set of match states.
use crate::anfa::QId;
use vstd::prelude::*;

verus! {

/// The states a transition leads to.
pub type QSet = Vec<QId>;

/// The map that a list of `(label, targets)` entries stands for.
pub open spec fn label_map(entries: Seq<(Option<char>, QSet)>) -> Map<Option<char>, Seq<QId>>
    decreases entries.len(),
{
    if entries.len() == 0 {
        Map::empty()
    } else {
        label_map(entries.drop_last()).insert(entries.last().0, entries.last().1@)
    }
}

/// No label occurs in two entries.
pub open spec fn labels_unique(entries: Seq<(Option<char>, QSet)>) -> bool {
    forall|i: int, j: int|
        0 <= i < entries.len() && 0 <= j < entries.len() && i != j ==> (#[trigger] entries[i]).0
            != (#[trigger] entries[j]).0
}

/// `m` with `q` added to the targets of `label` (a new label leads to `q` alone).
pub open spec fn add_target_map(
    m: Map<Option<char>, Seq<QId>>,
    label: Option<char>,
    q: QId,
) -> Map<Option<char>, Seq<QId>> {
    if m.contains_key(label) {
        m.insert(label, m[label].push(q))
    } else {
        m.insert(label, seq![q])
    }
}

/// Every target of `m` moved up by `by`.
pub open spec fn shift_map(m: Map<Option<char>, Seq<QId>>, by: int) -> Map<Option<char>, Seq<QId>> {
    m.map_values(|s: Seq<QId>| shift_seq(s, by))
}

/// Every state of `s` moved up by `by`.
pub open spec fn shift_seq(s: Seq<QId>, by: int) -> Seq<QId> {
    s.map_values(|q: QId| (q + by) as QId)
}

/// With unique labels, the map holds exactly the labels of the entries, each
/// with the targets of its entry, and has as many keys as there are entries.
proof fn lemma_label_map(entries: Seq<(Option<char>, QSet)>)
    requires
        labels_unique(entries),
    ensures
        forall|k: Option<char>|
            #[trigger] label_map(entries).contains_key(k) <==> exists|i: int|
                0 <= i < entries.len() && (#[trigger] entries[i]).0 == k,
        forall|i: int|
            0 <= i < entries.len() ==> label_map(entries)[(#[trigger] entries[i]).0]
                == entries[i].1@,
        label_map(entries).dom().finite(),
        label_map(entries).dom().len() == entries.len(),
    decreases entries.len(),
{
    if entries.len() > 0 {
        let prefix = entries.drop_last();
        assert forall|i: int, j: int|
            0 <= i < prefix.len() && 0 <= j < prefix.len() && i != j implies (
            #[trigger] prefix[i]).0 != (#[trigger] prefix[j]).0 by {
            assert(prefix[i] == entries[i]);
            assert(prefix[j] == entries[j]);
        }
        lemma_label_map(prefix);
        let last = entries.last();
        let n = entries.len() - 1;
        assert(!label_map(prefix).contains_key(last.0)) by {
            if label_map(prefix).contains_key(last.0) {
                let i = choose|i: int| 0 <= i < prefix.len() && (#[trigger] prefix[i]).0 == last.0;
                assert(entries[i] == prefix[i]);
                assert(entries[n] == last);
            }
        }
        assert forall|k: Option<char>|
            #[trigger] label_map(entries).contains_key(k) <==> exists|i: int|
                0 <= i < entries.len() && (#[trigger] entries[i]).0 == k by {
            if label_map(prefix).contains_key(k) {
                let i = choose|i: int| 0 <= i < prefix.len() && (#[trigger] prefix[i]).0 == k;
                assert(entries[i] == prefix[i]);
            }
            if exists|i: int| 0 <= i < entries.len() && (#[trigger] entries[i]).0 == k {
                let i = choose|i: int| 0 <= i < entries.len() && (#[trigger] entries[i]).0 == k;
                if i < n {
                    assert(prefix[i] == entries[i]);
                }
            }
        }
        assert forall|i: int| 0 <= i < entries.len() implies label_map(entries)[(
        #[trigger] entries[i]).0] == entries[i].1@ by {
            if i < n {
                assert(prefix[i] == entries[i]);
                assert(entries[i].0 != entries[n].0);
            }
        }
    }
}

/// Replacing the targets of an entry replaces them in the map.
proof fn lemma_label_map_update(entries: Seq<(Option<char>, QSet)>, i: int, v: QSet)
    requires
        labels_unique(entries),
        0 <= i < entries.len(),
    ensures
        label_map(entries.update(i, (entries[i].0, v))) == label_map(entries).insert(
            entries[i].0,
            v@,
        ),
    decreases entries.len(),
{
    let updated = entries.update(i, (entries[i].0, v));
    let n = entries.len() - 1;
    if i == n {
        assert(updated.drop_last() =~= entries.drop_last());
        assert(label_map(updated) =~= label_map(entries).insert(entries[i].0, v@));
    } else {
        let prefix = entries.drop_last();
        assert forall|a: int, b: int|
            0 <= a < prefix.len() && 0 <= b < prefix.len() && a != b implies (
            #[trigger] prefix[a]).0 != (#[trigger] prefix[b]).0 by {
            assert(prefix[a] == entries[a]);
            assert(prefix[b] == entries[b]);
        }
        lemma_label_map_update(prefix, i, v);
        assert(updated.drop_last() =~= prefix.update(i, (prefix[i].0, v)));
        assert(entries[i].0 != entries[n].0);
        assert(label_map(updated) =~= label_map(entries).insert(entries[i].0, v@));
    }
}

/// Entries with the same labels and shifted targets stand for the shifted map.
proof fn lemma_label_map_shift(
    entries: Seq<(Option<char>, QSet)>,
    shifted: Seq<(Option<char>, QSet)>,
    by: int,
)
    requires
        entries.len() == shifted.len(),
        forall|i: int|
            0 <= i < entries.len() ==> (#[trigger] shifted[i]).0 == entries[i].0 && shifted[i].1@
                == shift_seq(entries[i].1@, by),
    ensures
        label_map(shifted) == shift_map(label_map(entries), by),
    decreases entries.len(),
{
    if entries.len() > 0 {
        let n = entries.len() - 1;
        assert forall|i: int| 0 <= i < n implies (#[trigger] shifted.drop_last()[i]).0
            == entries.drop_last()[i].0 && shifted.drop_last()[i].1@ == shift_seq(
            entries.drop_last()[i].1@,
            by,
        ) by {
            assert(shifted[i] == shifted.drop_last()[i]);
        }
        lemma_label_map_shift(entries.drop_last(), shifted.drop_last(), by);
        assert(shifted[n].0 == entries[n].0);
        assert(label_map(shifted) =~= shift_map(label_map(entries), by));
    }
}

/// A copy of `v`.
fn copy_qset(v: &QSet) -> (r: QSet)
    ensures
        r@ == v@,
{
    let mut r: QSet = Vec::new();
    let mut i: usize = 0;
    while i < v.len()
        invariant
            i <= v@.len(),
            r@ == v@.take(i as int),
        decreases v@.len() - i,
    {
        r.push(v[i]);
        i = i + 1;
        proof {
            assert(r@ =~= v@.take(i as int));
        }
    }
    proof {
        assert(v@.take(v@.len() as int) =~= v@);
    }
    r
}

/// The states of `v`, each moved up by `by`.
pub(crate) fn shift_qset(v: &QSet, by: usize) -> (r: QSet)
    requires
        forall|j: int| 0 <= j < v@.len() ==> v@[j] + by <= usize::MAX,
    ensures
        r@ == shift_seq(v@, by as int),
{
    let mut r: QSet = Vec::new();
    let mut i: usize = 0;
    while i < v.len()
        invariant
            i <= v@.len(),
            forall|j: int| 0 <= j < v@.len() ==> v@[j] + by <= usize::MAX,
            r@ == shift_seq(v@.take(i as int), by as int),
        decreases v@.len() - i,
    {
        r.push(v[i] + by);
        i = i + 1;
        proof {
            assert(r@ =~= shift_seq(v@.take(i as int), by as int));
        }
    }
    proof {
        assert(v@.take(v@.len() as int) =~= v@);
    }
    r
}

/// Whether `a` and `b` hold the same states in the same order.
fn same_qset(a: &QSet, b: &QSet) -> (r: bool)
    ensures
        r == (a@ == b@),
{
    if a.len() != b.len() {
        return false;
    }
    let mut i: usize = 0;
    while i < a.len()
        invariant
            a@.len() == b@.len(),
            i <= a@.len(),
            forall|j: int| 0 <= j < i ==> a@[j] == b@[j],
        decreases a@.len() - i,
    {
        if a[i] != b[i] {
            return false;
        }
        i = i + 1;
    }
    proof {
        assert(a@ =~= b@);
    }
    true
}

/// The outgoing transitions of one state: for each label (`None`: epsilon),
/// the states it leads to. Each label occurs at most once.
#[derive(Debug)]
pub struct DeltaQ {
    entries: Vec<(Option<char>, QSet)>,
}

impl View for DeltaQ {
    type V = Map<Option<char>, Seq<QId>>;

    closed spec fn view(&self) -> Map<Option<char>, Seq<QId>> {
        label_map(self.entries@)
    }
}

/// Whether two labels are equal.
fn same_label(a: &Option<char>, b: &Option<char>) -> (r: bool)
    ensures
        r == (*a == *b),
{
    match (a, b) {
        (None, None) => true,
        (Some(x), Some(y)) => *x == *y,
        _ => false,
    }
}

impl DeltaQ {
    /// Each label occurs at most once.
    #[verifier::type_invariant]
    spec fn labels_are_unique(&self) -> bool {
        labels_unique(self.entries@)
    }

    /// No transition at all.
    pub fn new() -> (r: DeltaQ)
        ensures
            r@ == Map::<Option<char>, Seq<QId>>::empty(),
    {
        DeltaQ { entries: Vec::new() }
    }

    /// The position of the entry for `label`, if any.
    fn find(&self, label: &Option<char>) -> (r: Option<usize>)
        ensures
            r is Some ==> r->0 < self.entries@.len() && self.entries@[r->0 as int].0 == *label,
            r is None <==> !self@.contains_key(*label),
    {
        proof {
            use_type_invariant(self);
            lemma_label_map(self.entries@);
        }
        let mut i: usize = 0;
        while i < self.entries.len()
            invariant
                i <= self.entries@.len(),
                forall|j: int| 0 <= j < i ==> (#[trigger] self.entries@[j]).0 != *label,
            decreases self.entries@.len() - i,
        {
            if same_label(&self.entries[i].0, label) {
                proof {
                    use_type_invariant(self);
                    lemma_label_map(self.entries@);
                    assert(self.entries@[i as int].0 == *label);
                }
                return Some(i);
            }
            i = i + 1;
        }
        None
    }

    /// The number of labels.
    pub fn len(&self) -> (r: usize)
        ensures
            r == self@.dom().len(),
    {
        proof {
            use_type_invariant(self);
            lemma_label_map(self.entries@);
        }
        self.entries.len()
    }

    /// Whether `label` has a transition.
    pub fn contains_key(&self, label: &Option<char>) -> (r: bool)
        ensures
            r == self@.contains_key(*label),
    {
        self.find(label).is_some()
    }

    /// The states that `label` leads to, if it has a transition.
    pub fn get(&self, label: &Option<char>) -> (r: Option<&QSet>)
        ensures
            r is Some <==> self@.contains_key(*label),
            r is Some ==> r->0@ == self@[*label],
    {
        proof {
            use_type_invariant(self);
            lemma_label_map(self.entries@);
        }
        match self.find(label) {
            Some(i) => Some(&self.entries[i].1),
            None => None,
        }
    }

    /// Sets the targets of `label`, returning the targets it had before.
    pub fn insert(&mut self, label: Option<char>, targets: QSet) -> (r: Option<QSet>)
        ensures
            final(self)@ == old(self)@.insert(label, targets@),
            r is Some <==> old(self)@.contains_key(label),
            r is Some ==> r->0@ == old(self)@[label],
    {
        proof {
            use_type_invariant(&*self);
            lemma_label_map(self.entries@);
        }
        match self.find(&label) {
            Some(i) => {
                let ghost before = self.entries@;
                let mut entries: Vec<(Option<char>, QSet)> = Vec::new();
                core::mem::swap(&mut self.entries, &mut entries);
                let mut entry = (label, targets);
                core::mem::swap(&mut entries[i], &mut entry);
                proof {
                    assert(entries@ =~= before.update(i as int, (before[i as int].0, targets)));
                    lemma_label_map_update(before, i as int, targets);
                    assert forall|a: int, b: int|
                        0 <= a < entries@.len() && 0 <= b < entries@.len() && a != b implies (
                        #[trigger] entries@[a]).0 != (#[trigger] entries@[b]).0 by {
                        assert(entries@[a].0 == before[a].0);
                        assert(entries@[b].0 == before[b].0);
                    }
                }
                self.entries = entries;
                Some(entry.1)
            },
            None => {
                let ghost before = self.entries@;
                let mut entries: Vec<(Option<char>, QSet)> = Vec::new();
                core::mem::swap(&mut self.entries, &mut entries);
                entries.push((label, targets));
                proof {
                    assert(entries@.drop_last() =~= before);
                    assert forall|a: int, b: int|
                        0 <= a < entries@.len() && 0 <= b < entries@.len() && a != b implies (
                        #[trigger] entries@[a]).0 != (#[trigger] entries@[b]).0 by {
                        if a < before.len() && b < before.len() {
                            assert(entries@[a] == before[a]);
                            assert(entries@[b] == before[b]);
                        } else if a < before.len() {
                            assert(entries@[a] == before[a]);
                        } else if b < before.len() {
                            assert(entries@[b] == before[b]);
                        }
                    }
                }
                self.entries = entries;
                None
            },
        }
    }

    /// Adds `q` to the targets of `label`.
    pub fn add_target(&mut self, label: Option<char>, q: QId)
        ensures
            final(self)@ == add_target_map(old(self)@, label, q),
    {
        match self.get(&label) {
            Some(targets) => {
                let mut extended = copy_qset(targets);
                extended.push(q);
                assert(extended@ =~= old(self)@[label].push(q));
                let _ = self.insert(label, extended);
            },
            None => {
                let single: QSet = vec![q];
                assert(single@ =~= seq![q]);
                let _ = self.insert(label, single);
            },
        }
    }

    /// The target sets of all labels, one per label.
    pub fn values(&self) -> (r: Vec<QSet>)
        ensures
            r@.len() == self@.dom().len(),
            forall|i: int|
                0 <= i < r@.len() ==> exists|k: Option<char>|
                    self@.contains_key(k) && self@[k] == (#[trigger] r@[i])@,
            forall|k: Option<char>|
                #[trigger] self@.contains_key(k) ==> exists|i: int|
                    0 <= i < r@.len() && (#[trigger] r@[i])@ == self@[k],
    {
        proof {
            use_type_invariant(self);
            lemma_label_map(self.entries@);
        }
        let mut r: Vec<QSet> = Vec::new();
        let mut i: usize = 0;
        while i < self.entries.len()
            invariant
                i <= self.entries@.len(),
                r@.len() == i,
                forall|j: int| 0 <= j < i ==> (#[trigger] r@[j])@ == self.entries@[j].1@,
            decreases self.entries@.len() - i,
        {
            r.push(copy_qset(&self.entries[i].1));
            i = i + 1;
        }
        proof {
            use_type_invariant(self);
            lemma_label_map(self.entries@);
            assert forall|j: int| 0 <= j < r@.len() implies exists|k: Option<char>|
                self@.contains_key(k) && self@[k] == (#[trigger] r@[j])@ by {
                assert(self@[self.entries@[j].0] == self.entries@[j].1@);
            }
            assert forall|k: Option<char>| #[trigger] self@.contains_key(k) implies exists|j: int|
                0 <= j < r@.len() && (#[trigger] r@[j])@ == self@[k] by {
                let j = choose|j: int|
                    0 <= j < self.entries@.len() && (#[trigger] self.entries@[j]).0 == k;
                assert(r@[j]@ == self.entries@[j].1@);
            }
        }
        r
    }

    /// The same transitions with every target moved up by `by`.
    pub fn shifted(&self, by: usize) -> (r: DeltaQ)
        requires
            forall|k: Option<char>, j: int|
                self@.contains_key(k) && 0 <= j < self@[k].len() ==> #[trigger] self@[k][j] + by
                    <= usize::MAX,
        ensures
            r@ == shift_map(self@, by as int),
    {
        proof {
            use_type_invariant(self);
            lemma_label_map(self.entries@);
        }
        let mut entries: Vec<(Option<char>, QSet)> = Vec::new();
        let mut i: usize = 0;
        while i < self.entries.len()
            invariant
                forall|k: Option<char>, j: int|
                    self@.contains_key(k) && 0 <= j < self@[k].len() ==> #[trigger] self@[k][j] + by
                        <= usize::MAX,
                i <= self.entries@.len(),
                entries@.len() == i,
                forall|j: int|
                    0 <= j < i ==> (#[trigger] entries@[j]).0 == self.entries@[j].0
                        && entries@[j].1@ == shift_seq(self.entries@[j].1@, by as int),
            decreases self.entries@.len() - i,
        {
            let entry = &self.entries[i];
            proof {
                use_type_invariant(self);
                lemma_label_map(self.entries@);
                assert(self@[entry.0] == entry.1@);
                assert forall|j: int| 0 <= j < entry.1@.len() implies entry.1@[j] + by
                    <= usize::MAX by {
                    assert(self@[entry.0][j] + by <= usize::MAX);
                }
            }
            entries.push((entry.0, shift_qset(&entry.1, by)));
            i = i + 1;
        }
        proof {
            use_type_invariant(self);
            lemma_label_map_shift(self.entries@, entries@, by as int);
            assert forall|a: int, b: int|
                0 <= a < entries@.len() && 0 <= b < entries@.len() && a != b implies (
                #[trigger] entries@[a]).0 != (#[trigger] entries@[b]).0 by {
                assert(entries@[a].0 == self.entries@[a].0);
                assert(entries@[b].0 == self.entries@[b].0);
            }
        }
        DeltaQ { entries }
    }
}

impl PartialEq for DeltaQ {
    fn eq(&self, other: &DeltaQ) -> (r: bool) {
        proof {
            use_type_invariant(self);
            use_type_invariant(other);
            lemma_label_map(self.entries@);
            lemma_label_map(other.entries@);
        }
        if self.entries.len() != other.entries.len() {
            return false;
        }
        let mut i: usize = 0;
        while i < self.entries.len()
            invariant
                labels_unique(self.entries@),
                labels_unique(other.entries@),
                self.entries@.len() == other.entries@.len(),
                i <= self.entries@.len(),
                forall|j: int|
                    0 <= j < i ==> other@.contains_key((#[trigger] self.entries@[j]).0)
                        && other@[self.entries@[j].0] == self.entries@[j].1@,
            decreases self.entries@.len() - i,
        {
            let entry = &self.entries[i];
            match other.get(&entry.0) {
                None => {
                    proof {
                        lemma_label_map(self.entries@);
                        assert(self@.contains_key(entry.0));
                    }
                    return false;
                },
                Some(targets) => {
                    if !same_qset(&entry.1, targets) {
                        proof {
                            lemma_label_map(self.entries@);
                            assert(self@[entry.0] == entry.1@);
                        }
                        return false;
                    }
                },
            }
            i = i + 1;
        }
        proof {
            lemma_label_map(self.entries@);
            lemma_label_map(other.entries@);
            assert forall|k: Option<char>|
                #[trigger] self@.contains_key(k) implies other@.contains_key(k)
                && other@[k] == self@[k] by {
                let j = choose|j: int|
                    0 <= j < self.entries@.len() && (#[trigger] self.entries@[j]).0 == k;
            }
            vstd::set_lib::lemma_subset_equality(self@.dom(), other@.dom());
            assert(self@ =~= other@);
        }
        true
    }
}

impl vstd::std_specs::cmp::PartialEqSpecImpl for DeltaQ {
    open spec fn obeys_eq_spec() -> bool {
        true
    }

    open spec fn eq_spec(&self, other: &DeltaQ) -> bool {
        self@ == other@
    }
}

/// The transition maps of a table, state by state.
pub open spec fn table_view(delta: Seq<DeltaQ>) -> Seq<Map<Option<char>, Seq<QId>>> {
    delta.map_values(|d: DeltaQ| d@)
}

/// Every target of every state of `table` is below `n`.
pub open spec fn targets_below(table: Seq<Map<Option<char>, Seq<QId>>>, n: int) -> bool {
    forall|q: int, k: Option<char>, j: int|
        0 <= q < table.len() && #[trigger] table[q].contains_key(k) && 0 <= j < table[q][k].len()
            ==> #[trigger] table[q][k][j] < n
}

/// Every state of `table` moved up by `by`, targets included.
pub open spec fn shift_table(table: Seq<Map<Option<char>, Seq<QId>>>, by: int) -> Seq<
    Map<Option<char>, Seq<QId>>,
> {
    table.map_values(|m: Map<Option<char>, Seq<QId>>| shift_map(m, by))
}

/// `table` once each state of `fs`, in order, gets an epsilon edge to `to`.
pub open spec fn link_all(table: Seq<Map<Option<char>, Seq<QId>>>, fs: Seq<QId>, to: QId) -> Seq<
    Map<Option<char>, Seq<QId>>,
>
    decreases fs.len(),
{
    if fs.len() == 0 {
        table
    } else {
        let linked = link_all(table, fs.drop_last(), to);
        linked.update(fs.last() as int, add_target_map(linked[fs.last() as int], None, to))
    }
}

/// Linking keeps the length, touches only the states of `fs`, and keeps
/// every target below `n` when `to` is below `n`.
pub proof fn lemma_link_all(table: Seq<Map<Option<char>, Seq<QId>>>, fs: Seq<QId>, to: QId, n: int)
    requires
        forall|i: int| 0 <= i < fs.len() ==> #[trigger] fs[i] < table.len(),
    ensures
        link_all(table, fs, to).len() == table.len(),
        forall|q: int|
            0 <= q < table.len() && (forall|i: int| 0 <= i < fs.len() ==> fs[i] as int != q)
                ==> #[trigger] link_all(table, fs, to)[q] == table[q],
        targets_below(table, n) && to < n ==> targets_below(link_all(table, fs, to), n),
    decreases fs.len(),
{
    if fs.len() > 0 {
        let prefix = fs.drop_last();
        assert forall|i: int| 0 <= i < prefix.len() implies #[trigger] prefix[i] < table.len() by {
            assert(fs[i] == prefix[i]);
        }
        assert(fs[fs.len() - 1] < table.len());
        lemma_link_all(table, prefix, to, n);
        let linked = link_all(table, prefix, to);
        assert forall|q: int|
            0 <= q < table.len() && (forall|i: int| 0 <= i < fs.len() ==> fs[i] as int != q)
                implies #[trigger] link_all(table, fs, to)[q] == table[q] by {
            assert forall|i: int| 0 <= i < prefix.len() implies prefix[i] as int != q by {
                assert(fs[i] == prefix[i]);
            }
            assert(linked[q] == table[q]);
            assert(fs[fs.len() - 1] == fs.last());
            assert(fs.last() as int != q);
        }
        if targets_below(table, n) && to < n {
            let result = link_all(table, fs, to);
            assert forall|q: int, k: Option<char>, j: int|
                0 <= q < result.len() && #[trigger] result[q].contains_key(k) && 0 <= j
                    < result[q][k].len() implies #[trigger] result[q][k][j] < n by {
                if q == fs.last() as int {
                    let m = linked[q];
                    if k == None::<char> && m.contains_key(k) && j < m[k].len() {
                        assert(result[q][k][j] == m[k][j]);
                    }
                } else {
                    assert(result[q] == linked[q]);
                }
            }
        }
    }
}

/// A finite automaton: for each state its transitions, an initial state,
/// and the match states.
#[derive(Debug)]
pub struct FA {
    /// The transitions of each state, indexed by state.
    pub delta: Vec<DeltaQ>,
    /// The initial state.
    pub q0: QId,
    /// The match states, in order.
    pub f: QSet,
}

impl FA {
    /// The transition maps, state by state.
    pub open spec fn table(&self) -> Seq<Map<Option<char>, Seq<QId>>> {
        table_view(self.delta@)
    }

    /// The initial state, the match states and every target are states of the table.
    pub open spec fn wf(&self) -> bool {
        let n = self.delta@.len();
        &&& self.q0 < n
        &&& forall|i: int| 0 <= i < self.f@.len() ==> #[trigger] self.f@[i] < n
        &&& targets_below(self.table(), n as int)
    }
}

impl PartialEq for FA {
    fn eq(&self, other: &FA) -> (r: bool) {
        if self.q0 != other.q0 || !same_qset(&self.f, &other.f) || self.delta.len()
            != other.delta.len() {
            proof {
                if self.delta@.len() != other.delta@.len() {
                    assert(self.table().len() != other.table().len());
                }
            }
            return false;
        }
        let mut i: usize = 0;
        while i < self.delta.len()
            invariant
                self.delta@.len() == other.delta@.len(),
                i <= self.delta@.len(),
                forall|j: int| 0 <= j < i ==> (#[trigger] self.delta@[j])@ == other.delta@[j]@,
            decreases self.delta@.len() - i,
        {
            if !(self.delta[i] == other.delta[i]) {
                proof {
                    assert(self.table()[i as int] == self.delta@[i as int]@);
                    assert(other.table()[i as int] == other.delta@[i as int]@);
                }
                return false;
            }
            i = i + 1;
        }
        proof {
            assert(self.table() =~= other.table());
        }
        true
    }
}

impl vstd::std_specs::cmp::PartialEqSpecImpl for FA {
    open spec fn obeys_eq_spec() -> bool {
        true
    }

    open spec fn eq_spec(&self, other: &FA) -> bool {
        &&& self.table() == other.table()
        &&& self.q0 == other.q0
        &&& self.f@ == other.f@
    }
}

} // verus!
