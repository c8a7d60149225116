//! A grow-only set: elements are added at any replica and never removed.

use std::collections::HashSet;
use std::hash::Hash;

use vstd::prelude::*;

use crate::clock;
use crate::clock::VectorClock;
use crate::crdt::Crdt;

verus! {

/// `T` hashes and compares as its values do, so that a `HashSet<T>` behaves as a
/// mathematical set of them.
pub open spec fn hashes_faithfully<T>() -> bool {
    vstd::std_specs::hash::obeys_key_model::<T>()
}

/// `T` hashes faithfully and a clone of a value is that value.
pub open spec fn atom_model<T: Clone>() -> bool {
    &&& hashes_faithfully::<T>()
    &&& forall|a: T, b: T| #[trigger] vstd::pervasive::strictly_cloned(a, b) ==> a == b
}

/// Integers hash faithfully and their clones are themselves.
pub proof fn lemma_i32_atoms()
    ensures
        atom_model::<i32>(),
{
    assert forall|a: i32, b: i32| #[trigger] vstd::pervasive::strictly_cloned(a, b) implies a == b by {}
}

/// The set reached from `s` by adding the elements of `ops`, first to last.
pub open spec fn add_all<T>(s: Set<T>, ops: Seq<T>) -> Set<T>
    decreases ops.len(),
{
    if ops.len() == 0 {
        s
    } else {
        add_all(s, ops.drop_last()).insert(ops.last())
    }
}

/// Adding a sequence of elements gives the starting set together with those elements.
pub proof fn lemma_add_all<T>(s: Set<T>, ops: Seq<T>)
    ensures
        add_all(s, ops) == s.union(ops.to_set()),
    decreases ops.len(),
{
    if ops.len() == 0 {
        assert(s.union(ops.to_set()) =~= s);
    } else {
        lemma_add_all(s, ops.drop_last());
        assert forall|x: T| ops.to_set().contains(x) <==> ops.drop_last().to_set().insert(
            ops.last(),
        ).contains(x) by {
            if ops.contains(x) && x != ops.last() {
                let i = choose|i: int| 0 <= i < ops.len() && ops[i] == x;
                assert(ops.drop_last()[i] == x);
            }
            if ops.drop_last().contains(x) {
                let i = choose|i: int| 0 <= i < ops.drop_last().len() && ops.drop_last()[i] == x;
                assert(ops[i] == x);
            }
            if x == ops.last() {
                assert(ops[ops.len() - 1] == x);
            }
        }
        assert(add_all(s, ops) =~= s.union(ops.to_set()));
    }
}

/// Replicas converge: whatever order the same elements are added in, at whatever
/// replicas and however often each, the sets reached are equal.
pub proof fn law_order_does_not_matter<T>(s: Set<T>, ops1: Seq<T>, ops2: Seq<T>)
    requires
        ops1.to_set() == ops2.to_set(),
    ensures
        add_all(s, ops1) == add_all(s, ops2),
{
    lemma_add_all(s, ops1);
    lemma_add_all(s, ops2);
}

/// The set only grows: what one replica has, it keeps after further additions.
pub proof fn law_grow_only<T>(s: Set<T>, ops: Seq<T>)
    ensures
        s.subset_of(add_all(s, ops)),
        forall|i: int| 0 <= i < ops.len() ==> add_all(s, ops).contains(#[trigger] ops[i]),
{
    lemma_add_all(s, ops);
    assert forall|i: int| 0 <= i < ops.len() implies add_all(s, ops).contains(#[trigger] ops[i]) by {
        assert(ops.to_set().contains(ops[i]));
    }
}

/// Replicas converge whatever the delivery order: two replicas with the same
/// elements and clocks that compare equal, receiving the same two operations in
/// opposite orders, end with the same elements and with clocks that compare equal,
/// whatever clocks the operations carry.
pub proof fn law_recv_order_does_not_matter<T>(
    s: Set<T>,
    e1: Seq<clock::Entry>,
    e2: Seq<clock::Entry>,
    o1: T,
    c1: Seq<clock::Entry>,
    o2: T,
    c2: Seq<clock::Entry>,
)
    requires
        clock::equivalent(e1, e2),
    ensures
        s.insert(o1).insert(o2) == s.insert(o2).insert(o1),
        clock::equivalent(
            clock::merge(clock::merge(e1, c1), c2),
            clock::merge(clock::merge(e2, c2), c1),
        ),
{
    assert(s.insert(o1).insert(o2) =~= s.insert(o2).insert(o1));
    let m1 = clock::merge(clock::merge(e1, c1), c2);
    let m2 = clock::merge(clock::merge(e2, c2), c1);
    clock::lemma_equivalent_well_formed(e1, e2);
    clock::lemma_merge(e1, c1);
    clock::lemma_merge(e2, c2);
    clock::lemma_merge(clock::merge(e1, c1), c2);
    clock::lemma_merge(clock::merge(e2, c2), c1);
    assert forall|n: u16| #[trigger] clock::count(m1, n) == clock::count(m2, n) by {
        clock::lemma_count_merge_any(e1, c1, n);
        clock::lemma_count_merge_any(clock::merge(e1, c1), c2, n);
        clock::lemma_count_merge_any(e2, c2, n);
        clock::lemma_count_merge_any(clock::merge(e2, c2), c1, n);
        assert(clock::count(e1, n) == clock::count(e2, n));
    }
    clock::law_equivalent_iff_same_counters(m1, m2);
}

/// A duplicated delivery is harmless: receiving an operation a second time changes
/// neither the elements nor any counter, whatever the clocks; and a well-formed
/// clock still compares equal to what it was after the first delivery.
pub proof fn law_recv_twice_is_recv_once<T>(
    s: Set<T>,
    e: Seq<clock::Entry>,
    o: T,
    c: Seq<clock::Entry>,
)
    ensures
        s.insert(o).insert(o) == s.insert(o),
        clock::clock_map(clock::merge(clock::merge(e, c), c)) == clock::clock_map(
            clock::merge(e, c),
        ),
        clock::well_formed(e) ==> clock::equivalent(
            clock::merge(clock::merge(e, c), c),
            clock::merge(e, c),
        ),
{
    assert(s.insert(o).insert(o) =~= s.insert(o));
    let m1 = clock::merge(e, c);
    let m2 = clock::merge(m1, c);
    clock::law_update_repeat(e, c);
    clock::lemma_merge(e, c);
    clock::lemma_merge(m1, c);
    assert forall|n: u16| #[trigger] clock::count(m2, n) == clock::count(m1, n) by {
        clock::lemma_count_merge_any(e, c, n);
        clock::lemma_count_merge_any(m1, c, n);
    }
    clock::law_equivalent_iff_same_counters(m2, m1);
}

/// A grow-only set replica: the replica's name, its clock, and the elements.
pub struct GrowSet<T: Hash + Eq> {
    name: u16,
    clock: VectorClock,
    set: HashSet<T>,
}

impl<T: Hash + Eq> View for GrowSet<T> {
    type V = Set<T>;

    closed spec fn view(&self) -> Set<T> {
        self.set@
    }
}

impl<T: Hash + Eq> GrowSet<T> {
    /// The name of the replica.
    pub closed spec fn replica(&self) -> u16 {
        self.name
    }

    /// The entries of the replica's clock.
    pub closed spec fn clock_entries(&self) -> Seq<clock::Entry> {
        self.clock@
    }

    /// An empty set at replica `me`, whose clock knows only `me`, at 0.
    pub fn new(me: u16) -> (r: Self)
        ensures
            r@ == Set::<T>::empty(),
            r.replica() == me,
            r.clock_entries() == seq![(me, 0u64)],
    {
        GrowSet { name: me, clock: VectorClock::new(me), set: HashSet::new() }
    }

    /// A replica named `name` with the given clock and elements.
    pub fn from_parts(name: u16, clock: VectorClock, set: HashSet<T>) -> (r: Self)
        ensures
            r@ == set@,
            r.replica() == name,
            r.clock_entries() == clock@,
    {
        GrowSet { name, clock, set }
    }

    /// The name of the replica.
    pub fn name(&self) -> (r: u16)
        ensures
            r == self.replica(),
    {
        self.name
    }

    /// Whether `item` was added.
    pub fn get(&self, item: T) -> (r: bool)
        ensures
            hashes_faithfully::<T>() ==> r == self@.contains(item),
    {
        self.set.contains(&item)
    }

    /// Whether a local operation can be recorded: the replica's own counter is
    /// below the largest `u64`.
    pub fn can_local_op(&self) -> (r: bool)
        ensures
            r == (clock::count(self.clock_entries(), self.replica()) < u64::MAX),
    {
        match self.clock.clock_of(&self.name) {
            Some(c) => c < u64::MAX,
            None => true,
        }
    }

    /// All elements added so far.
    pub fn get_all(&self) -> (r: &HashSet<T>)
        ensures
            r@ == self@,
    {
        &self.set
    }
}

impl<T: Hash + Eq> Default for GrowSet<T> {
    /// An empty set at replica 0.
    fn default() -> (r: Self)
        ensures
            r@ == Set::<T>::empty(),
            r.replica() == 0,
            r.clock_entries() == seq![(0u16, 0u64)],
    {
        GrowSet::new(0)
    }
}

impl<T: Hash + Eq + Clone> Crdt for GrowSet<T> {
    type Clock = VectorClock;

    type Operation = T;

    open spec fn local_op_allowed(&self) -> bool {
        clock::count(self.clock_entries(), self.replica()) < u64::MAX
    }

    fn get_clock(&self) -> (r: &VectorClock)
        ensures
            r@ == self.clock_entries(),
    {
        &self.clock
    }

    fn update_clock(&mut self, other: &VectorClock)
        ensures
            final(self).clock_entries() == clock::merge(old(self).clock_entries(), other@),
            final(self)@ == old(self)@,
            final(self).replica() == old(self).replica(),
    {
        self.clock.update(other);
    }

    fn local_op(&mut self, op: &T)
        ensures
            final(self).clock_entries() == clock::tick(old(self).clock_entries(), old(self).replica()),
            atom_model::<T>() ==> final(self)@ == old(self)@.insert(*op),
            final(self).replica() == old(self).replica(),
    {
        self.clock.recv(&self.name);
        let item = op.clone();
        assert(vstd::pervasive::strictly_cloned(*op, item));
        self.set.insert(item);
    }

    fn recv_op(&mut self, op: &T, op_clock: &VectorClock)
        ensures
            final(self).clock_entries() == clock::merge(old(self).clock_entries(), op_clock@),
            atom_model::<T>() ==> final(self)@ == old(self)@.insert(*op),
            final(self).replica() == old(self).replica(),
    {
        self.clock.update(op_clock);
        let item = op.clone();
        assert(vstd::pervasive::strictly_cloned(*op, item));
        self.set.insert(item);
    }
}

} // verus!
